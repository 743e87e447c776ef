use vstd::prelude::*;
use vstd::string::*;
use crate::chunking::str_eq;

verus! {

/// The lowercase form of a character sequence. Unicode case folding depends
/// on the characters alone, never on the machine or the process.
pub uninterp spec fn lower_of(s: Seq<char>) -> Seq<char>;

/// Relies on str::to_lowercase: returns the lowercase form of the text,
/// a function of the characters alone.
#[verifier::external_body]
fn to_lowercase(s: &str) -> (r: String)
    ensures
        r@ == lower_of(s@),
{
    s.to_lowercase()
}

/// Whether a character counts as whitespace for query tokenization.
pub uninterp spec fn is_unicode_space(c: char) -> bool;

/// Relies on char::is_whitespace: a property of the character alone.
#[verifier::external_body]
fn char_is_space(c: char) -> (r: bool)
    ensures
        r == is_unicode_space(c),
{
    c.is_whitespace()
}

/// The whitespace-separated tokens of `s` that remain when the characters
/// in `cur` have already been read as the beginning of the current token.
pub open spec fn tokens_acc(s: Seq<char>, cur: Seq<char>) -> Seq<Seq<char>>
    decreases s.len(),
{
    if s.len() == 0 {
        if cur.len() > 0 {
            seq![cur]
        } else {
            seq![]
        }
    } else if is_unicode_space(s[0]) {
        if cur.len() > 0 {
            seq![cur] + tokens_acc(s.drop_first(), seq![])
        } else {
            tokens_acc(s.drop_first(), seq![])
        }
    } else {
        tokens_acc(s.drop_first(), cur.push(s[0]))
    }
}

/// The whitespace-separated tokens of `s`, in order, each non-empty.
pub open spec fn tokens_of(s: Seq<char>) -> Seq<Seq<char>> {
    tokens_acc(s, seq![])
}

/// The fixed bilingual stop-word set: common English and Turkish filler
/// words that carry no lexical-search signal.
pub open spec fn is_stop_word(w: Seq<char>) -> bool {
    ||| w == "a"@
    ||| w == "an"@
    ||| w == "the"@
    ||| w == "is"@
    ||| w == "are"@
    ||| w == "was"@
    ||| w == "were"@
    ||| w == "be"@
    ||| w == "been"@
    ||| w == "being"@
    ||| w == "have"@
    ||| w == "has"@
    ||| w == "had"@
    ||| w == "do"@
    ||| w == "does"@
    ||| w == "did"@
    ||| w == "will"@
    ||| w == "would"@
    ||| w == "could"@
    ||| w == "should"@
    ||| w == "may"@
    ||| w == "might"@
    ||| w == "shall"@
    ||| w == "can"@
    ||| w == "to"@
    ||| w == "of"@
    ||| w == "in"@
    ||| w == "for"@
    ||| w == "on"@
    ||| w == "with"@
    ||| w == "at"@
    ||| w == "by"@
    ||| w == "from"@
    ||| w == "as"@
    ||| w == "into"@
    ||| w == "about"@
    ||| w == "between"@
    ||| w == "through"@
    ||| w == "during"@
    ||| w == "and"@
    ||| w == "but"@
    ||| w == "or"@
    ||| w == "nor"@
    ||| w == "not"@
    ||| w == "so"@
    ||| w == "yet"@
    ||| w == "it"@
    ||| w == "its"@
    ||| w == "this"@
    ||| w == "that"@
    ||| w == "these"@
    ||| w == "those"@
    ||| w == "i"@
    ||| w == "me"@
    ||| w == "my"@
    ||| w == "we"@
    ||| w == "our"@
    ||| w == "you"@
    ||| w == "your"@
    ||| w == "he"@
    ||| w == "she"@
    ||| w == "they"@
    ||| w == "them"@
    ||| w == "their"@
    ||| w == "what"@
    ||| w == "which"@
    ||| w == "who"@
    ||| w == "whom"@
    ||| w == "how"@
    ||| w == "when"@
    ||| w == "where"@
    ||| w == "why"@
    ||| w == "bir"@
    ||| w == "ve"@
    ||| w == "ile"@
    ||| w == "de"@
    ||| w == "da"@
    ||| w == "bu"@
    ||| w == "o"@
    ||| w == "ne"@
    ||| w == "nasıl"@
    ||| w == "nerede"@
    ||| w == "neden"@
    ||| w == "için"@
    ||| w == "gibi"@
    ||| w == "daha"@
    ||| w == "en"@
    ||| w == "çok"@
    ||| w == "var"@
}

/// The tokens that survive stop-word filtering, in their original order.
pub open spec fn keep_tokens(ts: Seq<Seq<char>>) -> Seq<Seq<char>>
    decreases ts.len(),
{
    if ts.len() == 0 {
        seq![]
    } else {
        let rest = keep_tokens(ts.drop_first());
        if is_stop_word(ts[0]) {
            rest
        } else {
            seq![ts[0]] + rest
        }
    }
}

/// The tokens rejoined with single spaces.
pub open spec fn joined(ts: Seq<Seq<char>>) -> Seq<char>
    decreases ts.len(),
{
    if ts.len() == 0 {
        seq![]
    } else if ts.len() == 1 {
        ts[0]
    } else {
        joined(ts.drop_last()) + seq![' '] + ts.last()
    }
}

/// The ordered lexical variants of a query: the original first, then the
/// lowercase form when it differs, then the stop-word-filtered tokens
/// rejoined with spaces when filtering removed at least one token and left
/// at least two.
pub open spec fn spec_expand_query(q: Seq<char>) -> Seq<Seq<char>> {
    let low = lower_of(q);
    let base = if low != q {
        seq![q, low]
    } else {
        seq![q]
    };
    let toks = tokens_of(low);
    let kept = keep_tokens(toks);
    if kept.len() >= 2 && kept.len() < toks.len() {
        base.push(joined(kept))
    } else {
        base
    }
}

/// The first variant is always the query itself; the lowercase form appears
/// right after it when and only when it differs; the filtered variant
/// appears last when and only when filtering removed a token and left at
/// least two.
pub proof fn lemma_expand_query_variants(q: Seq<char>)
    ensures
        spec_expand_query(q).len() >= 1,
        spec_expand_query(q)[0] == q,
        lower_of(q) != q ==> spec_expand_query(q).len() >= 2 && spec_expand_query(q)[1] == lower_of(
            q,
        ),
        ({
            let toks = tokens_of(lower_of(q));
            let kept = keep_tokens(toks);
            &&& (kept.len() >= 2 && kept.len() < toks.len()) ==> spec_expand_query(q).last()
                == joined(kept)
            &&& !(kept.len() >= 2 && kept.len() < toks.len()) ==> spec_expand_query(q).len() == (
            if lower_of(q) != q {
                2int
            } else {
                1int
            })
        }),
{
}

fn is_stop_token(t: &str) -> (r: bool)
    ensures
        r == is_stop_word(t@),
{
    str_eq(t, "a") || str_eq(t, "an") || str_eq(t, "the") || str_eq(t, "is") || str_eq(t, "are")
        || str_eq(t, "was") || str_eq(t, "were") || str_eq(t, "be") || str_eq(t, "been") || str_eq(
        t,
        "being",
    ) || str_eq(t, "have") || str_eq(t, "has") || str_eq(t, "had") || str_eq(t, "do") || str_eq(
        t,
        "does",
    ) || str_eq(t, "did") || str_eq(t, "will") || str_eq(t, "would") || str_eq(t, "could")
        || str_eq(t, "should") || str_eq(t, "may") || str_eq(t, "might") || str_eq(t, "shall")
        || str_eq(t, "can") || str_eq(t, "to") || str_eq(t, "of") || str_eq(t, "in") || str_eq(
        t,
        "for",
    ) || str_eq(t, "on") || str_eq(t, "with") || str_eq(t, "at") || str_eq(t, "by") || str_eq(
        t,
        "from",
    ) || str_eq(t, "as") || str_eq(t, "into") || str_eq(t, "about") || str_eq(t, "between")
        || str_eq(t, "through") || str_eq(t, "during") || str_eq(t, "and") || str_eq(t, "but")
        || str_eq(t, "or") || str_eq(t, "nor") || str_eq(t, "not") || str_eq(t, "so") || str_eq(
        t,
        "yet",
    ) || str_eq(t, "it") || str_eq(t, "its") || str_eq(t, "this") || str_eq(t, "that") || str_eq(
        t,
        "these",
    ) || str_eq(t, "those") || str_eq(t, "i") || str_eq(t, "me") || str_eq(t, "my") || str_eq(
        t,
        "we",
    ) || str_eq(t, "our") || str_eq(t, "you") || str_eq(t, "your") || str_eq(t, "he") || str_eq(
        t,
        "she",
    ) || str_eq(t, "they") || str_eq(t, "them") || str_eq(t, "their") || str_eq(t, "what")
        || str_eq(t, "which") || str_eq(t, "who") || str_eq(t, "whom") || str_eq(t, "how")
        || str_eq(t, "when") || str_eq(t, "where") || str_eq(t, "why") || str_eq(t, "bir")
        || str_eq(t, "ve") || str_eq(t, "ile") || str_eq(t, "de") || str_eq(t, "da") || str_eq(
        t,
        "bu",
    ) || str_eq(t, "o") || str_eq(t, "ne") || str_eq(t, "nasıl") || str_eq(t, "nerede") || str_eq(
        t,
        "neden",
    ) || str_eq(t, "için") || str_eq(t, "gibi") || str_eq(t, "daha") || str_eq(t, "en") || str_eq(
        t,
        "çok",
    ) || str_eq(t, "var")
}

/// Splits the text into whitespace-separated tokens.
fn tokenize(s: &str) -> (toks: Vec<String>)
    ensures
        toks@.map_values(|t: String| t@) == tokens_of(s@),
{
    let len = s.unicode_len();
    let mut toks: Vec<String> = Vec::new();
    proof {
        assert(s@.skip(0) =~= s@);
        assert(toks@.map_values(|t: String| t@) =~= Seq::<Seq<char>>::empty());
    }
    let mut i: usize = 0;
    while i < len
        invariant
            len == s@.len(),
            0 <= i <= len,
            tokens_of(s@) == toks@.map_values(|t: String| t@) + tokens_acc(
                s@.skip(i as int),
                seq![],
            ),
        decreases len - i,
    {
        let c = s.get_char(i);
        if char_is_space(c) {
            proof {
                assert(s@.skip(i as int).drop_first() =~= s@.skip(i as int + 1));
            }
            i += 1;
        } else {
            let from = i;
            proof {
                assert(s@.skip(from as int).drop_first() =~= s@.skip(from as int + 1));
                assert(Seq::<char>::empty().push(s@[from as int]) =~= s@.subrange(
                    from as int,
                    from as int + 1,
                ));
            }
            i += 1;
            while i < len && !char_is_space(s.get_char(i))
                invariant
                    len == s@.len(),
                    from < i <= len,
                    tokens_of(s@) == toks@.map_values(|t: String| t@) + tokens_acc(
                        s@.skip(from as int),
                        seq![],
                    ),
                    tokens_acc(s@.skip(from as int), seq![]) == tokens_acc(
                        s@.skip(i as int),
                        s@.subrange(from as int, i as int),
                    ),
                decreases len - i,
            {
                proof {
                    assert(s@.skip(i as int).drop_first() =~= s@.skip(i as int + 1));
                    assert(s@.subrange(from as int, i as int).push(s@[i as int]) =~= s@.subrange(
                        from as int,
                        i as int + 1,
                    ));
                }
                i += 1;
            }
            let ghost cur = s@.subrange(from as int, i as int);
            proof {
                if i < len {
                    assert(s@.skip(i as int).drop_first() =~= s@.skip(i as int + 1));
                }
                assert(tokens_acc(s@.skip(i as int), cur) == seq![cur] + tokens_acc(
                    s@.skip(i as int),
                    seq![],
                ));
            }
            let t = s.substring_char(from, i);
            let ghost pre = toks@;
            toks.push(String::from_str(t));
            proof {
                assert(toks@.map_values(|x: String| x@) =~= pre.map_values(|x: String| x@).push(
                    cur,
                ));
                assert(pre.map_values(|x: String| x@).push(cur) =~= pre.map_values(|x: String| x@)
                    + seq![cur]);
            }
        }
    }
    proof {
        assert(s@.skip(len as int) =~= Seq::<char>::empty());
        assert(tokens_acc(Seq::<char>::empty(), Seq::<char>::empty()) =~= Seq::<Seq<char>>::empty());
        assert(toks@.map_values(|t: String| t@) + Seq::<Seq<char>>::empty() =~= toks@.map_values(
            |t: String| t@,
        ));
    }
    toks
}

/// Keeps the tokens that are not stop words, in order.
fn filter_stop(toks: &Vec<String>) -> (kept: Vec<String>)
    ensures
        kept@.map_values(|t: String| t@) == keep_tokens(toks@.map_values(|t: String| t@)),
{
    let ghost all = toks@.map_values(|t: String| t@);
    let mut kept: Vec<String> = Vec::new();
    let mut i: usize = 0;
    proof {
        assert(all.skip(0) =~= all);
        assert(kept@.map_values(|t: String| t@) =~= Seq::<Seq<char>>::empty());
        assert(keep_tokens(all) == Seq::<Seq<char>>::empty() + keep_tokens(all.skip(0)));
    }
    while i < toks.len()
        invariant
            all == toks@.map_values(|t: String| t@),
            0 <= i <= toks@.len(),
            keep_tokens(all) == kept@.map_values(|t: String| t@) + keep_tokens(all.skip(i as int)),
        decreases toks@.len() - i,
    {
        proof {
            assert(all.skip(i as int).drop_first() =~= all.skip(i as int + 1));
            assert(all.skip(i as int)[0] == toks@[i as int]@);
        }
        if !is_stop_token(toks[i].as_str()) {
            let ghost pre = kept@;
            kept.push(toks[i].clone());
            proof {
                assert(kept@.map_values(|x: String| x@) =~= pre.map_values(|x: String| x@) + seq![
                    toks@[i as int]@,
                ]);
            }
        }
        i += 1;
    }
    proof {
        assert(all.skip(toks@.len() as int) =~= Seq::<Seq<char>>::empty());
        assert(kept@.map_values(|t: String| t@) + Seq::<Seq<char>>::empty() =~= kept@.map_values(
            |t: String| t@,
        ));
    }
    kept
}

/// Rejoins tokens with single spaces.
fn join_spaces(toks: &Vec<String>) -> (out: String)
    ensures
        out@ == joined(toks@.map_values(|t: String| t@)),
{
    let ghost all = toks@.map_values(|t: String| t@);
    let mut out = String::new();
    let mut i: usize = 0;
    while i < toks.len()
        invariant
            all == toks@.map_values(|t: String| t@),
            0 <= i <= toks@.len(),
            out@ == joined(all.subrange(0, i as int)),
        decreases toks@.len() - i,
    {
        if i > 0 {
            out.append(" ");
        }
        out.append(toks[i].as_str());
        proof {
            let p = all.subrange(0, i as int + 1);
            assert(p.drop_last() =~= all.subrange(0, i as int));
            assert(p.last() == toks@[i as int]@);
            if i == 0 {
                assert(out@ =~= p[0]);
                assert(joined(p) == p[0]);
            } else {
                assert(out@ =~= joined(p.drop_last()) + seq![' '] + p.last()) by {
                    reveal_strlit(" ");
                }
            }
        }
        i += 1;
    }
    proof {
        assert(all.subrange(0, toks@.len() as int) =~= all);
    }
    out
}

/// Produces the lexical variants of one query, in evaluation-priority
/// order: the original query first, then the lowercase form when it
/// differs, then the stop-word-filtered form when filtering removed at
/// least one token and left at least two.
pub fn expand_query(query: &str) -> (variants: Vec<String>)
    ensures
        variants@.map_values(|v: String| v@) == spec_expand_query(query@),
        variants@.len() >= 1,
        variants@[0]@ == query@,
{
    let mut variants: Vec<String> = Vec::new();
    variants.push(String::from_str(query));
    let lower = to_lowercase(query);
    let differs = !str_eq(lower.as_str(), query);
    if differs {
        variants.push(lower.clone());
    }
    proof {
        if differs {
            assert(variants@.map_values(|v: String| v@) =~= seq![query@, lower_of(query@)]);
        } else {
            assert(variants@.map_values(|v: String| v@) =~= seq![query@]);
        }
    }
    let toks = tokenize(lower.as_str());
    let kept = filter_stop(&toks);
    proof {
        assert(toks@.map_values(|t: String| t@).len() == toks@.len());
        assert(kept@.map_values(|t: String| t@).len() == kept@.len());
    }
    if kept.len() >= 2 && kept.len() < toks.len() {
        let ghost pre = variants@;
        variants.push(join_spaces(&kept));
        proof {
            assert(variants@.map_values(|v: String| v@) =~= pre.map_values(|v: String| v@).push(
                joined(keep_tokens(tokens_of(lower_of(query@)))),
            ));
        }
    }
    variants
}

} // verus!
