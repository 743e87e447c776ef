use vstd::prelude::*;
use vstd::string::*;
use crate::chunking::str_eq;

verus! {

/// One retrieval hit: the file it came from and the matching chunk text.
/// The path is the deduplication key across all retrieval channels.
pub struct Candidate {
    pub path: String,
    pub snippet: String,
}

impl Candidate {
    pub open spec fn view_pair(&self) -> (Seq<char>, Seq<char>) {
        (self.path@, self.snippet@)
    }

    /// A copy with the same path and snippet.
    pub fn duplicate(&self) -> (c: Candidate)
        ensures
            c.view_pair() == self.view_pair(),
    {
        Candidate { path: self.path.clone(), snippet: self.snippet.clone() }
    }
}

/// The candidates as plain (path, snippet) character-sequence pairs.
pub open spec fn cand_views(s: Seq<Candidate>) -> Seq<(Seq<char>, Seq<char>)> {
    s.map_values(|c: Candidate| (c.path@, c.snippet@))
}

/// The set of paths occurring in a candidate list.
pub open spec fn path_set(s: Seq<(Seq<char>, Seq<char>)>) -> Set<Seq<char>> {
    Set::new(|p: Seq<char>| exists|k: int| 0 <= k < s.len() && s[k].0 == p)
}

/// All paths pairwise distinct.
pub open spec fn distinct_paths(s: Seq<(Seq<char>, Seq<char>)>) -> bool {
    forall|a: int, b: int| 0 <= a < b < s.len() ==> s[a].0 != s[b].0
}

proof fn lemma_path_set_push(s: Seq<(Seq<char>, Seq<char>)>, x: (Seq<char>, Seq<char>))
    ensures
        path_set(s.push(x)) == path_set(s).insert(x.0),
{
    assert forall|p: Seq<char>| path_set(s.push(x)).contains(p) implies path_set(s).insert(
        x.0,
    ).contains(p) by {
        let k = choose|k: int| 0 <= k < s.push(x).len() && s.push(x)[k].0 == p;
        if k < s.len() {
            assert(s[k].0 == p);
        }
    }
    assert forall|p: Seq<char>| path_set(s).insert(x.0).contains(p) implies path_set(
        s.push(x),
    ).contains(p) by {
        if path_set(s).contains(p) {
            let k = choose|k: int| 0 <= k < s.len() && s[k].0 == p;
            assert(s.push(x)[k].0 == p);
        } else {
            assert(s.push(x)[s.len() as int].0 == p);
        }
    }
    assert(path_set(s.push(x)) =~= path_set(s).insert(x.0));
}

proof fn lemma_path_set_cons(s: Seq<(Seq<char>, Seq<char>)>)
    requires
        s.len() > 0,
    ensures
        path_set(s) == path_set(s.drop_first()).insert(s[0].0),
{
    let t = s.drop_first();
    assert forall|p: Seq<char>| path_set(s).contains(p) implies path_set(t).insert(
        s[0].0,
    ).contains(p) by {
        let k = choose|k: int| 0 <= k < s.len() && s[k].0 == p;
        if k > 0 {
            assert(t[k - 1].0 == p);
        }
    }
    assert forall|p: Seq<char>| path_set(t).insert(s[0].0).contains(p) implies path_set(
        s,
    ).contains(p) by {
        if path_set(t).contains(p) {
            let k = choose|k: int| 0 <= k < t.len() && t[k].0 == p;
            assert(s[k + 1].0 == p);
        } else {
            assert(s[0].0 == p);
        }
    }
    assert(path_set(s) =~= path_set(t).insert(s[0].0));
}

/// First-seen deduplication by path: keeps each candidate whose path was
/// not seen before, in order, starting from an already-seen set.
pub open spec fn dedup_by_path(
    s: Seq<(Seq<char>, Seq<char>)>,
    seen: Set<Seq<char>>,
) -> Seq<(Seq<char>, Seq<char>)>
    decreases s.len(),
{
    if s.len() == 0 {
        seq![]
    } else if seen.contains(s[0].0) {
        dedup_by_path(s.drop_first(), seen)
    } else {
        seq![s[0]] + dedup_by_path(s.drop_first(), seen.insert(s[0].0))
    }
}

/// Deduplicating a concatenation deduplicates the first part, then the
/// second against everything the first part contributed.
pub proof fn lemma_dedup_concat(
    a: Seq<(Seq<char>, Seq<char>)>,
    b: Seq<(Seq<char>, Seq<char>)>,
    seen: Set<Seq<char>>,
)
    ensures
        dedup_by_path(a + b, seen) == dedup_by_path(a, seen) + dedup_by_path(
            b,
            seen.union(path_set(dedup_by_path(a, seen))),
        ),
    decreases a.len(),
{
    if a.len() == 0 {
        assert(a + b =~= b);
        assert(seen.union(path_set(dedup_by_path(a, seen))) =~= seen);
        assert(dedup_by_path(a, seen) + dedup_by_path(b, seen) =~= dedup_by_path(b, seen));
    } else {
        assert((a + b)[0] == a[0]);
        assert((a + b).drop_first() =~= a.drop_first() + b);
        if seen.contains(a[0].0) {
            lemma_dedup_concat(a.drop_first(), b, seen);
        } else {
            lemma_dedup_concat(a.drop_first(), b, seen.insert(a[0].0));
            let dd = dedup_by_path(a.drop_first(), seen.insert(a[0].0));
            assert(dedup_by_path(a, seen) == seq![a[0]] + dd);
            lemma_path_set_cons(seq![a[0]] + dd);
            assert((seq![a[0]] + dd).drop_first() =~= dd);
            assert(path_set(dedup_by_path(a, seen)) == path_set(dd).insert(a[0].0));
            assert(seen.insert(a[0].0).union(
                path_set(dedup_by_path(a.drop_first(), seen.insert(a[0].0))),
            ) =~= seen.union(path_set(dedup_by_path(a, seen))));
            assert(seq![a[0]] + (dedup_by_path(a.drop_first(), seen.insert(a[0].0)) + dedup_by_path(
                b,
                seen.insert(a[0].0).union(
                    path_set(dedup_by_path(a.drop_first(), seen.insert(a[0].0))),
                ),
            )) =~= (seq![a[0]] + dedup_by_path(a.drop_first(), seen.insert(a[0].0)))
                + dedup_by_path(
                b,
                seen.union(path_set(dedup_by_path(a, seen))),
            ));
        }
    }
}

/// A list whose paths are distinct and unseen passes through deduplication
/// unchanged, in front of whatever follows it.
pub proof fn lemma_dedup_keeps_distinct_prefix(
    a: Seq<(Seq<char>, Seq<char>)>,
    b: Seq<(Seq<char>, Seq<char>)>,
    seen: Set<Seq<char>>,
)
    requires
        distinct_paths(a),
        forall|k: int| 0 <= k < a.len() ==> !seen.contains(#[trigger] a[k].0),
    ensures
        dedup_by_path(a + b, seen) == a + dedup_by_path(b, seen.union(path_set(a))),
    decreases a.len(),
{
    if a.len() == 0 {
        assert(a + b =~= b);
        assert(seen.union(path_set(a)) =~= seen);
        assert(a + dedup_by_path(b, seen) =~= dedup_by_path(b, seen));
    } else {
        assert((a + b)[0] == a[0]);
        assert((a + b).drop_first() =~= a.drop_first() + b);
        lemma_dedup_keeps_distinct_prefix(a.drop_first(), b, seen.insert(a[0].0));
        lemma_path_set_cons(a);
        assert(seen.insert(a[0].0).union(path_set(a.drop_first())) =~= seen.union(path_set(a)));
        assert(seq![a[0]] + (a.drop_first() + dedup_by_path(b, seen.union(path_set(a)))) =~= a
            + dedup_by_path(b, seen.union(path_set(a))));
    }
}

/// True when a path occurs in the list.
fn contains_path(v: &Vec<Candidate>, p: &str) -> (r: bool)
    ensures
        r == path_set(cand_views(v@)).contains(p@),
{
    let mut i: usize = 0;
    while i < v.len()
        invariant
            0 <= i <= v@.len(),
            forall|j: int| 0 <= j < i ==> cand_views(v@)[j].0 != p@,
        decreases v@.len() - i,
    {
        if str_eq(v[i].path.as_str(), p) {
            proof {
                assert(cand_views(v@)[i as int].0 == p@);
            }
            return true;
        }
        i += 1;
    }
    proof {
        if path_set(cand_views(v@)).contains(p@) {
            let k = choose|k: int| 0 <= k < cand_views(v@).len() && cand_views(v@)[k].0 == p@;
            assert(false);
        }
    }
    false
}

/// Appends the candidates of `items` whose paths do not yet occur in
/// `out`, preserving order: first-seen deduplication.
fn dedup_append(out: &mut Vec<Candidate>, items: &Vec<Candidate>)
    requires
        distinct_paths(cand_views(old(out)@)),
    ensures
        cand_views(final(out)@) == cand_views(old(out)@) + dedup_by_path(
            cand_views(items@),
            path_set(cand_views(old(out)@)),
        ),
        distinct_paths(cand_views(final(out)@)),
{
    let ghost itemsv = cand_views(items@);
    let ghost base = cand_views(out@);
    let mut j: usize = 0;
    proof {
        assert(itemsv.skip(0) =~= itemsv);
        assert(base + Seq::<(Seq<char>, Seq<char>)>::empty() =~= base);
    }
    while j < items.len()
        invariant
            itemsv == cand_views(items@),
            base == cand_views(old(out)@),
            0 <= j <= itemsv.len(),
            distinct_paths(cand_views(out@)),
            dedup_by_path(itemsv, path_set(base)) == cand_views(out@).skip(base.len() as int)
                + dedup_by_path(itemsv.skip(j as int), path_set(cand_views(out@))),
            cand_views(out@).len() >= base.len(),
            forall|k: int| 0 <= k < base.len() ==> cand_views(out@)[k] == base[k],
        decreases itemsv.len() - j,
    {
        let ghost cur = cand_views(out@);
        let ghost x = itemsv[j as int];
        proof {
            assert(itemsv.skip(j as int)[0] == x);
            assert(itemsv.skip(j as int).drop_first() =~= itemsv.skip(j as int + 1));
        }
        if !contains_path(out, items[j].path.as_str()) {
            let c = items[j].duplicate();
            out.push(c);
            proof {
                assert(cand_views(out@) =~= cur.push(x));
                lemma_path_set_push(cur, x);
                assert(path_set(cand_views(out@)) == path_set(cur).insert(x.0));
                assert(cand_views(out@).skip(base.len() as int) =~= cur.skip(
                    base.len() as int,
                ).push(x));
                assert(cur.skip(base.len() as int).push(x) + dedup_by_path(
                    itemsv.skip(j as int + 1),
                    path_set(cur).insert(x.0),
                ) =~= cur.skip(base.len() as int) + (seq![x] + dedup_by_path(
                    itemsv.skip(j as int + 1),
                    path_set(cur).insert(x.0),
                )));
            }
        }
        j += 1;
    }
    proof {
        assert(itemsv.skip(itemsv.len() as int) =~= Seq::<(Seq<char>, Seq<char>)>::empty());
        assert(cand_views(out@).skip(base.len() as int) + Seq::<(
            Seq<char>,
            Seq<char>,
        )>::empty() =~= cand_views(out@).skip(base.len() as int));
        assert(cand_views(out@) =~= base + cand_views(out@).skip(base.len() as int));
    }
}

/// The lexical-channel result lists of the query variants, one per variant
/// in priority order, flattened.
pub open spec fn flat(vs: Seq<Seq<(Seq<char>, Seq<char>)>>) -> Seq<(Seq<char>, Seq<char>)>
    decreases vs.len(),
{
    if vs.len() == 0 {
        seq![]
    } else {
        flat(vs.drop_last()) + vs.last()
    }
}

/// Merges the per-variant lexical results into one list: first seen path
/// wins, variant iteration order is preserved, duplicates are dropped.
pub fn merge_variant_results(lists: &Vec<Vec<Candidate>>) -> (out: Vec<Candidate>)
    ensures
        cand_views(out@) == dedup_by_path(
            flat(lists@.map_values(|v: Vec<Candidate>| cand_views(v@))),
            Set::empty(),
        ),
        distinct_paths(cand_views(out@)),
{
    let ghost all = lists@.map_values(|v: Vec<Candidate>| cand_views(v@));
    let mut out: Vec<Candidate> = Vec::new();
    let mut i: usize = 0;
    proof {
        assert(all.subrange(0, 0) =~= Seq::<Seq<(Seq<char>, Seq<char>)>>::empty());
        assert(cand_views(out@) =~= Seq::<(Seq<char>, Seq<char>)>::empty());
        assert(cand_views(out@) =~= dedup_by_path(flat(all.subrange(0, 0)), Set::empty()));
    }
    while i < lists.len()
        invariant
            all == lists@.map_values(|v: Vec<Candidate>| cand_views(v@)),
            0 <= i <= all.len(),
            cand_views(out@) == dedup_by_path(flat(all.subrange(0, i as int)), Set::empty()),
            distinct_paths(cand_views(out@)),
        decreases all.len() - i,
    {
        let ghost pre = cand_views(out@);
        dedup_append(&mut out, &lists[i]);
        proof {
            let p = all.subrange(0, i as int + 1);
            assert(p.drop_last() =~= all.subrange(0, i as int));
            assert(p.last() == cand_views(lists@[i as int]@));
            lemma_dedup_concat(flat(all.subrange(0, i as int)), p.last(), Set::empty());
            assert(Set::empty().union(path_set(pre)) =~= path_set(pre));
        }
        i += 1;
    }
    proof {
        assert(all.subrange(0, all.len() as int) =~= all);
    }
    out
}

/// The hybrid fusion of the vector and lexical channels: the vector
/// ranking first, then the lexical hits whose paths are new, cut to the
/// result limit.
pub open spec fn fused(
    v: Seq<(Seq<char>, Seq<char>)>,
    l: Seq<(Seq<char>, Seq<char>)>,
    limit: int,
) -> Seq<(Seq<char>, Seq<char>)> {
    let d = dedup_by_path(v + l, Set::empty());
    d.subrange(0, if d.len() <= limit {
        d.len() as int
    } else {
        limit
    })
}

/// Fuses the vector and lexical result lists into one ranked list of at
/// most `limit` candidates with pairwise distinct paths.
pub fn hybrid_merge(vector: &Vec<Candidate>, lexical: &Vec<Candidate>, limit: usize) -> (out: Vec<
    Candidate,
>)
    ensures
        cand_views(out@) == fused(cand_views(vector@), cand_views(lexical@), limit as int),
        out@.len() <= limit,
        distinct_paths(cand_views(out@)),
        distinct_paths(cand_views(vector@)) && vector@.len() <= limit ==> out@.len()
            >= vector@.len() && (forall|k: int|
            0 <= k < vector@.len() ==> cand_views(out@)[k] == #[trigger] cand_views(vector@)[k]),
{
    let mut out: Vec<Candidate> = Vec::new();
    proof {
        assert(distinct_paths(cand_views(out@)));
        assert(cand_views(out@) =~= Seq::<(Seq<char>, Seq<char>)>::empty());
    }
    dedup_append(&mut out, vector);
    let ghost after_v = cand_views(out@);
    dedup_append(&mut out, lexical);
    proof {
        lemma_dedup_concat(cand_views(vector@), cand_views(lexical@), Set::empty());
        assert(Seq::<(Seq<char>, Seq<char>)>::empty() + dedup_by_path(
            cand_views(vector@),
            Set::empty(),
        ) =~= dedup_by_path(cand_views(vector@), Set::empty()));
        assert(path_set(Seq::<(Seq<char>, Seq<char>)>::empty()) =~= Set::<Seq<char>>::empty());
        assert(Set::empty().union(path_set(after_v)) =~= path_set(after_v));
        assert(cand_views(out@) =~= dedup_by_path(
            cand_views(vector@) + cand_views(lexical@),
            Set::empty(),
        ));
    }
    out.truncate(limit);
    proof {
        let d = dedup_by_path(cand_views(vector@) + cand_views(lexical@), Set::empty());
        assert(cand_views(out@) =~= d.subrange(0, if d.len() <= limit as int {
            d.len() as int
        } else {
            limit as int
        }));
        if distinct_paths(cand_views(vector@)) && vector@.len() <= limit {
            lemma_fusion_keeps_vector_channel(
                cand_views(vector@),
                cand_views(lexical@),
                limit as int,
            );
        }
    }
    out
}

/// Every path of the vector channel survives fusion, at its vector rank:
/// the dominant channel is never silently dropped, as long as its list has
/// distinct paths and fits the limit.
pub proof fn lemma_fusion_keeps_vector_channel(
    v: Seq<(Seq<char>, Seq<char>)>,
    l: Seq<(Seq<char>, Seq<char>)>,
    limit: int,
)
    requires
        distinct_paths(v),
        v.len() <= limit,
    ensures
        fused(v, l, limit).len() >= v.len(),
        forall|k: int| 0 <= k < v.len() ==> fused(v, l, limit)[k] == v[k],
        forall|k: int|
            0 <= k < v.len() ==> path_set(fused(v, l, limit)).contains(#[trigger] v[k].0),
{
    lemma_dedup_keeps_distinct_prefix(v, l, Set::empty());
    let d = dedup_by_path(v + l, Set::empty());
    assert(d == v + dedup_by_path(l, Set::empty().union(path_set(v))));
    assert(d.len() >= v.len());
    assert forall|k: int| 0 <= k < v.len() implies fused(v, l, limit)[k] == v[k] by {
        assert(d[k] == v[k]);
    }
    assert forall|k: int| 0 <= k < v.len() implies path_set(fused(v, l, limit)).contains(
        #[trigger] v[k].0,
    ) by {
        assert(fused(v, l, limit)[k] == v[k]);
    }
}

/// One scored result handed back to the application. Scores are integer
/// rank scores: descending with rank, shifted by which channels and
/// models contributed.
pub struct SearchResult {
    pub path: String,
    pub snippet: String,
    pub score: u64,
}

/// The rank score of the candidate at `rank`: a hundred points per step
/// above the bottom of the list, plus small bonuses when the reranker and
/// the hybrid channel contributed.
pub open spec fn spec_score(limit: int, rank: int, used_reranker: bool, used_hybrid: bool) -> int {
    (limit - rank) * 100 + (if used_reranker {
        10int
    } else {
        0int
    }) + (if used_hybrid {
        1int
    } else {
        0int
    })
}

/// Combines the final candidate list with the two channel flags into
/// scored results, cut to the result limit, scores strictly descending in
/// rank.
pub fn score_results(
    results: &Vec<Candidate>,
    used_reranker: bool,
    used_hybrid: bool,
    limit: usize,
) -> (out: Vec<SearchResult>)
    requires
        limit <= 100000,
    ensures
        out@.len() == (if results@.len() <= limit {
            results@.len()
        } else {
            limit as nat
        }),
        forall|i: int|
            0 <= i < out@.len() ==> (#[trigger] out@[i]).path@ == results@[i].path@
                && out@[i].snippet@ == results@[i].snippet@ && out@[i].score as int == spec_score(
                limit as int,
                i,
                used_reranker,
                used_hybrid,
            ),
        forall|i: int, j: int| 0 <= i < j < out@.len() ==> out@[i].score > out@[j].score,
{
    let n: usize = if results.len() <= limit {
        results.len()
    } else {
        limit
    };
    let mut out: Vec<SearchResult> = Vec::new();
    let mut i: usize = 0;
    let bonus: u64 = (if used_reranker {
        10u64
    } else {
        0u64
    }) + (if used_hybrid {
        1u64
    } else {
        0u64
    });
    while i < n
        invariant
            n <= results@.len(),
            n <= limit <= 100000,
            0 <= i <= n,
            out@.len() == i,
            bonus as int == (if used_reranker {
                10int
            } else {
                0int
            }) + (if used_hybrid {
                1int
            } else {
                0int
            }),
            forall|k: int|
                0 <= k < i ==> (#[trigger] out@[k]).path@ == results@[k].path@ && out@[k].snippet@
                    == results@[k].snippet@ && out@[k].score as int == spec_score(
                    limit as int,
                    k,
                    used_reranker,
                    used_hybrid,
                ),
        decreases n - i,
    {
        let c = &results[i];
        let score: u64 = ((limit - i) as u64) * 100 + bonus;
        out.push(SearchResult { path: c.path.clone(), snippet: c.snippet.clone(), score });
        i += 1;
    }
    out
}

/// The snippets to hand to the reranking model, in candidate order; no
/// call is planned for an empty candidate list.
pub fn rerank_snippets(candidates: &Vec<Candidate>) -> (r: Option<Vec<String>>)
    ensures
        r is None <==> candidates@.len() == 0,
        r matches Some(v) ==> v@.len() == candidates@.len() && (forall|i: int|
            0 <= i < v@.len() ==> #[trigger] v@[i]@ == candidates@[i].snippet@),
{
    if candidates.len() == 0 {
        return None;
    }
    let mut v: Vec<String> = Vec::new();
    let mut i: usize = 0;
    while i < candidates.len()
        invariant
            0 <= i <= candidates@.len(),
            v@.len() == i,
            forall|k: int| 0 <= k < i ==> #[trigger] v@[k]@ == candidates@[k].snippet@,
        decreases candidates@.len() - i,
    {
        v.push(candidates[i].snippet.clone());
        i += 1;
    }
    Some(v)
}

/// Reorders the candidates by the index order a reranking model returned:
/// entry `j` of the result is the candidate at `order[j]`. Out-of-range
/// indices are skipped, so the result never invents a candidate.
pub fn apply_rerank_order(candidates: &Vec<Candidate>, order: &Vec<usize>) -> (out: Vec<Candidate>)
    ensures
        out@.len() <= order@.len(),
        (forall|j: int| 0 <= j < order@.len() ==> #[trigger] order@[j] < candidates@.len()) ==> {
            &&& out@.len() == order@.len()
            &&& (forall|j: int|
                0 <= j < out@.len() ==> (#[trigger] out@[j]).view_pair()
                    == candidates@[order@[j] as int].view_pair())
        },
{
    let mut out: Vec<Candidate> = Vec::new();
    let mut j: usize = 0;
    while j < order.len()
        invariant
            0 <= j <= order@.len(),
            out@.len() <= j,
            (forall|k: int| 0 <= k < j ==> #[trigger] order@[k] < candidates@.len()) ==> out@.len()
                == j && (forall|k: int|
                0 <= k < j ==> (#[trigger] out@[k]).view_pair()
                    == candidates@[order@[k] as int].view_pair()),
        decreases order@.len() - j,
    {
        let idx = order[j];
        if idx < candidates.len() {
            out.push(candidates[idx].duplicate());
        }
        j += 1;
    }
    out
}

/// The marker prepended to indexed passages before embedding: the
/// asymmetric-embedding convention distinguishing content from queries.
pub fn passage_marked(texts: &Vec<String>) -> (out: Vec<String>)
    ensures
        out@.len() == texts@.len(),
        forall|i: int| 0 <= i < out@.len() ==> #[trigger] out@[i]@ == "passage: "@ + texts@[i]@,
{
    let mut out: Vec<String> = Vec::new();
    let mut i: usize = 0;
    while i < texts.len()
        invariant
            0 <= i <= texts@.len(),
            out@.len() == i,
            forall|k: int| 0 <= k < i ==> #[trigger] out@[k]@ == "passage: "@ + texts@[k]@,
        decreases texts@.len() - i,
    {
        let mut s = String::from_str("passage: ");
        s.append(texts[i].as_str());
        out.push(s);
        i += 1;
    }
    out
}

/// The marker prepended to a query before embedding.
pub fn query_marked(query: &str) -> (out: String)
    ensures
        out@ == "query: "@ + query@,
{
    let mut s = String::from_str("query: ");
    s.append(query);
    s
}

/// The search-side failures that abort a query. Degradable conditions (a
/// missing reranker, an empty lexical channel) are absorbed and never
/// reported through this type.
#[derive(Debug, PartialEq, Eq)]
pub enum SearchError {
    /// The embedding model is still loading: a retryable condition.
    ModelNotReady,
    /// The embedding model failed to initialize, with the underlying cause.
    ModelLoadError(String),
    /// The model returned no usable embedding, with the underlying cause.
    EmbeddingError(String),
}

impl SearchError {
    /// The message shown for this error at the operation boundary.
    pub fn message(&self) -> (m: String)
        ensures
            self is ModelNotReady ==> m@ == "AI model is loading... Please wait a moment."@,
            self matches SearchError::ModelLoadError(e) ==> m@ == "Model failed to load: "@ + e@,
            self matches SearchError::EmbeddingError(e) ==> m@ == "Embedding failed: "@ + e@,
    {
        match self {
            SearchError::ModelNotReady => String::from_str(
                "AI model is loading... Please wait a moment.",
            ),
            SearchError::ModelLoadError(e) => {
                let mut m = String::from_str("Model failed to load: ");
                m.append(e.as_str());
                m
            },
            SearchError::EmbeddingError(e) => {
                let mut m = String::from_str("Embedding failed: ");
                m.append(e.as_str());
                m
            },
        }
    }
}

/// The indexing-side failure distinct from per-file errors: asking to
/// reindex a container with no recorded folders.
#[derive(Debug, PartialEq, Eq)]
pub enum IndexError {
    NoFoldersToReindex,
}

impl IndexError {
    /// The message shown for this error at the operation boundary.
    pub fn message(&self) -> (m: String)
        ensures
            m@ == "No folders to reindex"@,
    {
        String::from_str("No folders to reindex")
    }
}

} // verus!
