use vstd::prelude::*;
use vstd::string::*;
use vstd::utf8::*;

verus! {

/// Byte-size policy for one file category: how large a chunk may grow and how
/// many bytes of overlap consecutive chunks may share.
pub struct ChunkConfig {
    pub max_bytes: usize,
    pub overlap_bytes: usize,
}

impl ChunkConfig {
    /// A configuration is well formed when the overlap is strictly smaller
    /// than the chunk size, so that a sliding window always advances.
    pub open spec fn wf(&self) -> bool {
        self.overlap_bytes < self.max_bytes
    }
}

/// Extensions of source-code files, chunked with the largest windows.
pub open spec fn is_code_ext(e: Seq<char>) -> bool {
    ||| e == "rs"@
    ||| e == "py"@
    ||| e == "js"@
    ||| e == "ts"@
    ||| e == "tsx"@
    ||| e == "jsx"@
    ||| e == "go"@
    ||| e == "java"@
    ||| e == "c"@
    ||| e == "cpp"@
    ||| e == "h"@
    ||| e == "hpp"@
    ||| e == "cs"@
    ||| e == "rb"@
}

/// Extensions of structured configuration files, chunked with small windows.
pub open spec fn is_config_ext(e: Seq<char>) -> bool {
    ||| e == "toml"@
    ||| e == "yaml"@
    ||| e == "yml"@
    ||| e == "json"@
    ||| e == "ini"@
    ||| e == "cfg"@
    ||| e == "conf"@
    ||| e == "env"@
}

/// The chunking policy for a file extension. Prose, tabular data and unknown
/// extensions all share the default window of 800 bytes with 150 bytes of
/// overlap; the fallback for an unrecognized extension is deliberate policy,
/// not an error.
pub open spec fn spec_chunk_config(e: Seq<char>) -> ChunkConfig {
    if is_code_ext(e) {
        ChunkConfig { max_bytes: 1200, overlap_bytes: 200 }
    } else if is_config_ext(e) {
        ChunkConfig { max_bytes: 600, overlap_bytes: 100 }
    } else {
        ChunkConfig { max_bytes: 800, overlap_bytes: 150 }
    }
}

/// Compares two string slices by their UTF-8 bytes; equal bytes decode to
/// equal character sequences.
pub fn str_eq(a: &str, b: &str) -> (r: bool)
    ensures
        r == (a@ == b@),
{
    broadcast use vstd::utf8::group_utf8_lib;

    let av = a.as_bytes_vec();
    let bv = b.as_bytes_vec();
    proof {
        if a@ == b@ {
            assert(av@ == bv@);
        }
    }
    if av.len() != bv.len() {
        return false;
    }
    let mut i: usize = 0;
    while i < av.len()
        invariant
            0 <= i <= av@.len(),
            forall|j: int| 0 <= j < i ==> av@[j] == bv@[j],
        decreases av@.len() - i,
    {
        if av[i] != bv[i] {
            return false;
        }
        i += 1;
    }
    proof {
        assert(av@ =~= bv@);
        encode_utf8_decode_utf8(a@);
        encode_utf8_decode_utf8(b@);
    }
    true
}

/// Maps a file extension to the chunking policy of its category.
pub fn get_chunk_config(ext: &str) -> (cfg: ChunkConfig)
    ensures
        cfg == spec_chunk_config(ext@),
        cfg.wf(),
{
    if str_eq(ext, "rs") || str_eq(ext, "py") || str_eq(ext, "js") || str_eq(ext, "ts")
        || str_eq(ext, "tsx") || str_eq(ext, "jsx") || str_eq(ext, "go") || str_eq(ext, "java")
        || str_eq(ext, "c") || str_eq(ext, "cpp") || str_eq(ext, "h") || str_eq(ext, "hpp")
        || str_eq(ext, "cs") || str_eq(ext, "rb") {
        ChunkConfig { max_bytes: 1200, overlap_bytes: 200 }
    } else if str_eq(ext, "toml") || str_eq(ext, "yaml") || str_eq(ext, "yml")
        || str_eq(ext, "json") || str_eq(ext, "ini") || str_eq(ext, "cfg")
        || str_eq(ext, "conf") || str_eq(ext, "env") {
        ChunkConfig { max_bytes: 600, overlap_bytes: 100 }
    } else {
        ChunkConfig { max_bytes: 800, overlap_bytes: 150 }
    }
}

/// The chunk list `chunks` covers the UTF-8 bytes `text` through the window
/// `[starts[i], ends[i])` of each chunk: the first window begins at the start
/// of the text, the last one reaches its end, each next window begins no
/// later than the previous one ends and rewinds at most `overlap` bytes
/// behind it (the shared part is the overlap), and window starts strictly
/// advance while window ends never move backward.
pub open spec fn is_chunk_cover(
    text: Seq<u8>,
    chunks: Seq<String>,
    starts: Seq<int>,
    ends: Seq<int>,
    overlap: int,
) -> bool {
    &&& chunks.len() > 0
    &&& starts.len() == chunks.len()
    &&& ends.len() == chunks.len()
    &&& starts[0] == 0
    &&& ends[chunks.len() - 1] == text.len()
    &&& (forall|i: int| 0 <= i < chunks.len() ==> 0 <= #[trigger] starts[i] < ends[i] <= text.len())
    &&& (forall|i: int|
        0 <= i < chunks.len() ==> encode_utf8(#[trigger] chunks[i]@) == text.subrange(
            starts[i],
            ends[i],
        ))
    &&& (forall|i: int|
        1 <= i < chunks.len() ==> #[trigger] starts[i] > starts[i - 1] && starts[i] <= ends[i - 1]
            && starts[i] >= ends[i - 1] - overlap && ends[i] >= ends[i - 1])
}

/// The chunk list can be laid out over the text as overlapping windows with
/// at most `overlap` shared bytes at each seam: no byte of the text is lost
/// and every chunk is a contiguous slice.
pub open spec fn covers_text(text: Seq<u8>, chunks: Seq<String>, overlap: int) -> bool {
    exists|starts: Seq<int>, ends: Seq<int>| is_chunk_cover(text, chunks, starts, ends, overlap)
}

/// The concatenation of the chunks' bytes after dropping, from each chunk but
/// the first, the leading bytes it shares with its predecessor's window.
pub open spec fn overlap_stripped_concat(
    chunks: Seq<String>,
    starts: Seq<int>,
    ends: Seq<int>,
    i: int,
) -> Seq<u8>
    decreases i,
{
    if i <= 0 {
        seq![]
    } else if i == 1 {
        encode_utf8(chunks[0]@)
    } else {
        overlap_stripped_concat(chunks, starts, ends, i - 1) + encode_utf8(chunks[i - 1]@).skip(
            ends[i - 2] - starts[i - 1],
        )
    }
}

/// No data loss: concatenating the chunks in order, after removing each
/// chunk's leading overlap with its predecessor, reconstructs the covered
/// text exactly.
pub proof fn lemma_cover_reconstructs_text(
    text: Seq<u8>,
    chunks: Seq<String>,
    starts: Seq<int>,
    ends: Seq<int>,
    overlap: int,
)
    requires
        is_chunk_cover(text, chunks, starts, ends, overlap),
    ensures
        overlap_stripped_concat(chunks, starts, ends, chunks.len() as int) == text,
{
    lemma_stripped_prefix(text, chunks, starts, ends, overlap, chunks.len() as int);
    assert(text.subrange(0, text.len() as int) =~= text);
}

proof fn lemma_stripped_prefix(
    text: Seq<u8>,
    chunks: Seq<String>,
    starts: Seq<int>,
    ends: Seq<int>,
    overlap: int,
    i: int,
)
    requires
        is_chunk_cover(text, chunks, starts, ends, overlap),
        1 <= i <= chunks.len(),
    ensures
        overlap_stripped_concat(chunks, starts, ends, i) == text.subrange(0, ends[i - 1]),
    decreases i,
{
    if i == 1 {
        assert(encode_utf8(chunks[0]@) == text.subrange(starts[0], ends[0]));
        assert(text.subrange(starts[0], ends[0]) =~= text.subrange(0, ends[0]));
    } else {
        lemma_stripped_prefix(text, chunks, starts, ends, overlap, i - 1);
        assert(0 <= starts[i - 1] < ends[i - 1] <= text.len());
        assert(0 <= starts[i - 2] < ends[i - 2] <= text.len());
        assert(starts[i - 1] > starts[i - 2] && starts[i - 1] <= ends[i - 2] && ends[i - 1]
            >= ends[i - 2]);
        let tail = encode_utf8(chunks[i - 1]@).skip(ends[i - 2] - starts[i - 1]);
        assert(encode_utf8(chunks[i - 1]@) == text.subrange(starts[i - 1], ends[i - 1]));
        assert(tail =~= text.subrange(ends[i - 2], ends[i - 1]));
        assert(text.subrange(0, ends[i - 2]) + text.subrange(ends[i - 2], ends[i - 1])
            =~= text.subrange(0, ends[i - 1]));
    }
}

/// A byte that counts as blank for the structural chunker: space, tab,
/// line feed or carriage return.
pub open spec fn is_blank_byte(x: u8) -> bool {
    x == 32 || x == 9 || x == 10 || x == 13
}

/// Every byte blank.
pub open spec fn all_blank(bs: Seq<u8>) -> bool {
    forall|k: int| 0 <= k < bs.len() ==> is_blank_byte(#[trigger] bs[k])
}

/// The chunk holds the text bytes `[s, e)` contiguously at some offset:
/// the range reappears in the chunk exactly, whatever else (a continuity
/// anchor, an overlap) stands around it.
#[verifier::opaque]
pub open spec fn carries_range(text: Seq<u8>, chunk: Seq<char>, s: int, e: int) -> bool {
    exists|o: int|
        0 <= o && o + (e - s) <= encode_utf8(chunk).len() && #[trigger] encode_utf8(
            chunk,
        ).subrange(o, o + (e - s)) == text.subrange(s, e)
}

/// The cut list assigns to each chunk one consecutive range of the text,
/// starting at its beginning; every byte before `a`, the last cut, already
/// reappears in the chunk owning its range.
pub open spec fn carry_state(text: Seq<u8>, chunks: Seq<String>, cuts: Seq<int>, a: int) -> bool {
    &&& cuts.len() == chunks.len() + 1
    &&& cuts[0] == 0
    &&& (forall|i: int| 0 <= i < cuts.len() ==> 0 <= #[trigger] cuts[i] <= text.len())
    &&& (forall|i: int| 1 <= i < cuts.len() ==> #[trigger] cuts[i] >= cuts[i - 1])
    &&& (forall|i: int|
        1 <= i < cuts.len() ==> carries_range(text, chunks[i - 1]@, cuts[i - 1], #[trigger] cuts[i]))
    &&& cuts[cuts.len() - 1] == a
}

/// A complete carrying of the text: each chunk owns one consecutive range,
/// and everything after the last cut is blank.
pub open spec fn cuts_carry(text: Seq<u8>, chunks: Seq<String>, cuts: Seq<int>) -> bool {
    &&& carry_state(text, chunks, cuts, cuts[cuts.len() - 1])
    &&& (forall|p: int| cuts[cuts.len() - 1] <= p < text.len() ==> is_blank_byte(#[trigger] text[p]))
}

/// No content loss: the text splits into consecutive ranges, each chunk
/// carries its range verbatim, and only an all-blank tail may be dropped.
pub open spec fn chunks_carry_text(text: Seq<u8>, chunks: Seq<String>) -> bool {
    exists|cuts: Seq<int>| cuts_carry(text, chunks, cuts)
}

/// Encoding a concatenation concatenates the encodings.
pub proof fn lemma_encode_utf8_concat(x: Seq<char>, y: Seq<char>)
    ensures
        encode_utf8(x + y) == encode_utf8(x) + encode_utf8(y),
    decreases x.len(),
{
    if x.len() == 0 {
        assert(x + y =~= y);
        assert(encode_utf8(x) + encode_utf8(y) =~= encode_utf8(y));
    } else {
        assert((x + y)[0] == x[0]);
        assert((x + y).drop_first() =~= x.drop_first() + y);
        lemma_encode_utf8_concat(x.drop_first(), y);
        assert(encode_scalar(x[0] as u32) + (encode_utf8(x.drop_first()) + encode_utf8(y))
            =~= (encode_scalar(x[0] as u32) + encode_utf8(x.drop_first())) + encode_utf8(y));
    }
}

/// Maps a window cover of a buffer onto cuts of the underlying text: the
/// buffer is a seed of `seedlen` bytes followed by the text bytes `[a, b)`,
/// and each covering piece then carries its share of `[a, b)`.
proof fn lemma_seeded_pieces_carry(
    textb: Seq<u8>,
    curbytes: Seq<u8>,
    seedlen: int,
    a: int,
    bnd: int,
    sub: Seq<String>,
    ss: Seq<int>,
    es: Seq<int>,
    ov: int,
) -> (m: Seq<int>)
    requires
        is_chunk_cover(curbytes, sub, ss, es, ov),
        0 <= seedlen,
        0 <= a <= bnd <= textb.len(),
        curbytes.len() == seedlen + (bnd - a),
        curbytes.subrange(seedlen, curbytes.len() as int) == textb.subrange(a, bnd),
    ensures
        m.len() == sub.len(),
        forall|j: int| 0 <= j < m.len() ==> a <= #[trigger] m[j] <= bnd,
        forall|j: int| 1 <= j < m.len() ==> #[trigger] m[j] >= m[j - 1],
        m[m.len() - 1] == bnd,
        forall|j: int|
            0 <= j < m.len() ==> carries_range(
                textb,
                sub[j]@,
                if j == 0 {
                    a
                } else {
                    m[j - 1]
                },
                #[trigger] m[j],
            ),
{
    let m = Seq::new(
        sub.len(),
        |j: int|
            a + if es[j] <= seedlen {
                0int
            } else {
                es[j] - seedlen
            },
    );
    assert(es[sub.len() - 1] == curbytes.len());
    assert forall|j: int| 0 <= j < m.len() implies a <= #[trigger] m[j] <= bnd by {
        assert(0 <= ss[j] < es[j] <= curbytes.len());
    }
    assert forall|j: int| 1 <= j < m.len() implies #[trigger] m[j] >= m[j - 1] by {
        assert(ss[j] > ss[j - 1] && es[j] >= es[j - 1]);
    }
    assert forall|j: int|
        0 <= j < m.len() implies carries_range(
        textb,
        sub[j]@,
        if j == 0 {
            a
        } else {
            m[j - 1]
        },
        #[trigger] m[j],
    ) by {
        reveal(carries_range);
        let lo = if j == 0 {
            a
        } else {
            m[j - 1]
        };
        let hi = m[j];
        assert(0 <= ss[j] < es[j] <= curbytes.len());
        assert(encode_utf8(sub[j]@) == curbytes.subrange(ss[j], es[j]));
        if j >= 1 {
            assert(ss[j] > ss[j - 1] && ss[j] <= es[j - 1] && es[j] >= es[j - 1]);
        }
        if hi <= lo {
            assert(hi == lo);
            assert(encode_utf8(sub[j]@).subrange(0, 0 + (hi - lo)) =~= textb.subrange(lo, hi));
        } else {
            let cs = seedlen + (lo - a);
            let o = cs - ss[j];
            assert(es[j] > seedlen);
            assert(hi - a == es[j] - seedlen);
            assert(0 <= o);
            assert(o + (hi - lo) == es[j] - ss[j]);
            assert forall|k: int| 0 <= k < hi - lo implies #[trigger] encode_utf8(
                sub[j]@,
            ).subrange(o, o + (hi - lo))[k] == textb.subrange(lo, hi)[k] by {
                assert(encode_utf8(sub[j]@).subrange(o, o + (hi - lo))[k] == curbytes[cs + k]);
                assert(curbytes[cs + k] == curbytes.subrange(seedlen, curbytes.len() as int)[(lo - a)
                    + k]);
                assert(textb.subrange(a, bnd)[(lo - a) + k] == textb[lo + k]);
            }
            assert(encode_utf8(sub[j]@).subrange(o, o + (hi - lo)) =~= textb.subrange(lo, hi));
        }
    }
    m
}

/// Extends a carry state by the cut list of freshly appended pieces.
proof fn lemma_extend_carry(
    textb: Seq<u8>,
    pre: Seq<String>,
    subv: Seq<String>,
    joined: Seq<String>,
    pre_cuts: Seq<int>,
    m: Seq<int>,
    a: int,
    bnd: int,
)
    requires
        joined == pre + subv,
        carry_state(textb, pre, pre_cuts, a),
        0 <= a <= bnd <= textb.len(),
        subv.len() > 0,
        m.len() == subv.len(),
        forall|j: int| 0 <= j < m.len() ==> a <= #[trigger] m[j] <= bnd,
        forall|j: int| 1 <= j < m.len() ==> #[trigger] m[j] >= m[j - 1],
        m[m.len() - 1] == bnd,
        forall|j: int|
            0 <= j < m.len() ==> carries_range(
                textb,
                subv[j]@,
                if j == 0 {
                    a
                } else {
                    m[j - 1]
                },
                #[trigger] m[j],
            ),
    ensures
        carry_state(textb, joined, pre_cuts + m, bnd),
{
    let cuts = pre_cuts + m;
    assert(cuts[cuts.len() - 1] == bnd);
    assert forall|i: int| 1 <= i < cuts.len() implies #[trigger] cuts[i] >= cuts[i - 1] by {
        if i >= pre_cuts.len() {
            assert(cuts[i] == m[i - pre_cuts.len()]);
            if i == pre_cuts.len() {
                assert(cuts[i - 1] == a);
            } else {
                assert(cuts[i - 1] == m[i - 1 - pre_cuts.len()]);
            }
        }
    }
    assert forall|i: int|
        1 <= i < cuts.len() implies carries_range(
        textb,
        joined[i - 1]@,
        cuts[i - 1],
        #[trigger] cuts[i],
    ) by {
        if i >= pre_cuts.len() {
            let j = i - pre_cuts.len();
            assert(joined[i - 1] == subv[j]);
            assert(cuts[i] == m[j]);
            if j == 0 {
                assert(cuts[i - 1] == a);
            } else {
                assert(cuts[i - 1] == m[j - 1]);
            }
        } else {
            assert(joined[i - 1] == pre[i - 1]);
            assert(cuts[i] == pre_cuts[i] && cuts[i - 1] == pre_cuts[i - 1]);
        }
    }
}

/// Extends a carry state by one chunk that holds the text bytes `[a, bnd)`
/// behind a seed of `seedlen` bytes.
proof fn lemma_push_carry(
    textb: Seq<u8>,
    pre: Seq<String>,
    c: String,
    joined: Seq<String>,
    pre_cuts: Seq<int>,
    a: int,
    bnd: int,
    seedlen: int,
)
    requires
        joined == pre.push(c),
        carry_state(textb, pre, pre_cuts, a),
        0 <= a <= bnd <= textb.len(),
        0 <= seedlen,
        encode_utf8(c@).len() >= seedlen + (bnd - a),
        encode_utf8(c@).subrange(seedlen, seedlen + (bnd - a)) == textb.subrange(a, bnd),
    ensures
        carry_state(textb, joined, pre_cuts.push(bnd), bnd),
{
    let cuts = pre_cuts.push(bnd);
    assert(carries_range(textb, c@, a, bnd)) by {
        reveal(carries_range);
    }
    assert forall|i: int|
        1 <= i < cuts.len() implies carries_range(
        textb,
        joined[i - 1]@,
        cuts[i - 1],
        #[trigger] cuts[i],
    ) by {
        if i < pre_cuts.len() {
            assert(joined[i - 1] == pre[i - 1]);
            assert(cuts[i] == pre_cuts[i] && cuts[i - 1] == pre_cuts[i - 1]);
        } else {
            assert(joined[i - 1] == c);
            assert(cuts[i - 1] == a && cuts[i] == bnd);
        }
    }
}

/// A plain window cover is itself a carrying of the text: each piece owns
/// the fresh part of its window.
#[verifier::rlimit(50)]
pub proof fn lemma_cover_carries(text: Seq<u8>, chunks: Seq<String>, ov: int)
    requires
        covers_text(text, chunks, ov),
    ensures
        chunks_carry_text(text, chunks),
{
    let (ss, es) = choose|ss: Seq<int>, es: Seq<int>| is_chunk_cover(text, chunks, ss, es, ov);
    assert(text.subrange(0, text.len() as int) =~= text);
    let m = lemma_seeded_pieces_carry(text, text, 0, 0, text.len() as int, chunks, ss, es, ov);
    let cuts = seq![0int] + m;
    assert(cuts_carry(text, chunks, cuts)) by {
        assert(cuts[0] == 0);
        assert(cuts[cuts.len() - 1] == text.len());
        assert(forall|i: int| 1 <= i < cuts.len() ==> #[trigger] cuts[i] == m[i - 1]);
    }
}

/// A character boundary of the whole text is a character boundary of any of
/// its suffixes that itself starts on a boundary.
proof fn lemma_boundary_in_suffix(bytes: Seq<u8>, a: int, p: int)
    requires
        valid_utf8(bytes),
        is_char_boundary(bytes, a),
        is_char_boundary(bytes, p),
        0 <= a <= p <= bytes.len(),
    ensures
        is_char_boundary(bytes.subrange(a, bytes.len() as int), p - a),
{
    broadcast use vstd::utf8::group_utf8_lib;

    let suf = bytes.subrange(a, bytes.len() as int);
    valid_utf8_split(bytes, a);
    if p == a {
    } else if p == bytes.len() {
        is_char_boundary_start_end_of_seq(suf);
    } else {
        is_char_boundary_iff_not_is_continuation_byte(bytes, p);
        is_char_boundary_iff_not_is_continuation_byte(suf, p - a);
        assert(suf[p - a] == bytes[p]);
    }
}

/// From any character boundary inside the text, the next boundary lies at
/// most four bytes away: a single scalar's encoding is one to four bytes.
proof fn lemma_next_boundary_near(bytes: Seq<u8>, p: int) -> (l: int)
    requires
        valid_utf8(bytes),
        is_char_boundary(bytes, p),
        0 <= p < bytes.len(),
    ensures
        1 <= l <= 4,
        p + l <= bytes.len(),
        is_char_boundary(bytes, p + l),
{
    broadcast use vstd::utf8::group_utf8_lib;

    let suf = bytes.subrange(p, bytes.len() as int);
    valid_utf8_split(bytes, p);
    assert(valid_utf8(suf));
    assert(suf.len() > 0);
    let l = length_of_first_scalar(suf);
    assert(valid_first_scalar(suf));
    assert(1 <= l <= 4 && l <= suf.len());
    assert(is_char_boundary(suf, l)) by {
        reveal_with_fuel(is_char_boundary, 2);
        assert(pop_first_scalar(suf).len() >= 0);
    }
    if p + l == bytes.len() {
        is_char_boundary_start_end_of_seq(bytes);
    } else {
        is_char_boundary_iff_not_is_continuation_byte(suf, l);
        is_char_boundary_iff_not_is_continuation_byte(bytes, p + l);
        assert(suf[l] == bytes[p + l]);
    }
    l
}

/// The candidate end of the window that starts at `start`: the byte limit,
/// clipped to the text, then pulled back to a character boundary; when the
/// character at `start` is wider than the byte limit itself, pushed forward
/// instead so that the window holds that character whole.
fn find_window_end(text: &str, b: &Vec<u8>, start: usize, max_bytes: usize) -> (end: usize)
    requires
        b@ == text.spec_bytes(),
        max_bytes >= 1,
        start < b@.len(),
        is_char_boundary(b@, start as int),
    ensures
        start < end <= b@.len(),
        is_char_boundary(b@, end as int),
        end - start <= max_bytes || end - start <= 4,
        b@.len() - start <= max_bytes ==> end == b@.len(),
{
    broadcast use vstd::utf8::group_utf8_lib;

    let n: usize = b.len();
    let mut end: usize = if n - start > max_bytes {
        start + max_bytes
    } else {
        n
    };
    let ghost end0: int = end as int;
    while end > start && end < n && !text.is_char_boundary(end)
        invariant
            start <= end <= end0 <= n,
            end0 == n ==> end == n,
        decreases end,
    {
        end = end - 1;
    }
    if end <= start {
        let ghost l = lemma_next_boundary_near(b@, start as int);
        end = start + 1;
        while end < n && !text.is_char_boundary(end)
            invariant
                start < end <= n,
                forall|j: int| start < j < end ==> !is_char_boundary(b@, j),
            decreases n - end,
        {
            end = end + 1;
        }
        proof {
            if end == n {
                is_char_boundary_start_end_of_seq(b@);
            }
            if start + l < end {
                assert(!is_char_boundary(b@, start + l));
                assert(false);
            }
        }
    }
    proof {
        if end == n {
            is_char_boundary_start_end_of_seq(b@);
        }
    }
    end
}

/// The split point inside the window `[start, end)`: right after the last
/// line break, failing that the last ". " sentence boundary, failing that
/// the last space; exactly at the window end when none of these occurs.
fn find_split_point(text: &str, b: &Vec<u8>, start: usize, end: usize) -> (split_at: usize)
    requires
        b@ == text.spec_bytes(),
        start < end <= b@.len(),
        is_char_boundary(b@, end as int),
    ensures
        start < split_at <= end,
        is_char_boundary(b@, split_at as int),
{
    let mut nl_pos: usize = 0;
    let mut nl_found = false;
    let mut dot_pos: usize = 0;
    let mut dot_found = false;
    let mut sp_pos: usize = 0;
    let mut sp_found = false;
    let mut j: usize = start;
    while j < end
        invariant
            start <= j <= end,
            nl_found ==> start < nl_pos <= end && is_char_boundary(b@, nl_pos as int),
            dot_found ==> start < dot_pos <= end && is_char_boundary(b@, dot_pos as int),
            sp_found ==> start < sp_pos <= end && is_char_boundary(b@, sp_pos as int),
        decreases end - j,
    {
        if b[j] == 10 && text.is_char_boundary(j + 1) {
            nl_pos = j + 1;
            nl_found = true;
        }
        if b[j] == 46 && j + 1 < end && b[j + 1] == 32 && text.is_char_boundary(j + 1) {
            dot_pos = j + 1;
            dot_found = true;
        }
        if b[j] == 32 && text.is_char_boundary(j + 1) {
            sp_pos = j + 1;
            sp_found = true;
        }
        j += 1;
    }
    if nl_found {
        nl_pos
    } else if dot_found {
        dot_pos
    } else if sp_found {
        sp_pos
    } else {
        end
    }
}

/// Splits `text` into chunks of at most `max_bytes` UTF-8 bytes with a
/// sliding window: each window ends at the last line break in range, failing
/// that the last sentence boundary, failing that the last space, failing
/// that exactly at the byte limit; the next window starts `overlap_bytes`
/// before the previous split where that still makes progress. A chunk may
/// exceed the limit only when a single character's encoding is wider than
/// the limit itself, and then holds just that character's bytes.
#[verifier::rlimit(100)]
#[verifier::spinoff_prover]
pub fn chunk_with_overlap(text: &str, max_bytes: usize, overlap_bytes: usize) -> (chunks: Vec<
    String,
>)
    requires
        max_bytes >= 1,
    ensures
        text@.len() == 0 ==> chunks@.len() == 0,
        text@.len() > 0 ==> chunks@.len() > 0,
        text@.len() > 0 ==> covers_text(encode_utf8(text@), chunks@, overlap_bytes as int),
        forall|i: int|
            0 <= i < chunks@.len() ==> encode_utf8(#[trigger] chunks@[i]@).len() <= max_bytes
                || encode_utf8(chunks@[i]@).len() <= 4,
        0 < encode_utf8(text@).len() <= max_bytes ==> chunks@.len() == 1 && chunks@[0]@ == text@,
{
    broadcast use vstd::utf8::group_utf8_lib;

    let b: Vec<u8> = text.as_bytes_vec();
    let n: usize = b.len();
    proof {
        if text@.len() > 0 && n == 0 {
            reveal_with_fuel(encode_utf8, 1);
            assert(encode_utf8(text@).len() > 0) by {
                encode_utf8_first_scalar(text@);
            }
        }
        if text@.len() == 0 {
            reveal_with_fuel(encode_utf8, 1);
        }
    }
    let mut chunks: Vec<String> = Vec::new();
    let mut start: usize = 0;
    let mut last_end: usize = 0;
    let ghost mut gs: Seq<int> = Seq::empty();
    let ghost mut ge: Seq<int> = Seq::empty();
    while start < n
        invariant
            n == b@.len(),
            b@ == encode_utf8(text@),
            valid_utf8(b@),
            start <= n,
            is_char_boundary(b@, start as int),
            is_char_boundary(b@, last_end as int),
            gs.len() == chunks@.len(),
            ge.len() == chunks@.len(),
            chunks@.len() == 0 ==> start == 0 && last_end == 0,
            chunks@.len() > 0 ==> gs[0] == 0 && last_end as int == ge.last(),
            forall|i: int| 0 <= i < chunks@.len() ==> 0 <= #[trigger] gs[i] < ge[i] <= n,
            forall|i: int|
                0 <= i < chunks@.len() ==> encode_utf8(#[trigger] chunks@[i]@) == b@.subrange(
                    gs[i],
                    ge[i],
                ),
            forall|i: int|
                1 <= i < chunks@.len() ==> #[trigger] gs[i] > gs[i - 1] && gs[i] <= ge[i - 1]
                    && gs[i] >= ge[i - 1] - overlap_bytes && ge[i] >= ge[i - 1],
            forall|i: int|
                0 <= i < chunks@.len() ==> #[trigger] (ge[i] - gs[i]) <= max_bytes || ge[i] - gs[i]
                    <= 4,
            chunks@.len() > 0 ==> start as int > gs.last() && start as int <= ge.last()
                && start as int >= ge.last() - overlap_bytes,
            start == n && n > 0 ==> chunks@.len() > 0 && ge.last() == n,
            n <= max_bytes && start < n ==> chunks@.len() == 0,
            n <= max_bytes && start == n && n > 0 ==> chunks@.len() == 1 && chunks@[0]@ == text@,
        decreases n - start,
    {
        let mut end: usize = find_window_end(text, &b, start, max_bytes);
        if end < last_end {
            // A window never re-splits before the previous window's end;
            // snap forward so the emitted windows advance monotonically.
            proof {
                let k = chunks@.len() - 1;
                assert(ge[k] - gs[k] <= max_bytes || ge[k] - gs[k] <= 4);
                assert(start as int > gs[k]);
            }
            end = last_end;
        }
        proof {
            assert(end as int - start as int <= max_bytes as int || end as int - start as int
                <= 4);
        }
        if end >= n {
            // Window reaches the end of the text: the tail is the final chunk.
            let (_, rest) = text.split_at(start);
            chunks.push(String::from_str(rest));
            proof {
                gs = gs.push(start as int);
                ge = ge.push(n as int);
                assert(rest.spec_bytes() =~= b@.subrange(start as int, n as int));
                if n <= max_bytes {
                    assert(start == 0);
                    assert(b@.subrange(0, n as int) =~= b@);
                    assert(encode_utf8(rest@) == encode_utf8(text@));
                    assert(rest@ == text@) by {
                        encode_utf8_decode_utf8(rest@);
                        encode_utf8_decode_utf8(text@);
                    }
                }
            }
            last_end = n;
            start = n;
        } else {
            let mut split_at: usize = find_split_point(text, &b, start, end);
            if split_at < last_end {
                // As above: never re-split inside an already emitted window.
                split_at = last_end;
            }
            let (_, rest) = text.split_at(start);
            proof {
                lemma_boundary_in_suffix(b@, start as int, split_at as int);
            }
            let (chunk, _) = rest.split_at(split_at - start);
            chunks.push(String::from_str(chunk));
            proof {
                gs = gs.push(start as int);
                ge = ge.push(split_at as int);
                assert(rest.spec_bytes() =~= b@.subrange(start as int, n as int));
                assert(chunk.spec_bytes() =~= b@.subrange(start as int, split_at as int));
            }
            last_end = split_at;
            // Rewind by the overlap, snapped forward to a character boundary;
            // if that would not advance at all, disable overlap for this step.
            let rewind: usize = if overlap_bytes < split_at - start {
                overlap_bytes
            } else {
                split_at - start
            };
            let mut os: usize = split_at - rewind;
            while os > start && !text.is_char_boundary(os)
                invariant
                    start <= os <= split_at,
                    os >= split_at - rewind,
                    is_char_boundary(b@, split_at as int),
                decreases split_at - os,
            {
                os = os + 1;
            }
            if os <= start {
                os = split_at;
            }
            start = os;
        }
    }
    proof {
        if text@.len() > 0 {
            assert(n > 0);
            assert(chunks@.len() > 0);
            assert(is_chunk_cover(b@, chunks@, gs, ge, overlap_bytes as int));
            assert(covers_text(encode_utf8(text@), chunks@, overlap_bytes as int));
        }
    }
    chunks
}

/// Extensions that have a structural boundary pattern for semantic chunking.
pub open spec fn has_boundary_pattern(e: Seq<char>) -> bool {
    ||| is_code_ext(e)
    ||| e == "md"@
    ||| e == "markdown"@
    ||| e == "rst"@
    ||| e == "adoc"@
    ||| e == "txt"@
    ||| e == "tex"@
    ||| e == "bib"@
    ||| e == "toml"@
    ||| e == "ini"@
    ||| e == "cfg"@
    ||| e == "yaml"@
    ||| e == "yml"@
}

/// The structural boundary pattern for a file extension: a regular
/// expression matching the start of a new top-level unit (a function or
/// type definition, a heading, a blank line, a section header), or none for
/// formats without a useful structural marker.
fn pattern_for(ext: &str) -> (p: Option<&'static str>)
    ensures
        p is Some <==> has_boundary_pattern(ext@),
{
    if str_eq(ext, "rs") {
        Some("\n(?:pub\\s+)?(?:async\\s+)?(?:fn |struct |enum |impl |trait |mod )")
    } else if str_eq(ext, "py") {
        Some("\n(?:class |def |async def )")
    } else if str_eq(ext, "js") || str_eq(ext, "jsx") {
        Some("\n(?:function |class |export (?:default )?(?:function |class |const |let ))")
    } else if str_eq(ext, "ts") || str_eq(ext, "tsx") {
        Some(
            "\n(?:(?:export )?(?:function |class |interface |type |const |enum |async function ))",
        )
    } else if str_eq(ext, "go") {
        Some("\n(?:func |type )")
    } else if str_eq(ext, "java") || str_eq(ext, "cs") {
        Some(
            "\n\\s*(?:public |private |protected )?(?:static )?(?:class |interface |void |int |string |def )",
        )
    } else if str_eq(ext, "c") || str_eq(ext, "cpp") || str_eq(ext, "h") || str_eq(ext, "hpp") {
        Some("\n(?:[a-zA-Z_][a-zA-Z0-9_*\\s]+\\([^)]*\\)\\s*\\{)")
    } else if str_eq(ext, "rb") {
        Some("\n(?:class |module |def )")
    } else if str_eq(ext, "md") || str_eq(ext, "markdown") {
        Some("\n#{1,6} ")
    } else if str_eq(ext, "rst") || str_eq(ext, "adoc") || str_eq(ext, "txt") || str_eq(ext, "tex")
        || str_eq(ext, "bib") {
        Some("\n\n")
    } else if str_eq(ext, "toml") || str_eq(ext, "ini") || str_eq(ext, "cfg") {
        Some("\n\\[")
    } else if str_eq(ext, "yaml") || str_eq(ext, "yml") {
        Some("\n[a-zA-Z_][a-zA-Z0-9_]*:")
    } else {
        None
    }
}

/// The byte offsets at which successive non-overlapping matches of the
/// given regular expression begin in the given text. The offsets depend on
/// the pattern and the text alone.
pub uninterp spec fn pattern_match_starts(pattern: Seq<char>, text: Seq<char>) -> Seq<int>;

/// Relies on regex::Regex::new and regex::Regex::find_iter: the byte
/// offsets of successive non-overlapping matches are strictly increasing
/// and lie within the text; compilation fails only for an invalid pattern.
#[verifier::external_body]
fn regex_match_starts(pattern: &str, text: &str) -> (r: Option<Vec<usize>>)
    ensures
        r matches Some(v) ==> {
            &&& v@.map_values(|p: usize| p as int) == pattern_match_starts(pattern@, text@)
            &&& (forall|i: int, j: int| 0 <= i < j < v@.len() ==> v@[i] < v@[j])
            &&& (forall|i: int| 0 <= i < v@.len() ==> v@[i] <= text.spec_bytes().len())
        },
{
    match regex::Regex::new(pattern) {
        Ok(re) => Some(re.find_iter(text).map(|m| m.start()).collect()),
        Err(_) => None,
    }
}

/// The last line of `s`, not counting a trailing line break: the seed that
/// carries context from one emitted chunk into the next buffer.
fn last_line(s: &str) -> String {
    let b: Vec<u8> = s.as_bytes_vec();
    let mut m: usize = b.len();
    if m > 0 && b[m - 1] == 10 {
        m = m - 1;
    }
    let mut j: usize = m;
    while j > 0 && b[j - 1] != 10
        invariant
            0 <= j <= m <= b@.len(),
        decreases j,
    {
        j = j - 1;
    }
    if j <= m && m <= s.len() && s.is_char_boundary(j) && s.is_char_boundary(m) {
        let (_, rest) = s.split_at(j);
        proof {
            broadcast use vstd::utf8::group_utf8_lib;

            lemma_boundary_in_suffix(s.spec_bytes(), j as int, m as int);
        }
        let (line, _) = rest.split_at(m - j);
        String::from_str(line)
    } else {
        String::new()
    }
}

/// True when the text consists only of blank bytes (spaces, tabs and line
/// breaks): such a remainder is not worth emitting as a chunk.
fn is_blank(s: &str) -> (r: bool)
    ensures
        r == all_blank(s.spec_bytes()),
{
    let b: Vec<u8> = s.as_bytes_vec();
    let mut j: usize = 0;
    let mut blank = true;
    while j < b.len()
        invariant
            0 <= j <= b@.len(),
            b@ == s.spec_bytes(),
            blank == (forall|k: int| 0 <= k < j ==> is_blank_byte(#[trigger] b@[k])),
        decreases b@.len() - j,
    {
        let c = b[j];
        if c != 32 && c != 9 && c != 10 && c != 13 {
            blank = false;
        }
        j += 1;
    }
    proof {
        if all_blank(b@) {
            assert(blank);
        }
        if blank {
            assert(all_blank(b@));
        }
    }
    blank
}

/// Appends every chunk of `more` to `acc`.
fn push_all(acc: &mut Vec<String>, more: Vec<String>)
    ensures
        final(acc)@ == old(acc)@ + more@,
{
    let mut more = more;
    let ghost pre = acc@;
    let mut i: usize = 0;
    proof {
        assert(pre + more@.subrange(0, 0) =~= pre);
    }
    while i < more.len()
        invariant
            0 <= i <= more@.len(),
            acc@ == pre + more@.subrange(0, i as int),
        decreases more@.len() - i,
    {
        let s = more[i].clone();
        proof {
            assert(s@ == more@[i as int]@);
        }
        acc.push(s);
        proof {
            assert(pre + more@.subrange(0, i + 1) =~= (pre + more@.subrange(0, i as int)).push(
                more@[i as int],
            ));
        }
        i += 1;
    }
    proof {
        assert(more@.subrange(0, more@.len() as int) =~= more@);
    }
}

/// Flushes an over-limit buffer through the sliding-window splitter and
/// appends the pieces: the buffer is a seed followed by the text bytes
/// `[a, bnd)`, and afterwards the chunk list carries the text up to `bnd`.
/// Returns the last piece, the source of the next continuity anchor.
#[verifier::rlimit(100)]
fn flush_large_buffer(
    chunks: &mut Vec<String>,
    current: &String,
    max_bytes: usize,
    overlap_bytes: usize,
    Ghost(textb): Ghost<Seq<u8>>,
    Ghost(seed): Ghost<Seq<u8>>,
    Ghost(a): Ghost<int>,
    Ghost(bnd): Ghost<int>,
    Ghost(pre_cuts): Ghost<Seq<int>>,
) -> (r: (String, Ghost<Seq<int>>))
    requires
        max_bytes >= 1,
        0 <= a <= bnd <= textb.len(),
        encode_utf8(current@) == seed + textb.subrange(a, bnd),
        encode_utf8(current@).len() > max_bytes,
        carry_state(textb, old(chunks)@, pre_cuts, a),
        forall|i: int|
            0 <= i < old(chunks)@.len() ==> encode_utf8(#[trigger] old(chunks)@[i]@).len()
                <= max_bytes || encode_utf8(old(chunks)@[i]@).len() <= 4,
    ensures
        final(chunks)@.len() > old(chunks)@.len(),
        carry_state(textb, final(chunks)@, r.1@, bnd),
        forall|i: int|
            0 <= i < final(chunks)@.len() ==> encode_utf8(#[trigger] final(chunks)@[i]@).len()
                <= max_bytes || encode_utf8(final(chunks)@[i]@).len() <= 4,
        r.0@ == final(chunks)@[final(chunks)@.len() - 1]@,
{
    proof {
        assert(current@.len() > 0) by {
            reveal_with_fuel(encode_utf8, 1);
        }
    }
    let sub = chunk_with_overlap(current.as_str(), max_bytes, overlap_bytes);
    let last = sub[sub.len() - 1].clone();
    let ghost pre = chunks@;
    let ghost subv = sub@;
    push_all(chunks, sub);
    let ghost seedlen = seed.len() as int;
    proof {
        assert forall|i: int|
            0 <= i < chunks@.len() implies encode_utf8(#[trigger] chunks@[i]@).len() <= max_bytes
            || encode_utf8(chunks@[i]@).len() <= 4 by {
            if i >= pre.len() {
                assert(chunks@[i] == subv[i - pre.len()]);
            }
        }
    }
    let ghost (ss, es) = choose|ss: Seq<int>, es: Seq<int>|
        is_chunk_cover(encode_utf8(current@), subv, ss, es, overlap_bytes as int);
    proof {
        assert(encode_utf8(current@).subrange(seedlen, encode_utf8(current@).len() as int)
            =~= textb.subrange(a, bnd));
    }
    let ghost m = Seq::<int>::empty();
    proof {
        m = lemma_seeded_pieces_carry(
            textb,
            encode_utf8(current@),
            seedlen,
            a,
            bnd,
            subv,
            ss,
            es,
            overlap_bytes as int,
        );
    }
    let ghost cuts = pre_cuts + m;
    proof {
        lemma_extend_carry(textb, pre, subv, chunks@, pre_cuts, m, a, bnd);
    }
    (last, Ghost(cuts))
}

/// The split-point list: each structural match offset advanced to just
/// past the next line break (a unit never breaks mid-line), kept only while
/// strictly increasing, preceded by the text start and ended by its end.
fn split_points(text: &str, b: &Vec<u8>, starts: &Vec<usize>) -> (sp: Vec<usize>)
    requires
        b@ == text.spec_bytes(),
    ensures
        sp@.len() > 0,
        sp@[0] == 0,
        forall|i: int| 0 <= i < sp@.len() ==> 0 <= #[trigger] sp@[i] <= b@.len(),
        forall|i: int| 1 <= i < sp@.len() ==> #[trigger] sp@[i] > sp@[i - 1],
        forall|i: int|
            0 <= i < sp@.len() ==> is_char_boundary(text.spec_bytes(), #[trigger] sp@[i] as int),
        sp@[sp@.len() - 1] == b@.len(),
{
    broadcast use vstd::utf8::group_utf8_lib;

    let n: usize = b.len();
    let mut sp: Vec<usize> = Vec::new();
    sp.push(0);
    let mut k: usize = 0;
    while k < starts.len()
        invariant
            n == b@.len(),
            b@ == text.spec_bytes(),
            sp@.len() > 0,
            sp@[0] == 0,
            forall|i: int| 0 <= i < sp@.len() ==> 0 <= #[trigger] sp@[i] <= n,
            forall|i: int| 1 <= i < sp@.len() ==> #[trigger] sp@[i] > sp@[i - 1],
            forall|i: int|
                0 <= i < sp@.len() ==> is_char_boundary(text.spec_bytes(), #[trigger] sp@[i] as int),
        decreases starts@.len() - k,
    {
        let pos = starts[k];
        if pos > 0 && pos <= n {
            let mut j: usize = pos;
            while j < n && b[j] != 10
                invariant
                    pos <= j <= n,
                decreases n - j,
            {
                j += 1;
            }
            let newline_pos: usize = if j < n {
                j + 1
            } else {
                pos
            };
            if newline_pos > sp[sp.len() - 1] && newline_pos <= n && text.is_char_boundary(
                newline_pos,
            ) {
                sp.push(newline_pos);
            }
        }
        k += 1;
    }
    if sp[sp.len() - 1] < n {
        proof {
            broadcast use vstd::utf8::group_utf8_lib;

            is_char_boundary_start_end_of_seq(text.spec_bytes());
        }
        sp.push(n);
    }
    sp
}

/// Appends a within-limit buffer as one chunk: the buffer is a seed
/// followed by the text bytes `[a, bnd)`, and afterwards the chunk list
/// carries the text up to `bnd`.
fn push_buffer(
    chunks: &mut Vec<String>,
    current: &String,
    max_bytes: usize,
    Ghost(textb): Ghost<Seq<u8>>,
    Ghost(seed): Ghost<Seq<u8>>,
    Ghost(a): Ghost<int>,
    Ghost(bnd): Ghost<int>,
    Ghost(pre_cuts): Ghost<Seq<int>>,
) -> (gc: Ghost<Seq<int>>)
    requires
        0 <= a <= bnd <= textb.len(),
        encode_utf8(current@) == seed + textb.subrange(a, bnd),
        encode_utf8(current@).len() <= max_bytes,
        carry_state(textb, old(chunks)@, pre_cuts, a),
        forall|i: int|
            0 <= i < old(chunks)@.len() ==> encode_utf8(#[trigger] old(chunks)@[i]@).len()
                <= max_bytes || encode_utf8(old(chunks)@[i]@).len() <= 4,
    ensures
        final(chunks)@.len() == old(chunks)@.len() + 1,
        carry_state(textb, final(chunks)@, gc@, bnd),
        forall|i: int|
            0 <= i < final(chunks)@.len() ==> encode_utf8(#[trigger] final(chunks)@[i]@).len()
                <= max_bytes || encode_utf8(final(chunks)@[i]@).len() <= 4,
{
    let ghost pre = chunks@;
    chunks.push(current.clone());
    proof {
        assert(encode_utf8(current@).subrange(seed.len() as int, seed.len() + (bnd - a))
            =~= textb.subrange(a, bnd));
        lemma_push_carry(
            textb,
            pre,
            chunks@[pre.len() as int],
            chunks@,
            pre_cuts,
            a,
            bnd,
            seed.len() as int,
        );
        assert forall|i: int|
            0 <= i < chunks@.len() implies encode_utf8(#[trigger] chunks@[i]@).len() <= max_bytes
            || encode_utf8(chunks@[i]@).len() <= 4 by {
            if i == pre.len() {
                assert(chunks@[i]@ == current@);
            }
        }
    }
    Ghost(pre_cuts.push(bnd))
}

/// Splits `text` along the structural boundaries of its format, packing
/// consecutive structural segments into chunks of at most the category's
/// byte limit and seeding each new buffer with the last line of the
/// previous chunk as a continuity anchor. Formats without a boundary
/// pattern fall back to the fixed sliding window; a non-empty text always
/// yields at least one chunk, the whole text itself if nothing else was
/// produced.
#[verifier::rlimit(100)]
#[verifier::spinoff_prover]
pub fn semantic_chunk(text: &str, ext: &str) -> (chunks: Vec<String>)
    ensures
        text@.len() > 0 ==> chunks@.len() > 0,
        text@.len() > 0 ==> chunks_carry_text(encode_utf8(text@), chunks@),
        (forall|i: int|
            0 <= i < chunks@.len() ==> encode_utf8(#[trigger] chunks@[i]@).len()
                <= spec_chunk_config(ext@).max_bytes || encode_utf8(chunks@[i]@).len() <= 4) || (
        chunks@.len() == 1 && chunks@[0]@ == text@ && (forall|p: int|
            0 <= p < encode_utf8(text@).len() ==> is_blank_byte(#[trigger] encode_utf8(text@)[p]))),
        !has_boundary_pattern(ext@) && text@.len() > 0 ==> covers_text(
            encode_utf8(text@),
            chunks@,
            spec_chunk_config(ext@).overlap_bytes as int,
        ),
        !has_boundary_pattern(ext@) && 0 < encode_utf8(text@).len() <= spec_chunk_config(
            ext@,
        ).max_bytes ==> chunks@.len() == 1 && chunks@[0]@ == text@,
{
    let config = get_chunk_config(ext);
    let pat = match pattern_for(ext) {
        Some(p) => p,
        None => {
            let r = chunk_with_overlap(text, config.max_bytes, config.overlap_bytes);
            proof {
                if text@.len() > 0 {
                    lemma_cover_carries(encode_utf8(text@), r@, config.overlap_bytes as int);
                }
            }
            return r;
        },
    };
    let starts = match regex_match_starts(pat, text) {
        Some(v) => v,
        None => {
            let r = chunk_with_overlap(text, config.max_bytes, config.overlap_bytes);
            proof {
                if text@.len() > 0 {
                    lemma_cover_carries(encode_utf8(text@), r@, config.overlap_bytes as int);
                }
            }
            return r;
        },
    };
    let b: Vec<u8> = text.as_bytes_vec();
    let n: usize = b.len();

    let sp = split_points(text, &b, &starts);

    let mut chunks: Vec<String> = Vec::new();
    let mut current = String::new();
    let mut prev_last_line = String::new();

    let ghost textb = text.spec_bytes();
    let ghost mut cuts: Seq<int> = seq![0int];
    let ghost mut cur_seed: Seq<u8> = Seq::empty();
    let ghost mut cur_a: int = 0;
    let ghost mut cur_b: int = 0;
    proof {
        reveal_with_fuel(encode_utf8, 1);
        assert(encode_utf8(current@) =~= cur_seed + textb.subrange(0, 0));
    }

    let mut w: usize = 0;
    #[verifier::loop_isolation(true)]
    while w < sp.len() - 1
        invariant
            config.wf(),
            n == b@.len(),
            b@ == text.spec_bytes(),
            textb == text.spec_bytes(),
            sp@.len() > 0,
            sp@[sp@.len() - 1] == n,
            forall|i: int| 0 <= i < sp@.len() ==> 0 <= #[trigger] sp@[i] <= n,
            forall|i: int| 1 <= i < sp@.len() ==> #[trigger] sp@[i] > sp@[i - 1],
            forall|i: int|
                0 <= i < sp@.len() ==> is_char_boundary(text.spec_bytes(), #[trigger] sp@[i] as int),
            0 <= w < sp@.len(),
            forall|i: int|
                0 <= i < chunks@.len() ==> encode_utf8(#[trigger] chunks@[i]@).len()
                    <= config.max_bytes || encode_utf8(chunks@[i]@).len() <= 4,
            carry_state(textb, chunks@, cuts, cur_a),
            0 <= cur_a <= cur_b <= n,
            cur_b == sp@[w as int] as int,
            encode_utf8(current@) == cur_seed + textb.subrange(cur_a, cur_b),
            chunks@.len() == 0 ==> cur_seed.len() == 0 && cur_a == 0,
        decreases sp@.len() - w,
    {
        let seg_from = sp[w];
        let seg_to = sp[w + 1];
        let (_, rest) = text.split_at(seg_from);
        proof {
            broadcast use vstd::utf8::group_utf8_lib;

            lemma_boundary_in_suffix(text.spec_bytes(), seg_from as int, seg_to as int);
        }
        let (segment, _) = rest.split_at(seg_to - seg_from);
        proof {
            assert(rest.spec_bytes() =~= textb.subrange(seg_from as int, n as int));
            assert(segment.spec_bytes() =~= textb.subrange(seg_from as int, seg_to as int));
        }

        let cur_len = current.as_str().as_bytes_vec().len();
        let seg_len = segment.len();
        if cur_len > 0 && (cur_len > config.max_bytes || seg_len > config.max_bytes - cur_len) {
            if cur_len > config.max_bytes {
                let (lastc, gc) = flush_large_buffer(
                    &mut chunks,
                    &current,
                    config.max_bytes,
                    config.overlap_bytes,
                    Ghost(textb),
                    Ghost(cur_seed),
                    Ghost(cur_a),
                    Ghost(cur_b),
                    Ghost(cuts),
                );
                prev_last_line = last_line(lastc.as_str());
                proof {
                    cuts = gc@;
                    cur_a = cur_b;
                }
            } else {
                prev_last_line = last_line(current.as_str());
                let gc = push_buffer(
                    &mut chunks,
                    &current,
                    config.max_bytes,
                    Ghost(textb),
                    Ghost(cur_seed),
                    Ghost(cur_a),
                    Ghost(cur_b),
                    Ghost(cuts),
                );
                proof {
                    assert(encode_utf8(current@).len() == cur_len);
                    cuts = gc@;
                    cur_a = cur_b;
                }
            }
            current = String::new();
            if prev_last_line.as_str().len() > 0 {
                current.append(prev_last_line.as_str());
                current.append("\n");
            }
            proof {
                cur_seed = encode_utf8(current@);
                assert(encode_utf8(current@) =~= cur_seed + textb.subrange(cur_a, cur_a));
            }
        }
        let ghost oldc = current@;
        current.append(segment);
        proof {
            lemma_encode_utf8_concat(oldc, segment@);
            assert(encode_utf8(segment@) == textb.subrange(seg_from as int, seg_to as int));
            assert(encode_utf8(current@) =~= cur_seed + textb.subrange(cur_a, seg_to as int)) by {
                assert((cur_seed + textb.subrange(cur_a, cur_b)) + textb.subrange(
                    seg_from as int,
                    seg_to as int,
                ) =~= cur_seed + textb.subrange(cur_a, seg_to as int));
            }
            cur_b = seg_to as int;
        }
        w += 1;
    }

    if !is_blank(current.as_str()) {
        let cur_len = current.as_str().as_bytes_vec().len();
        if cur_len > config.max_bytes {
            let (_lastc, gc) = flush_large_buffer(
                &mut chunks,
                &current,
                config.max_bytes,
                config.overlap_bytes,
                Ghost(textb),
                Ghost(cur_seed),
                Ghost(cur_a),
                Ghost(cur_b),
                Ghost(cuts),
            );
            proof {
                cuts = gc@;
                cur_a = cur_b;
            }
        } else {
            proof {
                assert(encode_utf8(current@).len() == cur_len);
            }
            let gc = push_buffer(
                &mut chunks,
                &current,
                config.max_bytes,
                Ghost(textb),
                Ghost(cur_seed),
                Ghost(cur_a),
                Ghost(cur_b),
                Ghost(cuts),
            );
            proof {
                cuts = gc@;
                cur_a = cur_b;
            }
        }
    } else {
        proof {
            assert(all_blank(encode_utf8(current@)));
            assert forall|p: int| cur_a <= p < n implies is_blank_byte(#[trigger] textb[p]) by {
                assert(textb[p] == (cur_seed + textb.subrange(cur_a, cur_b))[cur_seed.len() + (p
                    - cur_a)]);
                assert(is_blank_byte(encode_utf8(current@)[cur_seed.len() + (p - cur_a)]));
            }
        }
    }

    if chunks.len() == 0 {
        chunks.push(String::from_str(text));
        proof {
            assert(chunks@.len() == 1 && chunks@[0]@ == text@);
            assert(cur_seed.len() == 0 && cur_a == 0);
            assert forall|p: int| 0 <= p < n implies is_blank_byte(#[trigger] textb[p]) by {
                assert(textb[p] == (cur_seed + textb.subrange(0, cur_b))[p]);
            }
            assert(encode_utf8(text@).subrange(0, 0 + (n as int - 0)) =~= textb.subrange(
                0,
                n as int,
            ));
            assert(chunks@ =~= Seq::<String>::empty().push(chunks@[0]));
            lemma_push_carry(textb, Seq::empty(), chunks@[0], chunks@, cuts, 0, n as int, 0);
            cuts = cuts.push(n as int);
        }
    }
    proof {
        if text@.len() > 0 {
            assert(cuts_carry(textb, chunks@, cuts));
            assert(chunks_carry_text(encode_utf8(text@), chunks@));
        }
    }
    chunks
}

} // verus!
