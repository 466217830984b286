//! Cutting a text into overlapping chunks.
//!
//! A text of at most `max_chars` characters is one chunk. A longer one is cut
//! with a window of `max_chars` characters that gives way to the last sentence
//! boundary inside it, and each chunk starts `overlap_chars` characters before
//! the end of the one before it.
use crate::text::{chars_of, string_of};
use vstd::prelude::*;

verus! {

/// How texts are cut.
#[derive(Debug, Clone, Copy)]
pub struct ChunkConfig {
    /// The most characters that a chunk holds.
    pub max_chars: usize,
    /// The characters that a chunk repeats from the one before it.
    pub overlap_chars: usize,
}

impl ChunkConfig {
    /// The configuration with these two numbers.
    pub fn new(max_chars: usize, overlap_chars: usize) -> (r: Self)
        ensures
            r.max_chars == max_chars,
            r.overlap_chars == overlap_chars,
    {
        Self { max_chars, overlap_chars }
    }
}

/// The characters that end a sentence.
pub open spec fn is_boundary(c: char) -> bool {
    c == '。' || c == '！' || c == '？' || c == '；' || c == '\n'
}

fn boundary(c: char) -> (r: bool)
    ensures
        r == is_boundary(c),
{
    c == '。' || c == '！' || c == '？' || c == '；' || c == '\n'
}

/// The end of the window that starts at `start`.
pub open spec fn window_end(text: Seq<char>, start: int, max: nat) -> int {
    if start + max < text.len() {
        start + max
    } else {
        text.len() as int
    }
}

/// The last position in `lo..hi` that holds a sentence boundary.
pub open spec fn last_boundary(text: Seq<char>, lo: int, hi: int) -> Option<int>
    decreases hi - lo,
{
    if hi <= lo {
        None
    } else if is_boundary(text[hi - 1]) {
        Some(hi - 1)
    } else {
        last_boundary(text, lo, hi - 1)
    }
}

/// Where the chunk that starts at `start` ends: behind the last sentence
/// boundary after its first character, if the window stops short of the text's
/// end and holds one, else where the window ends.
pub open spec fn chunk_end(text: Seq<char>, start: int, max: nat) -> int {
    let w = window_end(text, start, max);
    if w < text.len() {
        match last_boundary(text, start + 1, w) {
            Some(b) => b + 1,
            None => w,
        }
    } else {
        w
    }
}

/// Where the chunk after `start..end` starts.
pub open spec fn next_start(start: int, end: int, overlap: nat) -> int {
    if end - overlap > start + 1 {
        end - overlap
    } else {
        start + 1
    }
}

/// The chunks of `text` from `start` on, as pairs of start and end.
pub open spec fn spans_from(text: Seq<char>, max: nat, overlap: nat, start: int) -> Seq<(int, int)>
    decreases text.len() - start,
{
    if start >= text.len() {
        Seq::empty()
    } else {
        let end = chunk_end(text, start, max);
        if end == text.len() {
            seq![(start, end)]
        } else {
            proof {
                lemma_chunk_end(text, start, max);
            }
            seq![(start, end)] + spans_from(text, max, overlap, next_start(start, end, overlap))
        }
    }
}

/// The chunks of `text`, as pairs of start and end.
pub open spec fn spans(text: Seq<char>, max: nat, overlap: nat) -> Seq<(int, int)> {
    if text.len() == 0 {
        Seq::empty()
    } else if text.len() <= max {
        seq![(0, text.len() as int)]
    } else {
        spans_from(text, max, overlap, 0)
    }
}

/// The chunks of `text`.
pub open spec fn chunks(text: Seq<char>, max: nat, overlap: nat) -> Seq<Seq<char>> {
    spans(text, max, overlap).map_values(|p: (int, int)| text.subrange(p.0, p.1))
}

proof fn lemma_last_boundary(text: Seq<char>, lo: int, hi: int)
    ensures
        match last_boundary(text, lo, hi) {
            Some(b) => lo <= b < hi && is_boundary(text[b]) && forall|i: int|
                b < i < hi ==> !is_boundary(#[trigger] text[i]),
            None => forall|i: int| lo <= i < hi ==> !is_boundary(#[trigger] text[i]),
        },
    decreases hi - lo,
{
    if hi > lo && !is_boundary(text[hi - 1]) {
        lemma_last_boundary(text, lo, hi - 1);
    }
}

/// A chunk ends within the text, holds at most `max` characters and, where
/// `max` is not zero, at least one.
pub proof fn lemma_chunk_end(text: Seq<char>, start: int, max: nat)
    requires
        start < text.len(),
    ensures
        start <= chunk_end(text, start, max) <= text.len(),
        chunk_end(text, start, max) <= start + max,
        max > 0 ==> start < chunk_end(text, start, max),
{
    lemma_last_boundary(text, start + 1, window_end(text, start, max));
}

/// Cuts the text into its chunks.
pub fn split(text: &str, cfg: &ChunkConfig) -> (r: Vec<String>)
    ensures
        r@.map_values(|s: String| s@) == chunks(
            text@,
            cfg.max_chars as nat,
            cfg.overlap_chars as nat,
        ),
{
    let chars = chars_of(text);
    let total: usize = chars.len();
    let ghost max = cfg.max_chars as nat;
    let ghost overlap = cfg.overlap_chars as nat;
    let ghost cut = |p: (int, int)| text@.subrange(p.0, p.1);
    let mut out: Vec<String> = Vec::new();
    if total == 0 {
        proof {
            assert(out@.map_values(|s: String| s@) =~= chunks(text@, max, overlap));
        }
        return out;
    }
    if total <= cfg.max_chars {
        out.push(text.to_owned());
        proof {
            assert(text@.subrange(0, text@.len() as int) =~= text@);
            assert(out@.map_values(|s: String| s@) =~= chunks(text@, max, overlap));
        }
        return out;
    }
    let mut start: usize = 0;
    proof {
        assert(out@.map_values(|s: String| s@) + spans_from(text@, max, overlap, 0).map_values(cut)
            =~= chunks(text@, max, overlap));
    }
    while start < total
        invariant
            chars@ == text@,
            total == chars@.len(),
            cfg.max_chars < total,
            max == cfg.max_chars,
            overlap == cfg.overlap_chars,
            cut == (|p: (int, int)| text@.subrange(p.0, p.1)),
            start <= total,
            out@.map_values(|s: String| s@) + spans_from(
                text@,
                max,
                overlap,
                start as int,
            ).map_values(cut) == chunks(text@, max, overlap),
        decreases total - start,
    {
        let ghost before = out@;
        let ghost rest = spans_from(text@, max, overlap, start as int);
        let mut end: usize = if cfg.max_chars < total - start {
            start + cfg.max_chars
        } else {
            total
        };
        if end < total {
            let window: usize = end;
            let mut i: usize = window;
            let mut found: bool = false;
            while i > start + 1 && !found
                invariant
                    chars@ == text@,
                    start < total,
                    total == chars@.len(),
                    i <= window < total,
                    found ==> start + 1 <= i < window && is_boundary(text@[i as int]),
                    last_boundary(text@, start + 1, window as int) == if found {
                        Some(i as int)
                    } else {
                        last_boundary(text@, start + 1, i as int)
                    },
                decreases i,
            {
                i -= 1;
                if boundary(chars[i]) {
                    found = true;
                }
            }
            if found {
                end = i + 1;
            }
        }
        proof {
            assert(end == chunk_end(text@, start as int, max));
        }
        out.push(string_of(&chars, start, end));
        proof {
            let piece = text@.subrange(start as int, end as int);
            assert(out@.map_values(|s: String| s@) =~= before.map_values(|s: String| s@).push(
                piece,
            ));
            if end == total {
                assert(rest == seq![(start as int, end as int)]);
                assert(rest.map_values(cut) =~= seq![piece]);
                assert(out@.map_values(|s: String| s@) =~= before.map_values(|s: String| s@)
                    + rest.map_values(cut));
            } else {
                let tail = spans_from(
                    text@,
                    max,
                    overlap,
                    next_start(start as int, end as int, overlap),
                );
                assert(rest == seq![(start as int, end as int)] + tail);
                assert(rest.map_values(cut) =~= seq![piece] + tail.map_values(cut));
                assert(out@.map_values(|s: String| s@) + tail.map_values(cut)
                    =~= before.map_values(|s: String| s@) + rest.map_values(cut));
            }
        }
        if end == total {
            return out;
        }
        let back: usize = if end > cfg.overlap_chars {
            end - cfg.overlap_chars
        } else {
            0
        };
        start = if back > start + 1 {
            back
        } else {
            start + 1
        };
    }
    proof {
        assert(spans_from(text@, max, overlap, start as int).map_values(cut) =~= Seq::empty());
        assert(out@.map_values(|s: String| s@) =~= chunks(text@, max, overlap));
    }
    out
}

/// The number of characters of a string.
pub fn char_len(s: &str) -> (n: usize)
    ensures
        n == s@.len(),
{
    chars_of(s).len()
}

proof fn lemma_spans_from(text: Seq<char>, max: nat, overlap: nat, start: int)
    requires
        0 <= start < text.len(),
    ensures
        ({
            let s = spans_from(text, max, overlap, start);
            &&& s.len() > 0
            &&& s[0] == (start, chunk_end(text, start, max))
            &&& forall|i: int|
                0 <= i < s.len() ==> (#[trigger] s[i]).0 < text.len() && start <= s[i].0 && s[i].1
                    == chunk_end(text, s[i].0, max)
            &&& forall|i: int|
                0 <= i < s.len() - 1 ==> (#[trigger] s[i]).1 < text.len() && s[i + 1].0
                    == next_start(s[i].0, s[i].1, overlap)
            &&& max > 0 ==> s.last().1 == text.len()
        }),
    decreases text.len() - start,
{
    lemma_chunk_end(text, start, max);
    let end = chunk_end(text, start, max);
    if end != text.len() {
        let n = next_start(start, end, overlap);
        let s = spans_from(text, max, overlap, start);
        let tail = spans_from(text, max, overlap, n);
        assert(s == seq![(start, end)] + tail);
        if n < text.len() {
            lemma_spans_from(text, max, overlap, n);
            assert forall|i: int| 0 <= i < s.len() implies (#[trigger] s[i]).0 < text.len() && start
                <= s[i].0 && s[i].1 == chunk_end(text, s[i].0, max) by {
                if i > 0 {
                    assert(s[i] == tail[i - 1]);
                }
            }
            assert forall|i: int| 0 <= i < s.len() - 1 implies (#[trigger] s[i]).1 < text.len()
                && s[i + 1].0 == next_start(s[i].0, s[i].1, overlap) by {
                assert(s[i + 1] == tail[i]);
                if i > 0 {
                    assert(s[i] == tail[i - 1]);
                }
            }
            assert(s.last() == tail.last());
        }
    }
}

/// No chunk is longer than `max` characters.
pub proof fn law_chunks_fit(text: Seq<char>, max: nat, overlap: nat)
    ensures
        forall|i: int|
            0 <= i < chunks(text, max, overlap).len() ==> (#[trigger] chunks(
                text,
                max,
                overlap,
            )[i]).len() <= max,
{
    if text.len() > max {
        lemma_spans_from(text, max, overlap, 0);
        let s = spans(text, max, overlap);
        assert forall|i: int| 0 <= i < chunks(text, max, overlap).len() implies (#[trigger] chunks(
            text,
            max,
            overlap,
        )[i]).len() <= max by {
            lemma_chunk_end(text, s[i].0, max);
        }
    }
}

/// Every character of the text is in a chunk, at its own place: the chunks'
/// spans cover the text. A `max` of zero is left out, since its chunks are empty.
pub proof fn law_no_text_lost(text: Seq<char>, max: nat, overlap: nat, p: int)
    requires
        max > 0,
        0 <= p < text.len(),
    ensures
        exists|i: int|
            0 <= i < spans(text, max, overlap).len() && (#[trigger] spans(text, max, overlap)[i]).0
                <= p < spans(text, max, overlap)[i].1,
{
    let s = spans(text, max, overlap);
    if text.len() <= max {
        assert(s[0] == (0int, text.len() as int));
    } else {
        lemma_spans_from(text, max, overlap, 0);
        lemma_covered(text, max, overlap, p, s.len() - 1);
    }
}

proof fn lemma_covered(text: Seq<char>, max: nat, overlap: nat, p: int, n: int)
    requires
        0 < max < text.len(),
        0 <= n < spans(text, max, overlap).len(),
        0 <= p < spans(text, max, overlap)[n].1,
    ensures
        exists|i: int|
            0 <= i < spans(text, max, overlap).len() && (#[trigger] spans(text, max, overlap)[i]).0
                <= p < spans(text, max, overlap)[i].1,
    decreases n,
{
    let s = spans(text, max, overlap);
    lemma_spans_from(text, max, overlap, 0);
    if s[n].0 > p {
        assert(n > 0);
        lemma_chunk_end(text, s[n - 1].0, max);
        assert(s[n].0 == next_start(s[n - 1].0, s[n - 1].1, overlap));
        lemma_covered(text, max, overlap, p, n - 1);
    }
}

/// Each chunk starts after the one before it starts and no later than that one
/// ends, and ends no earlier.
pub proof fn law_chunks_advance(text: Seq<char>, max: nat, overlap: nat, i: int)
    requires
        max > 0,
        0 <= i < spans(text, max, overlap).len() - 1,
    ensures
        ({
            let s = spans(text, max, overlap);
            &&& s[i].0 < s[i + 1].0 <= s[i].1
            &&& s[i].1 <= s[i + 1].1
        }),
{
    let s = spans(text, max, overlap);
    lemma_spans_from(text, max, overlap, 0);
    let (a, e) = s[i];
    let (b, f) = s[i + 1];
    lemma_chunk_end(text, a, max);
    lemma_chunk_end(text, b, max);
    let w = window_end(text, a, max);
    let v = window_end(text, b, max);
    lemma_last_boundary(text, a + 1, w);
    lemma_last_boundary(text, b + 1, v);
    assert(b == next_start(a, e, overlap));
    if f < e {
        assert(is_boundary(text[f - 1]));
        if is_boundary(text[e - 1]) && b + 1 <= e - 1 {
            assert(e - 1 < v);
        }
    }
}

/// Where a chunk is longer than the overlap, its last `overlap` characters are
/// the first ones of the next chunk.
pub proof fn law_chunks_overlap(text: Seq<char>, max: nat, overlap: nat, i: int)
    requires
        max > 0,
        0 <= i < chunks(text, max, overlap).len() - 1,
        chunks(text, max, overlap)[i].len() > overlap,
    ensures
        ({
            let c = chunks(text, max, overlap);
            &&& c[i + 1].len() >= overlap
            &&& c[i + 1].take(overlap as int) == c[i].skip(c[i].len() - overlap)
        }),
{
    let s = spans(text, max, overlap);
    let c = chunks(text, max, overlap);
    assert(c.len() == s.len());
    assert(c[i] == text.subrange(s[i].0, s[i].1));
    assert(c[i + 1] == text.subrange(s[i + 1].0, s[i + 1].1));
    law_chunks_advance(text, max, overlap, i);
    lemma_steps(text, max, overlap, i);
    lemma_shared(text, s[i].0, s[i].1, s[i + 1].1, overlap);
}

proof fn lemma_steps(text: Seq<char>, max: nat, overlap: nat, i: int)
    requires
        max > 0,
        0 <= i < spans(text, max, overlap).len() - 1,
    ensures
        ({
            let s = spans(text, max, overlap);
            &&& 0 <= s[i].0 <= s[i].1 <= text.len()
            &&& s[i + 1].0 <= s[i + 1].1 <= text.len()
            &&& s[i + 1].0 == next_start(s[i].0, s[i].1, overlap)
        }),
{
    let s = spans(text, max, overlap);
    lemma_spans_from(text, max, overlap, 0);
    lemma_chunk_end(text, s[i].0, max);
    lemma_chunk_end(text, s[i + 1].0, max);
}

proof fn lemma_shared(text: Seq<char>, start: int, end: int, later: int, n: nat)
    requires
        0 <= start,
        start + n < end <= later <= text.len(),
    ensures
        text.subrange(next_start(start, end, n), later).len() >= n,
        text.subrange(next_start(start, end, n), later).take(n as int) == text.subrange(
            start,
            end,
        ).skip(end - start - n),
{
    assert(next_start(start, end, n) == end - n);
    assert(text.subrange(end - n, later).take(n as int) =~= text.subrange(start, end).skip(
        end - start - n,
    ));
}

/// A text of at most `max` characters is its own single chunk.
pub proof fn law_short_text_whole(text: Seq<char>, max: nat, overlap: nat)
    requires
        0 < text.len() <= max,
    ensures
        chunks(text, max, overlap) == seq![text],
{
    assert(text.subrange(0, text.len() as int) =~= text);
    assert(chunks(text, max, overlap) =~= seq![text]);
}

/// The chunks are pieces of the text, in its order: the first starts where the text starts,
/// each of the others starts `overlap` characters before the end of the one before it, but at
/// least one character behind its start, and the last one ends where the text ends, the only
/// one to do so.
pub proof fn law_chunks_are_pieces(text: Seq<char>, max: nat, overlap: nat, i: int)
    requires
        max > 0,
        0 <= i < chunks(text, max, overlap).len(),
    ensures
        ({
            let s = spans(text, max, overlap);
            let (a, e) = s[i];
            &&& s.len() == chunks(text, max, overlap).len()
            &&& 0 <= a < e <= text.len()
            &&& chunks(text, max, overlap)[i] == text.subrange(a, e)
            &&& i == 0 ==> a == 0
            &&& i + 1 < s.len() ==> e < text.len() && s[i + 1].0 == if e - overlap > a + 1 {
                e - overlap
            } else {
                a + 1
            }
            &&& i + 1 == s.len() ==> e == text.len()
        }),
{
    let s = spans(text, max, overlap);
    if text.len() > max {
        lemma_spans_from(text, max, overlap, 0);
        lemma_chunk_end(text, s[i].0, max);
    } else {
        assert(s == seq![(0int, text.len() as int)]);
    }
}

/// There are chunks exactly where there is text.
pub proof fn law_chunks_exist(text: Seq<char>, max: nat, overlap: nat)
    ensures
        chunks(text, max, overlap).len() == 0 <==> text.len() == 0,
{
    if text.len() > max {
        lemma_spans_from(text, max, overlap, 0);
    }
}

/// A chunk that stops short of the end of the text ends with the last sentence that ends
/// within its window, which are the `max` characters from its start: where one of the
/// characters `。`, `！`, `？`, `；` and the line feed stands in the window behind the first
/// character, the chunk ends with one of these five, and no later place of the window has one.
/// Where none stands there, the chunk fills its window.
pub proof fn law_chunk_ends_with_sentence(
    text: Seq<char>,
    max: nat,
    overlap: nat,
    i: int,
    p: int,
)
    requires
        max > 0,
        0 <= i < chunks(text, max, overlap).len() - 1,
    ensures
        ({
            let c = chunks(text, max, overlap)[i];
            let (a, e) = spans(text, max, overlap)[i];
            let last = c.last();
            let ends = last == '。' || last == '！' || last == '？' || last == '；' || last
                == '\n';
            let at_p = text[p] == '。' || text[p] == '！' || text[p] == '？' || text[p] == '；'
                || text[p] == '\n';
            &&& a + max < text.len()
            &&& a < p < a + max && at_p ==> ends && p < e && c.len() >= 2
            &&& e - a == c.len() <= max
            &&& c.len() < max ==> ends && c.len() >= 2
        }),
{
    law_chunks_are_pieces(text, max, overlap, i);
    let s = spans(text, max, overlap);
    let (a, e) = s[i];
    assert(text.len() > max);
    lemma_spans_from(text, max, overlap, 0);
    let w = window_end(text, a, max);
    lemma_last_boundary(text, a + 1, w);
    let c = chunks(text, max, overlap)[i];
    assert(c.last() == text[e - 1]);
    if a < p < a + max && is_boundary(text[p]) {
        assert(last_boundary(text, a + 1, w) is Some);
    }
}

/// No character of the text is lost: each is in a chunk, behind as many characters of the
/// chunk as stand between the chunk's start and it in the text.
pub proof fn law_every_character_kept(text: Seq<char>, max: nat, overlap: nat, p: int) -> (i: int)
    requires
        max > 0,
        0 <= p < text.len(),
    ensures
        ({
            let c = chunks(text, max, overlap);
            let a = spans(text, max, overlap)[i].0;
            &&& 0 <= i < c.len()
            &&& 0 <= p - a < c[i].len()
            &&& c[i][p - a] == text[p]
        }),
{
    law_no_text_lost(text, max, overlap, p);
    let s = spans(text, max, overlap);
    let i = choose|i: int| 0 <= i < s.len() && (#[trigger] s[i]).0 <= p < s[i].1;
    law_chunks_are_pieces(text, max, overlap, i);
    i
}

/// A text of at most `max` characters is not cut, and a longer one is cut into two chunks at
/// least.
pub proof fn law_long_text_cut(text: Seq<char>, max: nat, overlap: nat)
    requires
        max > 0,
    ensures
        text.len() > max ==> chunks(text, max, overlap).len() >= 2,
        0 < text.len() <= max ==> chunks(text, max, overlap).len() == 1 && chunks(
            text,
            max,
            overlap,
        )[0] == text,
{
    if text.len() > max {
        law_chunks_exist(text, max, overlap);
        law_chunks_are_pieces(text, max, overlap, 0);
        law_chunks_fit(text, max, overlap);
        assert(chunks(text, max, overlap)[0].len() <= max);
    } else if text.len() > 0 {
        law_short_text_whole(text, max, overlap);
    }
}

/// Where chunks may hold no characters, there is an empty one for each character of the text.
pub proof fn law_no_room_empty_chunks(text: Seq<char>, overlap: nat, i: int)
    ensures
        chunks(text, 0, overlap).len() == text.len(),
        0 <= i < text.len() ==> chunks(text, 0, overlap)[i].len() == 0,
{
    if text.len() > 0 {
        lemma_empty_spans(text, overlap, 0, i);
    }
}

proof fn lemma_empty_spans(text: Seq<char>, overlap: nat, start: int, i: int)
    requires
        0 <= start < text.len(),
    ensures
        spans_from(text, 0, overlap, start).len() == text.len() - start,
        0 <= i < text.len() - start ==> spans_from(text, 0, overlap, start)[i] == (
            start + i,
            start + i,
        ),
    decreases text.len() - start,
{
    let end = chunk_end(text, start, 0);
    lemma_chunk_end(text, start, 0);
    assert(end == start);
    if start + 1 < text.len() {
        lemma_empty_spans(text, overlap, start + 1, i - 1);
    } else {
        assert(spans_from(text, 0, overlap, start + 1) =~= Seq::empty());
    }
}

} // verus!
