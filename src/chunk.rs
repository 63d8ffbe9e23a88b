//! Cutting long texts into overlapping chunks at character boundaries.

use vstd::prelude::*;
use vstd::string::StringSliceAdditionalSpecFns;
use vstd::utf8::{is_char_boundary, length_of_first_scalar, pop_first_scalar, valid_utf8};

verus! {

/// Longest chunk, in bytes, that a long text is cut into.
pub const CHARACTERS_PER_CHUNK: usize = 20000;

/// Least overlap, in bytes, between two consecutive chunks.
pub const CHUNK_OVERLAP: usize = 10000;

/// `x` is the last character boundary of `b` in `[lo, hi)`.
pub open spec fn is_last_boundary_below(b: Seq<u8>, lo: int, hi: int, x: int) -> bool {
    &&& lo <= x < hi
    &&& is_char_boundary(b, x)
    &&& forall|y: int| x < y < hi ==> !is_char_boundary(b, y)
}

/// The byte ranges that `chunk_bounds` cuts a text of bytes `b` into.
pub open spec fn are_chunks_of(b: Seq<u8>, r: Seq<(usize, usize)>) -> bool {
    let n = b.len() as int;
    let c = CHARACTERS_PER_CHUNK as int;
    &&& r.len() >= 1
    &&& r[0].0 == 0
    &&& r.last().1 == n
    &&& r.last().0 + c >= n
    &&& forall|i: int| 0 <= i < r.len() ==> {
        &&& #[trigger] r[i].0 <= r[i].1
        &&& r[i].1 - r[i].0 <= c
        &&& is_char_boundary(b, r[i].0 as int)
        &&& is_char_boundary(b, r[i].1 as int)
    }
    &&& forall|i: int| 0 <= i < r.len() - 1 ==> {
        &&& #[trigger] r[i].0 + c < n
        &&& is_last_boundary_below(b, r[i].0 as int, r[i].0 + c, r[i].1 as int)
        &&& is_last_boundary_below(b, r[i].0 as int, r[i].1 - CHUNK_OVERLAP, r[i + 1].0 as int)
    }
}

/// In valid UTF-8 a character boundary lies at most three bytes below any index.
pub proof fn lemma_boundary_near(b: Seq<u8>, i: int) -> (j: int)
    requires
        valid_utf8(b),
        0 <= i <= b.len(),
    ensures
        i - 3 <= j <= i,
        0 <= j,
        is_char_boundary(b, j),
    decreases b.len(),
{
    if i <= 3 {
        0
    } else {
        let l = length_of_first_scalar(b);
        let p = pop_first_scalar(b);
        assert(1 <= l <= 4 && l <= b.len());
        assert(p.len() == b.len() - l);
        let k = lemma_boundary_near(p, i - l);
        k + l
    }
}

/// The largest character boundary of `s` in `[lo, hi)`, given that `lo` is one.
fn last_boundary_below(s: &str, lo: usize, hi: usize) -> (x: usize)
    requires
        lo < hi,
        is_char_boundary(s.spec_bytes(), lo as int),
    ensures
        is_last_boundary_below(s.spec_bytes(), lo as int, hi as int, x as int),
{
    let mut j: usize = hi - 1;
    while j > lo && !s.is_char_boundary(j)
        invariant
            lo <= j < hi,
            forall|y: int| j < y < hi ==> !is_char_boundary(s.spec_bytes(), y),
        decreases j,
    {
        j = j - 1;
    }
    j
}

/// The chunks made so far: each well formed, and each but the last followed
/// as `chunk_bounds` cuts.
pub open spec fn chunks_so_far(b: Seq<u8>, r: Seq<(usize, usize)>) -> bool {
    &&& forall|i: int| 0 <= i < r.len() ==> {
        &&& #[trigger] r[i].0 <= r[i].1
        &&& r[i].1 - r[i].0 <= CHARACTERS_PER_CHUNK
        &&& is_char_boundary(b, r[i].0 as int)
        &&& is_char_boundary(b, r[i].1 as int)
    }
    &&& forall|i: int| 0 <= i < r.len() - 1 ==> {
        &&& #[trigger] r[i].0 + CHARACTERS_PER_CHUNK < b.len()
        &&& is_last_boundary_below(b, r[i].0 as int, r[i].0 + CHARACTERS_PER_CHUNK, r[i].1 as int)
        &&& is_last_boundary_below(b, r[i].0 as int, r[i].1 - CHUNK_OVERLAP, r[i + 1].0 as int)
    }
}

proof fn lemma_push_chunk(b: Seq<u8>, r: Seq<(usize, usize)>, s: usize, e: usize)
    requires
        chunks_so_far(b, r),
        s <= e,
        e - s <= CHARACTERS_PER_CHUNK,
        is_char_boundary(b, s as int),
        is_char_boundary(b, e as int),
        r.len() > 0 ==> r.last().0 + CHARACTERS_PER_CHUNK < b.len(),
        r.len() > 0 ==> is_last_boundary_below(b, r.last().0 as int, r.last().0 + CHARACTERS_PER_CHUNK, r.last().1 as int),
        r.len() > 0 ==> is_last_boundary_below(b, r.last().0 as int, r.last().1 - CHUNK_OVERLAP, s as int),
    ensures
        chunks_so_far(b, r.push((s, e))),
{
    let q = r.push((s, e));
    assert forall|i: int| 0 <= i < q.len() - 1 implies {
        &&& #[trigger] q[i].0 + CHARACTERS_PER_CHUNK < b.len()
        &&& is_last_boundary_below(b, q[i].0 as int, q[i].0 + CHARACTERS_PER_CHUNK, q[i].1 as int)
        &&& is_last_boundary_below(b, q[i].0 as int, q[i].1 - CHUNK_OVERLAP, q[i + 1].0 as int)
    } by {
        assert(q[i] == r[i]);
        if i + 1 < r.len() {
            assert(q[i + 1] == r[i + 1]);
        }
    }
    assert forall|i: int| 0 <= i < q.len() implies {
        &&& #[trigger] q[i].0 <= q[i].1
        &&& q[i].1 - q[i].0 <= CHARACTERS_PER_CHUNK
        &&& is_char_boundary(b, q[i].0 as int)
        &&& is_char_boundary(b, q[i].1 as int)
    } by {
        if i < r.len() {
            assert(q[i] == r[i]);
        }
    }
}

/// Byte ranges that cut `text` into chunks of at most `CHARACTERS_PER_CHUNK`
/// bytes: each ends at the last character boundary the budget allows, and the
/// next starts at the last boundary `CHUNK_OVERLAP` or more bytes before that
/// end. A text that fits the budget is one chunk.
pub fn chunk_bounds(text: &str) -> (r: Vec<(usize, usize)>)
    ensures
        are_chunks_of(text.spec_bytes(), r@),
{
    let ghost b = text.spec_bytes();
    let n = text.as_bytes().len();
    proof {
        broadcast use vstd::utf8::encode_utf8_valid_utf8;
        assert(valid_utf8(b));
    }
    let mut r: Vec<(usize, usize)> = Vec::new();
    let mut start: usize = 0;
    loop
        invariant
            n == b.len(),
            b == text.spec_bytes(),
            valid_utf8(b),
            start <= n,
            is_char_boundary(b, start as int),
            r@.len() == 0 ==> start == 0,
            r@.len() > 0 ==> r@[0].0 == 0,
            chunks_so_far(b, r@),
            r@.len() > 0 ==> r@.last().0 + CHARACTERS_PER_CHUNK < n,
            r@.len() > 0 ==> is_last_boundary_below(b, r@.last().0 as int, r@.last().0 + CHARACTERS_PER_CHUNK, r@.last().1 as int),
            r@.len() > 0 ==> is_last_boundary_below(b, r@.last().0 as int, r@.last().1 - CHUNK_OVERLAP, start as int),
        decreases n - start,
    {
        if n - start <= CHARACTERS_PER_CHUNK {
            proof {
                broadcast use vstd::utf8::is_char_boundary_start_end_of_seq;
                lemma_push_chunk(b, r@, start, n);
            }
            r.push((start, n));
            return r;
        }
        let end = last_boundary_below(text, start, start + CHARACTERS_PER_CHUNK);
        proof {
            let k = lemma_boundary_near(b, start + CHARACTERS_PER_CHUNK - 1);
            assert(end >= k);
        }
        let next = last_boundary_below(text, start, end - CHUNK_OVERLAP);
        proof {
            let k = lemma_boundary_near(b, end - CHUNK_OVERLAP - 1);
            assert(next >= k);
            lemma_push_chunk(b, r@, start, end);
        }
        r.push((start, end));
        start = next;
    }
}

/// Chunks of a valid UTF-8 text as `chunk_bounds` cuts them start at 0, end at the end of the text,
/// never split a character, hold at most `CHARACTERS_PER_CHUNK` bytes, and
/// each overlaps the next by `CHUNK_OVERLAP` bytes or more while starting
/// after the one before.
pub proof fn lemma_chunks_cover(b: Seq<u8>, r: Seq<(usize, usize)>)
    requires
        valid_utf8(b),
        are_chunks_of(b, r),
    ensures
        r[0].0 == 0,
        r.last().1 == b.len(),
        forall|i: int| 0 <= i < r.len() ==> is_char_boundary(b, #[trigger] r[i].0 as int) && is_char_boundary(b, r[i].1 as int),
        forall|i: int| 0 <= i < r.len() ==> #[trigger] r[i].1 - r[i].0 <= CHARACTERS_PER_CHUNK,
        forall|i: int| 0 <= i < r.len() - 1 ==> #[trigger] r[i].1 - r[i + 1].0 >= CHUNK_OVERLAP,
        forall|i: int| 0 <= i < r.len() - 1 ==> #[trigger] r[i].0 < r[i + 1].0,
{
    assert forall|i: int| 0 <= i < r.len() - 1 implies #[trigger] r[i].1 - r[i + 1].0 >= CHUNK_OVERLAP by {
        assert(r[i].0 + CHARACTERS_PER_CHUNK < b.len());
    }
    assert forall|i: int| 0 <= i < r.len() implies is_char_boundary(b, #[trigger] r[i].0 as int) && is_char_boundary(b, r[i].1 as int) by {
        assert(r[i].0 <= r[i].1);
    }
    assert forall|i: int| 0 <= i < r.len() - 1 implies #[trigger] r[i].0 < r[i + 1].0 by {
        assert(r[i].0 + CHARACTERS_PER_CHUNK < b.len());
        assert(is_last_boundary_below(b, r[i].0 as int, r[i].1 - CHUNK_OVERLAP, r[i + 1].0 as int));
        assert(is_last_boundary_below(b, r[i].0 as int, r[i].0 + CHARACTERS_PER_CHUNK, r[i].1 as int));
        let k1 = lemma_boundary_near(b, r[i].0 + CHARACTERS_PER_CHUNK - 1);
        assert(r[i].1 >= k1);
        let k2 = lemma_boundary_near(b, r[i].1 - CHUNK_OVERLAP - 1);
        assert(r[i + 1].0 >= k2);
    }
}

} // verus!
