//! Speech output helpers: the pieces a reply is spoken in, and a source of
//! 16-bit mono samples over raw synthesizer output.

use vstd::prelude::*;
use crate::text::{chars_of, is_sentence_end, string_of};

verus! {

/// Sample rate of the synthesizer's raw output, in hertz.
pub const SAMPLE_RATE: u32 = 22050;

/// Number of channels of the synthesizer's raw output.
pub const CHANNELS: u16 = 1;

/// The 16-bit sample whose little-endian bytes are `lo`, `hi`.
pub open spec fn sample_le(lo: u8, hi: u8) -> i16 {
    let v = lo as int + 256 * hi as int;
    if v < 0x8000 {
        v as i16
    } else {
        (v - 0x10000) as i16
    }
}

/// Relies on `i16::from_ne_bytes`: the bytes read in the machine's byte
/// order, which is little- or big-endian.
#[verifier::external_body]
fn sample_from_bytes(a: u8, b: u8) -> (r: i16)
    ensures
        r == sample_le(a, b) || r == sample_le(b, a),
{
    i16::from_ne_bytes([a, b])
}

/// Raw 16-bit samples in the machine's byte order, read two bytes at a time.
pub struct RawSource {
    bytes: Vec<u8>,
    position: usize,
}

impl RawSource {
    pub closed spec fn bytes_view(&self) -> Seq<u8> {
        self.bytes@
    }

    /// Byte offset of the next sample.
    pub closed spec fn position_view(&self) -> nat {
        self.position as nat
    }

    pub closed spec fn wf(&self) -> bool {
        self.position <= self.bytes@.len()
    }

    /// A source at the start of `bytes`.
    pub fn new(bytes: Vec<u8>) -> (r: RawSource)
        ensures
            r.wf(),
            r.bytes_view() == bytes@,
            r.position_view() == 0,
    {
        RawSource { bytes, position: 0 }
    }

    /// Samples left, counting whole pairs of bytes.
    pub fn current_frame_len(&self) -> (r: Option<usize>)
        requires
            self.wf(),
        ensures
            r == Some(((self.bytes_view().len() - self.position_view()) / 2) as usize),
    {
        Some((self.bytes.len() - self.position) / 2)
    }

    pub fn channels(&self) -> (r: u16)
        ensures
            r == CHANNELS,
    {
        CHANNELS
    }

    pub fn sample_rate(&self) -> (r: u32)
        ensures
            r == SAMPLE_RATE,
    {
        SAMPLE_RATE
    }

    /// Number of bytes of the whole output.
    pub fn byte_len(&self) -> (r: usize)
        ensures
            r == self.bytes_view().len(),
    {
        self.bytes.len()
    }

    /// The next sample, or `None` once fewer than two bytes are left.
    pub fn next(&mut self) -> (r: Option<i16>)
        requires
            old(self).wf(),
        ensures
            final(self).wf(),
            final(self).bytes_view() == old(self).bytes_view(),
            ({
                let b = old(self).bytes_view();
                let p = old(self).position_view() as int;
                if p + 1 >= b.len() {
                    r is None && final(self).position_view() == p
                } else {
                    &&& final(self).position_view() == p + 2
                    &&& (r == Some(sample_le(b[p], b[p + 1])) || r == Some(sample_le(b[p + 1], b[p])))
                }
            }),
    {
        if self.bytes.len() - self.position < 2 {
            return None;
        }
        let sample = sample_from_bytes(self.bytes[self.position], self.bytes[self.position + 1]);
        self.position = self.position + 2;
        Some(sample)
    }
}

/// Splits `s` after each sentence end, the end kept with its sentence; a
/// trailing piece without an end is kept too, and an empty text gives none.
pub open spec fn inclusive_pieces(s: Seq<char>) -> Seq<Seq<char>>
    decreases s.len(),
{
    if s.len() == 0 {
        seq![]
    } else {
        let prev = inclusive_pieces(s.drop_last());
        let c = s.last();
        if prev.len() == 0 || is_sentence_end(prev.last().last()) {
            prev.push(seq![c])
        } else {
            prev.update(prev.len() - 1, prev.last().push(c))
        }
    }
}

pub proof fn lemma_inclusive_pieces_nonempty(s: Seq<char>)
    ensures
        forall|i: int| 0 <= i < inclusive_pieces(s).len() ==> #[trigger] inclusive_pieces(s)[i].len() > 0,
    decreases s.len(),
{
    if s.len() > 0 {
        lemma_inclusive_pieces_nonempty(s.drop_last());
        let prev = inclusive_pieces(s.drop_last());
        let r = inclusive_pieces(s);
        assert forall|i: int| 0 <= i < r.len() implies #[trigger] r[i].len() > 0 by {
            if i < prev.len() {
                assert(prev[i].len() > 0);
            }
        }
    }
}

/// The pieces a reply is spoken in: each sentence with its end.
pub fn speech_pieces(s: &str) -> (r: Vec<String>)
    ensures
        r@.len() == inclusive_pieces(s@).len(),
        forall|i: int| 0 <= i < r@.len() ==> #[trigger] r@[i]@ == inclusive_pieces(s@)[i],
{
    let cs = chars_of(s);
    let mut pieces: Vec<Vec<char>> = Vec::new();
    for i in 0..cs.len()
        invariant
            cs@ == s@,
            pieces@.len() == inclusive_pieces(cs@.take(i as int)).len(),
            forall|k: int| 0 <= k < pieces@.len() ==> #[trigger] pieces@[k]@ == inclusive_pieces(cs@.take(i as int))[k],
    {
        let ghost prev = inclusive_pieces(cs@.take(i as int));
        proof {
            assert(cs@.take(i + 1).drop_last() =~= cs@.take(i as int));
            lemma_inclusive_pieces_nonempty(cs@.take(i as int));
        }
        let c = cs[i];
        let n = pieces.len();
        let start_new = if n == 0 {
            true
        } else {
            let last = &pieces[n - 1];
            let e = last[last.len() - 1];
            e == '.' || e == '!' || e == '?' || e == '\n'
        };
        if start_new {
            let mut v: Vec<char> = Vec::new();
            v.push(c);
            pieces.push(v);
            proof {
                assert(pieces@[n as int]@ =~= seq![c]);
            }
        } else {
            let mut last = pieces.pop().unwrap();
            last.push(c);
            pieces.push(last);
            proof {
                assert forall|k: int| 0 <= k < pieces@.len() implies #[trigger] pieces@[k]@ == inclusive_pieces(cs@.take(i + 1))[k] by {
                    if k < n - 1 {
                        assert(pieces@[k]@ == prev[k]);
                    }
                }
            }
        }
    }
    assert(cs@.take(cs@.len() as int) =~= cs@);
    let mut r: Vec<String> = Vec::new();
    for k in 0..pieces.len()
        invariant
            cs@ == s@,
            pieces@.len() == inclusive_pieces(s@).len(),
            forall|j: int| 0 <= j < pieces@.len() ==> #[trigger] pieces@[j]@ == inclusive_pieces(s@)[j],
            r@.len() == k,
            forall|j: int| 0 <= j < k ==> #[trigger] r@[j]@ == inclusive_pieces(s@)[j],
    {
        r.push(string_of(&pieces[k]));
    }
    r
}

} // verus!
