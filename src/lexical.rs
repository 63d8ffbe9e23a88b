//! The lexical index: per-document term maps and BM25+ relevance, in fixed point.

use vstd::prelude::*;
use crate::arena::{arena_docs, doc_view, packed, slab_entries, slab_get, slab_next, slab_vacant_key, DocView};
use crate::fusion::MAX_LEXICAL_SCORE;
use crate::terms::{fst_entries, fst_get, lower_utf8, lowercase};
use crate::text::{chars_of, split_runs, words_of, Split};

verus! {

/// The fixed-point unit of logarithms: `LOG_ONE` stands for 1.0.
pub const LOG_ONE: u64 = 67108864;

/// Most words the corpus may hold. Within it and `MAX_DOCUMENTS`, one more
/// occurrence of a term raises the term-frequency part by at least one unit of
/// `FRACTION_ONE`, and every product stays within 128 bits.
pub const MAX_CORPUS_WORDS: u64 = 16777216;

/// Most documents the corpus may hold; the idf of any term is then at least
/// one unit of `LOG_ONE`.
pub const MAX_DOCUMENTS: usize = 16777216;

/// The fixed-point unit of the term-frequency fraction: `FRACTION_ONE` stands
/// for 1.0. It is fine enough that one more occurrence of a term always shows.
pub const FRACTION_ONE: u128 = 9007199254740992;

/// The terms of a text: its words, case-folded, as UTF-8 bytes.
pub open spec fn terms_of(s: Seq<char>) -> Seq<Seq<u8>> {
    words_of(s).map_values(|w: Seq<char>| lower_utf8(w))
}

/// The terms of `text`, in order.
pub fn text_terms(text: &str) -> (r: Vec<Vec<u8>>)
    ensures
        r@.len() == terms_of(text@).len(),
        forall|i: int| 0 <= i < r@.len() ==> #[trigger] r@[i]@ == terms_of(text@)[i],
{
    let cs = chars_of(text);
    let words = split_runs(&cs, Split::Words);
    let mut r: Vec<Vec<u8>> = Vec::new();
    for i in 0..words.len()
        invariant
            cs@ == text@,
            words@.len() == words_of(text@).len(),
            forall|k: int| 0 <= k < words@.len() ==> #[trigger] words@[k]@ == words_of(text@)[k],
            r@.len() == i,
            forall|k: int| 0 <= k < i ==> #[trigger] r@[k]@ == terms_of(text@)[k],
    {
        r.push(lowercase(&words[i]));
    }
    r
}

pub open spec fn pow2(e: nat) -> nat
    decreases e,
{
    if e == 0 {
        1
    } else {
        2 * pow2((e - 1) as nat)
    }
}

/// `floor(log2(x))`, with 0 for 0 and 1.
pub open spec fn floor_log2(x: nat) -> nat
    decreases x,
{
    if x <= 1 {
        0
    } else {
        1 + floor_log2(x / 2)
    }
}

pub proof fn lemma_floor_log2(x: nat)
    requires
        x >= 1,
    ensures
        pow2(floor_log2(x)) <= x < 2 * pow2(floor_log2(x)),
    decreases x,
{
    if x > 1 {
        lemma_floor_log2(x / 2);
    }
}

/// Base-2 logarithm of `num / den` (at least 1) in units of `LOG_ONE`: the
/// integer part is exact, and between two powers of two the value is linear.
pub open spec fn log2_fixed(num: nat, den: nat) -> int {
    let e = floor_log2(num / den);
    e * LOG_ONE + (num * LOG_ONE) as int / (den * pow2(e)) as int - LOG_ONE
}

pub fn log2_fixed_exec(num: u128, den: u128) -> (r: u128)
    requires
        0 < den <= num,
        num <= 0x10000_0000_0000_0000_0,
    ensures
        r == log2_fixed(num as nat, den as nat),
        LOG_ONE * floor_log2((num / den) as nat) <= r < LOG_ONE * (floor_log2((num / den) as nat) + 1),
{
    let q = num / den;
    let ghost fq = floor_log2(q as nat);
    proof {
        assert(q >= 1) by (nonlinear_arith) requires 0 < den <= num, q == num / den;
        lemma_floor_log2(q as nat);
        assert(pow2(0) == 1);
        assert(den * q <= num) by (nonlinear_arith) requires q == num / den, den > 0;
        lemma_pow2_gt(fq);
    }
    let mut x = q;
    let mut e: u128 = 0;
    let mut p: u128 = den;
    while x > 1
        invariant
            x >= 1,
            fq == e + floor_log2(x as nat),
            p == den * pow2(e as nat),
            fq < q <= 0x10000_0000_0000_0000_0,
            pow2(fq) <= q,
            0 < den <= num,
            den * q <= num,
            num <= 0x10000_0000_0000_0000_0,
        decreases x,
    {
        proof {
            assert(floor_log2(x as nat) == 1 + floor_log2((x / 2) as nat));
            assert(pow2((e + 1) as nat) == 2 * pow2(e as nat));
            lemma_pow2_mono((e + 1) as nat, fq);
            assert(den * pow2((e + 1) as nat) <= den * q) by (nonlinear_arith)
                requires pow2((e + 1) as nat) <= q;
            assert(p * 2 == den * pow2((e + 1) as nat)) by (nonlinear_arith)
                requires p == den * pow2(e as nat), pow2((e + 1) as nat) == 2 * pow2(e as nat);
        }
        x = x / 2;
        e = e + 1;
        p = p * 2;
    }
    proof {
        assert(floor_log2(x as nat) == 0);
        assert(p <= num) by (nonlinear_arith) requires p == den * pow2(fq), pow2(fq) <= q, q == num / den, den > 0;
        assert(num < 2 * p) by (nonlinear_arith)
            requires p == den * pow2(fq), q < 2 * pow2(fq), q == num / den, den > 0;
        assert((num as int) * (LOG_ONE as int) / (p as int) >= LOG_ONE) by (nonlinear_arith) requires p <= num, p > 0;
        assert((num as int) * (LOG_ONE as int) / (p as int) < 2 * LOG_ONE) by (nonlinear_arith) requires num < 2 * p, p > 0;
    }
    let frac = num * (LOG_ONE as u128) / p;
    assert(e * LOG_ONE <= 0x10000_0000_0000_0000_0 * LOG_ONE) by (nonlinear_arith)
        requires e <= 0x10000_0000_0000_0000_0;
    e * (LOG_ONE as u128) + frac - (LOG_ONE as u128)
}

pub proof fn lemma_pow2_gt(n: nat)
    ensures
        pow2(n) > n,
    decreases n,
{
    if n > 0 {
        lemma_pow2_gt((n - 1) as nat);
    }
}

pub proof fn lemma_pow2_mono(a: nat, b: nat)
    requires
        a <= b,
    ensures
        pow2(a) <= pow2(b),
    decreases b,
{
    if a < b {
        lemma_pow2_mono(a, (b - 1) as nat);
    }
}

/// A stored document: its text, the content hash it was stored under, the
/// count of each of its terms, and its number of words.
pub struct Document {
    pub text: String,
    pub hash: String,
    pub terms: fst::Map<Vec<u8>>,
    pub word_count: u64,
}

/// What scoring reads of a document: its term counts and its number of words.
pub type DocStats = (Map<Seq<u8>, u64>, nat);

pub open spec fn stats(d: Document) -> DocStats {
    (fst_entries(d.terms), d.word_count as nat)
}

pub open spec fn view_stats(v: DocView) -> DocStats {
    (v.2, v.3 as nat)
}

/// What scoring reads of each document of a packed arena, in key order.
pub open spec fn arena_stats(s: slab::Slab<Document>) -> Seq<DocStats> {
    arena_docs(s).map_values(|v: DocView| view_stats(v))
}

/// Occurrences of term `w` in a document.
pub open spec fn tf(d: DocStats, w: Seq<u8>) -> nat {
    if d.0.contains_key(w) {
        d.0[w] as nat
    } else {
        0
    }
}

/// Number of documents that hold term `w`.
pub open spec fn doc_freq(docs: Seq<DocStats>, w: Seq<u8>) -> nat
    decreases docs.len(),
{
    if docs.len() == 0 {
        0
    } else {
        doc_freq(docs.drop_last(), w) + if docs.last().0.contains_key(w) {
            1nat
        } else {
            0nat
        }
    }
}

/// Inverse document frequency, `log((N - n + 1/2) / (n + 1/2) + 1)`, that is
/// `log((2N + 2) / (2n + 1))`, taken in base 2.
pub open spec fn idf(docs: Seq<DocStats>, w: Seq<u8>) -> int {
    log2_fixed(2 * docs.len() + 2, 2 * doc_freq(docs, w) + 1)
}

/// The term-frequency part of BM25+, `tf * (k1 + 1) / (tf + k1 * (1 - b + b * dl / avgdl))`
/// with `k1 = 6/5`, `b = 3/4` and `avgdl = total / n`, brought to a common
/// denominator, in units of `FRACTION_ONE`, rounded down. With no words in the
/// corpus it is 0.
pub open spec fn tf_part(tf: int, dl: int, total: int, n: int) -> int {
    let den = 10 * (tf * total) + 3 * total + 9 * (dl * n);
    if den == 0 {
        0
    } else {
        (FRACTION_ONE * (22 * (tf * total))) / den
    }
}

/// One query term's BM25+ contribution, `idf * (tf part + delta)` with
/// `delta = 1`, in units of `LOG_ONE * FRACTION_ONE`.
pub open spec fn term_score(w: int, tf: int, dl: int, total: int, n: int) -> int {
    w * FRACTION_ONE + w * tf_part(tf, dl, total, n)
}

/// BM25+ score of document `d` for the query terms `q`: the sum of the
/// terms' contributions, held at `MAX_LEXICAL_SCORE` should it reach it.
pub open spec fn bm25(docs: Seq<DocStats>, total: nat, q: Seq<Seq<u8>>, d: DocStats) -> int
    decreases q.len(),
{
    if q.len() == 0 {
        0
    } else {
        let s = bm25(docs, total, q.drop_last(), d) + term_score(
            idf(docs, q.last()),
            tf(d, q.last()) as int,
            d.1 as int,
            total as int,
            docs.len() as int,
        );
        if s > MAX_LEXICAL_SCORE {
            MAX_LEXICAL_SCORE as int
        } else {
            s
        }
    }
}

/// A document's counts are within bounds: no term more often than its words,
/// no more words than the corpus.
pub open spec fn doc_bounded(d: DocStats, total: nat) -> bool {
    &&& d.1 <= total
    &&& forall|w: Seq<u8>| #[trigger] d.0.contains_key(w) ==> d.0[w] <= d.1
}

/// The corpus counts stay small enough for the fixed-point arithmetic.
pub open spec fn corpus_bounded(docs: Seq<DocStats>, total: nat) -> bool {
    &&& total <= MAX_CORPUS_WORDS
    &&& docs.len() <= MAX_DOCUMENTS
    &&& forall|i: int| 0 <= i < docs.len() ==> #[trigger] docs[i].1 <= total
    &&& forall|i: int, w: Seq<u8>| 0 <= i < docs.len() && #[trigger] docs[i].0.contains_key(w)
        ==> docs[i].0[w] <= docs[i].1
}

/// Number of documents that hold `w`.
fn doc_frequency(docs: &slab::Slab<Document>, n: usize, w: &Vec<u8>) -> (r: usize)
    requires
        packed(*docs),
        n == slab_next(*docs),
    ensures
        r == doc_freq(arena_stats(*docs), w@),
{
    let ghost st = arena_stats(*docs);
    let mut r: usize = 0;
    for i in 0..n
        invariant
            packed(*docs),
            n == slab_next(*docs),
            st == arena_stats(*docs),
            r == doc_freq(st.take(i as int), w@),
            r <= i,
    {
        proof {
            assert(st.take(i + 1).drop_last() =~= st.take(i as int));
        }
        let d = document_at(docs, i);
        if fst_get(&d.terms, w).is_some() {
            r = r + 1;
        }
    }
    assert(st.take(n as int) =~= st);
    r
}

/// The document in slot `i` of a packed arena.
pub(crate) fn document_at(docs: &slab::Slab<Document>, i: usize) -> (d: &Document)
    requires
        packed(*docs),
        i < slab_next(*docs),
    ensures
        doc_view(*d) == arena_docs(*docs)[i as int],
        stats(*d) == arena_stats(*docs)[i as int],
{
    match slab_get(docs, i) {
        Some(d) => d,
        None => {
            proof {
                assert(slab_entries(*docs).contains_key(i));
            }
            unreached()
        },
    }
}

fn term_score_exec(idf: u128, tf: u64, dl: u64, total: u64, n: usize) -> (r: u128)
    requires
        idf < 0x8000_0000,
        tf <= dl <= total <= MAX_CORPUS_WORDS,
        n <= MAX_DOCUMENTS,
    ensures
        r == term_score(idf as int, tf as int, dl as int, total as int, n as int),
        r < 0x40_0000_0000_0000_0000_0000,
{
    let t = tf as u128;
    let l = dl as u128;
    let m = total as u128;
    let k = n as u128;
    proof {
        assert(t * m <= 0x100_0000 * 0x100_0000) by (nonlinear_arith)
            requires t <= 0x100_0000, m <= 0x100_0000;
        assert(l * k <= 0x100_0000 * 0x100_0000) by (nonlinear_arith)
            requires l <= 0x100_0000, k <= 0x100_0000;
    }
    let tm = t * m;
    let lk = l * k;
    let den = 10 * tm + 3 * m + 9 * lk;
    let part: u128 = if den == 0 {
        0
    } else {
        proof {
            assert(FRACTION_ONE * (22 * tm) <= 3 * FRACTION_ONE * den) by (nonlinear_arith)
                requires den == 10 * tm + 3 * m + 9 * lk;
            assert((FRACTION_ONE * (22 * tm)) as int / (den as int) <= 3 * FRACTION_ONE) by (nonlinear_arith)
                requires FRACTION_ONE * (22 * tm) <= 3 * FRACTION_ONE * den, den > 0;
        }
        FRACTION_ONE * (22 * tm) / den
    };
    proof {
        assert(idf * FRACTION_ONE + idf * part < 0x8000_0000 * FRACTION_ONE * 4) by (nonlinear_arith)
            requires idf < 0x8000_0000, part <= 3 * FRACTION_ONE;
    }
    idf * FRACTION_ONE + idf * part
}

/// BM25+ relevance of every document to `query`, in document order (higher is
/// more relevant; `RAG::lexical_ranking` ranks it). Query terms are taken as `text_terms` takes them.
pub fn bm25_plus(docs: &slab::Slab<Document>, total_words: u64, query: &str) -> (r: Vec<u128>)
    requires
        packed(*docs),
        corpus_bounded(arena_stats(*docs), total_words as nat),
    ensures
        r@.len() == arena_stats(*docs).len(),
        forall|i: int| 0 <= i < r@.len() ==> r@[i] == bm25(arena_stats(*docs), total_words as nat, terms_of(query@), arena_stats(*docs)[i]),
        forall|i: int| 0 <= i < r@.len() ==> r@[i] <= MAX_LEXICAL_SCORE,
{
    let q = text_terms(query);
    let ghost qs = terms_of(query@);
    let n = slab_vacant_key(docs);
    let ghost st = arena_stats(*docs);
    let mut idfs: Vec<u128> = Vec::new();
    for j in 0..q.len()
        invariant
            q@.len() == qs.len(),
            forall|k: int| 0 <= k < q@.len() ==> #[trigger] q@[k]@ == qs[k],
            n == slab_next(*docs),
            packed(*docs),
            st == arena_stats(*docs),
            idfs@.len() == j,
            forall|k: int| 0 <= k < j ==> #[trigger] idfs@[k] == idf(st, qs[k]) && idfs@[k] < 0x8000_0000,
            corpus_bounded(st, total_words as nat),
    {
        let f = doc_frequency(docs, n, &q[j]);
        proof {
            lemma_doc_freq_le(st, q@[j as int]@);
        }
        let v = log2_fixed_exec(2 * (n as u128) + 2, 2 * (f as u128) + 1);
        proof {
            let num = (2 * n + 2) as nat;
            let den = (2 * f + 1) as nat;
            let fl = floor_log2(num / den);
            assert(num / den >= 1) by (nonlinear_arith) requires den >= 1, num >= den;
            lemma_floor_log2(num / den);
            lemma_pow2_gt(fl);
            assert(num / den <= num) by (nonlinear_arith) requires den >= 1;
            assert(fl <= 25) by {
                if fl > 25 {
                    lemma_pow2_mono(26, fl);
                    lemma_pow2_26();
                }
            }
            assert(LOG_ONE * (fl + 1) <= LOG_ONE * 26) by (nonlinear_arith) requires fl <= 25;
        }
        idfs.push(v);
    }
    let mut r: Vec<u128> = Vec::new();
    for i in 0..n
        invariant
            q@.len() == qs.len(),
            forall|k: int| 0 <= k < q@.len() ==> #[trigger] q@[k]@ == qs[k],
            n == slab_next(*docs),
            packed(*docs),
            st == arena_stats(*docs),
            idfs@.len() == q@.len(),
            forall|k: int| 0 <= k < q@.len() ==> #[trigger] idfs@[k] == idf(st, qs[k]) && idfs@[k] < 0x8000_0000,
            corpus_bounded(st, total_words as nat),
            r@.len() == i,
            forall|k: int| 0 <= k < i ==> #[trigger] r@[k] == bm25(st, total_words as nat, qs, st[k]),
            forall|k: int| 0 <= k < i ==> #[trigger] r@[k] <= MAX_LEXICAL_SCORE,
    {
        let d = document_at(docs, i);
        let mut sum: u128 = 0;
        for j in 0..q.len()
            invariant
                q@.len() == qs.len(),
                forall|k: int| 0 <= k < q@.len() ==> #[trigger] q@[k]@ == qs[k],
                idfs@.len() == q@.len(),
                forall|k: int| 0 <= k < q@.len() ==> #[trigger] idfs@[k] == idf(st, qs[k]) && idfs@[k] < 0x8000_0000,
                corpus_bounded(st, total_words as nat),
                i < n,
                n == st.len(),
                stats(*d) == st[i as int],
                sum == bm25(st, total_words as nat, qs.take(j as int), stats(*d)),
                sum <= MAX_LEXICAL_SCORE,
        {
            let t = match fst_get(&d.terms, &q[j]) {
                Some(c) => c,
                None => 0,
            };
            proof {
                assert(qs.take(j + 1).drop_last() =~= qs.take(j as int));
                assert(d.word_count <= total_words);
            }
            let s = term_score_exec(idfs[j], t, d.word_count, total_words, n);
            if s > MAX_LEXICAL_SCORE - sum {
                sum = MAX_LEXICAL_SCORE;
            } else {
                sum = sum + s;
            }
        }
        proof {
            assert(qs.take(q@.len() as int) =~= qs);
        }
        r.push(sum);
    }
    r
}

proof fn lemma_doc_freq_le(docs: Seq<DocStats>, w: Seq<u8>)
    ensures
        doc_freq(docs, w) <= docs.len(),
    decreases docs.len(),
{
    if docs.len() > 0 {
        lemma_doc_freq_le(docs.drop_last(), w);
    }
}

proof fn lemma_pow2_26()
    ensures
        pow2(26) == 0x400_0000,
{
    reveal_with_fuel(pow2, 14);
    assert(pow2(13) == 0x2000);
    lemma_pow2_add(13, 13);
}

proof fn lemma_pow2_add(a: nat, b: nat)
    ensures
        pow2(a + b) == pow2(a) * pow2(b),
    decreases a,
{
    if a > 0 {
        let a1 = (a - 1) as nat;
        lemma_pow2_add(a1, b);
        let x = pow2(a1 + b);
        let y = pow2(a1);
        let z = pow2(b);
        assert(pow2(a + b) == 2 * x);
        assert(pow2(a) == 2 * y);
        assert(x == y * z);
        assert(2 * x == (2 * y) * z) by (nonlinear_arith) requires x == y * z;
    } else {
        assert(pow2(0) == 1);
        assert(a + b == b);
    }
}

/// Rounding down keeps order: `x / a` at least `y / b` gives `floor(x / a)`
/// at least `floor(y / b)`, and strictly more where it exceeds it by 1 or more.
proof fn lemma_floor_order(x: int, a: int, y: int, b: int)
    requires
        a > 0,
        b > 0,
        x >= 0,
        y >= 0,
        x * b >= y * a,
    ensures
        x / a >= y / b,
        x * b >= y * a + a * b ==> x / a >= y / b + 1,
{
    let qa = x / a;
    let qb = y / b;
    assert(a * qa <= x < a * (qa + 1)) by (nonlinear_arith) requires a > 0, qa == x / a;
    assert(b * qb <= y < b * (qb + 1)) by (nonlinear_arith) requires b > 0, qb == y / b;
    if qa < qb {
        assert(false) by (nonlinear_arith)
            requires x < a * (qa + 1), qa + 1 <= qb, b * qb <= y, x * b >= y * a, a > 0, b > 0;
    }
    if x * b >= y * a + a * b && qa <= qb {
        assert(false) by (nonlinear_arith)
            requires x < a * (qa + 1), qa <= qb, b * qb <= y, x * b >= y * a + a * b, a > 0, b > 0;
    }
}

/// At equal length, the term-frequency part grows with the count, strictly
/// for a strictly higher count.
pub proof fn lemma_tf_part_monotone(ta: int, tb: int, dl: int, total: int, n: int)
    requires
        0 <= tb <= ta <= dl <= total <= MAX_CORPUS_WORDS,
        0 <= n <= MAX_DOCUMENTS,
    ensures
        tf_part(ta, dl, total, n) >= tf_part(tb, dl, total, n),
        ta > tb ==> tf_part(ta, dl, total, n) > tf_part(tb, dl, total, n),
{
    let c = 3 * total + 9 * (dl * n);
    let da = 10 * (ta * total) + c;
    let db = 10 * (tb * total) + c;
    if total > 0 {
        let xa = FRACTION_ONE * (22 * (ta * total));
        let xb = FRACTION_ONE * (22 * (tb * total));
        assert(c >= 3 * total) by (nonlinear_arith) requires c == 3 * total + 9 * (dl * n), dl >= 0, n >= 0;
        assert(da > 0 && db > 0) by (nonlinear_arith)
            requires da == 10 * (ta * total) + c, db == 10 * (tb * total) + c, ta >= 0, tb >= 0, total > 0, c >= 3 * total;
        // xa * db - xb * da == FRACTION_ONE * 22 * total * c * (ta - tb)
        assert(xa * db - xb * da == FRACTION_ONE * 22 * total * c * (ta - tb)) by (nonlinear_arith)
            requires xa == FRACTION_ONE * (22 * (ta * total)), xb == FRACTION_ONE * (22 * (tb * total)),
                da == 10 * (ta * total) + c, db == 10 * (tb * total) + c;
        assert(FRACTION_ONE * 22 * total * c * (ta - tb) >= 0) by (nonlinear_arith)
            requires ta >= tb, total > 0, c >= 0;
        if ta > tb {
            assert(da <= total * 0x2000_0000 && db <= total * 0x2000_0000) by (nonlinear_arith)
                requires da == 10 * (ta * total) + c, db == 10 * (tb * total) + c, c == 3 * total + 9 * (dl * n),
                    0 <= tb <= ta <= dl <= total, total <= 0x100_0000, 0 <= n <= 0x100_0000;
            assert(da * db <= total * total * 0x400_0000_0000_0000) by (nonlinear_arith)
                requires da <= total * 0x2000_0000, db <= total * 0x2000_0000, da > 0, db > 0, total > 0;
            assert(FRACTION_ONE * 22 * total * c * (ta - tb) >= total * total * 0x400_0000_0000_0000) by (nonlinear_arith)
                requires c >= 3 * total, ta - tb >= 1, total > 0, FRACTION_ONE == 0x20_0000_0000_0000;
        }
        lemma_floor_order(xa, da, xb, db);
    }
}

/// Every query term counts: with at most `MAX_DOCUMENTS` documents, the idf
/// of any term is at least one unit.
pub proof fn lemma_idf_positive(docs: Seq<DocStats>, w: Seq<u8>)
    requires
        docs.len() <= MAX_DOCUMENTS,
    ensures
        idf(docs, w) >= 1,
{
    let n = docs.len();
    let f = doc_freq(docs, w);
    lemma_doc_freq_le(docs, w);
    let num = 2 * n + 2;
    let den = 2 * f + 1;
    let q = num / den;
    assert(q >= 1) by (nonlinear_arith) requires num >= den, den >= 1, q == num / den;
    let e = floor_log2(q);
    lemma_floor_log2(q);
    if e == 0 {
        assert(pow2(0) == 1);
        assert((num * LOG_ONE) as int / (den * pow2(e)) as int >= LOG_ONE + 1) by {
            assert(num * LOG_ONE >= den * (LOG_ONE + 1)) by (nonlinear_arith)
                requires num == 2 * n + 2, den == 2 * f + 1, f <= n, n <= 0x100_0000;
            assert((num * LOG_ONE) as int / (den as int) >= LOG_ONE + 1) by (nonlinear_arith)
                requires num * LOG_ONE >= den * (LOG_ONE + 1), den >= 1;
        }
    } else {
        lemma_pow2_gt(e);
        assert(den * pow2(e) >= 1) by (nonlinear_arith) requires den >= 1, pow2(e) >= 1;
        assert(num >= den * pow2(e)) by (nonlinear_arith)
            requires pow2(e) <= q, q == num / den, den >= 1;
        assert((num * LOG_ONE) as int / (den * pow2(e)) as int >= LOG_ONE) by (nonlinear_arith)
            requires num >= den * pow2(e), den * pow2(e) >= 1;
        assert(e * LOG_ONE >= LOG_ONE) by (nonlinear_arith) requires e >= 1;
    }
}

/// More occurrences at equal length never rank lower: when document `a`
/// holds every query term at least as often as `b`, both of the same length,
/// `a` scores at least as high; strictly higher where it holds some query
/// term more often and its score is below `MAX_LEXICAL_SCORE`.
pub proof fn lemma_bm25_monotone(docs: Seq<DocStats>, total: nat, q: Seq<Seq<u8>>, a: DocStats, b: DocStats)
    requires
        total <= MAX_CORPUS_WORDS,
        docs.len() <= MAX_DOCUMENTS,
        doc_bounded(a, total),
        doc_bounded(b, total),
        a.1 == b.1,
        forall|k: int| 0 <= k < q.len() ==> tf(a, #[trigger] q[k]) >= tf(b, q[k]),
    ensures
        bm25(docs, total, q, a) >= bm25(docs, total, q, b),
        (exists|k: int| 0 <= k < q.len() && tf(a, #[trigger] q[k]) > tf(b, q[k]))
            && bm25(docs, total, q, a) < MAX_LEXICAL_SCORE ==> bm25(docs, total, q, a) > bm25(docs, total, q, b),
    decreases q.len(),
{
    if q.len() > 0 {
        let p = q.drop_last();
        let w = q.last();
        assert forall|k: int| 0 <= k < p.len() implies tf(a, #[trigger] p[k]) >= tf(b, p[k]) by {
            assert(p[k] == q[k]);
        }
        lemma_bm25_monotone(docs, total, p, a, b);
        assert(tf(a, w) >= tf(b, w)) by {
            assert(q[q.len() - 1] == w);
        }
        assert(tf(a, w) <= a.1 && tf(b, w) <= b.1);
        lemma_tf_part_monotone(tf(a, w) as int, tf(b, w) as int, a.1 as int, total as int, docs.len() as int);
        let i = idf(docs, w);
        lemma_idf_positive(docs, w);
        let pa = tf_part(tf(a, w) as int, a.1 as int, total as int, docs.len() as int);
        let pb = tf_part(tf(b, w) as int, b.1 as int, total as int, docs.len() as int);
        assert(i * pa >= i * pb) by (nonlinear_arith) requires pa >= pb, i >= 1;
        if tf(a, w) > tf(b, w) {
            assert(i * pa > i * pb) by (nonlinear_arith) requires pa > pb, i >= 1;
        }
        lemma_bm25_nonneg(docs, total, p, a);
        lemma_bm25_nonneg(docs, total, p, b);
        if exists|k: int| 0 <= k < q.len() && tf(a, #[trigger] q[k]) > tf(b, q[k]) {
            let k = choose|k: int| 0 <= k < q.len() && tf(a, #[trigger] q[k]) > tf(b, q[k]);
            if k < p.len() {
                assert(p[k] == q[k]);
                assert(exists|m: int| 0 <= m < p.len() && tf(a, #[trigger] p[m]) > tf(b, p[m]));
            }
        }
    }
}

proof fn lemma_bm25_nonneg(docs: Seq<DocStats>, total: nat, q: Seq<Seq<u8>>, d: DocStats)
    requires
        docs.len() <= MAX_DOCUMENTS,
    ensures
        0 <= bm25(docs, total, q, d) <= MAX_LEXICAL_SCORE,
    decreases q.len(),
{
    if q.len() > 0 {
        lemma_bm25_nonneg(docs, total, q.drop_last(), d);
        lemma_idf_positive(docs, q.last());
        let i = idf(docs, q.last());
        let pt = tf_part(tf(d, q.last()) as int, d.1 as int, total as int, docs.len() as int);
        assert(pt >= 0) by {
            let tt = tf(d, q.last()) as int;
            let den = 10 * (tt * total) + 3 * total + 9 * (d.1 * docs.len());
            if den != 0 {
                assert(FRACTION_ONE * (22 * (tt * total)) >= 0) by (nonlinear_arith) requires tt >= 0;
                assert(den > 0) by (nonlinear_arith) requires tt >= 0, den == 10 * (tt * total) + 3 * total + 9 * (d.1 * docs.len()), den != 0;
                assert((FRACTION_ONE * (22 * (tt * total))) / den >= 0) by (nonlinear_arith)
                    requires FRACTION_ONE * (22 * (tt * total)) >= 0, den > 0;
            }
        }
        assert(i * FRACTION_ONE + i * pt >= 0) by (nonlinear_arith) requires i >= 1, pt >= 0;
    }
}

/// BM25+ on two documents of 50 words, where `a` holds the query term 5 times
/// and `b` does not hold it: `a` scores above `b`, and `b` still scores above
/// zero, from the floor term `delta`.
pub proof fn lemma_bm25_floor_example(a: DocStats, b: DocStats, w: Seq<u8>)
    requires
        a.0.contains_key(w),
        a.0[w] == 5,
        a.1 == 50,
        !b.0.contains_key(w),
        b.1 == 50,
        forall|k: Seq<u8>| #[trigger] a.0.contains_key(k) ==> a.0[k] <= 50,
        forall|k: Seq<u8>| #[trigger] b.0.contains_key(k) ==> b.0[k] <= 50,
    ensures
        bm25(seq![a, b], 100, seq![w], a) > bm25(seq![a, b], 100, seq![w], b),
        bm25(seq![a, b], 100, seq![w], b) > 0,
{
    let docs = seq![a, b];
    let q = seq![w];
    assert(q[0] == w);
    assert(tf(a, w) == 5 && tf(b, w) == 0);
    lemma_idf_positive(docs, w);
    lemma_idf_bounded(docs, w);
    assert(q.drop_last() =~= Seq::<Seq<u8>>::empty());
    assert(q.last() == w);
    let i = idf(docs, w);
    let pt = tf_part(5, 50, 100, 2);
    assert(pt == (FRACTION_ONE * 11000) / 6200);
    assert(pt <= 2 * FRACTION_ONE) by (nonlinear_arith) requires pt == (FRACTION_ONE * 11000) / 6200;
    assert(bm25(docs, 100, q.drop_last(), a) == 0);
    assert(bm25(docs, 100, q.drop_last(), b) == 0);
    assert(term_score(i, 5, 50, 100, 2) == i * FRACTION_ONE + i * pt);
    assert(tf_part(0, 50, 100, 2) == 0);
    assert(term_score(i, 0, 50, 100, 2) == i * FRACTION_ONE);
    assert(i * FRACTION_ONE + i * pt < 0x8000_0000 * FRACTION_ONE * 4) by (nonlinear_arith)
        requires 1 <= i < 0x8000_0000, 0 <= pt <= 2 * FRACTION_ONE;
    assert(i * FRACTION_ONE > 0) by (nonlinear_arith) requires i >= 1;
    assert(bm25(docs, 100, q, a) < MAX_LEXICAL_SCORE);
    assert(bm25(docs, 100, q, b) == i * FRACTION_ONE);
    lemma_bm25_monotone(docs, 100, q, a, b);
}

/// The idf is below `2^31` units for a corpus of at most `MAX_DOCUMENTS` documents.
proof fn lemma_idf_bounded(docs: Seq<DocStats>, w: Seq<u8>)
    requires
        docs.len() <= MAX_DOCUMENTS,
    ensures
        idf(docs, w) < 0x8000_0000,
{
    let n = docs.len();
    let f = doc_freq(docs, w);
    lemma_doc_freq_le(docs, w);
    let num = 2 * n + 2;
    let den = 2 * f + 1;
    let q = num / den;
    assert(1 <= q <= num) by (nonlinear_arith) requires num >= den, den >= 1, q == num / den;
    let e = floor_log2(q);
    lemma_floor_log2(q);
    assert(e <= 25) by {
        if e > 25 {
            lemma_pow2_mono(26, e);
            lemma_pow2_26();
        }
    }
    lemma_pow2_gt(e);
    assert(den * pow2(e) >= 1) by (nonlinear_arith) requires den >= 1, pow2(e) >= 1;
    assert(num < 2 * den * pow2(e)) by (nonlinear_arith)
        requires q < 2 * pow2(e), q == num / den, den >= 1;
    assert((num * LOG_ONE) as int / (den * pow2(e)) as int <= 2 * LOG_ONE) by (nonlinear_arith)
        requires num < 2 * den * pow2(e), den * pow2(e) >= 1;
    assert(e * LOG_ONE <= 25 * LOG_ONE) by (nonlinear_arith) requires e <= 25;
}

} // verus!
