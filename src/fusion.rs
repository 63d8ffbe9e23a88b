//! Fusing vector-index distances with lexical relevance into one ranked list
//! of `(document, distance)` pairs, lower distance meaning more relevant.

use vstd::prelude::*;

verus! {

/// The fixed-point unit of distances: `DIST_ONE` stands for 1.0.
pub const DIST_ONE: u64 = 1000000;

/// `a` ranks before `b`: it is strictly closer.
pub open spec fn closer(a: (usize, u64), b: (usize, u64)) -> bool {
    a.1 < b.1
}

/// Whether candidate `a` ranks strictly before candidate `b`.
pub fn is_closer(a: (usize, u64), b: (usize, u64)) -> (r: bool)
    ensures
        r == closer(a, b),
{
    a.1 < b.1
}

/// Ascending by distance.
pub open spec fn sorted_by_distance(s: Seq<(usize, u64)>) -> bool {
    forall|i: int, j: int| 0 <= i < j < s.len() ==> s[i].1 <= s[j].1
}

/// Inserts `x` after every entry of `s` whose distance is not greater.
pub open spec fn insert_sorted(s: Seq<(usize, u64)>, x: (usize, u64)) -> Seq<(usize, u64)>
    decreases s.len(),
{
    if s.len() == 0 {
        seq![x]
    } else if s.last().1 <= x.1 {
        s.push(x)
    } else {
        insert_sorted(s.drop_last(), x).push(s.last())
    }
}

/// Stable sort by ascending distance: entries at equal distance keep their order.
pub open spec fn sort_by_distance(s: Seq<(usize, u64)>) -> Seq<(usize, u64)>
    decreases s.len(),
{
    if s.len() == 0 {
        s
    } else {
        insert_sorted(sort_by_distance(s.drop_last()), s.last())
    }
}

/// The position at which `insert_sorted` puts `x`.
pub open spec fn insert_pos(s: Seq<(usize, u64)>, x: (usize, u64)) -> int
    decreases s.len(),
{
    if s.len() == 0 || s.last().1 <= x.1 {
        s.len() as int
    } else {
        insert_pos(s.drop_last(), x)
    }
}

pub proof fn lemma_insert_sorted(s: Seq<(usize, u64)>, x: (usize, u64))
    ensures
        0 <= insert_pos(s, x) <= s.len(),
        insert_sorted(s, x) == s.take(insert_pos(s, x)).push(x) + s.skip(insert_pos(s, x)),
        forall|k: int| insert_pos(s, x) <= k < s.len() ==> s[k].1 > x.1,
        insert_pos(s, x) > 0 ==> s[insert_pos(s, x) - 1].1 <= x.1,
        sorted_by_distance(s) ==> sorted_by_distance(insert_sorted(s, x)),
        insert_sorted(s, x).len() == s.len() + 1,
    decreases s.len(),
{
    if s.len() > 0 && s.last().1 > x.1 {
        let t = s.drop_last();
        lemma_insert_sorted(t, x);
        let p = insert_pos(t, x);
        assert(s.take(p) =~= t.take(p));
        assert(t.skip(p).push(s.last()) =~= s.skip(p));
        assert(insert_sorted(s, x) =~= s.take(p).push(x) + s.skip(p));
        assert forall|k: int| p <= k < s.len() implies s[k].1 > x.1 by {
            if k < t.len() {
                assert(s[k] == t[k]);
            }
        }
        if p > 0 {
            assert(s[p - 1] == t[p - 1]);
        }
        if sorted_by_distance(s) {
            let r = insert_sorted(s, x);
            assert forall|i: int, j: int| 0 <= i < j < r.len() implies r[i].1 <= r[j].1 by {
                let rt = insert_sorted(t, x);
                if j < r.len() - 1 {
                    assert(r[i] == rt[i] && r[j] == rt[j]);
                } else {
                    assert(r[j] == s.last());
                    if i < p {
                        assert(r[i] == s[i]);
                    } else if i == p {
                        assert(r[i] == x);
                    } else {
                        assert(r[i] == s[i - 1]);
                    }
                }
            }
        }
    } else {
        if s.len() > 0 {
            assert(s.take(s.len() as int) =~= s);
        } else {
            assert(s.take(0) =~= s);
        }
        assert(s.skip(s.len() as int) =~= Seq::<(usize, u64)>::empty());
        assert(insert_sorted(s, x) =~= s.take(insert_pos(s, x)).push(x) + s.skip(insert_pos(s, x)));
    }
}

pub proof fn lemma_sort_by_distance(s: Seq<(usize, u64)>)
    ensures
        sorted_by_distance(sort_by_distance(s)),
        sort_by_distance(s).len() == s.len(),
    decreases s.len(),
{
    if s.len() > 0 {
        lemma_sort_by_distance(s.drop_last());
        lemma_insert_sorted(sort_by_distance(s.drop_last()), s.last());
    }
}

/// Inserts `x` into `v` as `insert_sorted` does.
fn insert_by_distance(v: &mut Vec<(usize, u64)>, x: (usize, u64))
    ensures
        final(v)@ == insert_sorted(old(v)@, x),
{
    let ghost s = v@;
    proof {
        lemma_insert_sorted(s, x);
    }
    let mut j = v.len();
    while j > 0 && v[j - 1].1 > x.1
        invariant
            j <= v@.len(),
            v@ == s,
            forall|k: int| j <= k < s.len() ==> s[k].1 > x.1,
            j >= insert_pos(s, x),
            insert_pos(s, x) > 0 ==> s[insert_pos(s, x) - 1].1 <= x.1,
        decreases j,
    {
        j = j - 1;
    }
    assert(j == insert_pos(s, x)) by {
        if j > insert_pos(s, x) {
            assert(s[j - 1].1 > x.1);
        }
    }
    v.insert(j, x);
    assert(v@ =~= s.take(j as int).push(x) + s.skip(j as int));
}

/// Sorts by ascending distance, keeping the order of entries at equal distance.
pub fn sort_candidates(v: Vec<(usize, u64)>) -> (r: Vec<(usize, u64)>)
    ensures
        r@ == sort_by_distance(v@),
{
    let mut r: Vec<(usize, u64)> = Vec::new();
    for i in 0..v.len()
        invariant
            r@ == sort_by_distance(v@.take(i as int)),
    {
        proof {
            assert(v@.take(i + 1).drop_last() =~= v@.take(i as int));
        }
        insert_by_distance(&mut r, v[i]);
    }
    assert(v@.take(v@.len() as int) =~= v@);
    r
}

/// The first `k` entries of `s`, or all of them if there are fewer.
pub open spec fn at_most<T>(s: Seq<T>, k: usize) -> Seq<T> {
    if k < s.len() {
        s.take(k as int)
    } else {
        s
    }
}

/// Highest lexical score that `fuse` takes, so that scaling stays within 128 bits.
pub const MAX_LEXICAL_SCORE: u128 = 0x1_0000_0000_0000_0000_0000_0000;

/// Drops trailing entries farther than `threshold`, stopping at the first one
/// from the end that is within it.
pub open spec fn trim_tail(s: Seq<(usize, u64)>, threshold: u64) -> Seq<(usize, u64)>
    decreases s.len(),
{
    if s.len() > 0 && s.last().1 > threshold {
        trim_tail(s.drop_last(), threshold)
    } else {
        s
    }
}

/// The distance the vector search gave document `doc`: its first hit, if any.
pub open spec fn vector_hit(hits: Seq<(usize, u64)>, doc: usize) -> Option<u64>
    decreases hits.len(),
{
    if hits.len() == 0 {
        None
    } else if hits[0].0 == doc {
        Some(hits[0].1)
    } else {
        vector_hit(hits.drop_first(), doc)
    }
}

/// Largest of the scores, 0 for none.
pub open spec fn max_score(s: Seq<u128>) -> int
    decreases s.len(),
{
    if s.len() == 0 {
        0
    } else {
        let m = max_score(s.drop_last());
        if s.last() > m {
            s.last() as int
        } else {
            m
        }
    }
}

/// A lexical score turned into a distance: divided by the top score and
/// subtracted from 1.
pub open spec fn lexical_distance(score: int, top: int) -> int {
    DIST_ONE - (score * DIST_ONE) / top
}

/// The fused distance: the mean of the lexical and vector distances where the
/// vector search found the document, else the lexical distance alone.
pub open spec fn fused_distance(lexical: int, hit: Option<u64>) -> int {
    match hit {
        Some(d) => (lexical + d) / 2,
        None => lexical,
    }
}

/// Every document with its fused distance, in document order.
pub open spec fn fused_list(scores: Seq<u128>, hits: Seq<(usize, u64)>) -> Seq<(usize, u64)> {
    Seq::new(
        scores.len(),
        |i: int| (i as usize, fused_distance(lexical_distance(scores[i] as int, max_score(scores)), vector_hit(hits, i as usize)) as u64),
    )
}

/// The ranked result of fusing lexical `scores` (one per document) with vector
/// `hits`: sorted by fused distance, cut to `top_k`, far tail dropped. Nothing
/// when no document scores above zero.
pub open spec fn fusion(scores: Seq<u128>, hits: Seq<(usize, u64)>, top_k: usize, threshold: u64) -> Seq<(usize, u64)> {
    if max_score(scores) == 0 {
        seq![]
    } else {
        trim_tail(at_most(sort_by_distance(fused_list(scores, hits)), top_k), threshold)
    }
}

pub proof fn lemma_max_score(s: Seq<u128>)
    ensures
        forall|i: int| 0 <= i < s.len() ==> s[i] <= max_score(s),
        0 <= max_score(s) <= u128::MAX,
    decreases s.len(),
{
    if s.len() > 0 {
        lemma_max_score(s.drop_last());
        assert forall|i: int| 0 <= i < s.len() implies s[i] <= max_score(s) by {
            if i < s.len() - 1 {
                assert(s[i] == s.drop_last()[i]);
            }
        }
    }
}

/// The entries of `trim_tail(s, t)` are a prefix of `s`.
pub proof fn lemma_trim_tail_prefix(s: Seq<(usize, u64)>, t: u64)
    ensures
        trim_tail(s, t).len() <= s.len(),
        trim_tail(s, t) == s.take(trim_tail(s, t).len() as int),
    decreases s.len(),
{
    if s.len() > 0 && s.last().1 > t {
        lemma_trim_tail_prefix(s.drop_last(), t);
        let r = trim_tail(s.drop_last(), t);
        assert(s.drop_last().take(r.len() as int) =~= s.take(r.len() as int));
    } else {
        assert(s.take(s.len() as int) =~= s);
    }
}

/// Fusion polarity: a document that both searches found gets a fused distance
/// between its lexical distance and its vector distance.
pub proof fn lemma_fused_between(lexical: int, vector: u64)
    ensures
        lexical <= vector ==> lexical <= fused_distance(lexical, Some(vector)) <= vector,
        vector <= lexical ==> vector <= fused_distance(lexical, Some(vector)) <= lexical,
{
}

/// Threshold monotonicity: raising the threshold keeps every candidate that a
/// lower threshold returned, at the same rank.
pub proof fn lemma_threshold_monotone(scores: Seq<u128>, hits: Seq<(usize, u64)>, top_k: usize, low: u64, high: u64)
    requires
        low <= high,
    ensures
        fusion(scores, hits, top_k, low).len() <= fusion(scores, hits, top_k, high).len(),
        fusion(scores, hits, top_k, low) == fusion(scores, hits, top_k, high).take(
            fusion(scores, hits, top_k, low).len() as int,
        ),
{
    if max_score(scores) != 0 {
        lemma_trim_monotone(at_most(sort_by_distance(fused_list(scores, hits)), top_k), low, high);
    }
}

proof fn lemma_trim_monotone(s: Seq<(usize, u64)>, low: u64, high: u64)
    requires
        low <= high,
    ensures
        trim_tail(s, low).len() <= trim_tail(s, high).len(),
        trim_tail(s, low) == trim_tail(s, high).take(trim_tail(s, low).len() as int),
    decreases s.len(),
{
    lemma_trim_tail_prefix(s, low);
    lemma_trim_tail_prefix(s, high);
    if s.len() > 0 && s.last().1 > high {
        lemma_trim_monotone(s.drop_last(), low, high);
    } else if s.len() > 0 && s.last().1 > low {
        lemma_trim_tail_prefix(s.drop_last(), low);
        let r = trim_tail(s.drop_last(), low);
        assert(s.take(r.len() as int) =~= s.drop_last().take(r.len() as int));
    } else {
        assert(s.take(s.len() as int) =~= s);
    }
}

fn max_of(scores: &Vec<u128>) -> (m: u128)
    ensures
        m == max_score(scores@),
{
    let mut m: u128 = 0;
    for i in 0..scores.len()
        invariant
            m == max_score(scores@.take(i as int)),
    {
        proof {
            assert(scores@.take(i + 1).drop_last() =~= scores@.take(i as int));
        }
        if scores[i] > m {
            m = scores[i];
        }
    }
    assert(scores@.take(scores@.len() as int) =~= scores@);
    m
}

fn find_hit(hits: &Vec<(usize, u64)>, doc: usize) -> (r: Option<u64>)
    ensures
        r == vector_hit(hits@, doc),
{
    let mut i: usize = 0;
    assert(hits@.skip(0) =~= hits@);
    while i < hits.len()
        invariant
            i <= hits@.len(),
            vector_hit(hits@, doc) == vector_hit(hits@.skip(i as int), doc),
        decreases hits@.len() - i,
    {
        proof {
            assert(hits@.skip(i as int).drop_first() =~= hits@.skip(i + 1));
        }
        if hits[i].0 == doc {
            return Some(hits[i].1);
        }
        i = i + 1;
    }
    None
}

/// Fuses lexical `scores` (one per document, higher is better) with vector
/// `hits` (`(document, distance)`, closest first) into at most `top_k`
/// candidates ascending by fused distance, the far tail beyond `threshold` cut.
pub fn fuse(scores: &Vec<u128>, hits: &Vec<(usize, u64)>, top_k: usize, threshold: u64) -> (r: Vec<(usize, u64)>)
    requires
        forall|i: int| 0 <= i < scores@.len() ==> scores@[i] <= MAX_LEXICAL_SCORE,
    ensures
        r@ == fusion(scores@, hits@, top_k, threshold),
        sorted_by_distance(r@),
        r@.len() <= top_k,
{
    let top = max_of(scores);
    if top == 0 {
        return Vec::new();
    }
    proof {
        lemma_max_score(scores@);
    }
    let mut fused: Vec<(usize, u64)> = Vec::new();
    for i in 0..scores.len()
        invariant
            top == max_score(scores@),
            top > 0,
            forall|k: int| 0 <= k < scores@.len() ==> scores@[k] <= top,
            forall|k: int| 0 <= k < scores@.len() ==> scores@[k] <= MAX_LEXICAL_SCORE,
            fused@ == fused_list(scores@, hits@).take(i as int),
    {
        proof {
            assert((scores@[i as int] * DIST_ONE) as int / (top as int) <= DIST_ONE) by (nonlinear_arith)
                requires scores@[i as int] <= top, top > 0;
            assert(scores@[i as int] * DIST_ONE <= MAX_LEXICAL_SCORE * DIST_ONE) by (nonlinear_arith)
                requires scores@[i as int] <= MAX_LEXICAL_SCORE;
        }
        let lexical = (DIST_ONE as u128) - scores[i] * (DIST_ONE as u128) / top;
        let d: u64 = match find_hit(hits, i) {
            Some(v) => ((lexical + v as u128) / 2) as u64,
            None => lexical as u64,
        };
        fused.push((i, d));
        assert(fused@ =~= fused_list(scores@, hits@).take(i + 1));
    }
    assert(fused_list(scores@, hits@).take(scores@.len() as int) =~= fused_list(scores@, hits@));
    let mut sorted = sort_candidates(fused);
    proof {
        lemma_sort_by_distance(fused_list(scores@, hits@));
    }
    sorted.truncate(top_k);
    let ghost cut = sorted@;
    assert(cut =~= at_most(sort_by_distance(fused_list(scores@, hits@)), top_k));
    while sorted.len() > 0 && sorted[sorted.len() - 1].1 > threshold
        invariant
            trim_tail(sorted@, threshold) == trim_tail(cut, threshold),
            sorted_by_distance(sorted@),
            sorted@.len() <= top_k,
        decreases sorted@.len(),
    {
        sorted.pop();
    }
    assert(trim_tail(sorted@, threshold) == sorted@);
    sorted
}

/// Whether some entry of `s` belongs to document `doc`.
pub open spec fn has_doc(s: Seq<(usize, u64)>, doc: usize) -> bool {
    exists|i: int| 0 <= i < s.len() && s[i].0 == doc
}

/// The hits with only the first (closest) one of each document kept.
pub open spec fn first_hits(s: Seq<(usize, u64)>) -> Seq<(usize, u64)>
    decreases s.len(),
{
    if s.len() == 0 {
        s
    } else {
        let d = first_hits(s.drop_last());
        if has_doc(d, s.last().0) {
            d
        } else {
            d.push(s.last())
        }
    }
}

/// The `min(top_k, doc_count)` nearest documents of the vector index's hits
/// (closest first, several per document), each with its closest distance.
pub fn nearest_documents(hits: &Vec<(usize, u64)>, top_k: usize, doc_count: usize) -> (r: Vec<(usize, u64)>)
    ensures
        r@ == at_most(first_hits(hits@), if top_k < doc_count { top_k } else { doc_count }),
{
    let k = if top_k < doc_count { top_k } else { doc_count };
    let mut r: Vec<(usize, u64)> = Vec::new();
    for i in 0..hits.len()
        invariant
            r@ == at_most(first_hits(hits@.take(i as int)), k),
            r@.len() <= k,
    {
        let ghost d = first_hits(hits@.take(i as int));
        proof {
            assert(hits@.take(i + 1).drop_last() =~= hits@.take(i as int));
        }
        if r.len() < k {
            let x = hits[i];
            let mut j: usize = 0;
            let mut found = false;
            while j < r.len()
                invariant
                    j <= r@.len(),
                    found == exists|m: int| 0 <= m < j && r@[m].0 == x.0,
                decreases r@.len() - j,
            {
                if r[j].0 == x.0 {
                    found = true;
                }
                j = j + 1;
            }
            proof {
                assert(r@ == d);
            }
            if !found {
                r.push(x);
            }
        } else {
            proof {
                let e = first_hits(hits@.take(i + 1));
                assert(e == d || e == d.push(hits@[i as int]));
                assert(at_most(e, k) =~= at_most(d, k));
            }
        }
    }
    assert(hits@.take(hits@.len() as int) =~= hits@);
    r
}

/// Whether every entry names a document below `n`.
pub open spec fn ids_below(m: Seq<(usize, u64)>, n: int) -> bool {
    forall|i: int| 0 <= i < m.len() ==> #[trigger] m[i].0 < n
}

pub proof fn lemma_sort_ids(s: Seq<(usize, u64)>, n: int)
    requires
        ids_below(s, n),
    ensures
        ids_below(sort_by_distance(s), n),
    decreases s.len(),
{
    if s.len() > 0 {
        let t = sort_by_distance(s.drop_last());
        lemma_sort_ids(s.drop_last(), n);
        lemma_insert_sorted(t, s.last());
        let p = insert_pos(t, s.last());
        let r = insert_sorted(t, s.last());
        assert forall|i: int| 0 <= i < r.len() implies #[trigger] r[i].0 < n by {
            if i < p {
                assert(r[i] == t[i]);
            } else if i > p {
                assert(r[i] == t[i - 1]);
            }
        }
    }
}

pub proof fn lemma_prefix_ids(s: Seq<(usize, u64)>, k: int, n: int)
    requires
        ids_below(s, n),
        0 <= k <= s.len(),
    ensures
        ids_below(s.take(k), n),
{
    assert forall|i: int| 0 <= i < s.take(k).len() implies #[trigger] s.take(k)[i].0 < n by {
        assert(s.take(k)[i] == s[i]);
    }
}

/// Every document that fusion returns is one of the scored documents.
pub proof fn lemma_fusion_ids(scores: Seq<u128>, hits: Seq<(usize, u64)>, top_k: usize, threshold: u64)
    ensures
        ids_below(fusion(scores, hits, top_k, threshold), scores.len() as int),
{
    if max_score(scores) != 0 {
        let f = fused_list(scores, hits);
        assert(ids_below(f, scores.len() as int));
        lemma_sort_ids(f, scores.len() as int);
        let c = at_most(sort_by_distance(f), top_k);
        if top_k < sort_by_distance(f).len() {
            lemma_prefix_ids(sort_by_distance(f), top_k as int, scores.len() as int);
        }
        lemma_trim_tail_prefix(c, threshold);
        lemma_prefix_ids(c, trim_tail(c, threshold).len() as int, scores.len() as int);
    }
}

/// No document appears twice.
pub open spec fn distinct_ids(s: Seq<(usize, u64)>) -> bool {
    forall|i: int, j: int| 0 <= i < j < s.len() ==> s[i].0 != s[j].0
}

/// Sorting only reorders: every entry of the sorted list is an entry of the
/// input, and distinct documents stay distinct.
pub proof fn lemma_sort_distinct(s: Seq<(usize, u64)>)
    ensures
        forall|i: int| 0 <= i < sort_by_distance(s).len() ==> exists|j: int| 0 <= j < s.len() && #[trigger] sort_by_distance(s)[i] == s[j],
        distinct_ids(s) ==> distinct_ids(sort_by_distance(s)),
    decreases s.len(),
{
    lemma_sort_by_distance(s);
    if s.len() > 0 {
        let u = s.drop_last();
        let x = s.last();
        let t = sort_by_distance(u);
        lemma_sort_distinct(u);
        lemma_sort_by_distance(u);
        lemma_insert_sorted(t, x);
        let p = insert_pos(t, x);
        let r = insert_sorted(t, x);
        assert forall|i: int| 0 <= i < r.len() implies exists|j: int| 0 <= j < s.len() && #[trigger] r[i] == s[j] by {
            if i < p {
                assert(r[i] == t[i]);
                let j = choose|j: int| 0 <= j < u.len() && t[i] == u[j];
                assert(r[i] == s[j]);
            } else if i == p {
                assert(r[i] == s[s.len() - 1]);
            } else {
                assert(r[i] == t[i - 1]);
                let j = choose|j: int| 0 <= j < u.len() && t[i - 1] == u[j];
                assert(r[i] == s[j]);
            }
        }
        if distinct_ids(s) {
            assert(distinct_ids(u)) by {
                assert forall|i: int, j: int| 0 <= i < j < u.len() implies u[i].0 != u[j].0 by {
                    assert(u[i] == s[i] && u[j] == s[j]);
                }
            }
            assert forall|i: int| 0 <= i < t.len() implies t[i].0 != x.0 by {
                let j = choose|j: int| 0 <= j < u.len() && t[i] == u[j];
                assert(u[j] == s[j]);
                assert(x == s[s.len() - 1]);
            }
            assert forall|i: int, j: int| 0 <= i < j < r.len() implies r[i].0 != r[j].0 by {
                if j < p {
                    assert(r[i] == t[i] && r[j] == t[j]);
                } else if j == p {
                    assert(r[i] == t[i] && r[j] == x);
                } else if i < p {
                    assert(r[i] == t[i] && r[j] == t[j - 1]);
                } else if i == p {
                    assert(r[i] == x && r[j] == t[j - 1]);
                } else {
                    assert(r[i] == t[i - 1] && r[j] == t[j - 1]);
                }
            }
        }
    }
}

pub proof fn lemma_prefix_distinct(s: Seq<(usize, u64)>, k: int)
    requires
        distinct_ids(s),
        0 <= k <= s.len(),
    ensures
        distinct_ids(s.take(k)),
{
    assert forall|i: int, j: int| 0 <= i < j < s.take(k).len() implies s.take(k)[i].0 != s.take(k)[j].0 by {
        assert(s.take(k)[i] == s[i] && s.take(k)[j] == s[j]);
    }
}

/// Fusion names each document at most once.
pub proof fn lemma_fusion_distinct(scores: Seq<u128>, hits: Seq<(usize, u64)>, top_k: usize, threshold: u64)
    requires
        scores.len() <= usize::MAX,
    ensures
        distinct_ids(fusion(scores, hits, top_k, threshold)),
{
    if max_score(scores) != 0 {
        let f = fused_list(scores, hits);
        assert forall|i: int, j: int| 0 <= i < j < f.len() implies f[i].0 != f[j].0 by {
            assert(f[i].0 == i as usize && f[j].0 == j as usize);
        }
        lemma_sort_distinct(f);
        lemma_sort_by_distance(f);
        let c = at_most(sort_by_distance(f), top_k);
        if top_k < sort_by_distance(f).len() {
            lemma_prefix_distinct(sort_by_distance(f), top_k as int);
        }
        lemma_trim_tail_prefix(c, threshold);
        lemma_prefix_distinct(c, trim_tail(c, threshold).len() as int);
    }
}

} // verus!
