//! Terms of a document: case-folded words as UTF-8 bytes, counted and kept
//! in a succinct ordered map keyed by those bytes.

use vstd::prelude::*;

verus! {

/// The UTF-8 bytes of the lowercase form of a word.
pub uninterp spec fn lower_utf8(w: Seq<char>) -> Seq<u8>;

/// The entries of a succinct ordered map.
pub uninterp spec fn fst_entries(m: fst::Map<Vec<u8>>) -> Map<Seq<u8>, u64>;

#[verifier::external_type_specification]
#[verifier::external_body]
#[verifier::reject_recursive_types(D)]
pub struct ExFstMap<D>(fst::Map<D>);

/// Relies on `str::to_lowercase`: the lowercase form depends on the word alone;
/// its bytes are taken with `String::into_bytes`.
#[verifier::external_body]
pub(crate) fn lowercase(word: &Vec<char>) -> (r: Vec<u8>)
    ensures
        r@ == lower_utf8(word@),
{
    let s: String = word.iter().collect();
    s.to_lowercase().into_bytes()
}

/// Relies on `fst::MapBuilder::memory`, `extend_iter` and `into_map`: with keys
/// in strictly increasing byte order no insertion fails (the builder rejects only
/// a key not greater than the one before, and writing to memory cannot fail),
/// and the map holds exactly the pairs given.
#[verifier::external_body]
pub(crate) fn build_fst(pairs: Vec<(Vec<u8>, u64)>) -> (r: fst::Map<Vec<u8>>)
    requires
        forall|i: int, j: int| 0 <= i < j < pairs@.len() ==> bytes_lt(pairs@[i].0@, pairs@[j].0@),
    ensures
        forall|i: int| 0 <= i < pairs@.len() ==> #[trigger] fst_entries(r).contains_key(pairs@[i].0@)
            && fst_entries(r)[pairs@[i].0@] == pairs@[i].1,
        forall|k: Seq<u8>| #[trigger] fst_entries(r).contains_key(k) ==> exists|i: int| 0 <= i < pairs@.len() && pairs@[i].0@ == k,
{
    let mut builder = fst::MapBuilder::memory();
    builder.extend_iter(pairs).unwrap();
    builder.into_map()
}

/// Relies on `fst::Map::get`: the value stored under `key`, if any.
#[verifier::external_body]
pub(crate) fn fst_get(m: &fst::Map<Vec<u8>>, key: &Vec<u8>) -> (r: Option<u64>)
    ensures
        r == (if fst_entries(*m).contains_key(key@) { Some(fst_entries(*m)[key@]) } else { None::<u64> }),
{
    m.get(key)
}

/// Byte-wise lexicographic order, a proper prefix coming first.
pub open spec fn bytes_lt(a: Seq<u8>, b: Seq<u8>) -> bool
    decreases a.len(),
{
    if a.len() == 0 {
        b.len() > 0
    } else if b.len() == 0 {
        false
    } else if a[0] != b[0] {
        a[0] < b[0]
    } else {
        bytes_lt(a.drop_first(), b.drop_first())
    }
}

pub proof fn lemma_bytes_lt_transitive(a: Seq<u8>, b: Seq<u8>, c: Seq<u8>)
    requires
        bytes_lt(a, b),
        bytes_lt(b, c),
    ensures
        bytes_lt(a, c),
    decreases a.len(),
{
    if a.len() > 0 && b.len() > 0 && c.len() > 0 && a[0] == b[0] && b[0] == c[0] {
        lemma_bytes_lt_transitive(a.drop_first(), b.drop_first(), c.drop_first());
    }
}

pub proof fn lemma_bytes_lt_total(a: Seq<u8>, b: Seq<u8>)
    ensures
        a == b || bytes_lt(a, b) || bytes_lt(b, a),
        !(bytes_lt(a, b) && bytes_lt(b, a)),
        !bytes_lt(a, a),
    decreases a.len(),
{
    if a.len() > 0 && b.len() > 0 && a[0] == b[0] {
        lemma_bytes_lt_total(a.drop_first(), b.drop_first());
        if a.drop_first() == b.drop_first() {
            assert(a =~= seq![a[0]] + a.drop_first());
            assert(b =~= seq![b[0]] + b.drop_first());
        }
    }
    if a.len() > 0 {
        lemma_bytes_lt_total(a.drop_first(), a.drop_first());
    }
}

/// Compares two byte strings: -1, 0 or 1 as `a` comes before, equals or follows `b`.
fn compare_bytes(a: &Vec<u8>, b: &Vec<u8>) -> (r: i8)
    ensures
        r == -1 <==> bytes_lt(a@, b@),
        r == 0 <==> a@ == b@,
        r == 1 <==> bytes_lt(b@, a@),
{
    proof {
        lemma_bytes_lt_total(a@, b@);
    }
    let mut i: usize = 0;
    assert(a@.skip(0) =~= a@ && b@.skip(0) =~= b@);
    while i < a.len() && i < b.len() && a[i] == b[i]
        invariant
            i <= a@.len(),
            i <= b@.len(),
            a@.take(i as int) == b@.take(i as int),
            bytes_lt(a@, b@) == bytes_lt(a@.skip(i as int), b@.skip(i as int)),
            bytes_lt(b@, a@) == bytes_lt(b@.skip(i as int), a@.skip(i as int)),
        decreases a@.len() - i,
    {
        proof {
            assert(a@.skip(i as int).drop_first() =~= a@.skip(i + 1));
            assert(b@.skip(i as int).drop_first() =~= b@.skip(i + 1));
            assert(a@.take(i + 1) =~= a@.take(i as int).push(a@[i as int]));
            assert(b@.take(i + 1) =~= b@.take(i as int).push(b@[i as int]));
        }
        i = i + 1;
    }
    if i == a.len() && i == b.len() {
        assert(a@ =~= a@.take(i as int));
        assert(b@ =~= b@.take(i as int));
        0
    } else if i == a.len() {
        proof {
            assert(a@ != b@) by {
                assert(a@.len() != b@.len());
            }
        }
        -1
    } else if i == b.len() {
        proof {
            assert(a@ != b@) by {
                assert(a@.len() != b@.len());
            }
        }
        1
    } else if a[i] < b[i] {
        proof {
            assert(a@[i as int] != b@[i as int]);
        }
        -1
    } else {
        proof {
            assert(a@[i as int] != b@[i as int]);
        }
        1
    }
}

/// Occurrences of `k` in `s`.
pub open spec fn count(s: Seq<Seq<u8>>, k: Seq<u8>) -> nat
    decreases s.len(),
{
    if s.len() == 0 {
        0
    } else {
        count(s.drop_last(), k) + if s.last() == k { 1nat } else { 0nat }
    }
}

pub proof fn lemma_count_le(s: Seq<Seq<u8>>, k: Seq<u8>)
    ensures
        count(s, k) <= s.len(),
    decreases s.len(),
{
    if s.len() > 0 {
        lemma_count_le(s.drop_last(), k);
    }
}

pub open spec fn byte_views(v: Seq<Vec<u8>>) -> Seq<Seq<u8>> {
    v.map_values(|x: Vec<u8>| x@)
}

/// `v` lists each distinct term of `terms` once, in increasing byte order, with
/// its number of occurrences.
pub open spec fn is_count_table(v: Seq<(Vec<u8>, u64)>, terms: Seq<Seq<u8>>) -> bool {
    &&& forall|i: int, j: int| 0 <= i < j < v.len() ==> bytes_lt(v[i].0@, v[j].0@)
    &&& forall|i: int| 0 <= i < v.len() ==> #[trigger] v[i].1 == count(terms, v[i].0@) && v[i].1 > 0
    &&& forall|k: Seq<u8>| #[trigger] count(terms, k) > 0 ==> exists|i: int| 0 <= i < v.len() && v[i].0@ == k
}

fn copy_bytes(v: &Vec<u8>) -> (r: Vec<u8>)
    ensures
        r@ == v@,
{
    let mut r: Vec<u8> = Vec::new();
    for i in 0..v.len()
        invariant
            r@ == v@.take(i as int),
    {
        r.push(v[i]);
        assert(r@ =~= v@.take(i + 1));
    }
    assert(v@.take(v@.len() as int) =~= v@);
    r
}

/// Counts the terms: one entry per distinct term, in increasing byte order.
pub fn count_terms(terms: &Vec<Vec<u8>>) -> (r: Vec<(Vec<u8>, u64)>)
    ensures
        is_count_table(r@, byte_views(terms@)),
{
    let mut r: Vec<(Vec<u8>, u64)> = Vec::new();
    assert(Seq::<Seq<u8>>::empty() + byte_views(terms@) =~= byte_views(terms@));
    let n = terms.len();
    assert(n as int <= u64::MAX);
    count_more(&mut r, terms, Ghost(Seq::<Seq<u8>>::empty()));
    r
}

/// Adds the occurrences of `terms` to a count table of `prev`.
pub(crate) fn count_more(r: &mut Vec<(Vec<u8>, u64)>, terms: &Vec<Vec<u8>>, Ghost(prev): Ghost<Seq<Seq<u8>>>)
    requires
        is_count_table(old(r)@, prev),
        prev.len() + terms@.len() <= u64::MAX,
    ensures
        is_count_table(final(r)@, prev + byte_views(terms@)),
{
    let n = terms.len();
    assert(prev + byte_views(terms@).take(0) =~= prev);
    for i in 0..n
        invariant
            n == terms@.len(),
            is_count_table(r@, prev + byte_views(terms@).take(i as int)),
            prev.len() + terms@.len() <= u64::MAX,
    {
        let ghost pre = prev + byte_views(terms@).take(i as int);
        let ghost post = prev + byte_views(terms@).take(i + 1);
        let ghost t = terms@[i as int]@;
        proof {
            assert(post.drop_last() =~= pre);
            assert(post.last() == t);
            assert forall|k: Seq<u8>| k != t implies count(post, k) == count(pre, k) by {}
            assert(count(post, t) == count(pre, t) + 1);
        }
        let mut p: usize = 0;
        while p < r.len() && compare_bytes(&r[p].0, &terms[i]) == -1
            invariant
                p <= r@.len(),
                i < n == terms@.len(),
                forall|j: int| 0 <= j < p ==> bytes_lt(#[trigger] r@[j].0@, t),
                t == terms@[i as int]@,
            decreases r@.len() - p,
        {
            p = p + 1;
        }
        let ghost old_r = r@;
        if p < r.len() && compare_bytes(&r[p].0, &terms[i]) == 0 {
            let (k, c) = r.remove(p);
            proof {
                assert(c as nat == count(pre, t));
                lemma_count_le(pre, t);
                assert(pre.len() == prev.len() + i);
            }
            r.insert(p, (k, c + 1));
            proof {
                assert forall|a: int, b: int| 0 <= a < b < r@.len() implies bytes_lt(r@[a].0@, r@[b].0@) by {
                    assert(r@[a].0@ == old_r[a].0@ && r@[b].0@ == old_r[b].0@);
                }
                assert forall|a: int| 0 <= a < r@.len() implies #[trigger] r@[a].1 == count(post, r@[a].0@) && r@[a].1 > 0 by {
                    if a != p {
                        assert(r@[a] == old_r[a]);
                        assert(old_r[a].0@ != t) by {
                            lemma_bytes_lt_total(t, t);
                            if a < p {
                                assert(bytes_lt(old_r[a].0@, old_r[p as int].0@));
                            } else {
                                assert(bytes_lt(old_r[p as int].0@, old_r[a].0@));
                            }
                        }
                    }
                }
                assert forall|k: Seq<u8>| #[trigger] count(post, k) > 0 implies exists|a: int| 0 <= a < r@.len() && r@[a].0@ == k by {
                    if k != t {
                        let a = choose|a: int| 0 <= a < old_r.len() && old_r[a].0@ == k;
                        assert(r@[a].0@ == k);
                    } else {
                        assert(r@[p as int].0@ == k);
                    }
                }
            }
        } else {
            proof {
                assert(count(pre, t) == 0) by {
                    if count(pre, t) > 0 {
                        let a = choose|a: int| 0 <= a < old_r.len() && old_r[a].0@ == t;
                        lemma_bytes_lt_total(t, t);
                        if a < p {
                            assert(bytes_lt(old_r[a].0@, t));
                        } else {
                            assert(p < old_r.len());
                            lemma_bytes_lt_total(old_r[p as int].0@, t);
                            if a > p {
                                assert(bytes_lt(old_r[p as int].0@, old_r[a].0@));
                                lemma_bytes_lt_transitive(t, old_r[p as int].0@, t);
                            }
                        }
                    }
                }
                if p < old_r.len() {
                    lemma_bytes_lt_total(old_r[p as int].0@, t);
                    assert(bytes_lt(t, old_r[p as int].0@));
                }
            }
            let key = copy_bytes(&terms[i]);
            r.insert(p, (key, 1));
            proof {
                assert forall|a: int, b: int| 0 <= a < b < r@.len() implies bytes_lt(r@[a].0@, r@[b].0@) by {
                    if b < p {
                        assert(r@[a] == old_r[a] && r@[b] == old_r[b]);
                    } else if b == p {
                        assert(r@[a] == old_r[a]);
                    } else if a == p {
                        assert(r@[b] == old_r[b - 1]);
                        if b - 1 > p {
                            lemma_bytes_lt_transitive(t, old_r[p as int].0@, old_r[b - 1].0@);
                        }
                    } else if a < p {
                        assert(r@[a] == old_r[a] && r@[b] == old_r[b - 1]);
                    } else {
                        assert(r@[a] == old_r[a - 1] && r@[b] == old_r[b - 1]);
                    }
                }
                assert forall|a: int| 0 <= a < r@.len() implies #[trigger] r@[a].1 == count(post, r@[a].0@) && r@[a].1 > 0 by {
                    if a < p {
                        assert(r@[a] == old_r[a]);
                        lemma_bytes_lt_total(t, t);
                        assert(bytes_lt(old_r[a].0@, t));
                        assert(old_r[a].0@ != t);
                    } else if a > p {
                        assert(r@[a] == old_r[a - 1]);
                        lemma_bytes_lt_total(t, t);
                        if a - 1 > p {
                            lemma_bytes_lt_transitive(t, old_r[p as int].0@, old_r[a - 1].0@);
                        }
                        assert(old_r[a - 1].0@ != t);
                    }
                }
                assert forall|k: Seq<u8>| #[trigger] count(post, k) > 0 implies exists|a: int| 0 <= a < r@.len() && r@[a].0@ == k by {
                    if k != t {
                        let a = choose|a: int| 0 <= a < old_r.len() && old_r[a].0@ == k;
                        if a < p {
                            assert(r@[a].0@ == k);
                        } else {
                            assert(r@[a + 1].0@ == k);
                        }
                    } else {
                        assert(r@[p as int].0@ == k);
                    }
                }
            }
        }
    }
    assert(byte_views(terms@).take(n as int) =~= byte_views(terms@));
}

} // verus!
