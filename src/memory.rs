//! The conversational working memory: a short ranked list of the documents
//! that are relevant right now, decayed and refreshed on every turn.

use vstd::prelude::*;
use crate::fusion::{
    at_most, distinct_ids, ids_below, lemma_prefix_distinct, lemma_prefix_ids, lemma_sort_distinct, lemma_sort_by_distance, lemma_sort_ids, sort_by_distance,
    sort_candidates, sorted_by_distance, DIST_ONE,
};

verus! {

/// Most documents the memory tracks.
pub const MEMORY_SIZE: usize = 5;

/// Distance beyond which a decayed entry is evicted (0.7).
pub const EVICT_DISTANCE: u64 = 700000;

/// `d * 1.5`, rounded down and capped at the largest distance.
pub open spec fn decayed(d: u64) -> u64 {
    if d + d / 2 > u64::MAX {
        u64::MAX
    } else {
        (d + d / 2) as u64
    }
}

pub open spec fn decay_all(m: Seq<(usize, u64)>) -> Seq<(usize, u64)> {
    Seq::new(m.len(), |i: int| (m[i].0, decayed(m[i].1)))
}

/// Index of the first entry farther than `limit`, or the length if none is.
pub open spec fn first_far(m: Seq<(usize, u64)>, limit: u64) -> int
    decreases m.len(),
{
    if m.len() == 0 {
        0
    } else if m[0].1 > limit {
        0
    } else {
        1 + first_far(m.drop_first(), limit)
    }
}

/// The memory cut before its first entry farther than `limit`.
pub open spec fn evict(m: Seq<(usize, u64)>, limit: u64) -> Seq<(usize, u64)> {
    m.take(first_far(m, limit))
}

/// A tracked distance seen again at distance `seen`: the new one if strictly
/// closer, else half the kept one but no less than 1.0.
pub open spec fn reinforce(kept: u64, seen: u64) -> u64 {
    if seen < kept {
        seen
    } else if kept / 2 > DIST_ONE {
        kept / 2
    } else {
        DIST_ONE
    }
}

/// Index of the first entry of document `doc`, or the length if none is.
pub open spec fn position_of(m: Seq<(usize, u64)>, doc: usize) -> int
    decreases m.len(),
{
    if m.len() == 0 {
        0
    } else if m[0].0 == doc {
        0
    } else {
        1 + position_of(m.drop_first(), doc)
    }
}

/// One retrieved `(document, distance)` merged in: a kept document is
/// reinforced, a new one appended.
pub open spec fn merge_one(m: Seq<(usize, u64)>, x: (usize, u64)) -> Seq<(usize, u64)> {
    let p = position_of(m, x.0);
    if p < m.len() {
        m.update(p, (x.0, reinforce(m[p].1, x.1)))
    } else {
        m.push(x)
    }
}

pub open spec fn merge_all(m: Seq<(usize, u64)>, found: Seq<(usize, u64)>) -> Seq<(usize, u64)>
    decreases found.len(),
{
    if found.len() == 0 {
        m
    } else {
        merge_one(merge_all(m, found.drop_last()), found.last())
    }
}

/// The memory after a turn that retrieved `found`: decayed, cut at the first
/// far entry, merged, re-sorted and cut to `MEMORY_SIZE`.
pub open spec fn next_memory(m: Seq<(usize, u64)>, found: Seq<(usize, u64)>) -> Seq<(usize, u64)> {
    at_most(sort_by_distance(merge_all(evict(decay_all(m), EVICT_DISTANCE), found)), MEMORY_SIZE)
}

pub proof fn lemma_position_of(m: Seq<(usize, u64)>, doc: usize)
    ensures
        0 <= position_of(m, doc) <= m.len(),
        position_of(m, doc) < m.len() ==> m[position_of(m, doc)].0 == doc,
        forall|i: int| 0 <= i < position_of(m, doc) ==> m[i].0 != doc,
    decreases m.len(),
{
    if m.len() > 0 && m[0].0 != doc {
        lemma_position_of(m.drop_first(), doc);
        assert forall|i: int| 0 <= i < position_of(m, doc) implies m[i].0 != doc by {
            if i > 0 {
                assert(m[i] == m.drop_first()[i - 1]);
            }
        }
    }
}

pub proof fn lemma_first_far(m: Seq<(usize, u64)>, limit: u64)
    ensures
        0 <= first_far(m, limit) <= m.len(),
        first_far(m, limit) < m.len() ==> m[first_far(m, limit)].1 > limit,
        forall|i: int| 0 <= i < first_far(m, limit) ==> m[i].1 <= limit,
    decreases m.len(),
{
    if m.len() > 0 && m[0].1 <= limit {
        lemma_first_far(m.drop_first(), limit);
        assert forall|i: int| 0 <= i < first_far(m, limit) implies m[i].1 <= limit by {
            if i > 0 {
                assert(m[i] == m.drop_first()[i - 1]);
            }
        }
    }
}

/// The ranked documents of one conversation, closest first.
pub struct ContextMemory {
    entries: Vec<(usize, u64)>,
}

impl View for ContextMemory {
    type V = Seq<(usize, u64)>;

    closed spec fn view(&self) -> Seq<(usize, u64)> {
        self.entries@
    }
}

impl ContextMemory {
    /// At most `MEMORY_SIZE` entries, ascending by distance, each document
    /// once.
    pub open spec fn wf(&self) -> bool {
        &&& self@.len() <= MEMORY_SIZE
        &&& sorted_by_distance(self@)
        &&& distinct_ids(self@)
    }

    /// An empty memory.
    pub fn new() -> (r: ContextMemory)
        ensures
            r@ == Seq::<(usize, u64)>::empty(),
            r.wf(),
    {
        ContextMemory { entries: Vec::new() }
    }

    /// The kept `(document, distance)` pairs, closest first.
    pub fn entries(&self) -> (r: &Vec<(usize, u64)>)
        ensures
            r@ == self@,
    {
        &self.entries
    }

    /// One conversational turn that retrieved `found`.
    pub fn advance(&mut self, found: &Vec<(usize, u64)>)
        requires
            old(self).wf(),
        ensures
            final(self)@ == next_memory(old(self)@, found@),
            final(self).wf(),
    {
        let ghost m0 = self@;
        proof {
            lemma_next_memory_distinct(m0, found@);
        }
        let mut decayed_entries: Vec<(usize, u64)> = Vec::new();
        for i in 0..self.entries.len()
            invariant
                self@ == m0,
                decayed_entries@ =~= decay_all(m0).take(i as int),
        {
            let (doc, d) = self.entries[i];
            let half = d / 2;
            let v = if d > u64::MAX - half { u64::MAX } else { d + half };
            decayed_entries.push((doc, v));
        }
        assert(decay_all(m0).take(m0.len() as int) =~= decay_all(m0));
        let ghost dm = decay_all(m0);
        proof {
            lemma_first_far(dm, EVICT_DISTANCE);
        }
        let mut p: usize = 0;
        while p < decayed_entries.len() && decayed_entries[p].1 <= EVICT_DISTANCE
            invariant
                decayed_entries@ == dm,
                p <= first_far(dm, EVICT_DISTANCE),
                0 <= first_far(dm, EVICT_DISTANCE) <= dm.len(),
                first_far(dm, EVICT_DISTANCE) < dm.len() ==> dm[first_far(dm, EVICT_DISTANCE)].1 > EVICT_DISTANCE,
            decreases dm.len() - p,
        {
            p = p + 1;
        }
        decayed_entries.truncate(p);
        let mut merged = decayed_entries;
        assert(merged@ =~= evict(dm, EVICT_DISTANCE));
        let ghost start = merged@;
        for j in 0..found.len()
            invariant
                merged@ == merge_all(start, found@.take(j as int)),
        {
            proof {
                assert(found@.take(j + 1).drop_last() =~= found@.take(j as int));
            }
            let x = found[j];
            let ghost before = merged@;
            proof {
                lemma_position_of(before, x.0);
            }
            let mut k: usize = 0;
            while k < merged.len() && merged[k].0 != x.0
                invariant
                    merged@ == before,
                    k <= position_of(before, x.0),
                    0 <= position_of(before, x.0) <= before.len(),
                    position_of(before, x.0) < before.len() ==> before[position_of(before, x.0)].0 == x.0,
                decreases before.len() - k,
            {
                k = k + 1;
            }
            if k < merged.len() {
                let tracked_distance = merged[k].1;
                let v = if x.1 < tracked_distance {
                    x.1
                } else if tracked_distance / 2 > DIST_ONE {
                    tracked_distance / 2
                } else {
                    DIST_ONE
                };
                merged.set(k, (x.0, v));
            } else {
                merged.push(x);
            }
        }
        assert(found@.take(found@.len() as int) =~= found@);
        let mut sorted = sort_candidates(merged);
        proof {
            lemma_sort_by_distance(merge_all(start, found@));
        }
        sorted.truncate(MEMORY_SIZE);
        self.entries = sorted;
        proof {
            let full = sort_by_distance(merge_all(start, found@));
            assert(self@ =~= at_most(full, MEMORY_SIZE));
            assert(self@ == next_memory(m0, found@));
            assert forall|i: int, j: int| 0 <= i < j < self@.len() implies self@[i].1 <= self@[j].1 by {
                assert(self@[i] == full[i] && self@[j] == full[j]);
            }
        }
    }
}

/// A turn keeps the memory naming only documents below `n` when what it
/// retrieved does.
pub proof fn lemma_next_memory_ids(m: Seq<(usize, u64)>, found: Seq<(usize, u64)>, n: int)
    requires
        ids_below(m, n),
        ids_below(found, n),
    ensures
        ids_below(next_memory(m, found), n),
{
    let d = decay_all(m);
    assert(ids_below(d, n));
    lemma_first_far(d, EVICT_DISTANCE);
    lemma_prefix_ids(d, first_far(d, EVICT_DISTANCE), n);
    lemma_merge_all_ids(evict(d, EVICT_DISTANCE), found, n);
    let mm = merge_all(evict(d, EVICT_DISTANCE), found);
    lemma_sort_ids(mm, n);
    lemma_sort_by_distance(mm);
    if MEMORY_SIZE < sort_by_distance(mm).len() {
        lemma_prefix_ids(sort_by_distance(mm), MEMORY_SIZE as int, n);
    }
}

proof fn lemma_merge_all_ids(m: Seq<(usize, u64)>, found: Seq<(usize, u64)>, n: int)
    requires
        ids_below(m, n),
        ids_below(found, n),
    ensures
        ids_below(merge_all(m, found), n),
    decreases found.len(),
{
    if found.len() > 0 {
        let f = found.drop_last();
        assert(ids_below(f, n)) by {
            assert forall|i: int| 0 <= i < f.len() implies #[trigger] f[i].0 < n by {
                assert(f[i] == found[i]);
            }
        }
        lemma_merge_all_ids(m, f, n);
        let x = found.last();
        assert(x.0 < n);
        let mm = merge_all(m, f);
        let p = position_of(mm, x.0);
        lemma_position_of(mm, x.0);
        let r = merge_one(mm, x);
        assert forall|i: int| 0 <= i < r.len() implies #[trigger] r[i].0 < n by {
            if p < mm.len() {
                if i != p {
                    assert(r[i] == mm[i]);
                }
            } else if i < mm.len() {
                assert(r[i] == mm[i]);
            }
        }
    }
}

/// Whatever the memory held before, after a turn it holds at most
/// `MEMORY_SIZE` entries, ascending by distance.
pub proof fn lemma_next_memory_bounded(m: Seq<(usize, u64)>, found: Seq<(usize, u64)>)
    ensures
        next_memory(m, found).len() <= MEMORY_SIZE,
        sorted_by_distance(next_memory(m, found)),
{
    let s = sort_by_distance(merge_all(evict(decay_all(m), EVICT_DISTANCE), found));
    lemma_sort_by_distance(merge_all(evict(decay_all(m), EVICT_DISTANCE), found));
    let r = next_memory(m, found);
    assert forall|i: int, j: int| 0 <= i < j < r.len() implies r[i].1 <= r[j].1 by {
        assert(r[i] == s[i] && r[j] == s[j]);
    }
}

/// A turn keeps each document at most once in the memory, whatever it retrieved.
pub proof fn lemma_next_memory_distinct(m: Seq<(usize, u64)>, found: Seq<(usize, u64)>)
    ensures
        distinct_ids(m) ==> distinct_ids(next_memory(m, found)),
{
    if distinct_ids(m) {
        let d = decay_all(m);
        assert(distinct_ids(d));
        lemma_first_far(d, EVICT_DISTANCE);
        lemma_prefix_distinct(d, first_far(d, EVICT_DISTANCE));
        lemma_merge_all_distinct(evict(d, EVICT_DISTANCE), found);
        let mm = merge_all(evict(d, EVICT_DISTANCE), found);
        lemma_sort_distinct(mm);
        lemma_sort_by_distance(mm);
        if MEMORY_SIZE < sort_by_distance(mm).len() {
            lemma_prefix_distinct(sort_by_distance(mm), MEMORY_SIZE as int);
        }
    }
}

proof fn lemma_merge_all_distinct(m: Seq<(usize, u64)>, found: Seq<(usize, u64)>)
    requires
        distinct_ids(m),
    ensures
        distinct_ids(merge_all(m, found)),
    decreases found.len(),
{
    if found.len() > 0 {
        lemma_merge_all_distinct(m, found.drop_last());
        let x = found.last();
        let mm = merge_all(m, found.drop_last());
        let p = position_of(mm, x.0);
        lemma_position_of(mm, x.0);
        let r = merge_one(mm, x);
        assert forall|i: int, j: int| 0 <= i < j < r.len() implies r[i].0 != r[j].0 by {
            if p < mm.len() {
                assert(r[i].0 == mm[i].0 && r[j].0 == mm[j].0);
            } else if j == mm.len() {
                assert(r[i] == mm[i]);
            } else {
                assert(r[i] == mm[i] && r[j] == mm[j]);
            }
        }
    }
}

} // verus!
