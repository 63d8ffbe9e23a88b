//! The document arena: a slab of documents with stable slot ids.

use vstd::prelude::*;
use crate::lexical::Document;
use crate::terms::fst_entries;

verus! {

#[verifier::external_type_specification]
#[verifier::external_body]
#[verifier::reject_recursive_types(T)]
pub struct ExSlab<T>(slab::Slab<T>);

/// A stored document as plain values: text, content hash, term counts, words.
pub type DocView = (Seq<char>, Seq<char>, Map<Seq<u8>, u64>, u64);

pub open spec fn doc_view(d: Document) -> DocView {
    (d.text@, d.hash@, fst_entries(d.terms), d.word_count)
}

/// The occupied slots of an arena.
pub uninterp spec fn slab_entries(s: slab::Slab<Document>) -> Map<usize, DocView>;

/// The key the next insertion takes.
pub uninterp spec fn slab_next(s: slab::Slab<Document>) -> usize;

/// The number of slots, occupied or vacant.
pub uninterp spec fn slab_slots(s: slab::Slab<Document>) -> usize;

/// Relies on `slab::Slab::new`: no slot at all.
#[verifier::external_body]
pub(crate) fn slab_new() -> (r: slab::Slab<Document>)
    ensures
        forall|k: usize| !slab_entries(r).contains_key(k),
        slab_next(r) == 0,
        slab_slots(r) == 0,
{
    slab::Slab::new()
}

/// Relies on `slab::Slab::vacant_key`: the key the next insertion takes.
#[verifier::external_body]
pub(crate) fn slab_vacant_key(s: &slab::Slab<Document>) -> (r: usize)
    ensures
        r == slab_next(*s),
{
    s.vacant_key()
}

/// Relies on `slab::Slab::get`: the document in slot `key`, if occupied.
#[verifier::external_body]
pub(crate) fn slab_get(s: &slab::Slab<Document>, key: usize) -> (r: Option<&Document>)
    ensures
        match r {
            Some(d) => slab_entries(*s).contains_key(key) && doc_view(*d) == slab_entries(*s)[key],
            None => !slab_entries(*s).contains_key(key),
        },
{
    s.get(key)
}

/// Relies on `slab::Slab::insert`: the document goes into the slot
/// `vacant_key` named, which was not occupied; a key past the last slot adds
/// a slot, and the next key is then the one after it.
#[verifier::external_body]
pub(crate) fn slab_insert(s: &mut slab::Slab<Document>, d: Document) -> (key: usize)
    requires
        slab_slots(*old(s)) < usize::MAX,
    ensures
        key == slab_next(*old(s)),
        !slab_entries(*old(s)).contains_key(key),
        slab_entries(*final(s)) == slab_entries(*old(s)).insert(key, doc_view(d)),
        key == slab_slots(*old(s)) ==> slab_slots(*final(s)) == key + 1 && slab_next(*final(s)) == key + 1,
{
    s.insert(d)
}

/// An arena whose slots `0..n` are all occupied, `n` being the next key.
pub open spec fn packed(s: slab::Slab<Document>) -> bool {
    &&& slab_next(s) == slab_slots(s)
    &&& forall|i: usize| #[trigger] slab_entries(s).contains_key(i) <==> i < slab_next(s)
}

/// The documents of a packed arena in key order.
pub open spec fn arena_docs(s: slab::Slab<Document>) -> Seq<DocView> {
    Seq::new(slab_next(s) as nat, |i: int| slab_entries(s)[i as usize])
}

} // verus!
