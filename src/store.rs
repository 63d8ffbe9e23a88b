//! The document store and the engine around it: content-hash deduplication,
//! ingestion into the lexical index, hybrid retrieval and the conversational
//! context.

use vstd::prelude::*;
use vstd::hash_map::StringHashMap;
use crate::arena::{
    arena_docs, doc_view, packed, slab_entries, slab_insert, slab_new, slab_next, slab_vacant_key, DocView,
};
use crate::fusion::{distinct_ids, fuse, fusion, ids_below, lemma_fusion_distinct, lemma_fusion_ids, sorted_by_distance};
use crate::lexical::{
    arena_stats, bm25, bm25_plus, corpus_bounded, document_at, stats, terms_of, text_terms, DocStats,
    Document, MAX_CORPUS_WORDS, MAX_DOCUMENTS,
};
use crate::memory::{lemma_next_memory_ids, next_memory, ContextMemory, MEMORY_SIZE};
use crate::terms::{
    build_fst, byte_views, count, count_more, count_terms, fst_entries, is_count_table, lemma_count_le,
    lower_utf8, lowercase,
};
use crate::text::{chars_of, push_str, sentences_of, split_runs, string_of, tokens_of, Split};

verus! {

/// The SHA-256 digest of a text's UTF-8 bytes, in lowercase hexadecimal.
pub uninterp spec fn sha256_hex(s: Seq<char>) -> Seq<char>;

/// Relies on `sha256::digest`: the hex digest of the text's bytes, which
/// depends on the text alone.
#[verifier::external_body]
fn content_hash(text: &String) -> (r: String)
    ensures
        r@ == sha256_hex(text@),
{
    sha256::digest(text.as_str())
}

/// The sentences of `text`, as handed to the embedding model.
pub fn sentences(text: &str) -> (r: Vec<String>)
    ensures
        r@.len() == sentences_of(text@).len(),
        forall|i: int| 0 <= i < r@.len() ==> #[trigger] r@[i]@ == sentences_of(text@)[i],
{
    let cs = chars_of(text);
    let pieces = split_runs(&cs, Split::Sentences);
    let mut r: Vec<String> = Vec::new();
    for i in 0..pieces.len()
        invariant
            cs@ == text@,
            pieces@.len() == sentences_of(text@).len(),
            forall|k: int| 0 <= k < pieces@.len() ==> #[trigger] pieces@[k]@ == sentences_of(text@)[k],
            r@.len() == i,
            forall|k: int| 0 <= k < i ==> #[trigger] r@[k]@ == sentences_of(text@)[k],
    {
        r.push(string_of(&pieces[i]));
    }
    r
}


/// Whether `query` asks for new evidence: it holds at least
/// `MIN_QUERY_TOKENS` whitespace-delimited tokens. Shorter queries are
/// acknowledgements, which leave the context as it is.
pub fn asks_for_evidence(query: &str) -> (r: bool)
    ensures
        r == (tokens_of(query@).len() >= MIN_QUERY_TOKENS),
{
    let cs = chars_of(query);
    let tokens = split_runs(&cs, Split::Whitespace);
    tokens.len() >= MIN_QUERY_TOKENS
}


/// Why a text was not stored.
#[derive(Clone, Copy, Debug, PartialEq, Eq, Structural)]
pub enum Skipped {
    /// A text with the same content hash is already stored.
    Duplicate,
    /// The text holds no sentence.
    Empty,
    /// Storing it would take the corpus past `MAX_CORPUS_WORDS` words or
    /// `MAX_DOCUMENTS` documents.
    CorpusFull,
}

/// Each distinct term of `terms` with its number of occurrences.
pub open spec fn term_map(terms: Seq<Seq<u8>>) -> Map<Seq<u8>, u64> {
    Map::new(|k: Seq<u8>| count(terms, k) > 0, |k: Seq<u8>| count(terms, k) as u64)
}

/// What scoring reads of a stored text.
pub open spec fn text_stats(t: Seq<char>) -> DocStats {
    (term_map(terms_of(t)), terms_of(t).len())
}

pub open spec fn corpus_stats(texts: Seq<Seq<char>>) -> Seq<DocStats> {
    texts.map_values(|t: Seq<char>| text_stats(t))
}

/// Number of words over all texts.
pub open spec fn total_words(texts: Seq<Seq<char>>) -> nat
    decreases texts.len(),
{
    if texts.len() == 0 {
        0
    } else {
        total_words(texts.drop_last()) + terms_of(texts.last()).len()
    }
}

/// The terms of all texts, one text after the other.
pub open spec fn all_terms(texts: Seq<Seq<char>>) -> Seq<Seq<u8>>
    decreases texts.len(),
{
    if texts.len() == 0 {
        seq![]
    } else {
        all_terms(texts.drop_last()) + terms_of(texts.last())
    }
}

pub proof fn lemma_all_terms_len(texts: Seq<Seq<char>>)
    ensures
        all_terms(texts).len() == total_words(texts),
    decreases texts.len(),
{
    if texts.len() > 0 {
        lemma_all_terms_len(texts.drop_last());
    }
}

/// Whether a stored text has content hash `h`.
pub open spec fn has_hash(texts: Seq<Seq<char>>, h: Seq<char>) -> bool {
    exists|i: int| 0 <= i < texts.len() && sha256_hex(texts[i]) == h
}

/// What storing `t` into a store holding `texts` gives.
pub open spec fn ingest_outcome(texts: Seq<Seq<char>>, t: Seq<char>) -> Result<usize, Skipped> {
    if has_hash(texts, sha256_hex(t)) {
        Err(Skipped::Duplicate)
    } else if sentences_of(t).len() == 0 {
        Err(Skipped::Empty)
    } else if total_words(texts) + terms_of(t).len() > MAX_CORPUS_WORDS || texts.len() >= MAX_DOCUMENTS {
        Err(Skipped::CorpusFull)
    } else {
        Ok(texts.len() as usize)
    }
}

/// The stored texts after storing `t`.
pub open spec fn after_ingest(texts: Seq<Seq<char>>, t: Seq<char>) -> Seq<Seq<char>> {
    if ingest_outcome(texts, t) is Ok {
        texts.push(t)
    } else {
        texts
    }
}

/// A corpus that ingestion can build: distinct hashes, every text holding a
/// sentence, the word total within bounds.
pub open spec fn valid_corpus(texts: Seq<Seq<char>>) -> bool {
    &&& forall|i: int, j: int| 0 <= i < j < texts.len() ==> sha256_hex(texts[i]) != sha256_hex(texts[j])
    &&& forall|i: int| 0 <= i < texts.len() ==> #[trigger] sentences_of(texts[i]).len() > 0
    &&& total_words(texts) <= MAX_CORPUS_WORDS
    &&& texts.len() <= MAX_DOCUMENTS
}

pub proof fn lemma_total_words(texts: Seq<Seq<char>>)
    ensures
        forall|i: int| 0 <= i < texts.len() ==> #[trigger] terms_of(texts[i]).len() <= total_words(texts),
    decreases texts.len(),
{
    if texts.len() > 0 {
        lemma_total_words(texts.drop_last());
        assert forall|i: int| 0 <= i < texts.len() implies #[trigger] terms_of(texts[i]).len() <= total_words(texts) by {
            if i < texts.len() - 1 {
                assert(texts[i] == texts.drop_last()[i]);
            }
        }
    }
}

pub proof fn lemma_corpus_bounded(texts: Seq<Seq<char>>)
    requires
        total_words(texts) <= MAX_CORPUS_WORDS,
        texts.len() <= MAX_DOCUMENTS,
    ensures
        corpus_bounded(corpus_stats(texts), total_words(texts)),
{
    lemma_total_words(texts);
    let cs = corpus_stats(texts);
    assert forall|i: int, w: Seq<u8>| 0 <= i < cs.len() && #[trigger] cs[i].0.contains_key(w) implies cs[i].0[w] <= cs[i].1 by {
        lemma_count_le(terms_of(texts[i]), w);
    }
}

fn bytes_equal(a: &Vec<u8>, b: &Vec<u8>) -> (r: bool)
    ensures
        r == (a@ == b@),
{
    if a.len() != b.len() {
        return false;
    }
    let mut i: usize = 0;
    while i < a.len()
        invariant
            i <= a@.len() == b@.len(),
            forall|j: int| 0 <= j < i ==> a@[j] == b@[j],
        decreases a@.len() - i,
    {
        if a[i] != b[i] {
            return false;
        }
        i = i + 1;
    }
    assert(a@ =~= b@);
    true
}

/// Builds the stored form of `text`.
fn make_document(text: String, hash: String, terms: &Vec<Vec<u8>>) -> (d: Document)
    requires
        byte_views(terms@) == terms_of(text@),
    ensures
        d.text@ == text@,
        d.hash@ == hash@,
        stats(d) == text_stats(text@),
{
    let table = count_terms(terms);
    let word_count = terms.len() as u64;
    let ghost tv = table@;
    let map = build_fst(table);
    proof {
        let ts = terms_of(text@);
        assert(byte_views(terms@) =~= ts);
        let m = fst_entries(map);
        let tm = term_map(ts);
        assert forall|k: Seq<u8>| m.contains_key(k) <==> tm.contains_key(k) by {
            if m.contains_key(k) {
                let i = choose|i: int| 0 <= i < tv.len() && tv[i].0@ == k;
                assert(tv[i].1 == count(ts, tv[i].0@));
            }
            if count(ts, k) > 0 {
                let i = choose|i: int| 0 <= i < tv.len() && tv[i].0@ == k;
                assert(m.contains_key(tv[i].0@));
            }
        }
        assert forall|k: Seq<u8>| #[trigger] m.contains_key(k) implies m[k] == tm[k] by {
            let i = choose|i: int| 0 <= i < tv.len() && tv[i].0@ == k;
            assert(tv[i].1 == count(ts, tv[i].0@));
            assert(m.contains_key(tv[i].0@));
        }
        assert(m =~= tm);
    }
    Document { text, hash, terms: map, word_count }
}

/// Distance under which a turn's retrieval keeps a candidate (0.3).
pub const RETRIEVE_THRESHOLD: u64 = 300000;

/// Candidates a turn retrieves.
pub const RETRIEVE_TOP_K: usize = 5;

/// Fewest whitespace-delimited tokens of a query that asks for new evidence.
pub const MIN_QUERY_TOKENS: usize = 3;

/// The BM25+ score of each stored text for query `q`, in id order.
pub open spec fn lexical_scores(texts: Seq<Seq<char>>, q: Seq<char>) -> Seq<u128> {
    Seq::new(
        texts.len(),
        |i: int| bm25(corpus_stats(texts), total_words(texts), terms_of(q), corpus_stats(texts)[i]) as u128,
    )
}

/// What `retrieve` returns: lexical scores fused with the vector hits.
pub open spec fn retrieval(texts: Seq<Seq<char>>, q: Seq<char>, hits: Seq<(usize, u64)>, top_k: usize, threshold: u64) -> Seq<(usize, u64)> {
    fusion(lexical_scores(texts, q), hits, top_k, threshold)
}

/// The context handed on: the texts of the tracked documents, closest first,
/// separated by a blank line.
pub open spec fn context_text(texts: Seq<Seq<char>>, m: Seq<(usize, u64)>) -> Seq<char>
    decreases m.len(),
{
    if m.len() == 0 {
        seq![]
    } else if m.len() == 1 {
        texts[m[0].0 as int]
    } else {
        context_text(texts, m.drop_last()) + seq!['\n', '\n'] + texts[m.last().0 as int]
    }
}

/// The texts stored, in order, when each of `s` is ingested into an empty store.
pub open spec fn restored(s: Seq<Seq<char>>) -> Seq<Seq<char>>
    decreases s.len(),
{
    if s.len() == 0 {
        seq![]
    } else {
        after_ingest(restored(s.drop_last()), s.last())
    }
}

/// Storing the same text twice stores it once: the second time finds its hash.
pub proof fn lemma_ingest_idempotent(texts: Seq<Seq<char>>, t: Seq<char>)
    ensures
        after_ingest(after_ingest(texts, t), t) == after_ingest(texts, t),
        ingest_outcome(texts, t) is Ok ==> ingest_outcome(after_ingest(texts, t), t) == Err::<usize, Skipped>(Skipped::Duplicate),
        ingest_outcome(texts, t) is Ok ==> after_ingest(texts, t).len() == texts.len() + 1,
        valid_corpus(texts) && (ingest_outcome(texts, t) is Ok || exists|i: int| 0 <= i < texts.len() && texts[i] == t)
            ==> (exists|i: int| 0 <= i < after_ingest(texts, t).len() && after_ingest(texts, t)[i] == t)
            && forall|i: int, j: int| 0 <= i < j < after_ingest(after_ingest(texts, t), t).len()
                && after_ingest(after_ingest(texts, t), t)[i] == t ==> after_ingest(after_ingest(texts, t), t)[j] != t,
{
    if ingest_outcome(texts, t) is Ok {
        let a = texts.push(t);
        assert(a[a.len() - 1] == t);
        assert(has_hash(a, sha256_hex(t)));
    }
    if valid_corpus(texts) && (ingest_outcome(texts, t) is Ok || exists|i: int| 0 <= i < texts.len() && texts[i] == t) {
        let a = after_ingest(texts, t);
        assert(after_ingest(a, t) == a);
        if ingest_outcome(texts, t) is Ok {
            assert(a[a.len() - 1] == t);
            assert forall|i: int, j: int| 0 <= i < j < a.len() && a[i] == t implies a[j] != t by {
                if j < a.len() - 1 {
                    assert(a[i] == texts[i] && a[j] == texts[j]);
                } else {
                    assert(a[i] == texts[i]);
                    assert(has_hash(texts, sha256_hex(t)));
                }
            }
        } else {
            let k = choose|i: int| 0 <= i < texts.len() && texts[i] == t;
            assert(has_hash(texts, sha256_hex(t)));
            assert(a == texts);
            assert(a[k] == t);
        }
    }
}

/// Ingesting the texts of a store, in order, into an empty store rebuilds it
/// exactly, so retrieval over the rebuilt store gives the same results.
pub proof fn lemma_round_trip(texts: Seq<Seq<char>>, q: Seq<char>, hits: Seq<(usize, u64)>, top_k: usize, threshold: u64)
    requires
        valid_corpus(texts),
    ensures
        restored(texts) == texts,
        retrieval(restored(texts), q, hits, top_k, threshold) == retrieval(texts, q, hits, top_k, threshold),
{
    lemma_restored(texts);
}

proof fn lemma_restored(texts: Seq<Seq<char>>)
    requires
        valid_corpus(texts),
    ensures
        restored(texts) == texts,
    decreases texts.len(),
{
    if texts.len() > 0 {
        let p = texts.drop_last();
        let t = texts.last();
        assert(valid_corpus(p)) by {
            assert forall|i: int| 0 <= i < p.len() implies #[trigger] sentences_of(p[i]).len() > 0 by {
                assert(p[i] == texts[i]);
            }
            assert forall|i: int, j: int| 0 <= i < j < p.len() implies sha256_hex(p[i]) != sha256_hex(p[j]) by {
                assert(p[i] == texts[i] && p[j] == texts[j]);
            }
        }
        lemma_restored(p);
        assert(!has_hash(p, sha256_hex(t))) by {
            if has_hash(p, sha256_hex(t)) {
                let i = choose|i: int| 0 <= i < p.len() && sha256_hex(p[i]) == sha256_hex(t);
                assert(p[i] == texts[i]);
                assert(texts[texts.len() - 1] == t);
            }
        }
        assert(sentences_of(texts[texts.len() - 1]).len() > 0);
        assert(p.push(t) =~= texts);
    }
}

/// The retrieval engine: the stored documents, their content hashes, the
/// corpus word total, and the conversational context.
pub struct RAG {
    documents: slab::Slab<Document>,
    file_hashes: StringHashMap<usize>,
    total_word_count: u64,
    total_term_counts: Vec<(Vec<u8>, u64)>,
    current_context: ContextMemory,
}

impl RAG {
    /// The stored texts, in the order they were stored (a text's index is its id).
    pub closed spec fn texts(&self) -> Seq<Seq<char>> {
        arena_docs(self.documents).map_values(|v: DocView| v.0)
    }

    /// The context memory: `(document, distance)`, closest first.
    pub closed spec fn context(&self) -> Seq<(usize, u64)> {
        self.current_context@
    }

    pub closed spec fn wf(&self) -> bool {
        &&& packed(self.documents)
        &&& valid_corpus(self.texts())
        &&& arena_stats(self.documents) == corpus_stats(self.texts())
        &&& forall|i: int| 0 <= i < self.texts().len() ==> (#[trigger] arena_docs(self.documents)[i]).1 == sha256_hex(self.texts()[i])
        &&& self.total_word_count == total_words(self.texts())
        &&& is_count_table(self.total_term_counts@, all_terms(self.texts()))
        &&& forall|h: Seq<char>| #[trigger] self.file_hashes@.contains_key(h) <==> has_hash(self.texts(), h)
        &&& self.current_context.wf()
        &&& ids_below(self.current_context@, self.texts().len() as int)
    }

    /// What ingestion builds is a valid corpus: distinct hashes, a sentence in
    /// every text, the bounds kept.
    pub proof fn lemma_wf_valid_corpus(&self)
        requires
            self.wf(),
        ensures
            valid_corpus(self.texts()),
    {
    }

    /// An empty engine.
    pub fn new() -> (r: RAG)
        ensures
            r.wf(),
            r.texts() == Seq::<Seq<char>>::empty(),
            r.context() == Seq::<(usize, u64)>::empty(),
    {
        let r = RAG {
            documents: slab_new(),
            file_hashes: StringHashMap::new(),
            total_word_count: 0,
            total_term_counts: Vec::new(),
            current_context: ContextMemory::new(),
        };
        assert(r.texts() =~= Seq::<Seq<char>>::empty());
        assert(arena_stats(r.documents) =~= corpus_stats(r.texts()));
        r
    }

    /// Number of stored documents; the id the next stored text gets.
    pub fn len(&self) -> (r: usize)
        ensures
            r == self.texts().len(),
    {
        slab_vacant_key(&self.documents)
    }

    /// How often `word`, case-folded, occurs over all stored texts.
    pub fn corpus_term_count(&self, word: &str) -> (r: u64)
        requires
            self.wf(),
        ensures
            r == count(all_terms(self.texts()), lower_utf8(word@)),
    {
        let cs = chars_of(word);
        let key = lowercase(&cs);
        let ghost all = all_terms(self.texts());
        let table = &self.total_term_counts;
        let mut i: usize = 0;
        while i < table.len()
            invariant
                i <= table@.len(),
                *table == self.total_term_counts,
                is_count_table(table@, all),
                all == all_terms(self.texts()),
                key@ == lower_utf8(word@),
                forall|j: int| 0 <= j < i ==> table@[j].0@ != key@,
            decreases table@.len() - i,
        {
            if bytes_equal(&table[i].0, &key) {
                assert(table@[i as int].1 == count(all, table@[i as int].0@));
                return table[i].1;
            }
            i = i + 1;
        }
        proof {
            if count(all, key@) > 0 {
                let j = choose|j: int| 0 <= j < table@.len() && table@[j].0@ == key@;
            }
        }
        0
    }

    /// The content hash document `id` was stored under.
    pub fn document_hash(&self, id: usize) -> (r: Option<String>)
        requires
            self.wf(),
        ensures
            id < self.texts().len() ==> (r matches Some(h) && h@ == sha256_hex(self.texts()[id as int])),
            id >= self.texts().len() ==> r is None,
    {
        if id >= slab_vacant_key(&self.documents) {
            return None;
        }
        let d = document_at(&self.documents, id);
        Some(d.hash.clone())
    }

    /// Whether a text with the content hash of `text` is stored.
    pub fn is_stored(&self, text: &String) -> (r: bool)
        requires
            self.wf(),
        ensures
            r == has_hash(self.texts(), sha256_hex(text@)),
    {
        let hash = content_hash(text);
        self.file_hashes.contains_key(hash.as_str())
    }

    /// Stores `text` as a new document unless its content hash is already
    /// stored, it holds no sentence, or the corpus would grow too large.
    /// Returns the new document's id.
    pub fn add(&mut self, text: String) -> (r: Result<usize, Skipped>)
        requires
            old(self).wf(),
        ensures
            final(self).wf(),
            r == ingest_outcome(old(self).texts(), text@),
            final(self).texts() == after_ingest(old(self).texts(), text@),
            final(self).context() == old(self).context(),
    {
        let ghost texts = self.texts();
        let hash = content_hash(&text);
        if self.file_hashes.contains_key(hash.as_str()) {
            return Err(Skipped::Duplicate);
        }
        let cs = chars_of(text.as_str());
        let sentences = split_runs(&cs, Split::Sentences);
        if sentences.len() == 0 {
            return Err(Skipped::Empty);
        }
        let terms = text_terms(text.as_str());
        assert(byte_views(terms@) =~= terms_of(text@));
        let doc = make_document(text, hash, &terms);
        let ghost t = doc.text@;
        proof {
            lemma_total_words(texts.push(t));
            assert(texts.push(t).drop_last() =~= texts);
        }
        if doc.word_count > MAX_CORPUS_WORDS - self.total_word_count {
            return Err(Skipped::CorpusFull);
        }
        let id = slab_vacant_key(&self.documents);
        if id >= MAX_DOCUMENTS {
            return Err(Skipped::CorpusFull);
        }
        proof {
            lemma_all_terms_len(texts);
        }
        count_more(&mut self.total_term_counts, &terms, Ghost(all_terms(texts)));
        let ghost old_docs = arena_docs(self.documents);
        let ghost old_entries = slab_entries(self.documents);
        let ghost view = doc_view(doc);
        let key = content_hash(&doc.text);
        let wc = doc.word_count;
        let slot = slab_insert(&mut self.documents, doc);
        self.file_hashes.insert(key, id);
        self.total_word_count = self.total_word_count + wc;
        proof {
            assert(slot == id);
            let nd = arena_docs(self.documents);
            assert forall|i: usize| #[trigger] slab_entries(self.documents).contains_key(i) <==> i < slab_next(self.documents) by {}
            assert(nd =~= old_docs.push(view)) by {
                assert forall|i: int| 0 <= i < nd.len() implies nd[i] == old_docs.push(view)[i] by {
                    if i < old_docs.len() {
                        assert(old_entries.contains_key(i as usize));
                    }
                }
            }
            let nt = self.texts();
            assert(nt =~= texts.push(t));
            assert(nt.drop_last() =~= texts);
            assert(all_terms(nt) == all_terms(texts) + terms_of(t));
            assert forall|i: int| 0 <= i < nt.len() implies arena_stats(self.documents)[i] == corpus_stats(nt)[i] by {
                if i < texts.len() {
                    assert(arena_stats(self.documents)[i] == arena_stats(old(self).documents)[i]);
                }
            }
            assert(arena_stats(self.documents) =~= corpus_stats(nt));
            assert forall|i: int| 0 <= i < nt.len() implies (#[trigger] arena_docs(self.documents)[i]).1 == sha256_hex(nt[i]) by {
                if i < texts.len() {
                    assert(nd[i] == old_docs[i]);
                }
            }
            assert forall|h: Seq<char>| #[trigger] self.file_hashes@.contains_key(h) <==> has_hash(nt, h) by {
                if has_hash(nt, h) {
                    let i = choose|i: int| 0 <= i < nt.len() && sha256_hex(nt[i]) == h;
                    if i < texts.len() {
                        assert(nt[i] == texts[i]);
                    }
                }
                if self.file_hashes@.contains_key(h) && h != sha256_hex(t) {
                    let i = choose|i: int| 0 <= i < texts.len() && sha256_hex(texts[i]) == h;
                    assert(nt[i] == texts[i]);
                }
            }
            assert forall|i: int, j: int| 0 <= i < j < nt.len() implies sha256_hex(nt[i]) != sha256_hex(nt[j]) by {
                if j == nt.len() - 1 {
                    assert(nt[i] == texts[i]);
                    assert(!has_hash(texts, sha256_hex(t)));
                }
            }
        }
        Ok(id)
    }
    /// Candidates for `query`, ascending by fused distance: BM25+ relevance
    /// over the stored documents fused with `hits`, the vector index's
    /// `(document, distance)` results for the query's embedding.
    pub fn retrieve(&self, query: &str, hits: &Vec<(usize, u64)>, top_k: usize, threshold: u64) -> (r: Vec<(usize, u64)>)
        requires
            self.wf(),
        ensures
            r@ == retrieval(self.texts(), query@, hits@, top_k, threshold),
            ids_below(r@, self.texts().len() as int),
            distinct_ids(r@),
            sorted_by_distance(r@),
            r@.len() <= top_k,
    {
        proof {
            lemma_corpus_bounded(self.texts());
        }
        let scores = bm25_plus(&self.documents, self.total_word_count, query);
        assert(arena_stats(self.documents).len() == self.texts().len());
        assert(scores@ =~= lexical_scores(self.texts(), query@));
        proof {
            lemma_fusion_ids(scores@, hits@, top_k, threshold);
            lemma_fusion_distinct(scores@, hits@, top_k, threshold);
        }
        fuse(&scores, hits, top_k, threshold)
    }

    /// Every document with its BM25+ score for `query`, ranked by descending
    /// score (documents of equal score in id order).
    pub fn lexical_ranking(&self, query: &str) -> (r: Vec<(usize, u128)>)
        requires
            self.wf(),
        ensures
            r@.len() == self.texts().len(),
            forall|i: int| 0 <= i < r@.len() ==> (#[trigger] r@[i]).0 < self.texts().len()
                && r@[i].1 == lexical_scores(self.texts(), query@)[r@[i].0 as int],
            forall|i: int, j: int| 0 <= i < j < r@.len() ==> r@[i].0 != r@[j].0,
            forall|i: int, j: int| 0 <= i < j < r@.len() ==> r@[i].1 >= r@[j].1,
    {
        proof {
            lemma_corpus_bounded(self.texts());
        }
        let scores = bm25_plus(&self.documents, self.total_word_count, query);
        assert(scores@ =~= lexical_scores(self.texts(), query@));
        let mut r: Vec<(usize, u128)> = Vec::new();
        for i in 0..scores.len()
            invariant
                scores@ == lexical_scores(self.texts(), query@),
                scores@.len() == self.texts().len(),
                r@.len() == i,
                forall|k: int| 0 <= k < r@.len() ==> (#[trigger] r@[k]).0 < i && r@[k].1 == scores@[r@[k].0 as int],
                forall|a: int, b: int| 0 <= a < b < r@.len() ==> r@[a].0 != r@[b].0,
                forall|a: int, b: int| 0 <= a < b < r@.len() ==> r@[a].1 >= r@[b].1,
        {
            let x = (i, scores[i]);
            let mut p = r.len();
            while p > 0 && r[p - 1].1 < x.1
                invariant
                    p <= r@.len(),
                    forall|k: int| p <= k < r@.len() ==> r@[k].1 < x.1,
                decreases p,
            {
                p = p - 1;
            }
            let ghost old_r = r@;
            r.insert(p, x);
            proof {
                assert forall|k: int| 0 <= k < r@.len() implies (#[trigger] r@[k]).0 < i + 1 && r@[k].1 == scores@[r@[k].0 as int] by {
                    if k < p {
                        assert(r@[k] == old_r[k]);
                    } else if k > p {
                        assert(r@[k] == old_r[k - 1]);
                    }
                }
                assert forall|a: int, b: int| 0 <= a < b < r@.len() implies r@[a].0 != r@[b].0 by {
                    if b < p {
                        assert(r@[a] == old_r[a] && r@[b] == old_r[b]);
                    } else if b == p {
                        assert(r@[a] == old_r[a]);
                    } else if a < p {
                        assert(r@[a] == old_r[a] && r@[b] == old_r[b - 1]);
                    } else if a == p {
                        assert(r@[b] == old_r[b - 1]);
                    } else {
                        assert(r@[a] == old_r[a - 1] && r@[b] == old_r[b - 1]);
                    }
                }
                assert forall|a: int, b: int| 0 <= a < b < r@.len() implies r@[a].1 >= r@[b].1 by {
                    if b < p {
                        assert(r@[a] == old_r[a] && r@[b] == old_r[b]);
                    } else if b == p {
                        assert(r@[a] == old_r[a]);
                        assert(old_r[p - 1].1 >= x.1);
                    } else if a < p {
                        assert(r@[a] == old_r[a] && r@[b] == old_r[b - 1]);
                    } else if a == p {
                        assert(r@[b] == old_r[b - 1]);
                    } else {
                        assert(r@[a] == old_r[a - 1] && r@[b] == old_r[b - 1]);
                    }
                }
            }
        }
        r
    }

    /// The context string of the current memory.
    pub fn context_string(&self) -> (r: String)
        requires
            self.wf(),
        ensures
            r@ == context_text(self.texts(), self.context()),
    {
        let entries = self.current_context.entries();
        let ghost m = self.context();
        let ghost texts = self.texts();
        let mut s = String::new();
        let sep = "\n\n";
        proof {
            reveal_strlit("\n\n");
        }
        for i in 0..entries.len()
            invariant
                self.wf(),
                entries@ == m,
                texts == self.texts(),
                ids_below(m, texts.len() as int),
                sep@ == seq!['\n', '\n'],
                s@ == context_text(texts, m.take(i as int)),
        {
            proof {
                assert(m.take(i + 1).drop_last() =~= m.take(i as int));
            }
            if i > 0 {
                push_str(&mut s, sep);
            }
            let id = entries[i].0;
            proof {
                assert(m[i as int].0 < texts.len());
            }
            let d = document_at(&self.documents, id);
            push_str(&mut s, d.text.as_str());
            proof {
                if i == 0 {
                    assert(s@ =~= context_text(texts, m.take(1)));
                } else {
                    assert(s@ =~= context_text(texts, m.take(i + 1)));
                }
            }
        }
        assert(m.take(m.len() as int) =~= m);
        s
    }

    /// One conversational turn. A query of fewer than `MIN_QUERY_TOKENS`
    /// whitespace-delimited tokens is an acknowledgement: the memory stays as
    /// it is. Otherwise the memory takes in what `retrieve` finds for the
    /// query (with `hits` from the vector index) as `next_memory` says.
    /// Returns the context string of the memory afterwards.
    pub fn update_context(&mut self, query: &str, hits: &Vec<(usize, u64)>) -> (r: String)
        requires
            old(self).wf(),
        ensures
            final(self).wf(),
            final(self).texts() == old(self).texts(),
            tokens_of(query@).len() < MIN_QUERY_TOKENS ==> final(self).context() == old(self).context(),
            tokens_of(query@).len() >= MIN_QUERY_TOKENS ==> final(self).context() == next_memory(
                old(self).context(),
                retrieval(old(self).texts(), query@, hits@, RETRIEVE_TOP_K, RETRIEVE_THRESHOLD),
            ),
            final(self).context().len() <= MEMORY_SIZE,
            sorted_by_distance(final(self).context()),
            distinct_ids(final(self).context()),
            r@ == context_text(final(self).texts(), final(self).context()),
    {
        if !asks_for_evidence(query) {
            return self.context_string();
        }
        let found = self.retrieve(query, hits, RETRIEVE_TOP_K, RETRIEVE_THRESHOLD);
        proof {
            lemma_next_memory_ids(self.current_context@, found@, self.texts().len() as int);
        }
        self.current_context.advance(&found);
        self.context_string()
    }

    /// The stored texts, in id order: what a snapshot keeps besides the
    /// vector index.
    pub fn texts_snapshot(&self) -> (r: Vec<String>)
        requires
            self.wf(),
        ensures
            r@.len() == self.texts().len(),
            forall|i: int| 0 <= i < r@.len() ==> #[trigger] r@[i]@ == self.texts()[i],
    {
        let n = slab_vacant_key(&self.documents);
        let mut r: Vec<String> = Vec::new();
        for i in 0..n
            invariant
                self.wf(),
                n == self.texts().len(),
                r@.len() == i,
                forall|k: int| 0 <= k < i ==> #[trigger] r@[k]@ == self.texts()[k],
        {
            let d = document_at(&self.documents, i);
            r.push(d.text.clone());
        }
        r
    }

    /// Rebuilds an engine from snapshot texts by storing each in turn.
    pub fn from_texts(texts: Vec<String>) -> (r: RAG)
        ensures
            r.wf(),
            r.texts() == restored(texts@.map_values(|t: String| t@)),
            r.context() == Seq::<(usize, u64)>::empty(),
    {
        let ghost tv = texts@.map_values(|t: String| t@);
        let mut r = RAG::new();
        for i in 0..texts.len()
            invariant
                tv == texts@.map_values(|t: String| t@),
                r.wf(),
                r.texts() == restored(tv.take(i as int)),
                r.context() == Seq::<(usize, u64)>::empty(),
        {
            proof {
                assert(tv.take(i + 1).drop_last() =~= tv.take(i as int));
            }
            let _ = r.add(texts[i].clone());
        }
        assert(tv.take(tv.len() as int) =~= tv);
        r
    }
}

} // verus!
