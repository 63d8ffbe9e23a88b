use youth::chunk::{chunk_bounds, CHARACTERS_PER_CHUNK, CHUNK_OVERLAP};
use youth::fusion::{fuse, nearest_documents};
use youth::lexical::log2_fixed_exec;
use youth::memory::ContextMemory;
use youth::store::{asks_for_evidence, sentences};
use youth::{Skipped, RAG};

fn words(word: &str, n: usize) -> String {
    let mut s = String::new();
    for _ in 0..n {
        s.push_str(word);
        s.push(' ');
    }
    s
}

#[test]
fn ingest_twice_stores_once() {
    let mut rag = RAG::new();
    assert_eq!(rag.add("The cat sat on the mat.".to_string()), Ok(0));
    assert_eq!(rag.add("The cat sat on the mat.".to_string()), Err(Skipped::Duplicate));
    assert_eq!(rag.len(), 1);
    assert_eq!(rag.add("A different text.".to_string()), Ok(1));
    assert_eq!(rag.len(), 2);
}

#[test]
fn empty_texts_are_skipped() {
    let mut rag = RAG::new();
    assert_eq!(rag.add(String::new()), Err(Skipped::Empty));
    assert_eq!(rag.add("...!?".to_string()), Err(Skipped::Empty));
    assert_eq!(rag.len(), 0);
}

#[test]
fn sentences_drop_empty_pieces() {
    let s = sentences("Hello world. How are you?? Fine");
    assert_eq!(s, vec!["Hello world".to_string(), " How are you".to_string(), " Fine".to_string()]);
    assert!(sentences("").is_empty());
}

#[test]
fn bm25_floor_two_documents() {
    let mut rag = RAG::new();
    let a = format!("{}{}.", words("cat", 5), words("dog", 45).trim_end());
    let b = format!("{}.", words("bird", 50).trim_end());
    assert_eq!(rag.add(a), Ok(0));
    assert_eq!(rag.add(b), Ok(1));
    let r = rag.retrieve("cat", &Vec::new(), 10, u64::MAX);
    // A scores 2908952 and B 1048576 in units of 2^-20: A is at distance 0,
    // B at 1 - 1048576 / 2908952, so above 0 and below 1.
    assert_eq!(r, vec![(0, 0), (1, 639535)]);
}

#[test]
fn query_terms_are_case_folded() {
    let mut rag = RAG::new();
    assert_eq!(rag.add("The Cat sat.".to_string()), Ok(0));
    assert_eq!(rag.add("A dog ran.".to_string()), Ok(1));
    let r = rag.retrieve("CAT", &Vec::new(), 10, u64::MAX);
    assert_eq!(r[0], (0, 0));
    assert_eq!(r[1].0, 1);
    assert!(r[1].1 > 0);
}

#[test]
fn log2_fixed_values() {
    assert_eq!(log2_fixed_exec(2, 1), 1 << 26);
    assert_eq!(log2_fixed_exec(3, 1), 100663296);
    assert_eq!(log2_fixed_exec(6, 3), 1 << 26);
    // (2N + 2) / (2N + 1) for N = 2^24 documents still gives one unit
    assert_eq!(log2_fixed_exec(33554434, 33554433), 1);
    assert_eq!(log2_fixed_exec(5, 5), 0);
}

#[test]
fn fusion_averages_and_trims_tail() {
    let scores: Vec<u128> = vec![100, 50, 0];
    let hits = vec![(1, 200000), (1, 100000), (0, 900000)];
    let r = fuse(&scores, &hits, 3, 500000);
    assert_eq!(r, vec![(1, 350000), (0, 450000)]);
    // The fused distance of document 1 lies between its lexical distance
    // 500000 and its vector distance 200000.
    assert!(200000 <= r[0].1 && r[0].1 <= 500000);
}

#[test]
fn raising_threshold_keeps_candidates() {
    let scores: Vec<u128> = vec![100, 50, 0];
    let hits = vec![(1, 200000), (0, 900000)];
    let low = fuse(&scores, &hits, 3, 400000);
    let high = fuse(&scores, &hits, 3, 2000000);
    assert_eq!(low, vec![(1, 350000)]);
    assert_eq!(high, vec![(1, 350000), (0, 450000), (2, 1000000)]);
    assert_eq!(&high[..low.len()], &low[..]);
}

#[test]
fn fusion_without_lexical_match_is_empty() {
    let scores: Vec<u128> = vec![0, 0];
    assert!(fuse(&scores, &vec![(0, 10)], 5, u64::MAX).is_empty());
    let none: Vec<u128> = Vec::new();
    assert!(fuse(&none, &vec![(0, 10)], 5, u64::MAX).is_empty());
}

#[test]
fn nearest_documents_keep_first_hit() {
    let hits = vec![(3, 10), (3, 5), (1, 20), (2, 30)];
    assert_eq!(nearest_documents(&hits, 2, 5), vec![(3, 10), (1, 20)]);
    assert_eq!(nearest_documents(&hits, 5, 2), vec![(3, 10), (1, 20)]);
    assert_eq!(nearest_documents(&hits, 5, 5), vec![(3, 10), (1, 20), (2, 30)]);
}

#[test]
fn memory_adopts_closer_distance() {
    let mut m = ContextMemory::new();
    m.advance(&vec![(0, 200000)]);
    assert_eq!(m.entries(), &vec![(0, 200000)]);
    // decayed to 300000, then seen closer at 250000
    m.advance(&vec![(0, 250000)]);
    assert_eq!(m.entries(), &vec![(0, 250000)]);
}

#[test]
fn memory_reinforcement_clamps_to_one() {
    let mut m = ContextMemory::new();
    m.advance(&vec![(0, 200000)]);
    // decayed to 300000, seen again farther: half of it, but no less than 1.0
    m.advance(&vec![(0, 400000)]);
    assert_eq!(m.entries(), &vec![(0, 1000000)]);
    // decayed to 1500000 it is evicted
    m.advance(&Vec::new());
    assert!(m.entries().is_empty());
}

#[test]
fn memory_stays_bounded_and_sorted() {
    let mut m = ContextMemory::new();
    for turn in 0..4u64 {
        let found: Vec<(usize, u64)> = (0..7).map(|i| (i as usize + 7 * turn as usize, 290000 - 1000 * i)).collect();
        m.advance(&found);
        let e = m.entries();
        assert!(e.len() <= 5);
        for w in e.windows(2) {
            assert!(w[0].1 <= w[1].1);
        }
    }
}

#[test]
fn short_query_leaves_context_unchanged() {
    let mut rag = RAG::new();
    assert_eq!(rag.add("The red wire must be cut first.".to_string()), Ok(0));
    assert_eq!(rag.add("Blue buttons are pressed twice.".to_string()), Ok(1));
    let before = rag.update_context("which wire do I cut", &vec![(0, 100000)]);
    assert!(before.starts_with("The red wire must be cut first."));
    let after = rag.update_context("yes ok", &vec![(1, 0)]);
    assert_eq!(after, before);
    assert_eq!(rag.context_string(), before);
}

#[test]
fn context_joins_texts_with_blank_line() {
    let mut rag = RAG::new();
    assert_eq!(rag.add("wire red cut.".to_string()), Ok(0));
    assert_eq!(rag.add("wire blue.".to_string()), Ok(1));
    let s = rag.update_context("the red wire", &vec![(0, 0), (1, 100000)]);
    assert_eq!(s, "wire red cut.\n\nwire blue.");
}

#[test]
fn snapshot_round_trip_retrieves_the_same() {
    let mut rag = RAG::new();
    assert_eq!(rag.add("Press the button and hold it.".to_string()), Ok(0));
    assert_eq!(rag.add("Cut the wire. The blue one.".to_string()), Ok(1));
    assert_eq!(rag.add("Memory modules need five stages.".to_string()), Ok(2));
    let restored = RAG::from_texts(rag.texts_snapshot());
    assert_eq!(restored.texts_snapshot(), rag.texts_snapshot());
    for q in ["the button", "blue wire", "stages of memory"] {
        let hits = vec![(2, 300000), (0, 600000)];
        assert_eq!(restored.retrieve(q, &hits, 5, 900000), rag.retrieve(q, &hits, 5, 900000));
    }
}

#[test]
fn chunks_of_long_ascii_text() {
    let text = "a".repeat(45000);
    let r = chunk_bounds(&text);
    assert_eq!(r, vec![(0, 19999), (9998, 29997), (19996, 39995), (29994, 45000)]);
    for w in r.windows(2) {
        assert!(w[0].1 - w[1].0 >= CHUNK_OVERLAP);
    }
}

#[test]
fn chunks_never_split_a_character() {
    let text: String = "aé€".chars().cycle().take(45000).collect();
    let r = chunk_bounds(&text);
    assert_eq!(r[0].0, 0);
    assert_eq!(r[r.len() - 1].1, text.len());
    for (s, e) in &r {
        assert!(text.is_char_boundary(*s) && text.is_char_boundary(*e));
        assert!(e - s <= CHARACTERS_PER_CHUNK);
    }
    for w in r.windows(2) {
        assert!(w[1].0 < w[0].1 && w[0].1 - w[1].0 >= CHUNK_OVERLAP);
    }
}

#[test]
fn short_text_is_one_chunk() {
    assert_eq!(chunk_bounds("short"), vec![(0, 5)]);
    assert_eq!(chunk_bounds(""), vec![(0, 0)]);
}

/// A distinct text made of the word "cat" and five separators.
fn cat_text(i: usize) -> String {
    let seps = [' ', ',', ':', '"', '.', '!', '?', '\n'];
    let mut s = String::from("cat");
    let mut k = i;
    for _ in 0..5 {
        s.push(seps[k % 8]);
        k /= 8;
    }
    s
}

#[test]
fn more_occurrences_score_higher_in_a_large_corpus() {
    let mut rag = RAG::new();
    for i in 0..9998 {
        assert_eq!(rag.add(cat_text(i)), Ok(i));
    }
    let twice = format!("cat cat {}.", words("dog", 298).trim_end());
    let once = format!("cat {}.", words("bird", 299).trim_end());
    assert_eq!(rag.add(twice), Ok(9998));
    assert_eq!(rag.add(once), Ok(9999));
    let ranking = rag.lexical_ranking("cat");
    assert_eq!(ranking.len(), 10000);
    let score = |id: usize| ranking.iter().find(|(d, _)| *d == id).unwrap().1;
    assert!(score(9998) > score(9999));
    for w in ranking.windows(2) {
        assert!(w[0].1 >= w[1].1);
    }
}

#[test]
fn lexical_ranking_descends() {
    let mut rag = RAG::new();
    assert_eq!(rag.add("A dog ran.".to_string()), Ok(0));
    assert_eq!(rag.add("The cat sat. The cat slept.".to_string()), Ok(1));
    assert_eq!(rag.add("One cat.".to_string()), Ok(2));
    let r = rag.lexical_ranking("cat");
    assert_eq!(r.iter().map(|(d, _)| *d).collect::<Vec<_>>(), vec![2, 1, 0]);
    assert!(r[0].1 > r[1].1 && r[1].1 > r[2].1 && r[2].1 > 0);
}

#[test]
fn acknowledgements_do_not_ask_for_evidence() {
    assert!(!asks_for_evidence("yes ok"));
    assert!(!asks_for_evidence("  fine  "));
    assert!(asks_for_evidence("which wire next"));
}

#[test]
fn memory_keeps_each_document_once() {
    let mut m = ContextMemory::new();
    m.advance(&vec![(3, 100000), (3, 50000), (4, 200000)]);
    let ids: Vec<usize> = m.entries().iter().map(|(d, _)| *d).collect();
    assert_eq!(ids.len(), 2);
    assert!(ids.contains(&3) && ids.contains(&4));
}
