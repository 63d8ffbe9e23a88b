use youth::fusion::is_closer;
use youth::prompt::clean_reply;
use youth::text::{contains_text, is_unreadable_page};
use youth::website::{tidy_html, tidy_markdown};
use youth::{History, RAG};

#[test]
fn html_lines_are_trimmed_and_blank_runs_collapsed() {
    assert_eq!(tidy_html("  <p>a</p>  \n\n\n   <b>x</b>\r\n"), "<p>a</p>\n<b>x</b>\n");
    assert_eq!(tidy_html(""), "");
}

#[test]
fn markdown_separator_lines_dropped_and_runs_capped() {
    assert_eq!(tidy_markdown("# Title\n---\n\n\n\ntext |\n | - |\n"), "# Title\n\ntext |\n");
    assert_eq!(tidy_markdown("a\n\n\nb"), "a\n\nb\n");
}

#[test]
fn reply_cut_at_last_finished_sentence() {
    assert_eq!(
        clean_reply("  Sure. Cut the red wire. Then</s></s>", "Leudz"),
        Some("Sure. Cut the red wire.".to_string())
    );
    assert_eq!(clean_reply("Done!<|im_end|>\nLeudz:", "Leudz"), Some("Done!".to_string()));
    assert_eq!(clean_reply("no end here", "Leudz"), None);
}

#[test]
fn stop_sequences_name_the_user() {
    let h = History::new("Leudz".to_string(), "Emma".to_string());
    assert_eq!(
        h.stop_sequences(),
        vec!["Leudz:".to_string(), "\nLeudz".to_string(), "### Instruction:".to_string(), "<|im_end|>".to_string()]
    );
    assert!(h.is_empty());
    assert_eq!(h.user(), "Leudz");
}

#[test]
fn stored_texts_are_recognised_by_hash() {
    let mut rag = RAG::new();
    let t = "Some text here.".to_string();
    assert!(!rag.is_stored(&t));
    assert_eq!(rag.add(t.clone()), Ok(0));
    assert!(rag.is_stored(&t));
    assert!(!rag.is_stored(&"Some text here".to_string()));
}

#[test]
fn corpus_counts_terms_case_folded() {
    let mut rag = RAG::new();
    assert_eq!(rag.add("The cat. THE dog.".to_string()), Ok(0));
    assert_eq!(rag.add("the end, cat".to_string()), Ok(1));
    assert_eq!(rag.corpus_term_count("the"), 3);
    assert_eq!(rag.corpus_term_count("Cat"), 2);
    assert_eq!(rag.corpus_term_count("missing"), 0);
    assert_eq!(rag.add("the end, cat".to_string()), Err(youth::Skipped::Duplicate));
    assert_eq!(rag.corpus_term_count("the"), 3);
}

#[test]
fn closer_is_strictly_smaller_distance() {
    assert!(is_closer((7, 10), (1, 20)));
    assert!(!is_closer((7, 20), (1, 20)));
    assert!(!is_closer((7, 30), (1, 20)));
}

#[test]
fn unreadable_pdf_pages_are_recognised() {
    assert!(is_unreadable_page("abc Unimplemented?\n?Identity-H def"));
    assert!(!is_unreadable_page("Unimplemented? Identity-H"));
    assert!(contains_text("hello", ""));
    assert!(contains_text("hello", "llo"));
    assert!(!contains_text("he", "hello"));
}

#[test]
fn documents_are_keyed_by_sha256() {
    let mut rag = RAG::new();
    assert_eq!(rag.add("abc".to_string()), Ok(0));
    assert_eq!(
        rag.document_hash(0),
        Some("ba7816bf8f01cfea414140de5dae2223b00361a396177a9cb410ff61f20015ad".to_string())
    );
    assert_eq!(rag.document_hash(1), None);
}
