use youth::audio::speech_pieces;
use youth::{History, Model, PromptTemplate, RawSource, Speaker};

#[test]
fn model_templates() {
    assert_eq!(Model::Mistral.template(), PromptTemplate::Mistral);
    assert_eq!(Model::Mixtral.template(), PromptTemplate::Mistral);
    assert_eq!(Model::BondBurger.template(), PromptTemplate::Mistral);
    assert_eq!(Model::BagelWorldTour.template(), PromptTemplate::Mistral);
    assert_eq!(Model::OpenHermes.template(), PromptTemplate::ChatML);
    assert_eq!(Model::Laserxtral.template(), PromptTemplate::ChatML);
    assert_eq!(Model::InternLM2.template(), PromptTemplate::ChatML);
    assert_eq!(Model::BagelMysteryTour.template(), PromptTemplate::Alpaca);
}

#[test]
fn process_config_lists_server_arguments() {
    let args = Model::Mixtral.process_config();
    assert_eq!(
        args,
        vec![
            "--model",
            "./resources/mixtral-8x7b-instruct-v0.1.Q3_K_M.gguf",
            "--contextsize",
            "32768",
            "--skiplauncher",
            "--usecublas",
            "normal",
            "0",
            "mmq",
            "--gpulayers",
            "15",
            "--quiet",
            "--smartcontext",
            "--onready",
            "echo done",
        ]
    );
    assert_eq!(Model::InternLM2.process_config()[10], "100");
}

fn conversation() -> History {
    let mut h = History::new("Leudz".to_string(), "Emma".to_string());
    h.add("Hi".to_string(), Speaker::User);
    h.add("Hello!".to_string(), Speaker::Assistant);
    h.add("Help me".to_string(), Speaker::User);
    h
}

#[test]
fn mistral_history() {
    let h = conversation();
    assert_eq!(PromptTemplate::Mistral.history(&h), "Hi [/INST] Hello!</s>[INST] Help me [/INST]");
}

#[test]
fn chatml_history() {
    let h = conversation();
    assert_eq!(
        PromptTemplate::ChatML.history(&h),
        "Hi<|im_end|>\n<|im_start|>assistant\nHello!<|im_end|>\n<|im_start|>user\nHelp me<|im_end|>\n<|im_start|>assistant"
    );
}

#[test]
fn alpaca_history() {
    let h = conversation();
    assert_eq!(
        PromptTemplate::Alpaca.history(&h),
        "Hi\n### Response:\nHello!\n### Instruction:\nHelp me\n### Response:"
    );
}

#[test]
fn history_drops_two_oldest_past_twenty() {
    let mut h = History::new("U".to_string(), "A".to_string());
    for i in 0..21 {
        let speaker = if i % 2 == 0 { Speaker::User } else { Speaker::Assistant };
        h.add(format!("l{i}"), speaker);
    }
    let s = PromptTemplate::Alpaca.history(&h);
    assert!(s.starts_with("l2\n"));
    assert!(!s.contains("l1\n"));
    assert!(s.ends_with("### Instruction:\nl20\n### Response:"));
}

#[test]
fn mistral_prompt_with_context_and_instruction() {
    let mut h = conversation();
    h.add_context("The wire is red.".to_string());
    h.add_instruction("Be brief.".to_string());
    assert_eq!(h.instruction(), "Be brief.");
    assert_eq!(
        PromptTemplate::Mistral.prompt(&h),
        "[INST] You are an AI assistant named Emma created by Leudz to help Leudz achieve a very important task.\n\
         You are loyal, empathetic and little sassy.\n\
         Take your time to reply based on the context. Keep your replies concise.\n\n\
         Context information is below.\n---------------------\nThe wire is red.\n---------------------\n\n\
         # Instruction:\nBe brief.\n\n\
         Hi [/INST] Hello!</s>[INST] Help me [/INST]"
    );
}

#[test]
fn chatml_prompt_without_context() {
    let h = conversation();
    assert_eq!(
        PromptTemplate::ChatML.prompt(&h),
        "<|im_start|>system\nYou are an AI assistant named Emma created by Leudz to help Leudz achieve a very important task.\n\
         You are loyal, empathetic and little sassy.\n\
         You're having a conversation with Leudz. Take your time to reply based on the context. Keep your replies concise.\
         <|im_end|>\n<|im_start|>user\n\
         Hi<|im_end|>\n<|im_start|>assistant\nHello!<|im_end|>\n<|im_start|>user\nHelp me<|im_end|>\n<|im_start|>assistant"
    );
}

#[test]
fn alpaca_prompt_with_context() {
    let mut h = conversation();
    h.add_context("ctx".to_string());
    h.add_instruction("do it".to_string());
    assert_eq!(
        PromptTemplate::Alpaca.prompt(&h),
        "You are an AI assistant named Emma created by Leudz to help Leudz achieve a very important task.\n\
         You are loyal, empathetic and little sassy.\n\
         Take your time to reply based on the context. Keep your replies concise.\n\n\
         ### Input:\nctx\n\n### Instruction:\ndo it\n\n\
         Hi\n### Response:\nHello!\n### Instruction:\nHelp me\n### Response:"
    );
}

#[test]
fn speech_splits_after_sentence_ends() {
    assert_eq!(
        speech_pieces("Hi. How are you? Fine"),
        vec!["Hi.".to_string(), " How are you?".to_string(), " Fine".to_string()]
    );
    assert_eq!(speech_pieces("Wait..."), vec!["Wait.".to_string(), ".".to_string(), ".".to_string()]);
    assert!(speech_pieces("").is_empty());
}

#[test]
fn raw_source_reads_native_samples() {
    let mut src = RawSource::new(vec![1, 0, 0xff, 0xff, 7]);
    assert_eq!(src.current_frame_len(), Some(2));
    assert_eq!(src.channels(), 1);
    assert_eq!(src.sample_rate(), 22050);
    assert_eq!(src.next(), Some(i16::from_ne_bytes([1, 0])));
    assert_eq!(src.next(), Some(-1));
    assert_eq!(src.current_frame_len(), Some(0));
    assert_eq!(src.next(), None);
    assert_eq!(src.byte_len(), 5);
}
