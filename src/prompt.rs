//! Chat history and the prompt formats of the local language models.

use vstd::prelude::*;
use std::collections::VecDeque;
use crate::text::{
    chars_of, is_sentence_end, is_white_exec, push_str, string_of, trim_end_white, trim_end_white_exec,
    trim_start_white,
};

verus! {

/// The local models the assistant can run.
#[derive(Clone, Copy, Debug, PartialEq, Eq, Structural)]
pub enum Model {
    Mistral,
    Mixtral,
    Laserxtral,
    OpenHermes,
    BagelMysteryTour,
    BagelWorldTour,
    BondBurger,
    InternLM2,
}

/// The prompt layouts the models were tuned on.
#[derive(Clone, Copy, Debug, PartialEq, Eq, Structural)]
pub enum PromptTemplate {
    Mistral,
    ChatML,
    Alpaca,
}

/// Who said a line of the conversation.
#[derive(Clone, Copy, Debug, PartialEq, Eq, Structural)]
pub enum Speaker {
    User,
    Assistant,
}

pub open spec fn template_of(m: Model) -> PromptTemplate {
    match m {
        Model::Mistral | Model::Mixtral | Model::BondBurger | Model::BagelWorldTour => PromptTemplate::Mistral,
        Model::OpenHermes | Model::Laserxtral | Model::InternLM2 => PromptTemplate::ChatML,
        Model::BagelMysteryTour => PromptTemplate::Alpaca,
    }
}

pub open spec fn model_file(m: Model) -> Seq<char> {
    match m {
        Model::Mistral => "./resources/mistral-7b-instruct-v0.2.Q6_K.gguf"@,
        Model::Mixtral => "./resources/mixtral-8x7b-instruct-v0.1.Q3_K_M.gguf"@,
        Model::Laserxtral => "./resources/laserxtral.q3_k_m.gguf"@,
        Model::OpenHermes => "./resources/openhermes-2.5-mistral-7b-16k.Q6_K.gguf"@,
        Model::BagelMysteryTour => "./resources/BagelMIsteryTour-v2-8x7B.Q3_K_M.gguf"@,
        Model::BagelWorldTour => "./resources/BagelWorldTour.Q3_K_M.imx.gguf"@,
        Model::BondBurger => "./resources/BondBurger-8x7B-Q3_K_M.gguf"@,
        Model::InternLM2 => "./resources/internlm2-limarp-chat-20b.Q5_K_M_imx.gguf"@,
    }
}

pub open spec fn gpu_layers(m: Model) -> Seq<char> {
    match m {
        Model::Mistral | Model::Laserxtral | Model::OpenHermes | Model::InternLM2 => "100"@,
        Model::Mixtral | Model::BagelMysteryTour | Model::BagelWorldTour | Model::BondBurger => "15"@,
    }
}

/// The command-line arguments that start the model server on model `m`.
pub open spec fn process_args(m: Model) -> Seq<Seq<char>> {
    seq![
        "--model"@, model_file(m), "--contextsize"@, "32768"@, "--skiplauncher"@, "--usecublas"@,
        "normal"@, "0"@, "mmq"@, "--gpulayers"@, gpu_layers(m), "--quiet"@, "--smartcontext"@,
        "--onready"@, "echo done"@,
    ]
}

impl Model {
    /// The prompt layout of this model.
    pub fn template(&self) -> (r: PromptTemplate)
        ensures
            r == template_of(*self),
    {
        match self {
            Model::Mistral | Model::Mixtral | Model::BondBurger | Model::BagelWorldTour => PromptTemplate::Mistral,
            Model::OpenHermes | Model::Laserxtral | Model::InternLM2 => PromptTemplate::ChatML,
            Model::BagelMysteryTour => PromptTemplate::Alpaca,
        }
    }

    /// The arguments that start the model server on this model.
    pub fn process_config(&self) -> (r: Vec<&'static str>)
        ensures
            r@.len() == process_args(*self).len(),
            forall|i: int| 0 <= i < r@.len() ==> #[trigger] r@[i]@ == process_args(*self)[i],
    {
        let model = match self {
            Model::Mistral => "./resources/mistral-7b-instruct-v0.2.Q6_K.gguf",
            Model::Mixtral => "./resources/mixtral-8x7b-instruct-v0.1.Q3_K_M.gguf",
            Model::Laserxtral => "./resources/laserxtral.q3_k_m.gguf",
            Model::OpenHermes => "./resources/openhermes-2.5-mistral-7b-16k.Q6_K.gguf",
            Model::BagelMysteryTour => "./resources/BagelMIsteryTour-v2-8x7B.Q3_K_M.gguf",
            Model::BagelWorldTour => "./resources/BagelWorldTour.Q3_K_M.imx.gguf",
            Model::BondBurger => "./resources/BondBurger-8x7B-Q3_K_M.gguf",
            Model::InternLM2 => "./resources/internlm2-limarp-chat-20b.Q5_K_M_imx.gguf",
        };
        let gpulayers = match self {
            Model::Mistral | Model::Laserxtral | Model::OpenHermes | Model::InternLM2 => "100",
            Model::Mixtral | Model::BagelMysteryTour | Model::BagelWorldTour | Model::BondBurger => "15",
        };
        let r = vec![
            "--model", model, "--contextsize", "32768", "--skiplauncher", "--usecublas", "normal", "0",
            "mmq", "--gpulayers", gpulayers, "--quiet", "--smartcontext", "--onready", "echo done",
        ];
        assert(r@.len() == 15);
        r
    }
}

/// Most lines the history keeps; past it the two oldest are dropped.
pub const MAX_HISTORY: usize = 20;

/// One line of the conversation.
pub struct HistoryEntry {
    pub speaker: Speaker,
    pub text: String,
}

/// The conversation so far, with the names of its two parties, the context
/// evidence and the standing instruction.
pub struct History {
    history: VecDeque<HistoryEntry>,
    user: String,
    assistant: String,
    context: String,
    instruction: String,
}

/// The history lines after `line` is added: past `MAX_HISTORY` lines the two
/// oldest go.
pub open spec fn after_add(lines: Seq<(Speaker, Seq<char>)>, line: (Speaker, Seq<char>)) -> Seq<(Speaker, Seq<char>)> {
    let pushed = lines.push(line);
    if pushed.len() > MAX_HISTORY {
        pushed.skip(2)
    } else {
        pushed
    }
}

impl History {
    /// The lines, oldest first.
    pub closed spec fn lines(&self) -> Seq<(Speaker, Seq<char>)> {
        self.history@.map_values(|e: HistoryEntry| (e.speaker, e.text@))
    }

    pub closed spec fn user_name(&self) -> Seq<char> {
        self.user@
    }

    pub closed spec fn assistant_name(&self) -> Seq<char> {
        self.assistant@
    }

    pub closed spec fn context_view(&self) -> Seq<char> {
        self.context@
    }

    pub closed spec fn instruction_view(&self) -> Seq<char> {
        self.instruction@
    }

    /// An empty conversation between `user` and `assistant`.
    pub fn new(user: String, assistant: String) -> (r: History)
        ensures
            r.lines() == Seq::<(Speaker, Seq<char>)>::empty(),
            r.user_name() == user@,
            r.assistant_name() == assistant@,
            r.context_view() == Seq::<char>::empty(),
            r.instruction_view() == Seq::<char>::empty(),
    {
        let r = History {
            history: VecDeque::new(),
            user,
            assistant,
            context: String::new(),
            instruction: String::new(),
        };
        assert(r.lines() =~= Seq::<(Speaker, Seq<char>)>::empty());
        r
    }

    /// Appends a line said by `speaker`.
    pub fn add(&mut self, s: String, speaker: Speaker)
        ensures
            final(self).lines() == after_add(old(self).lines(), (speaker, s@)),
            final(self).user_name() == old(self).user_name(),
            final(self).assistant_name() == old(self).assistant_name(),
            final(self).context_view() == old(self).context_view(),
            final(self).instruction_view() == old(self).instruction_view(),
    {
        let ghost before = self.lines();
        self.history.push_back(HistoryEntry { speaker, text: s });
        let ghost pushed = self.history@;
        assert(self.lines() =~= before.push((speaker, s@)));
        if self.history.len() > MAX_HISTORY {
            self.history.pop_front();
            self.history.pop_front();
            assert(self.history@ =~= pushed.skip(2));
            assert(self.lines() =~= before.push((speaker, s@)).skip(2));
        }
    }

    /// Sets the context evidence.
    pub fn add_context(&mut self, context: String)
        ensures
            final(self).context_view() == context@,
            final(self).lines() == old(self).lines(),
            final(self).user_name() == old(self).user_name(),
            final(self).assistant_name() == old(self).assistant_name(),
            final(self).instruction_view() == old(self).instruction_view(),
    {
        self.context = context;
    }

    /// Sets the standing instruction.
    pub fn add_instruction(&mut self, instruction: String)
        ensures
            final(self).instruction_view() == instruction@,
            final(self).lines() == old(self).lines(),
            final(self).user_name() == old(self).user_name(),
            final(self).assistant_name() == old(self).assistant_name(),
            final(self).context_view() == old(self).context_view(),
    {
        self.instruction = instruction;
    }

    /// Whether the conversation has no line yet.
    pub fn is_empty(&self) -> (r: bool)
        ensures
            r == (self.lines().len() == 0),
    {
        self.history.len() == 0
    }

    /// The user's name.
    pub fn user(&self) -> (r: &String)
        ensures
            r@ == self.user_name(),
    {
        &self.user
    }

    /// The standing instruction.
    pub fn instruction(&self) -> (r: &String)
        ensures
            r@ == self.instruction_view(),
    {
        &self.instruction
    }
}

/// One line after the first, as template `t` writes it.
pub open spec fn line_text(t: PromptTemplate, e: (Speaker, Seq<char>)) -> Seq<char> {
    match t {
        PromptTemplate::Mistral => match e.0 {
            Speaker::User => "[INST] "@ + e.1 + " [/INST]"@,
            Speaker::Assistant => " "@ + e.1 + "</s>"@,
        },
        PromptTemplate::ChatML => match e.0 {
            Speaker::User => "<|im_start|>user\n"@ + e.1 + "<|im_end|>\n"@,
            Speaker::Assistant => "<|im_start|>assistant\n"@ + e.1 + "<|im_end|>\n"@,
        },
        PromptTemplate::Alpaca => match e.0 {
            Speaker::User => "### Instruction:\n"@ + e.1 + "\n"@,
            Speaker::Assistant => "### Response:\n"@ + e.1 + "\n"@,
        },
    }
}

pub open spec fn lines_text(t: PromptTemplate, es: Seq<(Speaker, Seq<char>)>) -> Seq<char>
    decreases es.len(),
{
    if es.len() == 0 {
        seq![]
    } else {
        lines_text(t, es.drop_last()) + line_text(t, es.last())
    }
}

/// The first line, whoever said it.
pub open spec fn first_line_text(t: PromptTemplate, text: Seq<char>) -> Seq<char> {
    match t {
        PromptTemplate::Mistral => text + " [/INST]"@,
        PromptTemplate::ChatML => text + "<|im_end|>\n"@,
        PromptTemplate::Alpaca => text + "\n"@,
    }
}

/// What follows the last line: the cue for the assistant's reply.
pub open spec fn closing_text(t: PromptTemplate) -> Seq<char> {
    match t {
        PromptTemplate::Mistral => seq![],
        PromptTemplate::ChatML => "<|im_start|>assistant"@,
        PromptTemplate::Alpaca => "### Response:"@,
    }
}

/// The conversation as template `t` writes it.
pub open spec fn history_text(t: PromptTemplate, es: Seq<(Speaker, Seq<char>)>) -> Seq<char> {
    first_line_text(t, es[0].1) + lines_text(t, es.drop_first()) + closing_text(t)
}

/// The context block, empty for no context.
pub open spec fn context_block(t: PromptTemplate, context: Seq<char>) -> Seq<char> {
    if context.len() == 0 {
        seq![]
    } else {
        match t {
            PromptTemplate::Mistral => "Context information is below.\n---------------------\n"@ + context
                + "\n---------------------\n\n"@,
            PromptTemplate::ChatML => "\nContext information is below.\n---------------------\n"@ + context
                + "\n---------------------"@,
            PromptTemplate::Alpaca => "### Input:\n"@ + context + "\n\n"@,
        }
    }
}

/// The instruction block, empty for no instruction.
pub open spec fn instruction_block(t: PromptTemplate, instruction: Seq<char>) -> Seq<char> {
    if instruction.len() == 0 {
        seq![]
    } else {
        match t {
            PromptTemplate::Mistral => "# Instruction:\n"@ + instruction + "\n\n"@,
            _ => instruction + "\n\n"@,
        }
    }
}

/// The whole prompt.
pub open spec fn prompt_text(
    t: PromptTemplate,
    es: Seq<(Speaker, Seq<char>)>,
    user: Seq<char>,
    assistant: Seq<char>,
    context: Seq<char>,
    instruction: Seq<char>,
) -> Seq<char> {
    let ctx = context_block(t, context);
    let ins = instruction_block(t, instruction);
    let hist = history_text(t, es);
    match t {
        PromptTemplate::Mistral => "[INST] You are an AI assistant named "@ + assistant + " created by Leudz to help "@
            + user + " achieve a very important task.\nYou are loyal, empathetic and little sassy.\nTake your time to reply based on the context. Keep your replies concise.\n\n"@
            + ctx + ins + hist,
        PromptTemplate::ChatML => "<|im_start|>system\nYou are an AI assistant named "@ + assistant
            + " created by Leudz to help "@ + user
            + " achieve a very important task.\nYou are loyal, empathetic and little sassy.\nYou're having a conversation with "@
            + user + ". Take your time to reply based on the context. Keep your replies concise."@ + ctx
            + "<|im_end|>\n<|im_start|>user\n"@ + ins + hist,
        PromptTemplate::Alpaca => "You are an AI assistant named "@ + assistant + " created by Leudz to help "@ + user
            + " achieve a very important task.\nYou are loyal, empathetic and little sassy.\nTake your time to reply based on the context. Keep your replies concise.\n\n"@
            + ctx + "### Instruction:\n"@ + ins + hist,
    }
}

impl PromptTemplate {
    /// The conversation written in this template.
    pub fn history(&self, history: &History) -> (r: String)
        requires
            history.lines().len() > 0,
        ensures
            r@ == history_text(*self, history.lines()),
    {
        let lines = &history.history;
        let ghost es = history.lines();
        let mut s = String::new();
        let first = &lines[0];
        assert(es[0] == (first.speaker, first.text@));
        push_str(&mut s, first.text.as_str());
        match self {
            PromptTemplate::Mistral => push_str(&mut s, " [/INST]"),
            PromptTemplate::ChatML => push_str(&mut s, "<|im_end|>\n"),
            PromptTemplate::Alpaca => push_str(&mut s, "\n"),
        }
        let ghost head = s@;
        assert(head == first_line_text(*self, es[0].1));
        let n = lines.len();
        let mut i: usize = 1;
        while i < n
            invariant
                1 <= i <= n,
                n == es.len(),
                *lines == history.history,
                es == history.lines(),
                s@ == head + lines_text(*self, es.subrange(1, i as int)),
            decreases n - i,
        {
            let entry = &lines[i];
            let text = entry.text.as_str();
            assert(es[i as int] == (entry.speaker, entry.text@));
            let ghost before = s@;
            match self {
                PromptTemplate::Mistral => match entry.speaker {
                    Speaker::User => {
                        push_str(&mut s, "[INST] ");
                        push_str(&mut s, text);
                        push_str(&mut s, " [/INST]");
                    },
                    Speaker::Assistant => {
                        push_str(&mut s, " ");
                        push_str(&mut s, text);
                        push_str(&mut s, "</s>");
                    },
                },
                PromptTemplate::ChatML => match entry.speaker {
                    Speaker::User => {
                        push_str(&mut s, "<|im_start|>user\n");
                        push_str(&mut s, text);
                        push_str(&mut s, "<|im_end|>\n");
                    },
                    Speaker::Assistant => {
                        push_str(&mut s, "<|im_start|>assistant\n");
                        push_str(&mut s, text);
                        push_str(&mut s, "<|im_end|>\n");
                    },
                },
                PromptTemplate::Alpaca => match entry.speaker {
                    Speaker::User => {
                        push_str(&mut s, "### Instruction:\n");
                        push_str(&mut s, text);
                        push_str(&mut s, "\n");
                    },
                    Speaker::Assistant => {
                        push_str(&mut s, "### Response:\n");
                        push_str(&mut s, text);
                        push_str(&mut s, "\n");
                    },
                },
            }
            proof {
                let sub = es.subrange(1, i + 1);
                assert(sub.drop_last() =~= es.subrange(1, i as int));
                assert(sub.last() == es[i as int]);
                assert(s@ =~= before + line_text(*self, es[i as int]));
                assert(s@ =~= head + lines_text(*self, sub));
            }
            i = i + 1;
        }
        assert(es.subrange(1, n as int) =~= es.drop_first());
        match self {
            PromptTemplate::Mistral => {},
            PromptTemplate::ChatML => push_str(&mut s, "<|im_start|>assistant"),
            PromptTemplate::Alpaca => push_str(&mut s, "### Response:"),
        }
        assert(s@ =~= history_text(*self, es));
        s
    }

    /// The whole prompt for `history` in this template.
    pub fn prompt(&self, history: &History) -> (r: String)
        requires
            history.lines().len() > 0,
        ensures
            r@ == prompt_text(
                *self,
                history.lines(),
                history.user_name(),
                history.assistant_name(),
                history.context_view(),
                history.instruction_view(),
            ),
    {
        let instruction = history.instruction.as_str();
        let context = history.context.as_str();
        let user = history.user.as_str();
        let assistant = history.assistant.as_str();
        let hist = self.history(history);
        let has_context = !context.is_empty();
        let has_instruction = !instruction.is_empty();
        let mut s = String::new();
        match self {
            PromptTemplate::Mistral => {
                push_str(&mut s, "[INST] You are an AI assistant named ");
                push_str(&mut s, assistant);
                push_str(&mut s, " created by Leudz to help ");
                push_str(&mut s, user);
                push_str(&mut s, " achieve a very important task.\nYou are loyal, empathetic and little sassy.\nTake your time to reply based on the context. Keep your replies concise.\n\n");
                if has_context {
                    push_str(&mut s, "Context information is below.\n---------------------\n");
                    push_str(&mut s, context);
                    push_str(&mut s, "\n---------------------\n\n");
                }
                if has_instruction {
                    push_str(&mut s, "# Instruction:\n");
                    push_str(&mut s, instruction);
                    push_str(&mut s, "\n\n");
                }
                push_str(&mut s, hist.as_str());
            },
            PromptTemplate::ChatML => {
                push_str(&mut s, "<|im_start|>system\nYou are an AI assistant named ");
                push_str(&mut s, assistant);
                push_str(&mut s, " created by Leudz to help ");
                push_str(&mut s, user);
                push_str(&mut s, " achieve a very important task.\nYou are loyal, empathetic and little sassy.\nYou're having a conversation with ");
                push_str(&mut s, user);
                push_str(&mut s, ". Take your time to reply based on the context. Keep your replies concise.");
                if has_context {
                    push_str(&mut s, "\nContext information is below.\n---------------------\n");
                    push_str(&mut s, context);
                    push_str(&mut s, "\n---------------------");
                }
                push_str(&mut s, "<|im_end|>\n<|im_start|>user\n");
                if has_instruction {
                    push_str(&mut s, instruction);
                    push_str(&mut s, "\n\n");
                }
                push_str(&mut s, hist.as_str());
            },
            PromptTemplate::Alpaca => {
                push_str(&mut s, "You are an AI assistant named ");
                push_str(&mut s, assistant);
                push_str(&mut s, " created by Leudz to help ");
                push_str(&mut s, user);
                push_str(&mut s, " achieve a very important task.\nYou are loyal, empathetic and little sassy.\nTake your time to reply based on the context. Keep your replies concise.\n\n");
                if has_context {
                    push_str(&mut s, "### Input:\n");
                    push_str(&mut s, context);
                    push_str(&mut s, "\n\n");
                }
                push_str(&mut s, "### Instruction:\n");
                if has_instruction {
                    push_str(&mut s, instruction);
                    push_str(&mut s, "\n\n");
                }
                push_str(&mut s, hist.as_str());
            },
        }
        assert(s@ =~= prompt_text(
            *self,
            history.lines(),
            history.user_name(),
            history.assistant_name(),
            history.context_view(),
            history.instruction_view(),
        ));
        s
    }
}

/// Where the model server must stop generating: when it starts writing the
/// user's turn, or an end-of-turn marker.
pub open spec fn stop_texts(user: Seq<char>) -> Seq<Seq<char>> {
    seq![user + ":"@, "\n"@ + user, "### Instruction:"@, "<|im_end|>"@]
}

impl History {
    /// The stop sequences of a generation request for this conversation.
    pub fn stop_sequences(&self) -> (r: Vec<String>)
        ensures
            r@.len() == 4,
            forall|i: int| 0 <= i < 4 ==> #[trigger] r@[i]@ == stop_texts(self.user_name())[i],
    {
        let mut a = self.user.clone();
        push_str(&mut a, ":");
        let mut b = String::new();
        push_str(&mut b, "\n");
        push_str(&mut b, self.user.as_str());
        let mut c = String::new();
        push_str(&mut c, "### Instruction:");
        let mut d = String::new();
        push_str(&mut d, "<|im_end|>");
        let r = vec![a, b, c, d];
        assert(r@[0]@ == stop_texts(self.user_name())[0]);
        r
    }
}

/// `s` with every trailing repetition of `p` removed.
pub open spec fn trim_end_matches(s: Seq<char>, p: Seq<char>) -> Seq<char>
    decreases s.len(),
{
    if 0 < p.len() <= s.len() && s.subrange(s.len() - p.len(), s.len() as int) == p {
        trim_end_matches(s.subrange(0, s.len() - p.len()), p)
    } else {
        s
    }
}

/// Index of the last sentence end of `s`, or -1.
pub open spec fn last_sentence_end(s: Seq<char>) -> int
    decreases s.len(),
{
    if s.len() == 0 {
        -1
    } else if is_sentence_end(s.last()) {
        s.len() - 1
    } else {
        last_sentence_end(s.drop_last())
    }
}

/// A generated reply made ready to show: end-of-turn markers and the start of
/// the user's next turn cut from its end, white space trimmed, and the
/// unfinished last sentence dropped. `None` when no sentence is finished.
pub open spec fn cleaned_reply(reply: Seq<char>, user: Seq<char>) -> Option<Seq<char>> {
    let a = trim_end_matches(reply, "</s>"@);
    let b = trim_end_matches(a, "<|im_end|>"@);
    let c = trim_end_matches(b, user + ":"@);
    let d = trim_end_matches(c, "\n"@ + user);
    let e = trim_start_white(trim_end_white(d));
    let i = last_sentence_end(e);
    if i < 0 {
        None
    } else {
        Some(trim_end_white(e.take(i + 1)))
    }
}

fn trim_end_matches_exec(s: &mut Vec<char>, p: &Vec<char>)
    ensures
        final(s)@ == trim_end_matches(old(s)@, p@),
{
    loop
        invariant
            trim_end_matches(s@, p@) == trim_end_matches(old(s)@, p@),
        decreases s@.len(),
    {
        let n = s.len();
        let m = p.len();
        if m == 0 || m > n {
            assert(trim_end_matches(s@, p@) == s@);
            return;
        }
        let mut j: usize = 0;
        while j < m && s[n - m + j] == p[j]
            invariant
                j <= m,
                m <= n == s@.len(),
                m == p@.len(),
                forall|k: int| 0 <= k < j ==> s@[n - m + k] == p@[k],
            decreases m - j,
        {
            j = j + 1;
        }
        if j < m {
            proof {
                assert(s@.subrange(n - m, n as int)[j as int] != p@[j as int]);
                assert(trim_end_matches(s@, p@) == s@);
            }
            return;
        }
        proof {
            assert(s@.subrange(n - m, n as int) =~= p@);
        }
        let ghost before = s@;
        s.truncate(n - m);
        assert(s@ =~= before.subrange(0, n - m));
    }
}

fn concat_chars(a: &str, b: &str) -> (r: Vec<char>)
    ensures
        r@ == a@ + b@,
{
    let mut r = chars_of(a);
    let mut t = chars_of(b);
    r.append(&mut t);
    r
}

/// Makes a generated reply ready to show, as `cleaned_reply` says.
pub fn clean_reply(reply: &str, user: &str) -> (r: Option<String>)
    ensures
        r matches Some(s) ==> cleaned_reply(reply@, user@) == Some(s@),
        r is None ==> cleaned_reply(reply@, user@) is None,
{
    let mut s = chars_of(reply);
    trim_end_matches_exec(&mut s, &chars_of("</s>"));
    trim_end_matches_exec(&mut s, &chars_of("<|im_end|>"));
    trim_end_matches_exec(&mut s, &concat_chars(user, ":"));
    trim_end_matches_exec(&mut s, &concat_chars("\n", user));
    trim_end_white_exec(&mut s);
    let ghost d = s@;
    let mut k: usize = 0;
    assert(d.skip(0) =~= d);
    while k < s.len() && is_white_exec(s[k])
        invariant
            k <= s@.len(),
            s@ == d,
            trim_start_white(d) == trim_start_white(d.skip(k as int)),
        decreases s@.len() - k,
    {
        proof {
            assert(d.skip(k as int).drop_first() =~= d.skip(k + 1));
        }
        k = k + 1;
    }
    assert(d.skip(0) =~= d);
    let mut e: Vec<char> = Vec::new();
    let mut j: usize = k;
    while j < s.len()
        invariant
            k <= j <= s@.len(),
            s@ == d,
            e@ == d.subrange(k as int, j as int),
        decreases s@.len() - j,
    {
        e.push(s[j]);
        assert(e@ =~= d.subrange(k as int, j + 1));
        j = j + 1;
    }
    proof {
        assert(e@ =~= d.skip(k as int));
        assert(e@ == trim_start_white(d));
    }
    let ghost ev = e@;
    let mut i = e.len();
    assert(ev.take(ev.len() as int) =~= ev);
    while i > 0 && !(e[i - 1] == '.' || e[i - 1] == '!' || e[i - 1] == '?' || e[i - 1] == '\n')
        invariant
            i <= ev.len(),
            e@ == ev,
            last_sentence_end(ev) == last_sentence_end(ev.take(i as int)),
        decreases i,
    {
        proof {
            assert(ev.take(i as int).drop_last() =~= ev.take(i - 1));
        }
        i = i - 1;
    }
    if i == 0 {
        assert(ev.take(0) =~= Seq::<char>::empty());
        return None;
    }
    proof {
        assert(ev.take(i as int).last() == ev[i - 1]);
    }
    e.truncate(i);
    trim_end_white_exec(&mut e);
    Some(string_of(&e))
}

} // verus!
