//! A hybrid lexical and semantic retrieval engine with a conversational
//! working memory, and the prompt and audio helpers around it.

pub mod arena;
pub mod audio;
pub mod chunk;
pub mod fusion;
pub mod lexical;
pub mod memory;
pub mod prompt;
pub mod store;
pub mod terms;
pub mod text;
pub mod website;

pub use audio::RawSource;
pub use memory::ContextMemory;
pub use prompt::{History, Model, PromptTemplate, Speaker};
pub use store::{Skipped, RAG};
