//! A Markdown document translator built around a chat-completion service.
//!
//! The library splits a document into heading-delimited fragments, resolves the
//! prompts that every request carries, builds the messages for each fragment,
//! and drives a translation run fragment by fragment. Talking to the service is
//! left to the caller, which hands the outcome of each request back to the run.
pub mod document;
pub mod error;
pub mod model;
pub mod prompt;
pub mod segment;
pub mod text;
pub mod translator;

pub use document::{Document, RunStep, TranslationRun};
pub use error::Error;
pub use model::Model;
pub use prompt::{resolve_prompt, DEFAULT_SYSTEM_PROMPT, DEFAULT_USER_PROMPT};
pub use segment::split;
pub use translator::{Message, ReadyForTranslation, Role, State, Translator, Uninitialized};
