//! A backward-chaining rule engine that drives an interactive questionnaire.
//!
//! A knowledge base holds atoms (named fact variables with a fixed list of
//! choices), rules (conjunctions of atom/choice conditions that conclude either
//! another atom/choice or a goal) and goals. Given the facts answered so far, the
//! engine says which question to ask next, or which goal has been reached.
use vstd::prelude::*;

pub mod model;
pub mod inference;
pub mod laws;
pub mod ranking;
pub mod text;
pub mod loader;
pub mod document;
pub mod engine;
pub mod context;

pub use context::{create_inference_engine, redirect, Context};
pub use engine::{prepare_engine, Answer, Engine, FactError, Question};
pub use document::{load, parse_document};
pub use loader::{parse_knowledge_base, LoadError};
pub use model::KnowledgeBase;

verus! {

} // verus!
