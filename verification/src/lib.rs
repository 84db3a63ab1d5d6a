//! A small retrieval-augmented generation pipeline: text is split into
//! overlapping chunks, the chunks are stored with their embeddings, and a
//! question is answered from the chunks closest to it.
//!
//! This crate holds the pipeline's own logic, verified: chunking, the search
//! query text and ranking, the prompt and its context, the cleaning of the
//! model's answer, source excerpts and the rendering of an answer.
use vstd::prelude::*;

pub mod chunk;
pub mod db;
pub mod rag;
pub mod style;
pub mod sync;
pub mod text;

verus! {

/// Where the documents, chunks and embeddings are kept.
pub const DB_PATH: &'static str = "mini_rag.db";

/// The chat model that answers questions.
pub const DEEPSEEK_R1: &'static str = "deepseek-r1";

} // verus!
