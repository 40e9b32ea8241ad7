//! A byte-pair-encoding tokenizer: text to token ranks and back.
use vstd::prelude::*;

pub mod batch;
pub mod bpe;
pub mod encoder;
pub mod contents;
pub mod cuts;
pub mod encodings;
pub mod error;
pub mod histories;
pub mod hugging_face;
pub mod laws;
pub mod loaders;
pub mod merging;
pub mod models;
pub mod order;
pub mod relations;
pub mod search;
pub mod spelling;
pub mod splitters;
pub mod tables;
pub mod text;
pub mod tokenizer;
pub mod transforms;
pub mod vocabulary;
pub mod words;
pub mod writings;

pub use error::Error;
pub use tokenizer::Tokenizer;
pub use vocabulary::Token;

verus! {

/// The number by which a token is known.
pub type Rank = u32;

} // verus!
