//! A self-contained JSON codec: UTF-8 text to a structured value and back.
//!
//! `parse` drives a [`Tokenizer`] and a [`Parser`] to build a [`JsonValue`];
//! `generator::stringify` and [`Generator`] walk a value and emit text,
//! minified or indented. Numbers are held exactly as signed decimals;
//! objects keep their entries sorted by key, so re-serialization is
//! deterministic. Every function's contract states its exact output over
//! the value model in [`Json`].

use vstd::prelude::*;

mod error;
mod laws;
pub mod generator;
mod parser;
mod tokenizer;
mod support;
mod value;

pub use error::ErrModel;
pub use error::JsonError;
pub use generator::Generator;
pub use generator::Tab;
pub use laws::lemma_object_insert_comm;
pub use laws::lemma_number_round_trip;
pub use laws::lemma_scalar_minify_idempotent;
pub use laws::lemma_scalar_round_trip;
pub use laws::lemma_string_round_trip;
pub use laws::lemma_whole_number_round_trip;
pub use laws::lemma_object_insert_overwrite;
pub use parser::parse;
pub use parser::Parser;
pub use tokenizer::Tok;
pub use tokenizer::Token;
pub use tokenizer::Tokenizer;
pub use value::object_insert;
pub use value::Json;
pub use value::JsonNumber;
pub use value::JsonValue;

verus! {

/// The result of any fallible step of the codec.
pub type JsonResult<T> = Result<T, JsonError>;

} // verus!
