//! Detection of word repetitions in a text.
//!
//! A [`Parser`] cuts a text, plain or HTML, into the tokens of a document
//! ([`Ast`]) and reduces each word that it follows to its stem. The
//! detectors then mark the followed words that come back too often: the
//! local detector within a sliding window of words, the global detector
//! over the whole document. Each detector scores the words and ends with a
//! pass of the highlighter, which turns scores into marks and never changes
//! a mark that is set, so that detectors can be run one after another.
//!
//! The contracts of the functions are stated over the views of the
//! documents; what holds of the functions together is proved in [`laws`].

pub mod chars;
pub mod display;
pub mod error;
pub mod fuzzy;
pub mod global;
pub mod highlight;
pub mod laws;
pub mod leak;
pub mod local;
pub mod parser;
pub mod ratio;
pub mod stem;
pub mod tokenizer;
pub mod word;

pub use error::Error;
pub use leak::LeakLink;
pub use parser::Parser;
pub use ratio::Ratio;
pub use word::{Ast, Tier, Word};
