//! Codec for tagged-field amateur-radio log files: a lenient byte-level
//! parser, length-unit disambiguation, mojibake repair and re-encoding.

pub mod text;
pub mod tokenizer;
pub mod bytes;
pub mod adif;
pub mod chars;
pub mod mojibake;
pub mod encoding;
pub mod entities;
pub mod output;
pub mod test_runner;
pub mod cli;
pub mod reparse;
pub mod error;
