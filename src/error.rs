//! The error kinds of the whole tool, for callers that report them together.

use vstd::prelude::*;

verus! {

#[derive(Debug)]
pub enum TransAdifError {
    Io(String),
    Encoding(String),
    Parse { pos: usize, msg: String },
    InvalidField(String),
    InvalidEncoding(String),
    StrictMode(String),
}

} // verus!
