//! The error that the tokenizer reports for a span of source text.
use vstd::prelude::*;

verus! {

/// A lexical error (or, when `is_internal`, a broken internal invariant) at a
/// byte span of one source file.
#[derive(Debug, Clone)]
pub struct TokenizeError {
    pub filename: String,
    pub pos: usize,
    pub len: usize,
    pub errstr: String,
    /// Set when the error signals a broken invariant rather than bad input.
    pub internal: bool,
}

impl TokenizeError {
    /// A lexical error: bad input at `len` bytes from offset `pos`.
    pub fn new(filename: String, pos: usize, len: usize, errstr: String) -> (r: TokenizeError)
        ensures
            r.filename == filename,
            r.pos == pos,
            r.len == len,
            r.errstr == errstr,
            !r.internal,
    {
        TokenizeError { filename, pos, len, errstr, internal: false }
    }

    /// An internal error: input that the scanner accepted but could not convert.
    pub fn internal(filename: String, pos: usize, len: usize, errstr: String) -> (r:
        TokenizeError)
        ensures
            r.filename == filename,
            r.pos == pos,
            r.len == len,
            r.errstr == errstr,
            r.internal,
    {
        TokenizeError { filename, pos, len, errstr, internal: true }
    }

    pub fn message(&self) -> (r: &str)
        ensures
            r@ == self.errstr@,
    {
        self.errstr.as_str()
    }

    pub fn is_internal(&self) -> (r: bool)
        ensures
            r == self.internal,
    {
        self.internal
    }
}

} // verus!
