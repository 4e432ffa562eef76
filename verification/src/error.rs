//! The error type of the text and OpenQASM front ends.
use vstd::prelude::*;
use crate::text::{chars_of, push_all, push_decimal, string_of, decimal};

verus! {

/// An error from parsing a text program or OpenQASM source.
#[derive(Debug, Clone, PartialEq, Eq)]
pub struct ParseError {
    /// 1-based source line, when the parser tracks one (the text program
    /// format does; the OpenQASM importer names the offending statement in
    /// the message instead).
    pub line: Option<usize>,
    /// Human-readable description of the problem.
    pub message: String,
}

impl ParseError {
    /// A parse error with no associated line.
    pub fn new(message: String) -> (r: Self)
        ensures
            r.line is None,
            r.message@ == message@,
    {
        ParseError { line: None, message }
    }

    /// A parse error located at a 1-based source line.
    pub fn at_line(line: usize, message: String) -> (r: Self)
        ensures
            r.line == Some(line),
            r.message@ == message@,
    {
        ParseError { line: Some(line), message }
    }

    /// The error as a reader sees it: `line N: message`, or the message alone
    /// when no line is known.
    pub fn render(&self) -> (r: String)
        ensures
            r@ == match self.line {
                Some(l) => "line "@ + decimal(l as nat) + ": "@ + self.message@,
                None => self.message@,
            },
    {
        match self.line {
            Some(l) => {
                let mut out = chars_of("line ");
                push_decimal(&mut out, l as u64);
                push_all(&mut out, chars_of(": ").as_slice());
                push_all(&mut out, chars_of(self.message.as_str()).as_slice());
                string_of(out.as_slice())
            },
            None => self.message.clone(),
        }
    }
}

} // verus!
