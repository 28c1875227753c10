//! Pieces of the surface syntax: what the token of a string or of a
//! character holds, and the diagnostics that reading a program gives.

use vstd::prelude::*;
use vstd::string::StrSliceExecFns;

verus! {

/// A stretch of the source text, from the byte `start` up to the byte `end`.
#[derive(Clone, Copy, Debug, PartialEq, Eq, Structural)]
pub struct Span {
    pub start: usize,
    pub end: usize,
}

/// What a token in quotes holds: the text between its first and its last
/// character.
pub fn extract_string_from_token(slice: &str) -> (r: Option<&str>)
    requires
        slice@.len() >= 2,
    ensures
        r is Some,
        r->0@ == slice@.subrange(1, slice@.len() - 1),
{
    let n = slice.unicode_len();
    Some(slice.substring_char(1, n - 1))
}

/// What the token of a character holds: its second character, if it has
/// one.
pub fn extract_character_from_token(slice: &str) -> (r: Option<char>)
    ensures
        r == if slice@.len() >= 2 {
            Some(slice@[1])
        } else {
            None
        },
{
    if slice.unicode_len() >= 2 {
        Some(slice.get_char(1))
    } else {
        None
    }
}

/// A fault found in the source text: what is wrong, where, and notes, each
/// with the place that it speaks of, if it speaks of one.
#[derive(Debug)]
pub struct Diagnostic {
    pub message: String,
    pub span: Span,
    pub labels: Vec<(String, Option<Span>)>,
}

impl Diagnostic {
    /// A diagnostic without notes.
    pub fn new(message: String, span: Span) -> (d: Diagnostic)
        ensures
            d.message == message,
            d.span == span,
            d.labels@.len() == 0,
    {
        Diagnostic { message, span, labels: Vec::new() }
    }

    /// The diagnostic with one more note, about the place `span`.
    pub fn label(self, text: String, span: Span) -> (d: Diagnostic)
        ensures
            d.message == self.message,
            d.span == self.span,
            d.labels@ == self.labels@.push((text, Some(span))),
    {
        let mut d = self;
        d.labels.push((text, Some(span)));
        d
    }

    /// The diagnostic with one more note, about no place.
    pub fn explain(self, text: String) -> (d: Diagnostic)
        ensures
            d.message == self.message,
            d.span == self.span,
            d.labels@ == self.labels@.push((text, None)),
    {
        let mut d = self;
        d.labels.push((text, None));
        d
    }
}

} // verus!
