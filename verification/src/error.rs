//! Typed pipeline errors. Every failure in the compiler surfaces as one of
//! these; nothing is swallowed and nothing panics.
use vstd::prelude::*;
use crate::text::{copy_str, push_decimal, push_str};

verus! {

/// Error from stroke parsing, rendering, merging, or count-bank arithmetic.
#[derive(Debug)]
pub struct StrokeError {
    /// Human-readable description of the failure.
    message: String,
}

impl StrokeError {
    /// The description carried by the error.
    pub closed spec fn spec_message(&self) -> Seq<char> {
        self.message@
    }

    /// Wrap a description into an error value.
    pub fn new(message: String) -> (e: Self)
        ensures
            e.spec_message() == message@,
    {
        StrokeError { message }
    }

    /// The description carried by the error.
    pub fn message(&self) -> (r: &str)
        ensures
            r@ == self.spec_message(),
    {
        self.message.as_str()
    }
}

/// Parse error carrying the 1-based source line where it occurred.
#[derive(Debug)]
pub struct StenoError {
    /// Description of the failure (column info included where relevant).
    message: String,
    /// 1-based source line.
    line: usize,
}

impl StenoError {
    /// The description carried by the error.
    pub closed spec fn spec_message(&self) -> Seq<char> {
        self.message@
    }

    /// The 1-based source line the error refers to.
    pub closed spec fn spec_line(&self) -> usize {
        self.line
    }

    /// Wrap a description and source line into an error value.
    pub fn new(message: String, line: usize) -> (e: Self)
        ensures
            e.spec_message() == message@,
            e.spec_line() == line,
    {
        StenoError { message, line }
    }

    /// The 1-based source line the error refers to.
    pub fn line(&self) -> (r: usize)
        ensures
            r == self.spec_line(),
    {
        self.line
    }

    /// The description carried by the error.
    pub fn message(&self) -> (r: &str)
        ensures
            r@ == self.spec_message(),
    {
        self.message.as_str()
    }

    /// The display form `line N: message`.
    pub fn describe(&self) -> (r: String)
        ensures
            r@ == seq!['l', 'i', 'n', 'e', ' '] + crate::text::decimal(self.spec_line() as nat)
                + seq![':', ' '] + self.spec_message(),
    {
        let mut r = String::new();
        r.push('l');
        r.push('i');
        r.push('n');
        r.push('e');
        r.push(' ');
        push_decimal(&mut r, self.line as u64);
        r.push(':');
        r.push(' ');
        push_str(&mut r, self.message.as_str());
        r
    }
}

/// Error from the count- or type-expansion passes.
#[derive(Debug)]
pub struct ExpandError {
    /// Human-readable description of the failure.
    message: String,
}

impl ExpandError {
    /// The description carried by the error.
    pub closed spec fn spec_message(&self) -> Seq<char> {
        self.message@
    }

    /// Wrap a description into an error value.
    pub fn new(message: String) -> (e: Self)
        ensures
            e.spec_message() == message@,
    {
        ExpandError { message }
    }

    /// The description carried by the error.
    pub fn message(&self) -> (r: &str)
        ensures
            r@ == self.spec_message(),
    {
        self.message.as_str()
    }

    /// A stroke arithmetic failure surfaces as an expansion error with the
    /// same message.
    pub fn from_stroke(e: StrokeError) -> (r: Self)
        ensures
            r.spec_message() == e.spec_message(),
    {
        ExpandError { message: copy_str(e.message()) }
    }
}

/// Error from the rendering pass: an unresolved chunk reaching a renderer, or
/// a movement whose target is not up-and-left of the resting cursor.
#[derive(Debug)]
pub struct RenderError {
    /// Human-readable description of the failure.
    message: String,
}

impl RenderError {
    /// The description carried by the error.
    pub closed spec fn spec_message(&self) -> Seq<char> {
        self.message@
    }

    /// Wrap a description into an error value.
    pub fn new(message: String) -> (e: Self)
        ensures
            e.spec_message() == message@,
    {
        RenderError { message }
    }

    /// The description carried by the error.
    pub fn message(&self) -> (r: &str)
        ensures
            r@ == self.spec_message(),
    {
        self.message.as_str()
    }
}

/// Error from the snippet renderer: an unresolved chunk reaching it.
#[derive(Debug)]
pub struct SnippetError {
    /// Human-readable description of the failure.
    message: String,
}

impl SnippetError {
    /// The description carried by the error.
    pub closed spec fn spec_message(&self) -> Seq<char> {
        self.message@
    }

    /// Wrap a description into an error value.
    pub fn new(message: String) -> (e: Self)
        ensures
            e.spec_message() == message@,
    {
        SnippetError { message }
    }

    /// The description carried by the error.
    pub fn message(&self) -> (r: &str)
        ensures
            r@ == self.spec_message(),
    {
        self.message.as_str()
    }
}

} // verus!
