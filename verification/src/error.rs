//! What parsing and tree access report when they cannot proceed.

use vstd::prelude::*;

verus! {

/// Why a document was rejected.
#[derive(Clone, Copy, Debug, PartialEq, Eq, Structural)]
pub enum ParseErrorKind {
    /// A tag has no closing `>` on its line.
    MalformedFragment,
    /// An open tag does not start with a name.
    InvalidTagName,
    /// An attribute is not of the form `key="value"`.
    MalformedAttribute,
    /// An open tag follows the end of the root element.
    MultipleRoots,
    /// A close tag does not name the element that is currently open.
    MismatchedCloseTag,
    /// Text stands outside every element.
    UnexpectedText,
}

/// The mathematical value of a `ParseError`.
pub struct ParseErrorView {
    /// Why the document was rejected.
    pub kind: ParseErrorKind,
    /// The number of the offending line; the first line is line 1.
    pub line: nat,
    /// The text of the offending tag or text run.
    pub fragment: Seq<char>,
}

/// The rejection of a document: the reason, and where it arose.
#[derive(Clone, Debug, PartialEq, Eq)]
pub struct ParseError {
    /// Why the document was rejected.
    pub kind: ParseErrorKind,
    /// The number of the offending line; the first line is line 1.
    pub line: usize,
    /// The text of the offending tag or text run.
    pub fragment: String,
}

impl View for ParseError {
    type V = ParseErrorView;

    open spec fn view(&self) -> ParseErrorView {
        ParseErrorView { kind: self.kind, line: self.line as nat, fragment: self.fragment@ }
    }
}

/// Why a tree could not answer.
#[derive(Clone, Copy, Debug, PartialEq, Eq, Structural)]
pub enum TreeError {
    /// The tree has no root: no open tag was ever seen.
    EmptyTree,
}

} // verus!
