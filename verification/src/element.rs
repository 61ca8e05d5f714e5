//! What the element stream yields, and the errors a parse records.

use vstd::prelude::*;
use crate::value::{values_view, Value, ValueView};

verus! {

/// One syntactic element of a document.
#[derive(Debug, PartialEq)]
pub enum Element {
    /// A section header, with the section's name.
    Section(String),
    /// A table row, with its cells.
    Row(Vec<Value>),
    /// A key and its value.
    Entry(String, Value),
    /// A comment, with its text after the `#`.
    Comment(String),
}

/// What an `Element` stands for.
#[verifier::ext_equal]
pub enum ElementView {
    Section(Seq<char>),
    Row(Seq<ValueView>),
    Entry(Seq<char>, ValueView),
    Comment(Seq<char>),
}

impl View for Element {
    type V = ElementView;

    open spec fn view(&self) -> ElementView {
        match *self {
            Element::Section(name) => ElementView::Section(name@),
            Element::Row(cells) => ElementView::Row(values_view(cells@)),
            Element::Entry(key, value) => ElementView::Entry(key@, value@),
            Element::Comment(text) => ElementView::Comment(text@),
        }
    }
}

/// An error of the grammar: a window of one or two characters at the place
/// where it was noticed, as byte offsets into the input, and a message.
#[derive(Clone, Debug, PartialEq, Eq)]
pub struct ParserError {
    pub lo: usize,
    pub hi: usize,
    pub desc: String,
}

/// What a `ParserError` stands for.
pub struct ErrorView {
    pub lo: int,
    pub hi: int,
    pub desc: Seq<char>,
}

impl View for ParserError {
    type V = ErrorView;

    open spec fn view(&self) -> ErrorView {
        ErrorView { lo: self.lo as int, hi: self.hi as int, desc: self.desc@ }
    }
}

/// What each of `errors` stands for, in order.
pub open spec fn errors_view(errors: Seq<ParserError>) -> Seq<ErrorView> {
    Seq::new(errors.len(), |i: int| errors[i]@)
}

} // verus!
