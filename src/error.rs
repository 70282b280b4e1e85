//! Errors raised while reading query documents.

use vstd::prelude::*;

verus! {

/// A malformed field of a query document.
#[derive(Debug, Clone, PartialEq, Eq)]
pub enum ParseError {
    /// A transformation segment without the `:` between kind and arguments.
    MissingSeparator(String),
    /// A transformation kind other than `aggregate`, `map` and `filter`.
    UnknownTransformation(String),
    /// An `aggregate` argument that names no aggregation.
    UnknownAggregation(String),
    /// An output flag other than yes, no, true or false.
    InvalidOutput(String),
}

/// The mathematical value of a [`ParseError`].
pub enum ParseErrorView {
    MissingSeparator(Seq<char>),
    UnknownTransformation(Seq<char>),
    UnknownAggregation(Seq<char>),
    InvalidOutput(Seq<char>),
}

impl View for ParseError {
    type V = ParseErrorView;

    open spec fn view(&self) -> ParseErrorView {
        match self {
            ParseError::MissingSeparator(s) => ParseErrorView::MissingSeparator(s@),
            ParseError::UnknownTransformation(s) => ParseErrorView::UnknownTransformation(s@),
            ParseError::UnknownAggregation(s) => ParseErrorView::UnknownAggregation(s@),
            ParseError::InvalidOutput(s) => ParseErrorView::InvalidOutput(s@),
        }
    }
}

} // verus!
