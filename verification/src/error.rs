//! The errors of the library.
use vstd::prelude::*;

use crate::argumentation_framework::symbols::{Target, TargetView};
use crate::framework::{Failure, ParserError};

verus! {

/// Everything that can go wrong.
#[derive(Debug, Clone, PartialEq, Eq)]
pub enum Error {
    /// The input is malformed: a text that is in no format, or a framework
    /// that declares something twice.
    Parser(ParserError),
    /// An update names an element that the framework does not hold.
    UnknownElement(Target),
    /// An update asks for a change that the element does not allow: only
    /// optional elements can be switched.
    IllegalTransition(Target),
    /// The solver is not at hand: it was never set up, or an enumeration
    /// holds it.
    EngineNotInitialized,
    /// The solver failed. The session is unusable afterwards.
    EngineFault(String),
    /// The solver does not know a symbol that the framework holds.
    SymbolNotFound(Target),
}

/// An [`Error`] as a plain value.
pub enum ErrorView {
    Parser(Failure),
    UnknownElement(TargetView),
    IllegalTransition(TargetView),
    EngineNotInitialized,
    EngineFault(Seq<char>),
    SymbolNotFound(TargetView),
}

impl View for Error {
    type V = ErrorView;

    open spec fn view(&self) -> ErrorView {
        match self {
            Error::Parser(error) => ErrorView::Parser(error@),
            Error::UnknownElement(target) => ErrorView::UnknownElement(target@),
            Error::IllegalTransition(target) => ErrorView::IllegalTransition(target@),
            Error::EngineNotInitialized => ErrorView::EngineNotInitialized,
            Error::EngineFault(message) => ErrorView::EngineFault(message@),
            Error::SymbolNotFound(target) => ErrorView::SymbolNotFound(target@),
        }
    }
}

impl From<ParserError> for Error {
    fn from(error: ParserError) -> (wrapped: Self) {
        Error::Parser(error)
    }
}

impl vstd::std_specs::convert::FromSpecImpl<ParserError> for Error {
    open spec fn obeys_from_spec() -> bool {
        true
    }

    open spec fn from_spec(error: ParserError) -> Self {
        Error::Parser(error)
    }
}

} // verus!
