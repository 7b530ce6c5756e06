//! The outcome of a validation.
use vstd::prelude::*;

verus! {

/// What was expected where something else was found.
#[derive(Debug, PartialEq, Eq)]
pub struct Mismatch {
    pub expected: String,
}

/// Why data was not found valid.
#[derive(Debug, PartialEq, Eq)]
pub enum ValidateError {
    /// A rule is referred to that is not defined.
    MissingRule(String),
    /// The data is not what the schema asks for.
    Mismatch(Mismatch),
    /// In a map, a key matched a member with "cut" semantics and the value did not: no other
    /// member may take that key.
    MapCut(Mismatch),
    /// The schema makes no sense in this place.
    StructuralError(String),
    /// The schema asks for what is not supported.
    Unsupported(String),
}

/// The outcome of a validation.
pub type ValidateResult = Result<(), ValidateError>;

/// What an error says.
pub ghost enum ErrorView {
    MissingRule(Seq<char>),
    Mismatch(Seq<char>),
    MapCut(Seq<char>),
    StructuralError(Seq<char>),
    Unsupported(Seq<char>),
}

/// What the outcome of a validation says.
pub type Verdict = Result<(), ErrorView>;

impl View for ValidateError {
    type V = ErrorView;

    open spec fn view(&self) -> ErrorView {
        match self {
            ValidateError::MissingRule(name) => ErrorView::MissingRule(name@),
            ValidateError::Mismatch(m) => ErrorView::Mismatch(m.expected@),
            ValidateError::MapCut(m) => ErrorView::MapCut(m.expected@),
            ValidateError::StructuralError(what) => ErrorView::StructuralError(what@),
            ValidateError::Unsupported(what) => ErrorView::Unsupported(what@),
        }
    }
}

/// What the outcome of a validation says.
pub open spec fn verdict(r: ValidateResult) -> Verdict {
    match r {
        Ok(()) => Ok(()),
        Err(e) => Err(e@),
    }
}

impl ErrorView {
    /// Whether the error ends the validation: neither of the two kinds of mismatch does.
    pub open spec fn is_fatal(self) -> bool {
        !(self is Mismatch) && !(self is MapCut)
    }

    /// The error with a cut turned back into a mismatch.
    pub open spec fn erase_mapcut(self) -> ErrorView {
        match self {
            ErrorView::MapCut(expected) => ErrorView::Mismatch(expected),
            e => e,
        }
    }
}

impl ValidateError {
    /// Whether the error ends the validation, even where another alternative might match.
    pub fn is_fatal(&self) -> (r: bool)
        ensures
            r == self@.is_fatal(),
    {
        match self {
            ValidateError::Mismatch(_) => false,
            ValidateError::MapCut(_) => false,
            _ => true,
        }
    }

    /// Whether the error is a mismatch without a cut.
    pub fn is_mismatch(&self) -> (r: bool)
        ensures
            r == (self@ is Mismatch),
    {
        match self {
            ValidateError::Mismatch(_) => true,
            _ => false,
        }
    }

    /// Turns a cut back into a mismatch.
    pub fn erase_mapcut(self) -> (r: ValidateError)
        ensures
            r@ == self@.erase_mapcut(),
    {
        match self {
            ValidateError::MapCut(m) => ValidateError::Mismatch(m),
            e => e,
        }
    }
}

/// The error that says what was expected.
pub fn mismatch(expected: String) -> (r: ValidateError)
    ensures
        r@ == ErrorView::Mismatch(expected@),
{
    ValidateError::Mismatch(Mismatch { expected })
}

} // verus!
