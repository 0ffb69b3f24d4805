use vstd::prelude::*;

verus! {

/// The closed set of parser failures. The serializer has no error path.
#[derive(Clone, Debug, PartialEq)]
pub enum ParseError {
    /// The input does not derive from the grammar; carries the character
    /// position at which derivation failed.
    GrammarError(usize),
    /// Derivation yielded no top-level node at all (empty or blank input).
    EmptyInputError,
    /// A reduction step met a tree node outside the rule set expected at
    /// that position; carries the node's text.
    UnexpectedTokenError(String),
    /// The top-level node, or a value node, has a shape the reducer does
    /// not accept; carries the node's text.
    UnexpectedValueError(String),
    /// A token in number position does not convert to a number; carries
    /// the token.
    NumberFormatError(String),
}

/// Error discriminant used by the specification: the model pins which
/// failure occurs on which input, while the carried text locates it.
pub enum ErrKind {
    Grammar,
    EmptyInput,
    UnexpectedToken,
    UnexpectedValue,
    NumberFormat,
}

pub open spec fn kind_of(e: ParseError) -> ErrKind {
    match e {
        ParseError::GrammarError(_) => ErrKind::Grammar,
        ParseError::EmptyInputError => ErrKind::EmptyInput,
        ParseError::UnexpectedTokenError(_) => ErrKind::UnexpectedToken,
        ParseError::UnexpectedValueError(_) => ErrKind::UnexpectedValue,
        ParseError::NumberFormatError(_) => ErrKind::NumberFormat,
    }
}

} // verus!
