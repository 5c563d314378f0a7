//! Why a document is refused.

use vstd::prelude::*;

verus! {

/// The conditions that end a parse without a document.
#[derive(Debug, Clone, Copy, PartialEq, Eq, Structural)]
pub enum ParseError {
    /// A property that the element type requires is not in its header.
    MissingProperty,
    /// A property is there, but its value does not read as the type expected.
    InvalidPropertyValue,
    /// The header names an element type that the format does not have.
    UnknownElementType,
    /// A formula could not be rendered.
    MathRenderFailure,
}

} // verus!
