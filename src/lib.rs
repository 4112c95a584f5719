//! Markup and style-sheet parsing, and the cascade that pairs every element
//! of a document tree with the style values that apply to it.

use vstd::prelude::*;

pub mod chars;
pub mod css;
pub mod cursor;
pub mod dom;
pub mod html;
pub mod name_map;
pub mod style;

verus! {

/// Why a parse was abandoned. A parse that fails returns nothing else.
#[derive(Debug, Clone, Copy, PartialEq, Eq, Structural)]
pub enum ParseError {
    /// A specific character was required and another one stood there.
    UnexpectedChar,
    /// The input ended where a character was required.
    UnexpectedEnd,
    /// A closing tag names another element than the one it closes.
    TagMismatch,
    /// A length carries a unit outside the supported set.
    UnknownUnit,
    /// A numeric token is not a decimal number.
    MalformedNumber,
    /// A colour component is not two hexadecimal digits.
    MalformedHex,
}

} // verus!
