use vstd::prelude::*;

verus! {

/// Why a piece of an RVM document could not be read.
#[derive(Debug, Clone, Copy, PartialEq, Eq, Structural)]
pub enum RvmError {
    /// An alphabetic word was expected and none starts here.
    Alpha,
    /// A delimiter that a field ends at never occurs in the rest of the input.
    TakeUntil,
    /// A number was expected and none starts here.
    Float,
    /// A number's exponent marker is not followed by digits.
    FloatCut,
    /// The input ends before the bytes that a field needs.
    Eof,
    /// The blank that separates two numbers of a list is missing.
    SeparatedList,
    /// A primitive's type code names no known shape.
    UnknownPrimitive,
    /// The count of open blocks would exceed 255.
    CountOverflow,
    /// A block end arrives while the count of open blocks is 0.
    CountUnderflow,
    /// A block end arrives at the root of the tree, which has no parent.
    NoParent,
    /// A text field is not valid UTF-8.
    Utf8,
    /// A block name's length in words does not fit in a byte once scaled to bytes.
    NameTooLong,
}

} // verus!
