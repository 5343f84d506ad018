use vstd::prelude::*;

verus! {

/// Why an operation on a packer was refused.
#[derive(PartialEq, Eq, Structural, Clone, Copy, Debug)]
pub enum PackError {
    /// A field was requested with a width outside 1 to 8 bits.
    InvalidWidth,
    /// No field was ever allocated under the requested name.
    UnknownField,
    /// The field does not fit the integer type it was asked for.
    WidthMismatch,
}

} // verus!
