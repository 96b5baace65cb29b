//! Errors that the library reports on the host, before any witness is
//! committed.
use vstd::prelude::*;

verus! {

#[derive(Clone, Copy, Debug, PartialEq, Eq, Structural)]
pub enum Error {
    /// A handle names no committed cell.
    OutOfRange,
    /// A value is not a committed cell of the store, or the store does not
    /// record the positions of its cells.
    Uncommitted,
    /// A number does not fit the width that it must have.
    MalformedBigInteger,
    /// A value is not below the modulus of the field it is meant for.
    ModulusViolation,
    /// Limbs do not fit their widths.
    RangeViolation,
}

} // verus!
