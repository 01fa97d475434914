//! What goes wrong while decoding.
use vstd::prelude::*;

verus! {

/// The integer type that a decoded value was to be narrowed to.
#[derive(Debug, Clone, Copy, PartialEq, Eq, Structural)]
pub enum IntType {
    U8,
    U16,
    U32,
    Usize,
    I8,
    I16,
    I32,
    Isize,
}

/// Why the input is not what the reader asked for.
#[derive(Debug, Clone, Copy, PartialEq, Eq, Structural)]
pub enum Invalid {
    /// The marker does not start an unsigned integer.
    NoUnsignedInteger,
    /// The marker does not start a signed integer.
    NoSignedInteger,
    /// The bytes of a string are not UTF-8.
    NoUtf8String,
    /// The marker does not start an array.
    InvalidVecLen,
    /// The marker does not start a map.
    InvalidMapLen,
    /// An extension carries a negative (reserved) type.
    ReservedType,
    /// The marker 0xc1, which the format reserves.
    Reserved,
    /// The marker is not nil.
    InvalidNil,
    /// The integer read does not fit in the type asked for.
    DoesNotFit(IntType),
    /// The marker is not a boolean.
    InvalidBool,
    /// The marker is not a 64-bit float.
    InvalidF64,
    /// The marker is not a 32-bit float.
    InvalidF32,
    /// The string read is not one byte long.
    InvalidChar,
    /// The marker does not start a string.
    InvalidString,
    /// The variant name read is not among the names given.
    UnknownVariant,
    /// The map read for a struct has another number of entries than its fields.
    InvalidStructLength,
    /// Raised on behalf of the caller.
    ApplicationError,
}

/// A decoding error: the input ended early, or it holds something else
/// than what was asked for.
#[derive(Debug, Clone, Copy, PartialEq, Eq, Structural)]
pub enum Error {
    UnexpectedEof,
    InvalidInput(Invalid),
}

} // verus!
