//! The failures that building a schema, encoding and decoding report.

use vstd::prelude::*;

verus! {

/// Why a list of declarations is not a schema.
#[derive(Clone, Copy, Debug, PartialEq, Eq, Structural)]
pub enum SchemaFault {
    /// An integer slot has `min > max`.
    ReversedBounds,
    /// A bytes slot has a negative limit.
    NegativeLimit,
    /// A bytes slot follows another one. A schema holds at most one, since
    /// its payload is found at the very end of the encoded bytes.
    SecondBytesField,
}

/// A declaration that a schema cannot be built from.
#[derive(Debug, PartialEq, Eq)]
pub struct SchemaError {
    pub fault: SchemaFault,
    /// The position of the offending declaration.
    pub index: usize,
    /// The name of the offending declaration.
    pub field: String,
}

/// Why a set of values cannot be encoded.
#[derive(Clone, Copy, Debug, PartialEq, Eq, Structural)]
pub enum EncodeFault {
    /// No value was supplied for a slot that needs one.
    MissingValue,
    /// The value supplied is not of the slot's kind.
    TypeMismatch,
    /// An integer lies outside the slot's bounds, or a byte string is longer
    /// than the slot's limit.
    Range,
}

/// A slot whose value cannot be encoded.
#[derive(Debug, PartialEq, Eq)]
pub struct EncodeError {
    pub fault: EncodeFault,
    /// The position of the slot in the schema's order.
    pub index: usize,
    /// The name of the slot.
    pub field: String,
}

/// Why a byte string cannot be decoded.
#[derive(Clone, Copy, Debug, PartialEq, Eq, Structural)]
pub enum DecodeFault {
    /// The bytes end before the bits of a slot do.
    BufferUnderrun,
    /// The length read for a bytes slot is more than the bytes that are left
    /// after the packed stream.
    InvalidLength,
    /// The number read for an integer slot, added to the slot's lower bound,
    /// is more than an integer value can hold.
    ValueOverflow,
}

/// A slot whose value cannot be decoded.
#[derive(Debug, PartialEq, Eq)]
pub struct DecodeError {
    pub fault: DecodeFault,
    /// The position of the slot in the schema's order.
    pub index: usize,
    /// The name of the slot.
    pub field: String,
}

} // verus!
