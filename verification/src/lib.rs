//! A schema-driven bit-packing codec.
//!
//! A [`Schema`](schema::Schema) is built once from a list of field
//! declarations. It gives every field the least number of bits that holds its
//! range, and then turns named values into a compact byte string and back.
//!
//! The encoded bytes hold no names, kinds or counts: they can be read only
//! with a schema built from the same declarations in the same order.
//!
//! # Layout of the encoded bytes
//!
//! The integer and boolean fields come first, in the order of their
//! declaration, and the bytes field, if there is one, last. Each field puts a
//! number into a stream of bits: an integer its distance from the lower
//! bound, a boolean 0 or 1, a byte string its length. The stream fills bytes
//! from the least significant bit of the first byte on, and takes as many
//! bytes as its bits need. The content of the byte string follows the stream.
//!
//! # Contracts
//!
//! The contracts speak of the views of the data: [`FieldView`](field::FieldView)
//! for a field, [`ValueView`](value::ValueView) for a value, a map from names
//! to value views for [`Values`](value::Values), and the sequence of field
//! views for a schema. What encoding and decoding compute is written down in
//! [`encode::encoding`] and [`decode::read_values`]; [`roundtrip`] proves
//! that the second undoes the first.

pub mod decode;
pub mod encode;
pub mod error;
pub mod field;
pub mod roundtrip;
pub mod schema;
pub mod stream;
pub mod value;
pub mod width;
