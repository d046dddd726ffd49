//! Decoding what was encoded gives the values back.

use crate::decode::{bit_offset, read_fault, read_number, read_value, read_values};
use crate::encode::{
    encoding, lemma_packed_fits, lemma_slot_number_fits, packed, payload, payloads, slot_fault,
    slot_number,
};
use crate::field::FieldView;
use crate::schema::{fixed_len, lemma_total_bits_concat, total_bits, well_formed};
use crate::stream::{
    bit_field, le_bytes, le_value, lemma_bit_field_below, lemma_bit_field_placed,
    lemma_le_value_concat, lemma_le_value_of_bytes,
};
use crate::value::ValueView;
use vstd::arithmetic::power2::{lemma2_to64, lemma_pow2_strictly_increases};
use vstd::prelude::*;

verus! {

/// The value that the slot `f` stands for: its lower bound where it is always
/// present, else what `values` holds under its name.
pub open spec fn slot_value(f: FieldView, values: Map<Seq<char>, ValueView>) -> ValueView {
    match f {
        FieldView::Int { min, .. } => if f.always_present() {
            ValueView::Int(min)
        } else {
            values[f.name()]
        },
        _ => values[f.name()],
    }
}

/// The slots up to and including slot `i` end within the packed stream.
pub proof fn lemma_offset_within(fields: Seq<FieldView>, i: int)
    requires
        0 <= i < fields.len(),
    ensures
        bit_offset(fields, i + 1) == bit_offset(fields, i) + fields[i].width(),
        bit_offset(fields, i + 1) <= total_bits(fields),
        bit_offset(fields, fields.len() as int) == total_bits(fields),
{
    assert(fields.take(i + 1).drop_last() == fields.take(i));
    assert(fields == fields.take(i + 1) + fields.skip(i + 1));
    lemma_total_bits_concat(fields.take(i + 1), fields.skip(i + 1));
    assert(fields.take(fields.len() as int) == fields);
}

/// In the packed stream, the bits of each slot hold the number of that slot.
pub proof fn lemma_packed_slot(fields: Seq<FieldView>, values: Map<Seq<char>, ValueView>, i: int)
    requires
        0 <= i < fields.len(),
        forall|k: int| 0 <= k < fields.len() ==> (#[trigger] fields[k]).valid(),
        forall|k: int| 0 <= k < fields.len() ==> slot_fault(#[trigger] fields[k], values) is None,
    ensures
        bit_field(packed(fields, values), bit_offset(fields, i), fields[i].width()) == slot_number(
            fields[i],
            values,
        ),
    decreases fields.len(),
{
    let rest = fields.drop_last();
    let last = fields.last();
    assert forall|k: int| 0 <= k < rest.len() implies (#[trigger] rest[k]).valid() && slot_fault(
        rest[k],
        values,
    ) is None by {
        assert(rest[k] == fields[k]);
    }
    lemma_packed_fits(rest, values);
    if i == fields.len() - 1 {
        assert(fields.take(i) == rest);
        lemma_slot_number_fits(last, values);
        lemma_bit_field_placed(
            packed(rest, values),
            slot_number(last, values),
            total_bits(rest),
            last.width(),
        );
    } else {
        lemma_packed_slot(rest, values, i);
        lemma_offset_within(rest, i);
        assert(rest.take(i) == fields.take(i));
        lemma_bit_field_below(
            packed(rest, values),
            slot_number(last, values),
            total_bits(rest),
            bit_offset(fields, i),
            fields[i].width(),
        );
    }
}

/// Slots that are not bytes slots have no payload.
pub proof fn lemma_no_payloads(fields: Seq<FieldView>, values: Map<Seq<char>, ValueView>)
    requires
        forall|k: int| 0 <= k < fields.len() ==> !((#[trigger] fields[k]) is Bytes),
    ensures
        payloads(fields, values) == Seq::<u8>::empty(),
    decreases fields.len(),
{
    if fields.len() > 0 {
        let rest = fields.drop_last();
        assert forall|k: int| 0 <= k < rest.len() implies !((#[trigger] rest[k]) is Bytes) by {
            assert(rest[k] == fields[k]);
        }
        lemma_no_payloads(rest, values);
        assert(!(fields[fields.len() - 1] is Bytes));
    }
}

/// The payloads of a schema's slots are the payload of its last slot.
pub proof fn lemma_single_payload(fields: Seq<FieldView>, values: Map<Seq<char>, ValueView>)
    requires
        well_formed(fields),
        fields.len() > 0,
    ensures
        payloads(fields, values) == payload(fields.last(), values),
{
    let rest = fields.drop_last();
    assert forall|k: int| 0 <= k < rest.len() implies !((#[trigger] rest[k]) is Bytes) by {
        assert(rest[k] == fields[k]);
    }
    lemma_no_payloads(rest, values);
    assert(payloads(fields, values) == payloads(rest, values) + payload(fields.last(), values));
}

/// The packed stream is read back from the encoded bytes: the bits of each
/// slot hold the number of that slot.
pub proof fn lemma_numbers_read_back(
    fields: Seq<FieldView>,
    values: Map<Seq<char>, ValueView>,
    i: int,
)
    requires
        0 <= i < fields.len(),
        forall|k: int| 0 <= k < fields.len() ==> (#[trigger] fields[k]).valid(),
        forall|k: int| 0 <= k < fields.len() ==> slot_fault(#[trigger] fields[k], values) is None,
    ensures
        read_number(fields, encoding(fields, values), i) == slot_number(fields[i], values),
        bit_offset(fields, i + 1) <= 8 * fixed_len(fields),
        encoding(fields, values).len() == fixed_len(fields) + payloads(fields, values).len(),
{
    let stream = packed(fields, values);
    let count = fixed_len(fields);
    let fixed = le_bytes(stream, count);
    let tail = payloads(fields, values);
    lemma_packed_fits(fields, values);
    if total_bits(fields) < 8 * count {
        lemma_pow2_strictly_increases(total_bits(fields), 8 * count);
    }
    lemma_le_value_of_bytes(stream, count);
    lemma_le_value_concat(fixed, tail);
    lemma_offset_within(fields, i);
    lemma_bit_field_below(
        stream,
        le_value(tail),
        8 * count,
        bit_offset(fields, i),
        fields[i].width(),
    );
    lemma_packed_slot(fields, values, i);
}

/// Round trip, slot by slot: the bytes that a schema encodes for values that
/// fit its slots are decoded without a fault, and every slot is read back
/// with the value it stood for. For a bytes slot that is the byte string
/// itself, in length and content.
pub proof fn lemma_round_trip(fields: Seq<FieldView>, values: Map<Seq<char>, ValueView>, i: int)
    requires
        well_formed(fields),
        forall|k: int| 0 <= k < fields.len() ==> slot_fault(#[trigger] fields[k], values) is None,
        0 <= i < fields.len(),
    ensures
        read_fault(fields, encoding(fields, values), i) is None,
        read_value(fields, encoding(fields, values), i) == slot_value(fields[i], values),
{
    let bytes = encoding(fields, values);
    let number = read_number(fields, bytes, i);
    lemma_numbers_read_back(fields, values, i);
    lemma_slot_number_fits(fields[i], values);
    lemma2_to64();
    match fields[i] {
        FieldView::Int { min, .. } => {},
        FieldView::Boolean { .. } => {},
        FieldView::Bytes { .. } => {
            lemma_single_payload(fields, values);
            lemma_offset_within(fields, i);
            let content = payload(fields[i], values);
            assert(bytes.subrange(bytes.len() - number, bytes.len() as int) == content);
        },
    }
}

/// Round trip of a byte string: a bytes slot is read back with the length and
/// the bytes that were encoded.
pub proof fn lemma_bytes_round_trip(
    fields: Seq<FieldView>,
    values: Map<Seq<char>, ValueView>,
    i: int,
)
    requires
        well_formed(fields),
        forall|k: int| 0 <= k < fields.len() ==> slot_fault(#[trigger] fields[k], values) is None,
        0 <= i < fields.len(),
        fields[i] is Bytes,
    ensures
        values[fields[i].name()] is Buffer,
        read_number(fields, encoding(fields, values), i) == values[fields[i].name()]->Buffer_0.len(),
        read_value(fields, encoding(fields, values), i) == values[fields[i].name()],
{
    lemma_round_trip(fields, values, i);
    lemma_numbers_read_back(fields, values, i);
    lemma2_to64();
    crate::field::lemma_boolean_width();
}

/// Round trip, by name: in the values decoded from the bytes that a schema
/// encodes, the name of a slot leads to the value that the slot stood for,
/// unless a later slot carries the same name.
pub proof fn lemma_round_trip_by_name(
    fields: Seq<FieldView>,
    values: Map<Seq<char>, ValueView>,
    i: int,
)
    requires
        well_formed(fields),
        forall|k: int| 0 <= k < fields.len() ==> slot_fault(#[trigger] fields[k], values) is None,
        0 <= i < fields.len(),
        forall|j: int| i < j < fields.len() ==> (#[trigger] fields[j]).name() != fields[i].name(),
    ensures
        read_values(fields, encoding(fields, values), fields.len() as int).contains_key(
            fields[i].name(),
        ),
        read_values(fields, encoding(fields, values), fields.len() as int)[fields[i].name()]
            == slot_value(fields[i], values),
{
    lemma_round_trip(fields, values, i);
    crate::decode::lemma_read_values_at(fields, encoding(fields, values), fields.len() as int, i);
}

} // verus!
