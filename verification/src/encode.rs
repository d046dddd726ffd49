//! Encoding: from named values to bytes.

use crate::error::{EncodeError, EncodeFault};
use crate::field::{lemma_boolean_width, views, Field, FieldView};
use crate::schema::{fixed_len, lemma_width_bound, total_bits, Schema};
use crate::stream::{
    le_bytes, le_value, lemma_le_bytes_of_value, lemma_le_value_push, lemma_register_merge,
    lemma_register_split,
};
use crate::value::{Value, ValueView, Values};
use crate::width::lemma_bit_width_covers;
use vstd::arithmetic::power2::{lemma2_to64, lemma_pow2_adds, lemma_pow2_strictly_increases, pow2};
use vstd::prelude::*;

verus! {

/// Why the slot `f` cannot take its value from `values`, if it cannot.
///
/// A slot that is always present has no fault: its value is not looked up.
pub open spec fn slot_fault(f: FieldView, values: Map<Seq<char>, ValueView>) -> Option<
    EncodeFault,
> {
    if f.always_present() {
        None
    } else if !values.contains_key(f.name()) {
        Some(EncodeFault::MissingValue)
    } else {
        match (f, values[f.name()]) {
            (FieldView::Int { min, max, .. }, ValueView::Int(v)) => if min <= v <= max {
                None
            } else {
                Some(EncodeFault::Range)
            },
            (FieldView::Boolean { .. }, ValueView::Boolean(_)) => None,
            (FieldView::Bytes { max, .. }, ValueView::Buffer(bytes)) => if bytes.len() <= max {
                None
            } else {
                Some(EncodeFault::Range)
            },
            _ => Some(EncodeFault::TypeMismatch),
        }
    }
}

/// The number that the slot `f` puts into the packed stream: an integer's
/// distance from the lower bound, 0 or 1 for a boolean, the length of a byte
/// string.
pub open spec fn slot_number(f: FieldView, values: Map<Seq<char>, ValueView>) -> nat {
    if f.always_present() {
        0
    } else {
        match (f, values[f.name()]) {
            (FieldView::Int { min, .. }, ValueView::Int(v)) => (v - min) as nat,
            (FieldView::Boolean { .. }, ValueView::Boolean(b)) => if b {
                1
            } else {
                0
            },
            (FieldView::Bytes { .. }, ValueView::Buffer(bytes)) => bytes.len(),
            _ => 0,
        }
    }
}

/// The bytes that the slot `f` puts behind the packed stream: those of a byte
/// string, none for the other kinds.
pub open spec fn payload(f: FieldView, values: Map<Seq<char>, ValueView>) -> Seq<u8> {
    match (f, values[f.name()]) {
        (FieldView::Bytes { .. }, ValueView::Buffer(bytes)) => bytes,
        _ => Seq::empty(),
    }
}

/// The packed stream as a number: the number of each slot, placed at the bit
/// where the widths of the slots before it end.
pub open spec fn packed(fields: Seq<FieldView>, values: Map<Seq<char>, ValueView>) -> nat
    decreases fields.len(),
{
    if fields.len() == 0 {
        0
    } else {
        packed(fields.drop_last(), values) + slot_number(fields.last(), values) * pow2(
            total_bits(fields.drop_last()),
        )
    }
}

/// The payloads of all slots, in the order of the slots.
pub open spec fn payloads(fields: Seq<FieldView>, values: Map<Seq<char>, ValueView>) -> Seq<u8>
    decreases fields.len(),
{
    if fields.len() == 0 {
        Seq::empty()
    } else {
        payloads(fields.drop_last(), values) + payload(fields.last(), values)
    }
}

/// The encoded bytes: the packed stream in as many bytes as hold it, the
/// least significant first, and then the payloads.
pub open spec fn encoding(fields: Seq<FieldView>, values: Map<Seq<char>, ValueView>) -> Seq<u8> {
    le_bytes(packed(fields, values), fixed_len(fields)) + payloads(fields, values)
}

/// The bytes of a list of byte strings, one after the other.
spec fn joined(parts: Seq<&[u8]>) -> Seq<u8>
    decreases parts.len(),
{
    if parts.len() == 0 {
        Seq::empty()
    } else {
        joined(parts.drop_last()) + parts.last()@
    }
}

/// The number of a slot without a fault fits in the slot's width.
pub proof fn lemma_slot_number_fits(f: FieldView, values: Map<Seq<char>, ValueView>)
    requires
        f.valid(),
        slot_fault(f, values) is None,
    ensures
        slot_number(f, values) < pow2(f.width()),
        slot_number(f, values) < f.span() || f.always_present(),
{
    lemma_bit_width_covers(f.span());
    lemma_boolean_width();
    lemma2_to64();
}

/// The packed stream of slots without a fault fits in their bits.
pub proof fn lemma_packed_fits(fields: Seq<FieldView>, values: Map<Seq<char>, ValueView>)
    requires
        forall|i: int| 0 <= i < fields.len() ==> (#[trigger] fields[i]).valid(),
        forall|i: int| 0 <= i < fields.len() ==> slot_fault(#[trigger] fields[i], values) is None,
    ensures
        packed(fields, values) < pow2(total_bits(fields)),
    decreases fields.len(),
{
    if fields.len() == 0 {
        lemma2_to64();
    } else {
        let rest = fields.drop_last();
        assert forall|i: int| 0 <= i < rest.len() implies (#[trigger] rest[i]).valid()
            && slot_fault(rest[i], values) is None by {
            assert(rest[i] == fields[i]);
        }
        lemma_packed_fits(rest, values);
        lemma_slot_number_fits(fields.last(), values);
        crate::stream::lemma_placed_bound(
            packed(rest, values),
            slot_number(fields.last(), values),
            total_bits(rest),
            fields.last().width(),
        );
    }
}

impl Schema {
    /// Encodes `values`.
    ///
    /// Every slot but those that are always present takes its value from
    /// `values`, under its name. The numbers of the slots are packed bit by
    /// bit, in the schema's order and from the least significant bit of the
    /// first byte on. As many bytes are written as the bits need: the last
    /// one is written also where all its bits are zero. The bytes of a byte
    /// string follow the packed stream as they are.
    ///
    /// The first slot whose value is missing, of another kind, or out of
    /// range is reported.
    pub fn to_buffer(&self, values: &Values<'_>) -> (r: Result<Vec<u8>, EncodeError>)
        ensures
            match r {
                Ok(bytes) => {
                    &&& forall|i: int|
                        0 <= i < self@.len() ==> slot_fault(#[trigger] self@[i], values@) is None
                    &&& bytes@ == encoding(self@, values@)
                },
                Err(e) => {
                    &&& e.index < self@.len()
                    &&& slot_fault(self@[e.index as int], values@) == Some(e.fault)
                    &&& forall|j: int|
                        0 <= j < e.index ==> slot_fault(#[trigger] self@[j], values@) is None
                    &&& e.field@ == self@[e.index as int].name()
                },
            },
    {
        let fields = self.fields();
        let ghost slots = self@;
        let ghost given = values@;
        let mut out: Vec<u8> = Vec::new();
        let mut deferred: Vec<&[u8]> = Vec::new();
        let mut acc: u64 = 0;
        let mut pending: u64 = 0;
        let mut i: usize = 0;
        proof {
            lemma2_to64();
            assert(slots.take(0).len() == 0);
        }
        while i < fields.len()
            invariant
                i <= fields@.len(),
                slots == self@,
                views(fields@) == slots,
                forall|k: int| 0 <= k < fields@.len() ==> (#[trigger] fields@[k]).resolved(),
                forall|k: int| 0 <= k < slots.len() ==> (#[trigger] slots[k]).valid(),
                given == values@,
                forall|j: int| 0 <= j < i ==> slot_fault(#[trigger] slots[j], given) is None,
                pending < 8,
                acc < pow2(pending as nat),
                8 * out@.len() + pending == total_bits(slots.take(i as int)),
                le_value(out@) + acc * pow2((8 * out@.len()) as nat) == packed(
                    slots.take(i as int),
                    given,
                ),
                joined(deferred@) == payloads(slots.take(i as int), given),
            decreases fields@.len() - i,
        {
            let ghost slot = slots[i as int];
            let ghost before = slots.take(i as int);
            let ghost after = slots.take(i + 1);
            proof {
                assert(slot == fields@[i as int]@);
                assert(after.drop_last() == before);
                assert(after.last() == slot);
                lemma_width_bound(slot);
            }
            let number: u64;
            let bits: u64;
            match &fields[i] {
                Field::Int(f) => {
                    let width = f.bits.unwrap();
                    if width == 0 {
                        number = 0;
                    } else {
                        match values.lookup(&f.name) {
                            None => {
                                return Err(
                                    EncodeError {
                                        fault: EncodeFault::MissingValue,
                                        index: i,
                                        field: f.name.clone(),
                                    },
                                );
                            },
                            Some(Value::Int(v)) => {
                                if v < f.min || v > f.max {
                                    return Err(
                                        EncodeError {
                                            fault: EncodeFault::Range,
                                            index: i,
                                            field: f.name.clone(),
                                        },
                                    );
                                }
                                number = (v as i64 - f.min as i64) as u64;
                            },
                            Some(_) => {
                                return Err(
                                    EncodeError {
                                        fault: EncodeFault::TypeMismatch,
                                        index: i,
                                        field: f.name.clone(),
                                    },
                                );
                            },
                        }
                    }
                    bits = width as u64;
                },
                Field::Boolean(f) => {
                    proof {
                        lemma_boolean_width();
                    }
                    match values.lookup(&f.name) {
                        None => {
                            return Err(
                                EncodeError {
                                    fault: EncodeFault::MissingValue,
                                    index: i,
                                    field: f.name.clone(),
                                },
                            );
                        },
                        Some(Value::Boolean(b)) => {
                            number = if b {
                                1
                            } else {
                                0
                            };
                        },
                        Some(_) => {
                            return Err(
                                EncodeError {
                                    fault: EncodeFault::TypeMismatch,
                                    index: i,
                                    field: f.name.clone(),
                                },
                            );
                        },
                    }
                    bits = 1;
                },
                Field::Bytes(f) => {
                    match values.lookup(&f.name) {
                        None => {
                            return Err(
                                EncodeError {
                                    fault: EncodeFault::MissingValue,
                                    index: i,
                                    field: f.name.clone(),
                                },
                            );
                        },
                        Some(Value::Buffer(bytes)) => {
                            if bytes.len() > f.max as usize {
                                return Err(
                                    EncodeError {
                                        fault: EncodeFault::Range,
                                        index: i,
                                        field: f.name.clone(),
                                    },
                                );
                            }
                            number = bytes.len() as u64;
                            proof {
                                assert(deferred@.push(bytes).drop_last() == deferred@);
                            }
                            deferred.push(bytes);
                        },
                        Some(_) => {
                            return Err(
                                EncodeError {
                                    fault: EncodeFault::TypeMismatch,
                                    index: i,
                                    field: f.name.clone(),
                                },
                            );
                        },
                    }
                    bits = f.bits.unwrap() as u64;
                },
            }
            proof {
                assert(slot_fault(slot, given) is None);
                assert(number == slot_number(slot, given));
                assert(bits == slot.width());
                assert(joined(deferred@) == payloads(after, given));
                lemma_slot_number_fits(slot, given);
                lemma_register_merge(acc, number, pending, bits);
                let shift = pow2((8 * out@.len()) as nat);
                lemma_pow2_adds(pending as nat, (8 * out@.len()) as nat);
                assert((acc + number * pow2(pending as nat)) * shift == acc * shift + number * (
                pow2(pending as nat) * shift)) by (nonlinear_arith);
            }
            acc = acc | (number << pending);
            pending = pending + bits;
            while pending >= 8
                invariant
                    pending < 40,
                    acc < pow2(pending as nat),
                    8 * out@.len() + pending == total_bits(after),
                    le_value(out@) + acc * pow2((8 * out@.len()) as nat) == packed(after, given),
                decreases pending,
            {
                proof {
                    lemma_register_split(acc, 8);
                    lemma2_to64();
                    lemma_le_value_push(out@, (acc & 0xff) as u8);
                    lemma_pow2_adds(8, (8 * out@.len()) as nat);
                    lemma_pow2_adds(8, (pending - 8) as nat);
                    let shift = pow2((8 * out@.len()) as nat);
                    let low = acc as nat % 256;
                    let high = acc as nat / 256;
                    assert(low * shift + high * (256 * shift) == acc * shift) by (nonlinear_arith)
                        requires
                            acc == 256 * high + low,
                    ;
                    assert(high < pow2((pending - 8) as nat)) by (nonlinear_arith)
                        requires
                            256 * high + low < 256 * pow2((pending - 8) as nat),
                            0 <= low,
                    ;
                }
                out.push((acc & 0xff) as u8);
                acc = acc >> 8;
                pending = pending - 8;
            }
            i += 1;
        }
        proof {
            assert(slots.take(i as int) == slots);
            lemma2_to64();
            if pending > 0 {
                lemma_pow2_strictly_increases(pending as nat, 8);
                lemma_le_value_push(out@, acc as u8);
            } else {
                assert(acc * pow2((8 * out@.len()) as nat) == 0) by (nonlinear_arith)
                    requires
                        acc == 0,
                ;
            }
        }
        if pending > 0 {
            out.push(acc as u8);
        }
        proof {
            assert(out@.len() == fixed_len(slots));
            lemma_le_bytes_of_value(out@);
        }
        let ghost fixed = out@;
        let mut k: usize = 0;
        while k < deferred.len()
            invariant
                k <= deferred@.len(),
                out@ == fixed + joined(deferred@.take(k as int)),
            decreases deferred@.len() - k,
        {
            let part = deferred[k];
            let ghost head = out@;
            out.extend_from_slice(part);
            proof {
                assert(deferred@.take(k + 1).drop_last() == deferred@.take(k as int));
                assert(out@ == head + part@);
            }
            k += 1;
        }
        proof {
            assert(deferred@.take(k as int) == deferred@);
        }
        Ok(out)
    }
}

} // verus!
