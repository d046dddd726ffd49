//! Decoding: from bytes to named values.

use crate::error::{DecodeError, DecodeFault};
use crate::field::{lemma_boolean_width, views, Field, FieldView};
use crate::schema::{lemma_width_bound, total_bits, Schema};
use crate::stream::{
    bit_field, le_value, lemma_bit_field_prefix, lemma_le_value_push, lemma_register_merge,
    lemma_register_split, lemma_shift_bound, lemma_shift_of_sum, lemma_shift_twice,
};
use crate::value::{Value, ValueView, Values};
use vstd::arithmetic::div_mod::lemma_mod_bound;
use vstd::arithmetic::power2::{lemma2_to64, lemma_pow2_pos, lemma_pow2_strictly_increases, pow2};
use vstd::prelude::*;
use vstd::slice::slice_subrange;

verus! {

/// The bit of the packed stream at which slot `i` starts.
pub open spec fn bit_offset(fields: Seq<FieldView>, i: int) -> nat {
    total_bits(fields.take(i))
}

/// The number that the bits of slot `i` hold in `bytes`.
pub open spec fn read_number(fields: Seq<FieldView>, bytes: Seq<u8>, i: int) -> nat {
    bit_field(le_value(bytes), bit_offset(fields, i), fields[i].width())
}

/// Why slot `i` cannot be read from `bytes`, if it cannot.
///
/// The bytes that a bytes slot has left for its payload are those behind the
/// byte in which its length ends.
pub open spec fn read_fault(fields: Seq<FieldView>, bytes: Seq<u8>, i: int) -> Option<
    DecodeFault,
> {
    let end = bit_offset(fields, i + 1);
    let number = read_number(fields, bytes, i);
    if fields[i].width() > 0 && 8 * bytes.len() < end {
        Some(DecodeFault::BufferUnderrun)
    } else {
        match fields[i] {
            FieldView::Int { min, .. } => if min + number > i32::MAX {
                Some(DecodeFault::ValueOverflow)
            } else {
                None
            },
            FieldView::Boolean { .. } => None,
            FieldView::Bytes { .. } => if number + (end + 7) / 8 > bytes.len() {
                Some(DecodeFault::InvalidLength)
            } else {
                None
            },
        }
    }
}

/// The value of slot `i` in `bytes`: the lower bound plus the number read for
/// an integer, whether the bit is set for a boolean, and for a byte string as
/// many of the last bytes as the number read says.
pub open spec fn read_value(fields: Seq<FieldView>, bytes: Seq<u8>, i: int) -> ValueView {
    let number = read_number(fields, bytes, i);
    match fields[i] {
        FieldView::Int { min, .. } => ValueView::Int((min + number) as i32),
        FieldView::Boolean { .. } => ValueView::Boolean(number == 1),
        FieldView::Bytes { .. } => ValueView::Buffer(
            bytes.subrange(bytes.len() - number, bytes.len() as int),
        ),
    }
}

/// The values of the first `n` slots in `bytes`, each under the name of its
/// slot. Where two slots share a name, the later one's value stands.
pub open spec fn read_values(fields: Seq<FieldView>, bytes: Seq<u8>, n: int) -> Map<
    Seq<char>,
    ValueView,
>
    decreases n,
{
    if n <= 0 {
        Map::empty()
    } else {
        read_values(fields, bytes, n - 1).insert(
            fields[n - 1].name(),
            read_value(fields, bytes, n - 1),
        )
    }
}

/// Among the values of the first `n` slots, the name of slot `i` leads to the
/// value of slot `i`, unless a later one of them carries the same name.
pub proof fn lemma_read_values_at(fields: Seq<FieldView>, bytes: Seq<u8>, n: int, i: int)
    requires
        0 <= i < n <= fields.len(),
        forall|j: int| i < j < n ==> (#[trigger] fields[j]).name() != fields[i].name(),
    ensures
        read_values(fields, bytes, n).contains_key(fields[i].name()),
        read_values(fields, bytes, n)[fields[i].name()] == read_value(fields, bytes, i),
    decreases n,
{
    if i < n - 1 {
        lemma_read_values_at(fields, bytes, n - 1, i);
        assert(fields[n - 1].name() != fields[i].name());
    }
}

/// Bytes that are too few for the bits of the first `n` slots leave one of
/// those slots short of bits: they cannot be decoded.
pub proof fn lemma_short_input_underruns(fields: Seq<FieldView>, bytes: Seq<u8>, n: int)
    requires
        0 <= n <= fields.len(),
        8 * bytes.len() < bit_offset(fields, n),
    ensures
        exists|i: int|
            0 <= i < n && read_fault(fields, bytes, i) == Some(DecodeFault::BufferUnderrun),
    decreases n,
{
    if n == 0 {
        assert(fields.take(0).len() == 0);
    } else {
        assert(fields.take(n).drop_last() == fields.take(n - 1));
        if 8 * bytes.len() < bit_offset(fields, n - 1) {
            lemma_short_input_underruns(fields, bytes, n - 1);
        } else {
            assert(read_fault(fields, bytes, n - 1) == Some(DecodeFault::BufferUnderrun));
        }
    }
}

impl Schema {
    /// Decodes `buffer`.
    ///
    /// The slots are read in the schema's order. Bytes are taken from the
    /// buffer only as the bits of a slot call for them, so a slot that is
    /// always present reads nothing. The payload of a bytes slot is the end
    /// of the buffer, and borrows from it.
    ///
    /// The first slot that cannot be read is reported.
    #[verifier::loop_isolation(false)]
    pub fn from_buffer<'a>(&self, buffer: &'a Vec<u8>) -> (r: Result<Values<'a>, DecodeError>)
        ensures
            match r {
                Ok(values) => {
                    &&& forall|i: int|
                        0 <= i < self@.len() ==> read_fault(self@, buffer@, i) is None
                    &&& values@ == read_values(self@, buffer@, self@.len() as int)
                },
                Err(e) => {
                    &&& e.index < self@.len()
                    &&& read_fault(self@, buffer@, e.index as int) == Some(e.fault)
                    &&& forall|j: int| 0 <= j < e.index ==> read_fault(self@, buffer@, j) is None
                    &&& e.field@ == self@[e.index as int].name()
                },
            },
    {
        let fields = self.fields();
        let ghost slots = self@;
        let ghost bytes = buffer@;
        let mut values = Values::new();
        let mut acc: u64 = 0;
        let mut pending: u64 = 0;
        let mut cursor: usize = 0;
        let mut i: usize = 0;
        proof {
            lemma2_to64();
            assert(slots.take(0).len() == 0);
            assert(bytes.take(0).len() == 0);
        }
        while i < fields.len()
            invariant
                i <= fields@.len(),
                slots == self@,
                bytes == buffer@,
                views(fields@) == slots,
                forall|k: int| 0 <= k < fields@.len() ==> (#[trigger] fields@[k]).resolved(),
                forall|j: int| 0 <= j < i ==> read_fault(slots, bytes, j) is None,
                values@ == read_values(slots, bytes, i as int),
                pending < 8,
                cursor <= bytes.len(),
                pending + bit_offset(slots, i as int) == 8 * cursor,
                acc == le_value(bytes.take(cursor as int)) / pow2(bit_offset(slots, i as int)),
                acc < pow2(pending as nat),
            decreases fields@.len() - i,
        {
            let field = &fields[i];
            let ghost slot = slots[i as int];
            let ghost off = bit_offset(slots, i as int);
            proof {
                assert(slot == fields@[i as int]@);
                assert(slots.take(i + 1).drop_last() == slots.take(i as int));
                assert(bit_offset(slots, i + 1) == off + slot.width());
                lemma_width_bound(slot);
                lemma_boolean_width();
            }
            let bits: u64 = field.bits().unwrap() as u64;
            while pending < bits
                invariant
                    pending < bits + 8,
                    cursor <= bytes.len(),
                    pending + off == 8 * cursor,
                    acc == le_value(bytes.take(cursor as int)) / pow2(off),
                    acc < pow2(pending as nat),
                decreases bytes.len() - cursor,
            {
                if cursor >= buffer.len() {
                    return Err(
                        DecodeError {
                            fault: DecodeFault::BufferUnderrun,
                            index: i,
                            field: field.name().clone(),
                        },
                    );
                }
                let byte = buffer[cursor];
                proof {
                    lemma2_to64();
                    lemma_register_merge(acc, byte as u64, pending, 8);
                    assert(bytes.take(cursor + 1) == bytes.take(cursor as int).push(byte));
                    lemma_le_value_push(bytes.take(cursor as int), byte);
                    lemma_shift_of_sum(
                        le_value(bytes.take(cursor as int)),
                        byte as nat,
                        off,
                        pending as nat,
                    );
                }
                acc = acc | ((byte as u64) << pending);
                cursor = cursor + 1;
                pending = pending + 8;
            }
            proof {
                lemma_register_split(acc, bits);
                lemma_bit_field_prefix(bytes, cursor as int, off, bits as nat);
                lemma_shift_twice(le_value(bytes.take(cursor as int)), off, bits as nat);
                lemma_shift_bound(acc as nat, bits as nat, (pending - bits) as nat);
                lemma_pow2_pos(bits as nat);
                lemma_mod_bound(acc as int, pow2(bits as nat) as int);
                if bits < 32 {
                    lemma_pow2_strictly_increases(bits as nat, 32);
                }
            }
            let number: u64 = acc & ((1u64 << bits) - 1);
            acc = acc >> bits;
            pending = pending - bits;
            assert(number == read_number(slots, bytes, i as int));
            let value = match field {
                Field::Int(f) => {
                    let sum: i64 = f.min as i64 + number as i64;
                    if sum > i32::MAX as i64 {
                        return Err(
                            DecodeError {
                                fault: DecodeFault::ValueOverflow,
                                index: i,
                                field: f.name.clone(),
                            },
                        );
                    }
                    Value::Int(sum as i32)
                },
                Field::Boolean(_) => Value::Boolean(number == 1),
                Field::Bytes(f) => {
                    if number > (buffer.len() - cursor) as u64 {
                        return Err(
                            DecodeError {
                                fault: DecodeFault::InvalidLength,
                                index: i,
                                field: f.name.clone(),
                            },
                        );
                    }
                    let start = buffer.len() - number as usize;
                    Value::Buffer(slice_subrange(buffer.as_slice(), start, buffer.len()))
                },
            };
            assert(read_fault(slots, bytes, i as int) is None);
            assert(value@ == read_value(slots, bytes, i as int));
            values.insert(field.name().as_str(), value);
            i += 1;
        }
        Ok(values)
    }
}

} // verus!
