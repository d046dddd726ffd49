//! Field declarations and their resolved form.

use crate::width::{bit_width, lemma_bit_width_bound, lemma_bit_width_covers};
use vstd::arithmetic::power2::{lemma2_to64, pow2};
use vstd::prelude::*;

verus! {

/// An integer slot with inclusive bounds `min..=max`.
///
/// `bits` and `always_present` are filled in when a schema is built; what a
/// declaration holds there is ignored.
#[derive(Debug, PartialEq, Eq, PartialOrd, Ord)]
pub struct IntField {
    pub name: String,
    pub min: i32,
    pub max: i32,
    /// The number of bits the slot takes in the packed stream.
    pub bits: Option<u32>,
    /// Whether the slot takes no bits, its value being `min` always.
    pub always_present: Option<bool>,
}

/// A boolean slot.
#[derive(Debug, PartialEq, Eq, PartialOrd, Ord)]
pub struct BooleanField {
    pub name: String,
    /// The number of bits the slot takes in the packed stream: one.
    pub bits: Option<u32>,
}

/// A slot for a byte string of at most `max` bytes.
#[derive(Debug, PartialEq, Eq, PartialOrd, Ord)]
pub struct BytesField {
    pub name: String,
    pub max: i32,
    /// The number of bits the length of the byte string takes in the packed
    /// stream. The bytes themselves are stored outside of it.
    pub bits: Option<u32>,
}

/// The description of one value slot.
#[derive(Debug, PartialEq, Eq, PartialOrd, Ord)]
pub enum Field {
    Int(IntField),
    Boolean(BooleanField),
    Bytes(BytesField),
}

/// What a [`Field`] declares, apart from the cached widths.
pub enum FieldView {
    Int { name: Seq<char>, min: i32, max: i32 },
    Boolean { name: Seq<char> },
    Bytes { name: Seq<char>, max: i32 },
}

impl FieldView {
    pub open spec fn name(self) -> Seq<char> {
        match self {
            FieldView::Int { name, .. } => name,
            FieldView::Boolean { name } => name,
            FieldView::Bytes { name, .. } => name,
        }
    }

    /// The bounds make sense: an integer slot has `min <= max`, a bytes slot
    /// has a limit that is not negative.
    pub open spec fn valid(self) -> bool {
        match self {
            FieldView::Int { min, max, .. } => min <= max,
            FieldView::Boolean { .. } => true,
            FieldView::Bytes { max, .. } => 0 <= max,
        }
    }

    /// How many different numbers the slot may put into the packed stream.
    pub open spec fn span(self) -> nat {
        match self {
            FieldView::Int { min, max, .. } => if min <= max {
                (max - min + 1) as nat
            } else {
                0
            },
            FieldView::Boolean { .. } => 2,
            FieldView::Bytes { max, .. } => if 0 <= max {
                (max + 1) as nat
            } else {
                0
            },
        }
    }

    /// The number of bits that the slot takes in the packed stream.
    pub open spec fn width(self) -> nat {
        bit_width(self.span())
    }

    /// An integer slot with a single possible value. It takes no bits, and
    /// the value need not be supplied.
    pub open spec fn always_present(self) -> bool {
        self is Int && self.width() == 0
    }
}

impl View for Field {
    type V = FieldView;

    open spec fn view(&self) -> FieldView {
        match *self {
            Field::Int(f) => FieldView::Int { name: f.name@, min: f.min, max: f.max },
            Field::Boolean(f) => FieldView::Boolean { name: f.name@ },
            Field::Bytes(f) => FieldView::Bytes { name: f.name@, max: f.max },
        }
    }
}

impl Field {
    /// The cached widths are those that the declaration calls for.
    pub open spec fn resolved(&self) -> bool {
        match *self {
            Field::Int(f) => f.bits == Some(self@.width() as u32) && f.always_present == Some(
                self@.width() == 0,
            ),
            Field::Boolean(f) => f.bits == Some(1u32),
            Field::Bytes(f) => f.bits == Some(self@.width() as u32),
        }
    }

    /// The name of the slot.
    pub fn name(&self) -> (name: &String)
        ensures
            name@ == self@.name(),
    {
        match self {
            Field::Int(f) => &f.name,
            Field::Boolean(f) => &f.name,
            Field::Bytes(f) => &f.name,
        }
    }

    /// The cached width of the slot, if it has been filled in.
    pub fn bits(&self) -> (bits: Option<u32>)
        ensures
            self.resolved() ==> bits == Some(self@.width() as u32),
            bits == match *self {
                Field::Int(f) => f.bits,
                Field::Boolean(f) => f.bits,
                Field::Bytes(f) => f.bits,
            },
    {
        proof {
            lemma_boolean_width();
        }
        match self {
            Field::Int(f) => f.bits,
            Field::Boolean(f) => f.bits,
            Field::Bytes(f) => f.bits,
        }
    }
}

/// Two values take one bit.
pub proof fn lemma_boolean_width()
    ensures
        bit_width(2) == 1,
{
    assert(bit_width(2) == 1 + bit_width(1));
}

/// The width of an integer slot with bounds `min..=max` is the logarithm of
/// `max - min + 1` to base two, rounded up: the least number of bits that
/// can tell that many values apart. With `min == max` it is zero, and then,
/// and only then, the slot is always present.
pub proof fn lemma_int_field_width(field: Field)
    requires
        field is Int,
        field@.valid(),
        field.resolved(),
    ensures
        ({
            let f = field->Int_0;
            let count = (f.max - f.min + 1) as nat;
            let bits = bit_width(count);
            &&& bits <= 32
            &&& f.bits == Some(bits as u32)
            &&& count <= pow2(bits)
            &&& forall|k: nat| count <= #[trigger] pow2(k) ==> bits <= k
            &&& bits == 0 <==> f.min == f.max
            &&& f.always_present == Some(f.min == f.max)
            &&& field@.always_present() <==> f.min == f.max
        }),
{
    let f = field->Int_0;
    let count = (f.max - f.min + 1) as nat;
    lemma2_to64();
    lemma_bit_width_bound(count, 32);
    lemma_bit_width_covers(count);
    assert forall|k: nat| count <= #[trigger] pow2(k) implies bit_width(count) <= k by {
        lemma_bit_width_bound(count, k);
    }
}

/// A boolean slot takes one bit, whatever else the schema holds.
pub proof fn lemma_boolean_field_width(field: Field)
    requires
        field is Boolean,
        field.resolved(),
    ensures
        field->Boolean_0.bits == Some(1u32),
        field@.width() == 1,
        !field@.always_present(),
{
    lemma_boolean_width();
}

/// The views of a list of fields, in the same order.
pub open spec fn views(fields: Seq<Field>) -> Seq<FieldView> {
    fields.map_values(|f: Field| f@)
}

} // verus!
