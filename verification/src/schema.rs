//! Building a schema from a list of declarations.

use crate::error::{SchemaError, SchemaFault};
use crate::field::{lemma_boolean_width, views, BooleanField, BytesField, Field, FieldView, IntField};
use crate::width::bits_for;
use vstd::prelude::*;

verus! {

/// The number of bits in the packed stream of `fields`.
pub open spec fn total_bits(fields: Seq<FieldView>) -> nat
    decreases fields.len(),
{
    if fields.len() == 0 {
        0
    } else {
        total_bits(fields.drop_last()) + fields.last().width()
    }
}

/// The number of bytes that hold the packed stream of `fields`.
pub open spec fn fixed_len(fields: Seq<FieldView>) -> nat {
    (total_bits(fields) + 7) / 8
}

/// Picks out the bytes slots.
pub open spec fn bytes_slot() -> spec_fn(FieldView) -> bool {
    |f: FieldView| f is Bytes
}

/// Picks out the integer and boolean slots.
pub open spec fn fixed_slot() -> spec_fn(FieldView) -> bool {
    |f: FieldView| !(f is Bytes)
}

/// What is wrong with the declaration at position `i`, if anything.
pub open spec fn declaration_fault(decls: Seq<FieldView>, i: int) -> Option<SchemaFault> {
    match decls[i] {
        FieldView::Int { min, max, .. } => if min > max {
            Some(SchemaFault::ReversedBounds)
        } else {
            None
        },
        FieldView::Boolean { .. } => None,
        FieldView::Bytes { max, .. } => if max < 0 {
            Some(SchemaFault::NegativeLimit)
        } else if exists|j: int| 0 <= j < i && #[trigger] decls[j] is Bytes {
            Some(SchemaFault::SecondBytesField)
        } else {
            None
        },
    }
}

/// The order of a schema's slots: the integer and boolean slots in the order
/// in which they were declared, then the bytes slots, likewise.
pub open spec fn arrange(decls: Seq<FieldView>) -> Seq<FieldView> {
    decls.filter(fixed_slot()) + decls.filter(bytes_slot())
}

/// What holds of the slots of every schema: the bounds of each make sense,
/// and a bytes slot, if there is one, comes last.
pub open spec fn well_formed(fields: Seq<FieldView>) -> bool {
    &&& forall|i: int| 0 <= i < fields.len() ==> (#[trigger] fields[i]).valid()
    &&& forall|i: int| 0 <= i < fields.len() && (#[trigger] fields[i]) is Bytes ==> i == fields.len() - 1
}

/// The capacity that a schema suggests for the packed stream: its length in
/// bytes, or the largest `usize` where that is less.
pub open spec fn byte_length_hint(fields: Seq<FieldView>) -> nat {
    if fixed_len(fields) <= usize::MAX {
        fixed_len(fields)
    } else {
        usize::MAX as nat
    }
}

/// The packed stream of two lists of slots, one after the other, has the bits
/// of both.
pub proof fn lemma_total_bits_concat(a: Seq<FieldView>, b: Seq<FieldView>)
    ensures
        total_bits(a + b) == total_bits(a) + total_bits(b),
    decreases b.len(),
{
    if b.len() == 0 {
        assert(a + b == a);
    } else {
        assert((a + b).drop_last() == a + b.drop_last());
        lemma_total_bits_concat(a, b.drop_last());
    }
}

/// No slot takes more than 32 bits: a 64-bit register holds the bits of a
/// slot together with those of the bytes around it.
pub proof fn lemma_width_bound(f: FieldView)
    ensures
        f.width() <= 32,
{
    vstd::arithmetic::power2::lemma2_to64();
    crate::width::lemma_bit_width_bound(f.span(), 32);
}

/// A filter that every element passes keeps the sequence as it is.
proof fn lemma_filter_keeps_all(s: Seq<FieldView>, pred: spec_fn(FieldView) -> bool)
    requires
        forall|i: int| 0 <= i < s.len() ==> pred(#[trigger] s[i]),
    ensures
        s.filter(pred) == s,
    decreases s.len(),
{
    reveal(Seq::filter);
    if s.len() > 0 {
        assert forall|i: int| 0 <= i < s.drop_last().len() implies pred(
            #[trigger] s.drop_last()[i],
        ) by {
            assert(s.drop_last()[i] == s[i]);
        }
        lemma_filter_keeps_all(s.drop_last(), pred);
        assert(pred(s[s.len() - 1]));
        assert(s.drop_last().push(s.last()) == s);
    }
}

/// A filter that no element passes keeps nothing.
proof fn lemma_filter_keeps_none(s: Seq<FieldView>, pred: spec_fn(FieldView) -> bool)
    requires
        forall|i: int| 0 <= i < s.len() ==> !pred(#[trigger] s[i]),
    ensures
        s.filter(pred) == Seq::<FieldView>::empty(),
    decreases s.len(),
{
    reveal(Seq::filter);
    if s.len() > 0 {
        assert forall|i: int| 0 <= i < s.drop_last().len() implies !pred(
            #[trigger] s.drop_last()[i],
        ) by {
            assert(s.drop_last()[i] == s[i]);
        }
        lemma_filter_keeps_none(s.drop_last(), pred);
        assert(!pred(s[s.len() - 1]));
    }
}

/// Every slot is either a bytes slot or not: the two groups have all slots.
proof fn lemma_groups_len(decls: Seq<FieldView>)
    ensures
        decls.filter(fixed_slot()).len() + decls.filter(bytes_slot()).len() == decls.len(),
    decreases decls.len(),
{
    reveal(Seq::filter);
    if decls.len() > 0 {
        lemma_groups_len(decls.drop_last());
    }
}

/// The order of a schema: it holds every declared slot once; no integer or
/// boolean slot stands behind a bytes slot; and within the integer and
/// boolean slots, as within the bytes slots, the order of declaration is
/// kept.
pub proof fn lemma_arrange_order(decls: Seq<FieldView>)
    ensures
        arrange(decls).len() == decls.len(),
        forall|i: int, j: int|
            0 <= i < j < arrange(decls).len() && (#[trigger] arrange(decls)[i]) is Bytes ==> (
            #[trigger] arrange(decls)[j]) is Bytes,
        arrange(decls).filter(fixed_slot()) == decls.filter(fixed_slot()),
        arrange(decls).filter(bytes_slot()) == decls.filter(bytes_slot()),
{
    let front = decls.filter(fixed_slot());
    let back = decls.filter(bytes_slot());
    lemma_groups_len(decls);
    assert forall|k: int| 0 <= k < front.len() implies fixed_slot()(#[trigger] front[k]) by {
        decls.lemma_filter_pred(fixed_slot(), k);
    }
    assert forall|k: int| 0 <= k < back.len() implies bytes_slot()(#[trigger] back[k]) by {
        decls.lemma_filter_pred(bytes_slot(), k);
    }
    assert forall|i: int, j: int|
        0 <= i < j < arrange(decls).len() && (#[trigger] arrange(decls)[i]) is Bytes implies (
    #[trigger] arrange(decls)[j]) is Bytes by {
        if i < front.len() {
            assert(fixed_slot()(front[i]));
        }
        assert(bytes_slot()(back[j - front.len()]));
    }
    Seq::filter_distributes_over_add(front, back, fixed_slot());
    Seq::filter_distributes_over_add(front, back, bytes_slot());
    lemma_filter_keeps_all(front, fixed_slot());
    lemma_filter_keeps_all(back, bytes_slot());
    assert forall|k: int| 0 <= k < front.len() implies !bytes_slot()(#[trigger] front[k]) by {
        assert(fixed_slot()(front[k]));
    }
    assert forall|k: int| 0 <= k < back.len() implies !fixed_slot()(#[trigger] back[k]) by {
        assert(bytes_slot()(back[k]));
    }
    lemma_filter_keeps_none(front, bytes_slot());
    lemma_filter_keeps_none(back, fixed_slot());
}

/// A resolved, ordered list of slots, ready to encode and decode.
#[derive(Debug, PartialEq, Eq)]
pub struct Schema {
    fields: Vec<Field>,
    max_byte_length: usize,
}

impl View for Schema {
    type V = Seq<FieldView>;

    /// What the slots declare, in the schema's order.
    open spec fn view(&self) -> Seq<FieldView> {
        views(self.fields()@)
    }
}

impl Schema {
    #[verifier::type_invariant]
    spec fn inv(&self) -> bool {
        &&& well_formed(views(self.fields@))
        &&& forall|i: int| 0 <= i < self.fields@.len() ==> (#[trigger] self.fields@[i]).resolved()
        &&& self.max_byte_length as nat == byte_length_hint(views(self.fields@))
    }

    /// The slots in the schema's order, each with its width filled in.
    pub closed spec fn spec_fields(&self) -> &Vec<Field> {
        &self.fields
    }

    /// The capacity hint that the schema holds.
    pub closed spec fn spec_max_byte_length(&self) -> usize {
        self.max_byte_length
    }

    /// Builds a schema from declarations.
    ///
    /// Each slot gets the least width that holds its range, and the bytes
    /// slot, if there is one, is moved behind the others, which stay in the
    /// order of their declaration. The first declaration that is at fault is
    /// reported: an integer slot with `min > max`, a bytes slot with a
    /// negative limit, or a second bytes slot.
    ///
    /// A schema holds at most one bytes slot because its payload is looked
    /// for at the very end of the encoded bytes.
    pub fn construct(fields: &[Field]) -> (r: Result<Schema, SchemaError>)
        ensures
            match r {
                Ok(schema) => {
                    &&& forall|i: int|
                        0 <= i < fields@.len() ==> declaration_fault(views(fields@), i) is None
                    &&& schema@ == arrange(views(fields@))
                    &&& well_formed(schema@)
                    &&& forall|i: int|
                        0 <= i < schema.fields()@.len() ==> (
                        #[trigger] schema.fields()@[i]).resolved()
                    &&& schema.max_byte_length() == byte_length_hint(schema@)
                },
                Err(e) => {
                    &&& e.index < fields@.len()
                    &&& declaration_fault(views(fields@), e.index as int) == Some(e.fault)
                    &&& forall|j: int|
                        0 <= j < e.index ==> declaration_fault(views(fields@), j) is None
                    &&& e.field@ == fields@[e.index as int]@.name()
                },
            },
    {
        let ghost decls = views(fields@);
        let mut front: Vec<Field> = Vec::new();
        let mut back: Vec<Field> = Vec::new();
        let mut total: u128 = 0;
        let mut i: usize = 0;
        proof {
            reveal(Seq::filter);
            assert(decls.take(0).filter(fixed_slot()) == views(front@));
            assert(decls.take(0).filter(bytes_slot()) == views(back@));
        }
        while i < fields.len()
            invariant
                i <= fields@.len(),
                decls == views(fields@),
                forall|j: int| 0 <= j < i ==> declaration_fault(decls, j) is None,
                views(front@) == decls.take(i as int).filter(fixed_slot()),
                views(back@) == decls.take(i as int).filter(bytes_slot()),
                forall|k: int| 0 <= k < front@.len() ==> (#[trigger] front@[k]).resolved(),
                forall|k: int| 0 <= k < back@.len() ==> (#[trigger] back@[k]).resolved(),
                back@.len() <= 1,
                back@.len() == 0 <==> forall|j: int| 0 <= j < i ==> !(#[trigger] decls[j] is Bytes),
                total == total_bits(views(front@)) + total_bits(views(back@)),
                total <= 32 * i,
            decreases fields@.len() - i,
        {
            let ghost prefix = decls.take(i as int);
            let ghost next = decls.take(i + 1);
            proof {
                assert(decls[i as int] == fields@[i as int]@);
                assert(next == prefix.push(decls[i as int]));
                prefix.lemma_filter_push(decls[i as int], fixed_slot());
                prefix.lemma_filter_push(decls[i as int], bytes_slot());
                lemma_width_bound(decls[i as int]);
            }
            match &fields[i] {
                Field::Int(f) => {
                    if f.min > f.max {
                        return Err(
                            SchemaError {
                                fault: SchemaFault::ReversedBounds,
                                index: i,
                                field: f.name.clone(),
                            },
                        );
                    }
                    let span: u64 = (f.max as i64 - f.min as i64 + 1) as u64;
                    let bits = bits_for(span);
                    let resolved = Field::Int(
                        IntField {
                            name: f.name.clone(),
                            min: f.min,
                            max: f.max,
                            bits: Some(bits),
                            always_present: Some(bits == 0),
                        },
                    );
                    proof {
                        assert(resolved@ == decls[i as int]);
                        assert(views(front@.push(resolved)) == views(front@).push(resolved@));
                        assert(views(front@.push(resolved)).drop_last() == views(front@));
                    }
                    front.push(resolved);
                    total = total + bits as u128;
                },
                Field::Boolean(f) => {
                    let resolved = Field::Boolean(BooleanField { name: f.name.clone(), bits: Some(1) });
                    proof {
                        lemma_boolean_width();
                        assert(resolved@ == decls[i as int]);
                        assert(views(front@.push(resolved)) == views(front@).push(resolved@));
                        assert(views(front@.push(resolved)).drop_last() == views(front@));
                    }
                    front.push(resolved);
                    total = total + 1;
                },
                Field::Bytes(f) => {
                    if f.max < 0 {
                        return Err(
                            SchemaError {
                                fault: SchemaFault::NegativeLimit,
                                index: i,
                                field: f.name.clone(),
                            },
                        );
                    }
                    if back.len() > 0 {
                        return Err(
                            SchemaError {
                                fault: SchemaFault::SecondBytesField,
                                index: i,
                                field: f.name.clone(),
                            },
                        );
                    }
                    let span: u64 = (f.max as i64 + 1) as u64;
                    let bits = bits_for(span);
                    let resolved = Field::Bytes(
                        BytesField { name: f.name.clone(), max: f.max, bits: Some(bits) },
                    );
                    proof {
                        assert(resolved@ == decls[i as int]);
                        assert(views(back@.push(resolved)) == views(back@).push(resolved@));
                        assert(views(back@.push(resolved)).drop_last() == views(back@));
                    }
                    back.push(resolved);
                    total = total + bits as u128;
                },
            }
            i += 1;
        }
        proof {
            assert(decls.take(i as int) == decls);
            let fixed = views(front@);
            let tail = views(back@);
            assert(views(front@ + back@) == fixed + tail);
            lemma_total_bits_concat(fixed, tail);
            assert forall|k: int| 0 <= k < (fixed + tail).len() implies (#[trigger] (fixed
                + tail)[k]).valid() && ((fixed + tail)[k] is Bytes ==> k == (fixed + tail).len() - 1) by {
                if k < fixed.len() {
                    decls.lemma_filter_pred(fixed_slot(), k);
                    decls.lemma_filter_contains_rev(fixed_slot(), fixed[k]);
                } else {
                    decls.lemma_filter_contains_rev(bytes_slot(), tail[k - fixed.len()]);
                }
                let j = choose|j: int| 0 <= j < decls.len() && decls[j] == (fixed + tail)[k];
                assert(declaration_fault(decls, j) is None);
            }
        }
        front.append(&mut back);
        let bytes: u128 = (total + 7) / 8;
        let max_byte_length: usize = if bytes > usize::MAX as u128 {
            usize::MAX
        } else {
            bytes as usize
        };
        Ok(Schema { fields: front, max_byte_length })
    }

    /// The slots in the schema's order, each with its width filled in.
    #[verifier::when_used_as_spec(spec_fields)]
    pub fn fields(&self) -> (fields: &Vec<Field>)
        ensures
            fields == self.fields(),
            forall|i: int| 0 <= i < fields@.len() ==> (#[trigger] fields@[i]).resolved(),
            well_formed(self@),
    {
        proof {
            use_type_invariant(self);
        }
        &self.fields
    }

    /// A capacity hint for the packed stream: its length in bytes. The
    /// payload of a bytes slot is not counted.
    #[verifier::when_used_as_spec(spec_max_byte_length)]
    pub fn max_byte_length(&self) -> (n: usize)
        ensures
            n == self.max_byte_length(),
            n == byte_length_hint(self@),
    {
        proof {
            use_type_invariant(self);
        }
        self.max_byte_length
    }
}

} // verus!
