//! Runtime values and the name-keyed mapping that carries them.

use vstd::prelude::*;
use vstd::set_lib::lemma_subset_equality;
use vstd::std_specs::cmp::PartialEqSpecImpl;

verus! {

/// One runtime value: what a field holds before encoding or after decoding.
#[derive(Clone, Copy, Debug, Eq)]
pub enum Value<'a> {
    /// The payload of a bytes field.
    Buffer(&'a [u8]),
    /// The value of an integer field.
    Int(i32),
    /// The value of a boolean field.
    Boolean(bool),
}

/// The mathematical content of a [`Value`].
pub enum ValueView {
    Buffer(Seq<u8>),
    Int(i32),
    Boolean(bool),
}

impl<'a> View for Value<'a> {
    type V = ValueView;

    open spec fn view(&self) -> ValueView {
        match *self {
            Value::Buffer(bytes) => ValueView::Buffer(bytes@),
            Value::Int(v) => ValueView::Int(v),
            Value::Boolean(b) => ValueView::Boolean(b),
        }
    }
}

/// Whether two byte strings hold the same bytes.
fn same_bytes(a: &[u8], b: &[u8]) -> (same: bool)
    ensures
        same == (a@ == b@),
{
    if a.len() != b.len() {
        return false;
    }
    let mut i: usize = 0;
    while i < a.len()
        invariant
            i <= a@.len(),
            a@.len() == b@.len(),
            forall|k: int| 0 <= k < i ==> a@[k] == b@[k],
        decreases a@.len() - i,
    {
        if a[i] != b[i] {
            return false;
        }
        i += 1;
    }
    assert(a@ =~= b@);
    true
}

/// Two values are equal where they are of one kind and hold the same: byte
/// strings are compared by their bytes.
impl<'a> PartialEq for Value<'a> {
    fn eq(&self, other: &Self) -> (equal: bool) {
        match (*self, *other) {
            (Value::Buffer(a), Value::Buffer(b)) => same_bytes(a, b),
            (Value::Int(a), Value::Int(b)) => a == b,
            (Value::Boolean(a), Value::Boolean(b)) => a == b,
            _ => false,
        }
    }
}

impl<'a> PartialEqSpecImpl for Value<'a> {
    open spec fn obeys_eq_spec() -> bool {
        true
    }

    open spec fn eq_spec(&self, other: &Self) -> bool {
        self@ == other@
    }
}

/// The map that a list of entries stands for: entries are entered from first
/// to last, a later one replacing an earlier one of the same name.
pub open spec fn entries_map(entries: Seq<(String, Value<'_>)>) -> Map<Seq<char>, ValueView>
    decreases entries.len(),
{
    if entries.len() == 0 {
        Map::empty()
    } else {
        entries_map(entries.drop_last()).insert(entries.last().0@, entries.last().1@)
    }
}

/// No two entries carry the same name.
pub open spec fn distinct_names(entries: Seq<(String, Value<'_>)>) -> bool {
    forall|i: int, j: int|
        0 <= i < j < entries.len() ==> (#[trigger] entries[i]).0@ != (#[trigger] entries[j]).0@
}

/// A name that none of the entries carries is not in their map.
proof fn lemma_absent_name(entries: Seq<(String, Value<'_>)>, name: Seq<char>)
    requires
        forall|i: int| 0 <= i < entries.len() ==> (#[trigger] entries[i]).0@ != name,
    ensures
        !entries_map(entries).contains_key(name),
    decreases entries.len(),
{
    if entries.len() > 0 {
        lemma_absent_name(entries.drop_last(), name);
    }
}

/// With distinct names, every entry is found in the map under its name.
proof fn lemma_entry_found(entries: Seq<(String, Value<'_>)>, i: int)
    requires
        distinct_names(entries),
        0 <= i < entries.len(),
    ensures
        entries_map(entries).contains_key(entries[i].0@),
        entries_map(entries)[entries[i].0@] == entries[i].1@,
    decreases entries.len(),
{
    if i < entries.len() - 1 {
        lemma_entry_found(entries.drop_last(), i);
    }
}

/// Replacing the value of one entry replaces it in the map.
proof fn lemma_entry_replaced(entries: Seq<(String, Value<'_>)>, i: int, entry: (String, Value<'_>))
    requires
        distinct_names(entries),
        0 <= i < entries.len(),
        entry.0@ == entries[i].0@,
    ensures
        distinct_names(entries.update(i, entry)),
        entries_map(entries.update(i, entry)) == entries_map(entries).insert(entry.0@, entry.1@),
    decreases entries.len(),
{
    let updated = entries.update(i, entry);
    assert(distinct_names(updated)) by {
        assert forall|a: int, b: int| 0 <= a < b < updated.len() implies (#[trigger] updated[a]).0@
            != (#[trigger] updated[b]).0@ by {
            assert(entries[a].0@ != entries[b].0@);
        }
    }
    if i == entries.len() - 1 {
        assert(updated.drop_last() == entries.drop_last());
        assert(entries_map(updated) == entries_map(entries).insert(entry.0@, entry.1@));
    } else {
        let last = entries.last();
        assert(updated.drop_last() == entries.drop_last().update(i, entry));
        assert(updated.last() == last);
        assert(last.0@ != entry.0@) by {
            assert(entries[i].0@ != entries[entries.len() - 1].0@);
        }
        lemma_entry_replaced(entries.drop_last(), i, entry);
        assert(entries_map(updated) == entries_map(entries).insert(entry.0@, entry.1@));
    }
}

/// Every name in the map is the name of an entry.
proof fn lemma_key_is_entry(entries: Seq<(String, Value<'_>)>, name: Seq<char>)
    requires
        entries_map(entries).contains_key(name),
    ensures
        exists|i: int| 0 <= i < entries.len() && (#[trigger] entries[i]).0@ == name,
    decreases entries.len(),
{
    if entries.len() > 0 {
        if entries.last().0@ == name {
            assert(entries[entries.len() - 1].0@ == name);
        } else {
            lemma_key_is_entry(entries.drop_last(), name);
            let i = choose|i: int|
                0 <= i < entries.drop_last().len() && (#[trigger] entries.drop_last()[i]).0@
                    == name;
            assert(entries[i].0@ == name);
        }
    }
}

/// A mapping from field names to values.
///
/// It holds at most one value per name. Two mappings are equal where they
/// hold the same values under the same names.
#[derive(Debug, Eq)]
pub struct Values<'a> {
    entries: Vec<(String, Value<'a>)>,
}

impl<'a> PartialEq for Values<'a> {
    fn eq(&self, other: &Self) -> (equal: bool) {
        proof {
            use_type_invariant(self);
            use_type_invariant(other);
            lemma_entries_count(self.entries@);
            lemma_entries_count(other.entries@);
        }
        if self.entries.len() != other.entries.len() {
            return false;
        }
        let mut i: usize = 0;
        while i < self.entries.len()
            invariant
                i <= self.entries@.len(),
                distinct_names(self.entries@),
                forall|k: int|
                    0 <= k < i ==> other@.contains_key((#[trigger] self.entries@[k]).0@)
                        && other@[self.entries@[k].0@] == self.entries@[k].1@,
            decreases self.entries@.len() - i,
        {
            proof {
                lemma_entry_found(self.entries@, i as int);
            }
            match other.lookup(&self.entries[i].0) {
                None => {
                    return false;
                },
                Some(value) => {
                    if value != self.entries[i].1 {
                        return false;
                    }
                },
            }
            i += 1;
        }
        proof {
            assert forall|name: Seq<char>| #[trigger]
                self@.dom().contains(name) implies other@.dom().contains(name) && other@[name]
                == self@[name] by {
                lemma_key_is_entry(self.entries@, name);
                let k = choose|k: int|
                    0 <= k < self.entries@.len() && (#[trigger] self.entries@[k]).0@ == name;
                lemma_entry_found(self.entries@, k);
            }
            assert(self@.dom().subset_of(other@.dom()));
            lemma_subset_equality(self@.dom(), other@.dom());
            assert(self@ =~= other@);
        }
        true
    }
}

impl<'a> PartialEqSpecImpl for Values<'a> {
    open spec fn obeys_eq_spec() -> bool {
        true
    }

    open spec fn eq_spec(&self, other: &Self) -> bool {
        self@ == other@
    }
}

impl<'a> View for Values<'a> {
    type V = Map<Seq<char>, ValueView>;

    closed spec fn view(&self) -> Map<Seq<char>, ValueView> {
        entries_map(self.entries@)
    }
}

impl<'a> Values<'a> {
    #[verifier::type_invariant]
    spec fn inv(&self) -> bool {
        distinct_names(self.entries@)
    }

    /// An empty mapping.
    pub fn new() -> (values: Self)
        ensures
            values@ == Map::<Seq<char>, ValueView>::empty(),
    {
        Values { entries: Vec::new() }
    }

    /// The value entered under `name`, if there is one.
    pub fn get(&self, name: &str) -> (found: Option<Value<'a>>)
        ensures
            match found {
                Some(value) => self@.contains_key(name@) && self@[name@] == value@,
                None => !self@.contains_key(name@),
            },
    {
        let key = name.to_owned();
        self.lookup(&key)
    }

    /// The value entered under `name`, if there is one.
    pub(crate) fn lookup(&self, name: &String) -> (found: Option<Value<'a>>)
        ensures
            match found {
                Some(value) => self@.contains_key(name@) && self@[name@] == value@,
                None => !self@.contains_key(name@),
            },
    {
        proof {
            use_type_invariant(self);
        }
        let mut i: usize = 0;
        while i < self.entries.len()
            invariant
                i <= self.entries.len(),
                distinct_names(self.entries@),
                forall|k: int| 0 <= k < i ==> (#[trigger] self.entries[k]).0@ != name@,
            decreases self.entries.len() - i,
        {
            if self.entries[i].0 == *name {
                proof {
                    lemma_entry_found(self.entries@, i as int);
                }
                return Some(self.entries[i].1);
            }
            i += 1;
        }
        proof {
            lemma_absent_name(self.entries@, name@);
        }
        None
    }

    /// Enters `value` under `name`, in place of any value entered there before.
    pub fn insert(&mut self, name: &str, value: Value<'a>)
        ensures
            final(self)@ == old(self)@.insert(name@, value@),
    {
        proof {
            use_type_invariant(&*self);
        }
        let key = name.to_owned();
        let mut entries: Vec<(String, Value<'a>)> = Vec::new();
        std::mem::swap(&mut self.entries, &mut entries);
        let mut i: usize = 0;
        while i < entries.len()
            invariant
                i <= entries.len(),
                key@ == name@,
                forall|k: int| 0 <= k < i ==> (#[trigger] entries[k]).0@ != name@,
            ensures
                i < entries.len() ==> entries[i as int].0@ == name@,
            decreases entries.len() - i,
        {
            if entries[i].0 == key {
                break ;
            }
            i += 1;
        }
        if i < entries.len() {
            proof {
                lemma_entry_replaced(entries@, i as int, (key, value));
            }
            entries.set(i, (key, value));
        } else {
            proof {
                assert(entries@.push((key, value)).drop_last() == entries@);
            }
            entries.push((key, value));
            assert(distinct_names(entries@));
        }
        self.entries = entries;
    }

    /// The names that have a value, each with its value. No name occurs
    /// twice.
    pub fn entries(&self) -> (entries: &Vec<(String, Value<'a>)>)
        ensures
            distinct_names(entries@),
            entries_map(entries@) == self@,
    {
        proof {
            use_type_invariant(self);
        }
        &self.entries
    }

    /// The number of names that have a value.
    pub fn len(&self) -> (n: usize)
        ensures
            n == self@.dom().len(),
            self@.dom().finite(),
    {
        proof {
            use_type_invariant(self);
            lemma_entries_count(self.entries@);
        }
        self.entries.len()
    }
}

/// With distinct names, the map has as many keys as there are entries.
proof fn lemma_entries_count(entries: Seq<(String, Value<'_>)>)
    requires
        distinct_names(entries),
    ensures
        entries_map(entries).dom().finite(),
        entries_map(entries).dom().len() == entries.len(),
    decreases entries.len(),
{
    if entries.len() > 0 {
        lemma_entries_count(entries.drop_last());
        assert(!entries_map(entries.drop_last()).contains_key(entries.last().0@)) by {
            assert forall|i: int| 0 <= i < entries.drop_last().len() implies (
            #[trigger] entries.drop_last()[i]).0@ != entries.last().0@ by {
                assert(entries[i].0@ != entries[entries.len() - 1].0@);
            }
            lemma_absent_name(entries.drop_last(), entries.last().0@);
        }
    }
}

} // verus!
