//! The data that is validated.
use vstd::prelude::*;

use crate::entries::{
    keys_ascending, lemma_position, lemma_with_ascending, lemma_without_ascending, position,
    position_from, slot_from, value_at, with, without, Entries,
};
use crate::float::Float;
use crate::order::{
    below, kind_rank, lemma_relate_equal, relate, relate_bytes, relate_entries, relate_ints,
    relate_values, Relation,
};

verus! {

/// A tree of data.
#[derive(Debug)]
pub enum Value {
    Null,
    Bool(bool),
    Integer(i128),
    Float(Float),
    Bytes(Vec<u8>),
    Text(String),
    Array(Vec<Value>),
    Mapping(ValueMap),
}

/// A map from values to values, which is walked in ascending order of its keys.
#[derive(Debug)]
pub struct ValueMap {
    entries: Vec<(Value, Value)>,
}

/// What a tree of data holds.
#[verifier::ext_equal]
pub ghost enum ValueView {
    Null,
    Bool(bool),
    Integer(int),
    Float(Float),
    Bytes(Seq<u8>),
    Text(Seq<char>),
    Array(Seq<ValueView>),
    Mapping(Seq<(ValueView, ValueView)>),
}

impl View for Value {
    type V = ValueView;

    open spec fn view(&self) -> ValueView
        decreases self,
    {
        match self {
            Value::Null => ValueView::Null,
            Value::Bool(b) => ValueView::Bool(*b),
            Value::Integer(i) => ValueView::Integer(*i as int),
            Value::Float(f) => ValueView::Float(*f),
            Value::Bytes(b) => ValueView::Bytes(b@),
            Value::Text(t) => ValueView::Text(t@),
            Value::Array(a) => ValueView::Array(values_view(a@)),
            Value::Mapping(m) => ValueView::Mapping(m@),
        }
    }
}

/// What each of a sequence of values holds.
pub open spec fn values_view(s: Seq<Value>) -> Seq<ValueView>
    decreases s,
{
    Seq::new(
        s.len(),
        |i: int|
            if 0 <= i < s.len() {
                s[i]@
            } else {
                ValueView::Null
            },
    )
}

impl View for ValueMap {
    type V = Seq<(ValueView, ValueView)>;

    closed spec fn view(&self) -> Seq<(ValueView, ValueView)>
        decreases self,
    {
        entries_view(self.entries@)
    }
}

/// What each of a sequence of key-value pairs holds.
pub open spec fn entries_view(s: Seq<(Value, Value)>) -> Seq<(ValueView, ValueView)>
    decreases s,
{
    Seq::new(
        s.len(),
        |i: int|
            if 0 <= i < s.len() {
                (s[i].0@, s[i].1@)
            } else {
                (ValueView::Null, ValueView::Null)
            },
    )
}

impl Clone for Value {
    fn clone(&self) -> (r: Self)
        ensures
            r@ == self@,
        decreases self,
    {
        match self {
            Value::Null => Value::Null,
            Value::Bool(b) => Value::Bool(*b),
            Value::Integer(i) => Value::Integer(*i),
            Value::Float(f) => Value::Float(*f),
            Value::Bytes(b) => {
                let copy = b.clone();
                assert(copy@ =~= b@);
                Value::Bytes(copy)
            },
            Value::Text(t) => Value::Text(t.clone()),
            Value::Array(a) => Value::Array(clone_values(a)),
            Value::Mapping(m) => Value::Mapping(m.clone()),
        }
    }
}

/// Copies an array.
fn clone_values(a: &Vec<Value>) -> (r: Vec<Value>)
    ensures
        values_view(r@) == values_view(a@),
    decreases a,
{
    let mut copy: Vec<Value> = Vec::new();
    for i in 0..a.len()
        invariant
            copy@.len() == i,
            values_view(copy@) =~= values_view(a@).take(i as int),
    {
        copy.push(a[i].clone());
    }
    assert(values_view(copy@) =~= values_view(a@));
    copy
}

impl Clone for ValueMap {
    fn clone(&self) -> (r: Self)
        ensures
            r@ == self@,
        decreases self,
    {
        proof {
            use_type_invariant(self);
        }
        let mut copy: Vec<(Value, Value)> = Vec::new();
        for i in 0..self.entries.len()
            invariant
                copy@.len() == i,
                entries_view(copy@) =~= entries_view(self.entries@).take(i as int),
        {
            let entry = &self.entries[i];
            copy.push((entry.0.clone(), entry.1.clone()));
        }
        ValueMap { entries: copy }
    }
}

impl ValueMap {
    /// The keys stand in ascending order.
    #[verifier::type_invariant]
    pub open spec fn well_formed(self) -> bool {
        keys_ascending(self@)
    }

    /// The map that holds nothing.
    pub fn new() -> (r: Self)
        ensures
            r@ == Entries::empty(),
    {
        let r = ValueMap { entries: Vec::new() };
        assert(r@ =~= Entries::empty());
        r
    }

    /// The number of entries.
    pub fn len(&self) -> (r: usize)
        ensures
            r == self@.len(),
    {
        self.entries.len()
    }

    /// Whether the map holds nothing.
    pub fn is_empty(&self) -> (r: bool)
        ensures
            r == (self@.len() == 0),
    {
        self.entries.len() == 0
    }

    /// The entry at a place in the order of the keys.
    pub fn entry(&self, i: usize) -> (r: (&Value, &Value))
        requires
            i < self@.len(),
        ensures
            (r.0@, r.1@) == self@[i as int],
            keys_ascending(self@),
    {
        proof {
            use_type_invariant(self);
        }
        let entry = &self.entries[i];
        (&entry.0, &entry.1)
    }

    /// The place of a key among the entries; the number of entries if it does not occur.
    fn find(&self, key: &Value) -> (r: usize)
        ensures
            r == position(self@, key@),
    {
        let mut i: usize = 0;
        while i < self.entries.len()
            invariant
                i <= self@.len(),
                position(self@, key@) == position_from(self@, key@, i as int),
            decreases self@.len() - i,
        {
            if self.entries[i].0 == *key {
                return i;
            }
            i += 1;
        }
        i
    }

    /// The value under a key.
    pub fn get(&self, key: &Value) -> (r: Option<&Value>)
        ensures
            match r {
                Some(value) => value_at(self@, key@) == Some(value@),
                None => value_at(self@, key@) is None,
            },
    {
        let i: usize = self.find(key);
        if i < self.entries.len() {
            Some(&self.entries[i].1)
        } else {
            None
        }
    }

    /// Puts a value under a key, in the place of the one that stood there.
    pub fn insert(&mut self, key: Value, value: Value)
        ensures
            final(self)@ == with(old(self)@, key@, value@),
            keys_ascending(final(self)@),
            value_at(final(self)@, key@) == Some(value@),
    {
        proof {
            use_type_invariant(&*self);
            lemma_with_ascending(self@, key@, value@);
        }
        let ghost before = self@;
        let mut entries: Vec<(Value, Value)> = Vec::new();
        assert(entries_view(entries@) =~= Entries::empty());
        std::mem::swap(&mut entries, &mut self.entries);
        let mut i: usize = 0;
        let mut relation = Relation::Greater;
        while i < entries.len()
            invariant_except_break
                entries_view(entries@) == before,
                i <= entries@.len(),
                slot_from(before, key@, 0) == slot_from(before, key@, i as int),
            ensures
                entries_view(entries@) == before,
                i <= entries@.len(),
                slot_from(before, key@, 0) == i,
                i < entries@.len() ==> relation == relate(before[i as int].0, key@),
            decreases entries@.len() - i,
        {
            proof {
                reveal(below);
            }
            relation = entries[i].0.compare(&key);
            if relation != Relation::Less {
                break;
            }
            i += 1;
        }
        proof {
            if i < before.len() {
                lemma_relate_equal(before[i as int].0, key@);
            }
        }
        let ghost entry = (key@, value@);
        if i < entries.len() && relation == Relation::Equal {
            entries[i] = (key, value);
            assert(entries_view(entries@) =~= before.update(i as int, entry));
        } else {
            entries.insert(i, (key, value));
            assert(entries_view(entries@) =~= before.insert(i as int, entry));
        }
        self.entries = entries;
    }

    /// Takes out the value under a key.
    pub fn remove(&mut self, key: &Value) -> (r: Option<Value>)
        ensures
            final(self)@ == without(old(self)@, key@),
            keys_ascending(final(self)@),
            match r {
                Some(value) => value_at(old(self)@, key@) == Some(value@),
                None => value_at(old(self)@, key@) is None,
            },
    {
        proof {
            use_type_invariant(&*self);
            lemma_without_ascending(self@, key@);
            lemma_position(self@, key@);
        }
        let ghost before = self@;
        let i: usize = self.find(key);
        if i < self.entries.len() {
            let mut entries: Vec<(Value, Value)> = Vec::new();
            assert(entries_view(entries@) =~= Entries::empty());
            std::mem::swap(&mut entries, &mut self.entries);
            let entry = entries.remove(i);
            assert(entries_view(entries@) =~= before.remove(i as int));
            self.entries = entries;
            Some(entry.1)
        } else {
            None
        }
    }
}

impl PartialEq for Value {
    fn eq(&self, other: &Self) -> (r: bool) {
        proof {
            lemma_relate_equal(self@, other@);
        }
        self.compare(other) == Relation::Equal
    }
}

impl vstd::std_specs::cmp::PartialEqSpecImpl for Value {
    open spec fn obeys_eq_spec() -> bool {
        true
    }

    open spec fn eq_spec(&self, other: &Self) -> bool {
        self@ == other@
    }
}

/// The order of two integers.
fn compare_ints(a: i128, b: i128) -> (r: Relation)
    ensures
        r == relate_ints(a as int, b as int),
{
    if a < b {
        Relation::Less
    } else if a == b {
        Relation::Equal
    } else {
        Relation::Greater
    }
}

/// The lexicographic order of two byte strings.
fn compare_bytes(x: &[u8], y: &[u8]) -> (r: Relation)
    ensures
        r == relate_bytes(x@, y@, 0),
{
    let mut i: usize = 0;
    while i < x.len() && i < y.len()
        invariant
            i <= x@.len(),
            i <= y@.len(),
            relate_bytes(x@, y@, 0) == relate_bytes(x@, y@, i as int),
        decreases x@.len() - i,
    {
        match compare_ints(x[i] as i128, y[i] as i128) {
            Relation::Equal => {},
            r => {
                return r;
            },
        }
        i += 1;
    }
    compare_ints(x.len() as i128, y.len() as i128)
}

/// The lexicographic order of two arrays.
fn compare_values(x: &Vec<Value>, y: &Vec<Value>) -> (r: Relation)
    ensures
        r == relate_values(values_view(x@), values_view(y@), 0),
    decreases x,
{
    let ghost xs = values_view(x@);
    let ghost ys = values_view(y@);
    let mut i: usize = 0;
    while i < x.len() && i < y.len()
        invariant
            i <= x@.len(),
            i <= y@.len(),
            xs == values_view(x@),
            ys == values_view(y@),
            relate_values(xs, ys, 0) == relate_values(xs, ys, i as int),
        decreases x@.len() - i,
    {
        match x[i].compare(&y[i]) {
            Relation::Equal => {},
            r => {
                return r;
            },
        }
        i += 1;
    }
    compare_ints(x.len() as i128, y.len() as i128)
}

impl ValueMap {
    /// The lexicographic order of the entries of two maps.
    fn compare(&self, other: &ValueMap) -> (r: Relation)
        ensures
            r == relate_entries(self@, other@, 0),
        decreases self,
    {
        let mut i: usize = 0;
        while i < self.entries.len() && i < other.entries.len()
            invariant
                i <= self@.len(),
                i <= other@.len(),
                relate_entries(self@, other@, 0) == relate_entries(self@, other@, i as int),
            decreases self@.len() - i,
        {
            match self.entries[i].0.compare(&other.entries[i].0) {
                Relation::Equal => {},
                r => {
                    return r;
                },
            }
            match self.entries[i].1.compare(&other.entries[i].1) {
                Relation::Equal => {},
                r => {
                    return r;
                },
            }
            i += 1;
        }
        compare_ints(self.entries.len() as i128, other.entries.len() as i128)
    }
}

impl Value {
    /// The place of the kind of the value in the order.
    fn rank(&self) -> (r: i128)
        ensures
            r == kind_rank(self@),
    {
        match self {
            Value::Null => 0,
            Value::Bool(_) => 1,
            Value::Integer(_) => 2,
            Value::Float(_) => 3,
            Value::Bytes(_) => 4,
            Value::Text(_) => 5,
            Value::Array(_) => 6,
            Value::Mapping(_) => 7,
        }
    }

    /// How this value stands to another in the total order of values.
    pub fn compare(&self, other: &Value) -> (r: Relation)
        ensures
            r == relate(self@, other@),
        decreases self,
    {
        match (self, other) {
            (Value::Null, Value::Null) => Relation::Equal,
            (Value::Bool(x), Value::Bool(y)) => compare_ints(
                if *x { 1 } else { 0 },
                if *y { 1 } else { 0 },
            ),
            (Value::Integer(x), Value::Integer(y)) => compare_ints(*x, *y),
            (Value::Float(x), Value::Float(y)) => compare_ints(x.total_key(), y.total_key()),
            (Value::Bytes(x), Value::Bytes(y)) => compare_bytes(x.as_slice(), y.as_slice()),
            (Value::Text(x), Value::Text(y)) => compare_bytes(
                x.as_str().as_bytes(),
                y.as_str().as_bytes(),
            ),
            (Value::Array(x), Value::Array(y)) => compare_values(x, y),
            (Value::Mapping(x), Value::Mapping(y)) => x.compare(y),
            _ => compare_ints(self.rank(), other.rank()),
        }
    }
}

} // verus!
