//! Copies of maps and arrays that are used up as they are matched.
use std::collections::VecDeque;
use vstd::prelude::*;

use crate::entries::{
    keys_ascending, lemma_position, position, value_at, with_all, without, Entries,
};
use crate::semantics::Run;
use crate::value::{entries_view, values_view, Value, ValueMap, ValueView};

verus! {

/// What a working copy holds: the items that are left, and for each snapshot, oldest first, the
/// items to put back if it is rewound.
#[verifier::ext_equal]
pub ghost struct Stock<T> {
    pub items: Seq<T>,
    pub snaps: Seq<Seq<T>>,
}

/// The snapshots after items were taken: the newest keeps them. Without a snapshot they are gone.
pub open spec fn recorded<T>(snaps: Seq<Seq<T>>, taken: Seq<T>) -> Seq<Seq<T>> {
    if snaps.len() == 0 {
        snaps
    } else {
        snaps.drop_last().push(snaps.last() + taken)
    }
}

impl<T> Stock<T> {
    /// The copy after a run.
    pub open spec fn after(self, run: Run<T>) -> Stock<T> {
        Stock { items: run.rest, snaps: recorded(self.snaps, run.taken) }
    }

    /// The copy with a new snapshot.
    pub open spec fn with_snapshot(self) -> Stock<T> {
        Stock { snaps: self.snaps.push(Seq::empty()), ..self }
    }

    /// The copy without its newest snapshot: what that keeps goes to the snapshot before it, if
    /// there is one.
    pub open spec fn committed(self) -> Stock<T> {
        Stock { snaps: recorded(self.snaps.drop_last(), self.snaps.last()), ..self }
    }
}

/// An array after its first item was taken.
pub open spec fn popped(s: Stock<ValueView>) -> Stock<ValueView> {
    Stock { items: s.items.drop_first(), snaps: recorded(s.snaps, seq![s.items[0]]) }
}

/// An array after what its newest snapshot keeps was put back before what is left.
pub open spec fn array_rewound(s: Stock<ValueView>) -> Stock<ValueView> {
    Stock { items: s.snaps.last() + s.items, snaps: s.snaps.drop_last() }
}

/// A map after the entry under a key was taken.
pub open spec fn removed(
    s: Stock<(ValueView, ValueView)>,
    key: ValueView,
) -> Stock<(ValueView, ValueView)> {
    Stock {
        items: without(s.items, key),
        snaps: recorded(s.snaps, seq![s.items[position(s.items, key)]]),
    }
}

/// A map after what its newest snapshot keeps was put back.
pub open spec fn map_rewound(s: Stock<(ValueView, ValueView)>) -> Stock<(ValueView, ValueView)> {
    Stock { items: with_all(s.items, s.snaps.last()), snaps: s.snaps.drop_last() }
}

/// Taking nothing leaves the snapshots as they are, and taking in two steps is taking at once.
pub proof fn lemma_recorded<T>(snaps: Seq<Seq<T>>, a: Seq<T>, b: Seq<T>)
    ensures
        recorded(snaps, Seq::empty()) == snaps,
        recorded(recorded(snaps, a), b) == recorded(snaps, a + b),
        recorded(snaps.push(Seq::empty()), a) == snaps.push(a),
{
    assert(recorded(snaps.push(Seq::empty()), a) =~= snaps.push(a)) by {
        assert(Seq::<T>::empty() + a =~= a);
    }
    if snaps.len() > 0 {
        assert(snaps.last() + Seq::<T>::empty() =~= snaps.last());
        assert(recorded(snaps, Seq::empty()) =~= snaps);
        assert(snaps.last() + a + b =~= snaps.last() + (a + b));
        assert(recorded(recorded(snaps, a), b) =~= recorded(snaps, a + b));
    }
}

/// A copy of an array that is used up from its front.
#[derive(Debug)]
pub struct WorkingArray {
    array: VecDeque<Value>,
    snaps: VecDeque<VecDeque<Value>>,
}

impl View for WorkingArray {
    type V = Stock<ValueView>;

    closed spec fn view(&self) -> Stock<ValueView> {
        Stock {
            items: values_view(self.array@),
            snaps: Seq::new(self.snaps@.len(), |i: int| values_view(self.snaps@[i]@)),
        }
    }
}

impl WorkingArray {
    /// Copies an array.
    pub fn new(array: &[Value]) -> (r: WorkingArray)
        ensures
            r@.items == values_view(array@),
            r@.snaps == Seq::<Seq<ValueView>>::empty(),
    {
        let mut copy: VecDeque<Value> = VecDeque::new();
        for i in 0..array.len()
            invariant
                copy@.len() == i,
                values_view(copy@) =~= values_view(array@).take(i as int),
        {
            copy.push_back(array[i].clone());
        }
        let r = WorkingArray { array: copy, snaps: VecDeque::new() };
        assert(r@.items =~= values_view(array@));
        assert(r@.snaps =~= Seq::<Seq<ValueView>>::empty());
        r
    }

    /// Whether nothing is left.
    pub fn is_empty(&self) -> (r: bool)
        ensures
            r == (self@.items.len() == 0),
    {
        self.array.len() == 0
    }

    /// Starts to keep what is taken, so that it can be put back.
    pub fn snapshot(&mut self)
        ensures
            final(self)@ == old(self)@.with_snapshot(),
    {
        let new_snap: VecDeque<Value> = VecDeque::new();
        let ghost before = self@;
        self.snaps.push_back(new_snap);
        assert(values_view(new_snap@) =~= Seq::<ValueView>::empty());
        assert(self@ =~~= before.with_snapshot());
    }

    /// Puts back what the newest snapshot keeps, and retires it.
    pub fn rewind(&mut self)
        requires
            old(self)@.snaps.len() > 0,
        ensures
            final(self)@ == array_rewound(old(self)@),
    {
        let ghost before = self@;
        if let Some(snap) = self.snaps.pop_back() {
            let mut top_snap = snap;
            assert(self@.snaps =~= before.snaps.drop_last());
            assert(values_view(top_snap@) =~= before.snaps.last());
            while top_snap.len() > 0
                invariant
                    values_view(top_snap@) + self@.items == before.snaps.last() + before.items,
                    self@.snaps == before.snaps.drop_last(),
                decreases top_snap@.len(),
            {
                let ghost kept = values_view(top_snap@);
                let ghost items = self@.items;
                if let Some(element) = top_snap.pop_back() {
                    self.array.push_front(element);
                    assert(values_view(top_snap@) =~= kept.drop_last());
                    assert(self@.items =~= seq![kept.last()] + items);
                    assert(values_view(top_snap@) + self@.items =~= kept + items);
                }
            }
            assert(self@.items =~= before.snaps.last() + before.items);
        }
    }

    /// Retires the newest snapshot. What it keeps goes to the snapshot before it; without one, it
    /// is no longer needed.
    pub fn commit(&mut self)
        requires
            old(self)@.snaps.len() > 0,
        ensures
            final(self)@ == old(self)@.committed(),
    {
        let ghost before = self@;
        if let Some(snap) = self.snaps.pop_back() {
            let mut top_snap = snap;
            let ghost kept = before.snaps.last();
            assert(values_view(top_snap@) =~= kept);
            assert(self@.snaps =~= before.snaps.drop_last());
            if let Some(lower) = self.snaps.pop_back() {
                let mut lower_snap = lower;
                let ghost older = before.snaps.drop_last();
                assert(values_view(lower_snap@) =~= older.last());
                lower_snap.append(&mut top_snap);
                assert(values_view(lower_snap@) =~= older.last() + kept);
                self.snaps.push_back(lower_snap);
                assert(self@.snaps =~= recorded(older, kept));
            }
        }
    }

    /// The first item that is left.
    pub fn peek_front(&self) -> (r: Option<&Value>)
        ensures
            match r {
                Some(value) => self@.items.len() > 0 && value@ == self@.items[0],
                None => self@.items.len() == 0,
            },
    {
        if self.array.len() > 0 {
            Some(&self.array[0])
        } else {
            None
        }
    }

    /// Takes the first item that is left. The newest snapshot keeps it.
    pub fn pop_front(&mut self)
        requires
            old(self)@.items.len() > 0,
        ensures
            final(self)@ == popped(old(self)@),
    {
        let ghost before = self@;
        if let Some(element) = self.array.pop_front() {
            if let Some(snap) = self.snaps.pop_back() {
                let mut top_snap = snap;
                let ghost kept = values_view(top_snap@);
                let ghost value = element@;
                top_snap.push_back(element);
                assert(values_view(top_snap@) =~= kept + seq![value]);
                self.snaps.push_back(top_snap);
            }
            assert(self@.items =~= before.items.drop_first());
            assert(self@.snaps =~= recorded(before.snaps, seq![before.items[0]]));
        }
    }
}

/// A copy of a map that is used up entry by entry.
#[derive(Debug)]
pub struct WorkingMap {
    map: ValueMap,
    snaps: VecDeque<VecDeque<(Value, Value)>>,
}

impl View for WorkingMap {
    type V = Stock<(ValueView, ValueView)>;

    closed spec fn view(&self) -> Stock<(ValueView, ValueView)> {
        Stock {
            items: self.map@,
            snaps: Seq::new(self.snaps@.len(), |i: int| entries_view(self.snaps@[i]@)),
        }
    }
}

impl WorkingMap {
    /// Copies a map.
    pub fn new(value_map: &ValueMap) -> (r: WorkingMap)
        ensures
            r@.items == value_map@,
            r@.snaps == Seq::<Entries>::empty(),
            keys_ascending(r@.items),
    {
        let r = WorkingMap { map: value_map.clone(), snaps: VecDeque::new() };
        assert(r@.snaps =~= Seq::<Entries>::empty());
        proof {
            use_type_invariant(&r.map);
        }
        r
    }

    /// The entries that are left.
    pub fn left(&self) -> (r: &ValueMap)
        ensures
            r@ == self@.items,
            keys_ascending(self@.items),
    {
        proof {
            use_type_invariant(&self.map);
        }
        &self.map
    }

    /// Starts to keep what is taken, so that it can be put back.
    pub fn snapshot(&mut self)
        ensures
            final(self)@ == old(self)@.with_snapshot(),
            keys_ascending(final(self)@.items),
    {
        proof {
            use_type_invariant(&self.map);
        }
        let new_snap: VecDeque<(Value, Value)> = VecDeque::new();
        let ghost before = self@;
        self.snaps.push_back(new_snap);
        assert(entries_view(new_snap@) =~= Entries::empty());
        assert(self@ =~~= before.with_snapshot());
    }

    /// Puts back what the newest snapshot keeps, and retires it.
    pub fn rewind(&mut self)
        requires
            old(self)@.snaps.len() > 0,
        ensures
            final(self)@ == map_rewound(old(self)@),
            keys_ascending(final(self)@.items),
    {
        let ghost before = self@;
        if let Some(snap) = self.snaps.pop_back() {
            let mut top_snap = snap;
            assert(self@.snaps =~= before.snaps.drop_last());
            assert(entries_view(top_snap@) =~= before.snaps.last());
            while top_snap.len() > 0
                invariant
                    with_all(self@.items, entries_view(top_snap@)) == with_all(
                        before.items,
                        before.snaps.last(),
                    ),
                    self@.snaps == before.snaps.drop_last(),
                decreases top_snap@.len(),
            {
                let ghost kept = entries_view(top_snap@);
                if let Some((key, value)) = top_snap.pop_front() {
                    self.map.insert(key, value);
                    assert(entries_view(top_snap@) =~= kept.drop_first());
                    assert(self@.snaps =~= before.snaps.drop_last());
                }
            }
        }
        proof {
            use_type_invariant(&self.map);
        }
    }

    /// Retires the newest snapshot. What it keeps goes to the snapshot before it; without one, it
    /// is no longer needed.
    pub fn commit(&mut self)
        requires
            old(self)@.snaps.len() > 0,
        ensures
            final(self)@ == old(self)@.committed(),
            keys_ascending(final(self)@.items),
    {
        proof {
            use_type_invariant(&self.map);
        }
        let ghost before = self@;
        if let Some(snap) = self.snaps.pop_back() {
            let mut top_snap = snap;
            let ghost kept = before.snaps.last();
            assert(entries_view(top_snap@) =~= kept);
            assert(self@.snaps =~= before.snaps.drop_last());
            if let Some(lower) = self.snaps.pop_back() {
                let mut lower_snap = lower;
                let ghost older = before.snaps.drop_last();
                assert(entries_view(lower_snap@) =~= older.last());
                lower_snap.append(&mut top_snap);
                assert(entries_view(lower_snap@) =~= older.last() + kept);
                self.snaps.push_back(lower_snap);
                assert(self@.snaps =~= recorded(older, kept));
            }
        }
    }

    /// The value under a key, if it is left.
    pub fn peek_at(&self, key: &Value) -> (r: Option<&Value>)
        ensures
            match r {
                Some(value) => value_at(self@.items, key@) == Some(value@),
                None => value_at(self@.items, key@) is None,
            },
    {
        self.map.get(key)
    }

    /// Takes the entry under a key. The newest snapshot keeps it.
    pub fn remove(&mut self, key: &Value)
        requires
            value_at(old(self)@.items, key@) is Some,
        ensures
            final(self)@ == removed(old(self)@, key@),
            keys_ascending(final(self)@.items),
    {
        let ghost before = self@;
        proof {
            lemma_position(before.items, key@);
        }
        if let Some(value) = self.map.remove(key) {
            let ghost entry = (key@, value@);
            assert(entry == before.items[position(before.items, key@)]);
            if let Some(snap) = self.snaps.pop_back() {
                let mut top_snap = snap;
                let ghost kept = entries_view(top_snap@);
                top_snap.push_back((key.clone(), value));
                assert(entries_view(top_snap@) =~= kept + seq![entry]);
                self.snaps.push_back(top_snap);
            }
            assert(self@.snaps =~= recorded(before.snaps, seq![entry]));
        }
        proof {
            use_type_invariant(&self.map);
        }
    }
}

} // verus!
