//! The entries of a map, as a sequence in ascending order of their keys.
use vstd::prelude::*;

use crate::order::{below, lemma_below_transitive, lemma_below_trichotomy};
use crate::value::ValueView;

verus! {

/// The key-value pairs of a map, in the order in which the map is walked.
pub type Entries = Seq<(ValueView, ValueView)>;

/// Every key stands above the keys before it, so no key occurs twice.
pub open spec fn keys_ascending(s: Entries) -> bool {
    forall|i: int, j: int|
        0 <= i < j < s.len() ==> below(#[trigger] s[i].0, #[trigger] s[j].0)
}

/// The index of the first entry, from `i` on, whose key is `key`; the length if there is none.
pub open spec fn position_from(s: Entries, key: ValueView, i: int) -> int
    decreases s.len() - i,
{
    if i < 0 || i >= s.len() {
        s.len() as int
    } else if s[i].0 == key {
        i
    } else {
        position_from(s, key, i + 1)
    }
}

/// The index of the entry whose key is `key`; the length if there is none.
pub open spec fn position(s: Entries, key: ValueView) -> int {
    position_from(s, key, 0)
}

/// The value that stands under `key`.
pub open spec fn value_at(s: Entries, key: ValueView) -> Option<ValueView> {
    let i = position(s, key);
    if i < s.len() {
        Some(s[i].1)
    } else {
        None
    }
}

/// The entries without the one under `key`.
pub open spec fn without(s: Entries, key: ValueView) -> Entries {
    let i = position(s, key);
    if i < s.len() {
        s.remove(i)
    } else {
        s
    }
}

/// The index of the first entry, from `i` on, whose key does not stand below `key`.
pub open spec fn slot_from(s: Entries, key: ValueView, i: int) -> int
    decreases s.len() - i,
{
    if i < 0 || i >= s.len() {
        s.len() as int
    } else if !below(s[i].0, key) {
        i
    } else {
        slot_from(s, key, i + 1)
    }
}

/// The entries after `value` has been put under `key`: in the place of the value that stood
/// there, or as a new entry between the smaller and the greater keys.
pub open spec fn with(s: Entries, key: ValueView, value: ValueView) -> Entries {
    let i = slot_from(s, key, 0);
    if i < s.len() && s[i].0 == key {
        s.update(i, (key, value))
    } else {
        s.insert(i, (key, value))
    }
}

/// The entries after each pair of `pairs` has been put among them, first to last.
pub open spec fn with_all(s: Entries, pairs: Entries) -> Entries
    decreases pairs.len(),
{
    if pairs.len() == 0 {
        s
    } else {
        with_all(with(s, pairs[0].0, pairs[0].1), pairs.drop_first())
    }
}

proof fn lemma_position_from(s: Entries, key: ValueView, i: int)
    requires
        0 <= i <= s.len(),
    ensures
        i <= position_from(s, key, i) <= s.len(),
        forall|j: int| i <= j < position_from(s, key, i) ==> (#[trigger] s[j]).0 != key,
        position_from(s, key, i) < s.len() ==> s[position_from(s, key, i)].0 == key,
    decreases s.len() - i,
{
    if i < s.len() && s[i].0 != key {
        lemma_position_from(s, key, i + 1);
    }
}

/// `position` finds the first entry under a key, and the length only where there is none.
pub proof fn lemma_position(s: Entries, key: ValueView)
    ensures
        0 <= position(s, key) <= s.len(),
        forall|j: int| 0 <= j < position(s, key) ==> (#[trigger] s[j]).0 != key,
        position(s, key) < s.len() ==> s[position(s, key)].0 == key,
{
    lemma_position_from(s, key, 0);
}

/// `slot_from` skips the keys below a key, and stops at the first that is not.
pub proof fn lemma_slot_from(s: Entries, key: ValueView, i: int)
    requires
        0 <= i <= s.len(),
    ensures
        i <= slot_from(s, key, i) <= s.len(),
        forall|j: int| i <= j < slot_from(s, key, i) ==> below((#[trigger] s[j]).0, key),
        slot_from(s, key, i) < s.len() ==> !below(s[slot_from(s, key, i)].0, key),
    decreases s.len() - i,
{
    if i < s.len() && below(s[i].0, key) {
        lemma_slot_from(s, key, i + 1);
    }
}

/// In a map, the place of a key is where the key stands.
pub proof fn lemma_position_of_entry(s: Entries, i: int)
    requires
        keys_ascending(s),
        0 <= i < s.len(),
    ensures
        position(s, s[i].0) == i,
{
    let key = s[i].0;
    let p = position(s, key);
    lemma_position(s, key);
    if p != i {
        lemma_below_trichotomy(key, key);
        if p < i {
            assert(below(s[p].0, s[i].0));
        } else {
            assert(s[i].0 != key);
        }
    }
}

/// Taking an entry out leaves the keys in ascending order.
pub proof fn lemma_without_ascending(s: Entries, key: ValueView)
    requires
        keys_ascending(s),
    ensures
        keys_ascending(without(s, key)),
        value_at(without(s, key), key) is None,
{
    lemma_position(s, key);
    let p = position(s, key);
    let t = without(s, key);
    lemma_position(t, key);
    if p < s.len() {
        assert forall|i: int, j: int| 0 <= i < j < t.len() implies below(
            #[trigger] t[i].0,
            #[trigger] t[j].0,
        ) by {
            let a = if i < p { i } else { i + 1 };
            let b = if j < p { j } else { j + 1 };
            assert(t[i] == s[a] && t[j] == s[b]);
        }
        let q = position(t, key);
        if q < t.len() {
            let a = if q < p { q } else { q + 1 };
            assert(t[q] == s[a]);
            lemma_position_of_entry(s, a);
        }
    }
}

/// Taking an entry out leaves the others as they are.
pub proof fn lemma_without_other(s: Entries, key: ValueView, other: ValueView)
    requires
        keys_ascending(s),
        key != other,
    ensures
        value_at(without(s, key), other) == value_at(s, other),
        value_at(s, other) is Some ==> without(s, key)[position(without(s, key), other)]
            == s[position(s, other)],
{
    lemma_position(s, key);
    lemma_position(s, other);
    let t = without(s, key);
    lemma_position(t, other);
    lemma_without_ascending(s, key);
    let (p, q) = (position(s, key), position(s, other));
    if q < s.len() {
        let i = if q < p || p >= s.len() {
            q
        } else {
            q - 1
        };
        assert(t[i] == s[q]);
        lemma_position_of_entry(t, i);
    } else {
        let r = position(t, other);
        if r < t.len() {
            let i = if r < p || p >= s.len() {
                r
            } else {
                r + 1
            };
            assert(t[r] == s[i]);
        }
    }
}

proof fn lemma_update_ascending(s: Entries, p: int, value: ValueView)
    requires
        keys_ascending(s),
        0 <= p < s.len(),
    ensures
        keys_ascending(s.update(p, (s[p].0, value))),
{
    let t = s.update(p, (s[p].0, value));
    assert forall|i: int, j: int| 0 <= i < j < t.len() implies below(
            #[trigger] t[i].0,
            #[trigger] t[j].0,
        ) by {
        assert(t[i].0 == s[i].0 && t[j].0 == s[j].0);
    }
}

proof fn lemma_insert_ascending(s: Entries, p: int, entry: (ValueView, ValueView))
    requires
        keys_ascending(s),
        0 <= p <= s.len(),
        forall|j: int| 0 <= j < p ==> below((#[trigger] s[j]).0, entry.0),
        forall|j: int| p <= j < s.len() ==> below(entry.0, (#[trigger] s[j]).0),
    ensures
        keys_ascending(s.insert(p, entry)),
{
    let t = s.insert(p, entry);
    assert forall|i: int, j: int| 0 <= i < j < t.len() implies below(
            #[trigger] t[i].0,
            #[trigger] t[j].0,
        ) by {
        let a = if i < p { i } else { i - 1 };
        let b = if j < p { j } else { j - 1 };
        assert(i != p ==> t[i] == s[a]);
        assert(j != p ==> t[j] == s[b]);
    }
}

/// Putting an entry in leaves the keys in ascending order, and the value is then found under
/// its key.
pub proof fn lemma_with_ascending(s: Entries, key: ValueView, value: ValueView)
    requires
        keys_ascending(s),
    ensures
        keys_ascending(with(s, key, value)),
        value_at(with(s, key, value), key) == Some(value),
{
    lemma_slot_from(s, key, 0);
    let p = slot_from(s, key, 0);
    let t = with(s, key, value);
    if p < s.len() && s[p].0 == key {
        lemma_update_ascending(s, p, value);
    } else {
        assert forall|j: int| p <= j < s.len() implies below(
            key,
            (#[trigger] s[j]).0,
        ) by {
            lemma_below_trichotomy(s[p].0, key);
            if j != p {
                lemma_below_transitive(key, s[p].0, s[j].0);
            }
        }
        lemma_insert_ascending(s, p, (key, value));
    }
    assert(t[p] == (key, value));
    lemma_position_of_entry(t, p);
}

/// Putting back an entry that was taken out restores the map.
pub proof fn lemma_put_back(s: Entries, key: ValueView)
    requires
        keys_ascending(s),
        position(s, key) < s.len(),
    ensures
        with(without(s, key), key, s[position(s, key)].1) == s,
{
    let p = position(s, key);
    lemma_position(s, key);
    let t = without(s, key);
    let q = slot_from(t, key, 0);
    lemma_slot_from(t, key, 0);
    if q < p {
        assert(t[q] == s[q]);
        assert(below(s[q].0, s[p].0));
    } else if q > p {
        assert(t[p] == s[p + 1]);
        assert(below(s[p].0, s[p + 1].0));
        lemma_below_trichotomy(s[p].0, s[p + 1].0);
    }
    if q < t.len() {
        assert(t[q] == s[q + 1]);
        lemma_below_trichotomy(key, key);
        assert(below(s[p].0, s[q + 1].0));
    }
    assert(with(t, key, s[p].1) =~= s);
}

} // verus!
