//! Entries that are the same but for their order.
use vstd::multiset::Multiset;
use vstd::prelude::*;

use crate::entries::{
    keys_ascending, lemma_position, lemma_position_of_entry, lemma_slot_from, lemma_with_ascending,
    position, slot_from, value_at, with, with_all, without, Entries,
};
use crate::order::lemma_below_trichotomy;
use crate::value::ValueView;

verus! {

/// The entries, whatever their order.
pub open spec fn pool(s: Entries) -> Multiset<(ValueView, ValueView)> {
    s.to_multiset()
}

/// No entry occurs twice, and no two stand under the same key.
pub open spec fn keys_distinct(m: Multiset<(ValueView, ValueView)>) -> bool {
    &&& forall|e: (ValueView, ValueView)| #[trigger] m.count(e) <= 1
    &&& forall|e: (ValueView, ValueView), f: (ValueView, ValueView)|
        #[trigger] m.count(e) > 0 && #[trigger] m.count(f) > 0 && e.0 == f.0 ==> e == f
}

/// The keys of a map are distinct.
pub proof fn lemma_ascending_distinct(s: Entries)
    requires
        keys_ascending(s),
    ensures
        keys_distinct(pool(s)),
{
    broadcast use vstd::seq_lib::to_multiset_contains;

    assert forall|i: int, j: int| 0 <= i < s.len() && 0 <= j < s.len() && i != j implies s[i]
        != s[j] by {
        lemma_position_of_entry(s, i);
        lemma_position_of_entry(s, j);
    }
    s.lemma_multiset_has_no_duplicates();
    assert forall|e: (ValueView, ValueView)| #[trigger] pool(s).count(e) <= 1 by {
        if pool(s).count(e) > 0 {
            assert(pool(s).contains(e));
        }
    }
    assert forall|e: (ValueView, ValueView), f: (ValueView, ValueView)|
        #[trigger] pool(s).count(e) > 0 && #[trigger] pool(s).count(f) > 0 && e.0 == f.0 implies e
        == f by {
        let i = choose|i: int| 0 <= i < s.len() && s[i] == e;
        let j = choose|j: int| 0 <= j < s.len() && s[j] == f;
        lemma_position_of_entry(s, i);
        lemma_position_of_entry(s, j);
    }
}

/// There is one way to arrange entries with ascending keys.
pub proof fn lemma_arrangement_unique(a: Entries, b: Entries)
    requires
        keys_ascending(a),
        keys_ascending(b),
        pool(a) == pool(b),
    ensures
        a == b,
    decreases a.len(),
{
    broadcast use {vstd::seq_lib::to_multiset_contains, vstd::seq_lib::to_multiset_len};

    assert(a.len() == pool(a).len() && b.len() == pool(b).len());
    if a.len() > 0 {
        assert(a.contains(a[0]) && b.contains(b[0]));
        assert(pool(a).count(a[0]) > 0 && pool(b).count(b[0]) > 0);
        let j = choose|j: int| 0 <= j < b.len() && b[j] == a[0];
        let i = choose|i: int| 0 <= i < a.len() && a[i] == b[0];
        lemma_below_trichotomy(a[0].0, b[0].0);
        lemma_below_trichotomy(b[0].0, a[0].0);
        assert(a[0] == b[0]);
        vstd::seq_lib::to_multiset_remove(a, 0);
        vstd::seq_lib::to_multiset_remove(b, 0);
        let c = a.remove(0);
        let d = b.remove(0);
        assert(keys_ascending(c)) by {
            assert forall|i: int, j: int| 0 <= i < j < c.len() implies crate::order::below(
                #[trigger] c[i].0,
                #[trigger] c[j].0,
            ) by {
                assert(c[i] == a[i + 1] && c[j] == a[j + 1]);
            }
        }
        assert(keys_ascending(d)) by {
            assert forall|i: int, j: int| 0 <= i < j < d.len() implies crate::order::below(
                #[trigger] d[i].0,
                #[trigger] d[j].0,
            ) by {
                assert(d[i] == b[i + 1] && d[j] == b[j + 1]);
            }
        }
        lemma_arrangement_unique(c, d);
        assert(a =~= seq![a[0]] + c);
        assert(b =~= seq![b[0]] + d);
    } else {
        assert(a =~= b);
    }
}

/// Taking an entry out of a map takes it out of the pool.
pub proof fn lemma_without_pool(s: Entries, i: int)
    requires
        keys_ascending(s),
        0 <= i < s.len(),
    ensures
        pool(without(s, s[i].0)).insert(s[i]) == pool(s),
{
    broadcast use {vstd::multiset::group_multiset_axioms, vstd::seq_lib::to_multiset_contains};

    lemma_position_of_entry(s, i);
    vstd::seq_lib::to_multiset_remove(s, i);
    assert(s.contains(s[i]));
    assert(pool(s).count(s[i]) > 0);
    assert(pool(without(s, s[i].0)).insert(s[i]) =~= pool(s));
}

proof fn lemma_with_pool(s: Entries, entry: (ValueView, ValueView))
    requires
        keys_ascending(s),
        value_at(s, entry.0) is None,
    ensures
        pool(with(s, entry.0, entry.1)) == pool(s).insert(entry),
{
    lemma_position(s, entry.0);
    lemma_slot_from(s, entry.0, 0);
    let i = slot_from(s, entry.0, 0);
    if i < s.len() {
        assert(i < position(s, entry.0));
        assert(s[i].0 != entry.0);
    }
    vstd::seq_lib::to_multiset_insert(s, i, entry);
}

/// Putting entries with other keys into a map puts them into the pool, and leaves the keys in
/// ascending order.
pub proof fn lemma_with_all_pool(s: Entries, pairs: Entries)
    requires
        keys_ascending(s),
        keys_distinct(pool(s + pairs)),
    ensures
        keys_ascending(with_all(s, pairs)),
        pool(with_all(s, pairs)) == pool(s + pairs),
    decreases pairs.len(),
{
    broadcast use {vstd::multiset::group_multiset_axioms, vstd::seq_lib::to_multiset_contains};

    if pairs.len() == 0 {
        assert(s + pairs =~= s);
    } else {
        let entry = pairs[0];
        let tail = pairs.drop_first();
        let t = with(s, entry.0, entry.1);
        vstd::seq_lib::lemma_multiset_commutative(s, pairs);
        vstd::seq_lib::lemma_multiset_commutative(t, tail);
        vstd::seq_lib::to_multiset_insert(tail, 0, entry);
        assert(tail.insert(0, entry) =~= pairs);
        lemma_position(s, entry.0);
        let p = position(s, entry.0);
        if p < s.len() {
            assert(s.contains(s[p]));
            assert(pool(s).count(s[p]) > 0);
            assert(pool(pairs).count(entry) > 0);
            assert(pool(s + pairs).count(s[p]) > 0);
            assert(pool(s + pairs).count(entry) > 0);
            assert(pool(s + pairs).count(entry) >= 2);
        }
        lemma_with_pool(s, entry);
        lemma_with_ascending(s, entry.0, entry.1);
        assert(pool(t + tail) =~= pool(s + pairs));
        lemma_with_all_pool(t, tail);
    }
}

} // verus!
