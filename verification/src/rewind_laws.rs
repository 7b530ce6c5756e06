//! What snapshots, rewinding and committing do together.
use vstd::prelude::*;

use crate::arrangement::{
    keys_distinct, lemma_arrangement_unique, lemma_ascending_distinct, lemma_with_all_pool,
    lemma_without_pool, pool,
};
use crate::entries::{
    keys_ascending, lemma_position, lemma_without_ascending, lemma_without_other, position,
    value_at, with_all, without, Entries,
};
use crate::value::ValueView;
use crate::working::{
    array_rewound, lemma_recorded, map_rewound, popped, recorded, removed, Stock,
};

verus! {

/// An array after its first `n` items were taken, one after the other.
pub open spec fn popped_times(s: Stock<ValueView>, n: nat) -> Stock<ValueView>
    decreases n,
{
    if n == 0 {
        s
    } else {
        popped(popped_times(s, (n - 1) as nat))
    }
}

/// Taking `n` items leaves those after them, and the newest snapshot keeps those taken.
pub proof fn lemma_popped_times(s: Stock<ValueView>, n: nat)
    requires
        n <= s.items.len(),
    ensures
        popped_times(s, n).items == s.items.skip(n as int),
        popped_times(s, n).snaps == recorded(s.snaps, s.items.take(n as int)),
    decreases n,
{
    if n == 0 {
        assert(s.items.skip(0) =~= s.items);
        assert(s.items.take(0) =~= Seq::<ValueView>::empty());
        lemma_recorded(s.snaps, Seq::empty(), Seq::empty());
    } else {
        let m = (n - 1) as nat;
        lemma_popped_times(s, m);
        let t = popped_times(s, m);
        assert(t.items.drop_first() =~= s.items.skip(n as int));
        lemma_recorded(s.snaps, s.items.take(m as int), seq![t.items[0]]);
        assert(s.items.take(m as int) + seq![t.items[0]] =~= s.items.take(n as int));
    }
}

/// Rewinding an array undoes whatever was taken since the snapshot.
pub proof fn lemma_array_rewind_undoes(s: Stock<ValueView>, n: nat)
    requires
        n <= s.items.len(),
    ensures
        array_rewound(popped_times(s.with_snapshot(), n)) == s,
{
    lemma_popped_times(s.with_snapshot(), n);
    lemma_recorded(s.snaps, s.items.take(n as int), Seq::empty());
    let t = popped_times(s.with_snapshot(), n);
    assert(t.snaps.last() + t.items =~= s.items);
    assert(array_rewound(t) =~= s);
}

/// Committing an array makes it what it would be without the snapshot: what was taken since is kept
/// by the snapshot before it, if there is one.
pub proof fn lemma_array_commit_keeps(s: Stock<ValueView>, n: nat)
    requires
        n <= s.items.len(),
    ensures
        popped_times(s.with_snapshot(), n).committed() == popped_times(s, n),
{
    lemma_popped_times(s.with_snapshot(), n);
    lemma_popped_times(s, n);
    lemma_recorded(s.snaps, s.items.take(n as int), Seq::empty());
    assert(popped_times(s.with_snapshot(), n).snaps.drop_last() =~= s.snaps);
}

proof fn lemma_popped_times_again(s: Stock<ValueView>, m: nat, n: nat)
    ensures
        popped_times(popped_times(s, m), n) == popped_times(s, m + n),
    decreases n,
{
    if n > 0 {
        lemma_popped_times_again(s, m, (n - 1) as nat);
    }
}

/// Rewinding an array undoes what was taken since the snapshot, also where a later snapshot was
/// committed in between.
pub proof fn lemma_array_rewind_undoes_commit(s: Stock<ValueView>, k: nat, m: nat, n: nat)
    requires
        k + m + n <= s.items.len(),
    ensures
        ({
            let inner = popped_times(s.with_snapshot(), k).with_snapshot();
            array_rewound(popped_times(popped_times(inner, m).committed(), n)) == s
        }),
{
    let t = popped_times(s.with_snapshot(), k);
    lemma_popped_times(s.with_snapshot(), k);
    lemma_array_commit_keeps(t, m);
    lemma_popped_times_again(s.with_snapshot(), k, m);
    lemma_popped_times_again(s.with_snapshot(), k + m, n);
    lemma_array_rewind_undoes(s, k + m + n);
}

/// A map after the entries under `keys` were taken, first to last.
pub open spec fn removed_all(
    s: Stock<(ValueView, ValueView)>,
    keys: Seq<ValueView>,
) -> Stock<(ValueView, ValueView)>
    decreases keys.len(),
{
    if keys.len() == 0 {
        s
    } else {
        removed(removed_all(s, keys.drop_last()), keys.last())
    }
}

/// Each of `keys` has an entry when its turn comes to be taken.
pub open spec fn can_remove_all(items: Entries, keys: Seq<ValueView>) -> bool {
    &&& keys.no_duplicates()
    &&& forall|i: int| 0 <= i < keys.len() ==> value_at(items, #[trigger] keys[i]) is Some
}

/// The entries under `keys`.
pub open spec fn entries_at(items: Entries, keys: Seq<ValueView>) -> Entries {
    Seq::new(keys.len(), |i: int| items[position(items, keys[i])])
}

/// The entries without those under `keys`.
pub open spec fn without_all(items: Entries, keys: Seq<ValueView>) -> Entries
    decreases keys.len(),
{
    if keys.len() == 0 {
        items
    } else {
        without(without_all(items, keys.drop_last()), keys.last())
    }
}

proof fn lemma_without_all(items: Entries, keys: Seq<ValueView>)
    requires
        keys_ascending(items),
        can_remove_all(items, keys),
    ensures
        keys_ascending(without_all(items, keys)),
        forall|other: ValueView| #[trigger]
            value_at(items, other) is Some && !keys.contains(other) ==> {
                let t = without_all(items, keys);
                value_at(t, other) is Some && t[position(t, other)] == items[position(
                    items,
                    other,
                )]
            },
        pool(without_all(items, keys) + entries_at(items, keys)) == pool(items),
    decreases keys.len(),
{
    broadcast use vstd::multiset::group_multiset_axioms;

    if keys.len() == 0 {
        assert(without_all(items, keys) + entries_at(items, keys) =~= items);
    } else {
        let front = keys.drop_last();
        let key = keys.last();
        assert(can_remove_all(items, front));
        lemma_without_all(items, front);
        let t = without_all(items, front);
        let u = without_all(items, keys);
        assert(!front.contains(key));
        assert(keys.contains(key) && value_at(items, keys[keys.len() - 1]) is Some);
        assert(value_at(items, key) is Some);
        lemma_position(t, key);
        let p = position(t, key);
        lemma_without_ascending(t, key);
        assert forall|other: ValueView| #[trigger]
            value_at(items, other) is Some && !keys.contains(other) implies value_at(u, other)
            is Some && u[position(u, other)] == items[position(items, other)] by {
            assert(!front.contains(other)) by {
                if front.contains(other) {
                    let i = choose|i: int| 0 <= i < front.len() && front[i] == other;
                    assert(keys[i] == other);
                }
            }
            lemma_without_other(t, key, other);
        }
        lemma_without_pool(t, p);
        let entry = items[position(items, key)];
        assert(t[p] == entry);
        assert(entries_at(items, keys) =~= entries_at(items, front).push(entry));
        vstd::seq_lib::lemma_multiset_commutative(u, entries_at(items, keys));
        vstd::seq_lib::lemma_multiset_commutative(t, entries_at(items, front));
        vstd::seq_lib::to_multiset_build(entries_at(items, front), entry);
        assert(pool(u + entries_at(items, keys)) =~= pool(items));
    }
}

/// Taking entries leaves the others, and the newest snapshot keeps those taken.
pub proof fn lemma_removed_all(s: Stock<(ValueView, ValueView)>, keys: Seq<ValueView>)
    requires
        keys_ascending(s.items),
        can_remove_all(s.items, keys),
    ensures
        removed_all(s, keys).items == without_all(s.items, keys),
        removed_all(s, keys).snaps == recorded(s.snaps, entries_at(s.items, keys)),
    decreases keys.len(),
{
    if keys.len() == 0 {
        lemma_recorded(s.snaps, Seq::empty(), Seq::empty());
        assert(entries_at(s.items, keys) =~= Entries::empty());
    } else {
        let front = keys.drop_last();
        let key = keys.last();
        assert(can_remove_all(s.items, front));
        lemma_removed_all(s, front);
        lemma_without_all(s.items, front);
        let t = removed_all(s, front);
        assert(!front.contains(key));
        assert(value_at(s.items, keys[keys.len() - 1]) is Some);
        let entry = t.items[position(t.items, key)];
        assert(entry == s.items[position(s.items, key)]);
        lemma_recorded(s.snaps, entries_at(s.items, front), seq![entry]);
        assert(entries_at(s.items, front) + seq![entry] =~= entries_at(s.items, keys));
    }
}

/// Rewinding a map undoes whatever was taken since the snapshot.
pub proof fn lemma_map_rewind_undoes(s: Stock<(ValueView, ValueView)>, keys: Seq<ValueView>)
    requires
        keys_ascending(s.items),
        can_remove_all(s.items, keys),
    ensures
        map_rewound(removed_all(s.with_snapshot(), keys)) == s,
{
    let t = removed_all(s.with_snapshot(), keys);
    let taken = entries_at(s.items, keys);
    lemma_removed_all(s.with_snapshot(), keys);
    lemma_recorded(s.snaps, taken, Seq::empty());
    lemma_without_all(s.items, keys);
    lemma_ascending_distinct(s.items);
    lemma_with_all_pool(t.items, taken);
    lemma_arrangement_unique(with_all(t.items, taken), s.items);
    assert(map_rewound(t) =~= s);
}

/// The order in which entries are put back into a map does not matter.
pub proof fn lemma_put_back_in_any_order(items: Entries, a: Entries, b: Entries)
    requires
        keys_ascending(items),
        keys_distinct(pool(items + a)),
        pool(a) == pool(b),
    ensures
        with_all(items, a) == with_all(items, b),
{
    vstd::seq_lib::lemma_multiset_commutative(items, a);
    vstd::seq_lib::lemma_multiset_commutative(items, b);
    lemma_with_all_pool(items, a);
    lemma_with_all_pool(items, b);
    lemma_arrangement_unique(with_all(items, a), with_all(items, b));
}

/// Committing a map makes it what it would be without the snapshot: what was taken since is kept by
/// the snapshot before it, if there is one.
pub proof fn lemma_map_commit_keeps(s: Stock<(ValueView, ValueView)>, keys: Seq<ValueView>)
    requires
        keys_ascending(s.items),
        can_remove_all(s.items, keys),
    ensures
        removed_all(s.with_snapshot(), keys).committed() == removed_all(s, keys),
{
    lemma_removed_all(s.with_snapshot(), keys);
    lemma_removed_all(s, keys);
    lemma_recorded(s.snaps, entries_at(s.items, keys), Seq::empty());
    assert(removed_all(s.with_snapshot(), keys).snaps.drop_last() =~= s.snaps);
}

proof fn lemma_removed_all_again(
    s: Stock<(ValueView, ValueView)>,
    a: Seq<ValueView>,
    b: Seq<ValueView>,
)
    ensures
        removed_all(removed_all(s, a), b) == removed_all(s, a + b),
    decreases b.len(),
{
    if b.len() == 0 {
        assert(a + b =~= a);
    } else {
        lemma_removed_all_again(s, a, b.drop_last());
        assert((a + b).drop_last() =~= a + b.drop_last());
    }
}

proof fn lemma_can_remove_parts(items: Entries, a: Seq<ValueView>, b: Seq<ValueView>)
    requires
        keys_ascending(items),
        can_remove_all(items, a + b),
    ensures
        can_remove_all(items, a),
        can_remove_all(without_all(items, a), b),
        keys_ascending(without_all(items, a)),
{
    let all = a + b;
    assert forall|i: int| 0 <= i < a.len() implies value_at(items, #[trigger] a[i]) is Some by {
        assert(all[i] == a[i]);
    }
    assert forall|i: int, j: int| 0 <= i < a.len() && 0 <= j < a.len() && i != j implies a[i]
        != a[j] by {
        assert(all[i] == a[i] && all[j] == a[j]);
    }
    lemma_without_all(items, a);
    assert forall|i: int| 0 <= i < b.len() implies value_at(
        without_all(items, a),
        #[trigger] b[i],
    ) is Some by {
        assert(all[a.len() + i] == b[i]);
        assert(value_at(items, all[a.len() + i]) is Some);
        assert(!a.contains(b[i])) by {
            if a.contains(b[i]) {
                let j = choose|j: int| 0 <= j < a.len() && a[j] == b[i];
                assert(all[j] == a[j]);
            }
        }
        assert(value_at(items, b[i]) is Some);
    }
    assert forall|i: int, j: int| 0 <= i < b.len() && 0 <= j < b.len() && i != j implies b[i]
        != b[j] by {
        assert(all[a.len() + i] == b[i] && all[a.len() + j] == b[j]);
    }
}

/// Rewinding a map undoes what was taken since the snapshot, also where a later snapshot was
/// committed in between.
pub proof fn lemma_map_rewind_undoes_commit(
    s: Stock<(ValueView, ValueView)>,
    a: Seq<ValueView>,
    b: Seq<ValueView>,
    c: Seq<ValueView>,
)
    requires
        keys_ascending(s.items),
        can_remove_all(s.items, a + b + c),
    ensures
        ({
            let inner = removed_all(s.with_snapshot(), a).with_snapshot();
            map_rewound(removed_all(removed_all(inner, b).committed(), c)) == s
        }),
{
    let t = removed_all(s.with_snapshot(), a);
    lemma_can_remove_parts(s.items, a + b, c);
    lemma_can_remove_parts(s.items, a, b);
    lemma_removed_all(s.with_snapshot(), a);
    lemma_map_commit_keeps(t, b);
    lemma_removed_all_again(s.with_snapshot(), a, b);
    lemma_removed_all_again(s.with_snapshot(), a + b, c);
    lemma_map_rewind_undoes(s, a + b + c);
}

} // verus!
