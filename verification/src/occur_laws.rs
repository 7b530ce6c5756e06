//! How often what may occur more than once is matched.
use vstd::prelude::*;

use crate::context::Rules;
use crate::entries::Entries;
use crate::ivt::{limit_bounds, Node, Occur};
use crate::semantics::{
    array_member, array_occur, map_member, map_occur, occur_verdict_array, occur_verdict_map, Run,
};
use crate::util::{ErrorView, Verdict};
use crate::value::ValueView;

verus! {

/// How many times more what has occurred `count` times may occur.
pub open spec fn tries_left(o: Occur, count: nat) -> nat {
    let upper = limit_bounds(o.limit).1;
    if upper > count {
        (upper - count) as nat
    } else {
        0
    }
}

/// The verdict on what occurs no more because of an error.
pub open spec fn stopped_by(x: ErrorView, counted: Verdict) -> Verdict {
    if x is Mismatch {
        counted
    } else {
        Err(x)
    }
}

/// What is left of an array after a node has matched `n` times in a row.
pub open spec fn array_repeats(
    d: nat,
    node: Node,
    n: nat,
    items: Seq<ValueView>,
    rules: Rules,
) -> Option<Seq<ValueView>>
    decreases n,
{
    if n == 0 {
        Some(items)
    } else {
        match array_member(d, node, items, rules) {
            None => None,
            Some(run) => match run.verdict {
                Ok(_) => array_repeats(d, node, (n - 1) as nat, run.rest, rules),
                Err(_) => None,
            },
        }
    }
}

/// After `count` times, the node of an occurrence has matched `n` times more, and then either it
/// may occur no more or the next attempt has failed.
pub open spec fn array_occurred(
    d: nat,
    o: Occur,
    count: nat,
    n: nat,
    items: Seq<ValueView>,
    run: Run<ValueView>,
    rules: Rules,
) -> bool {
    match array_repeats(d, *o.node, n, items, rules) {
        None => false,
        Some(left) => if n == tries_left(o, count) {
            run.rest == left && run.verdict == occur_verdict_array(o, count + n)
        } else {
            n < tries_left(o, count) && match array_member(d, *o.node, left, rules) {
                None => false,
                Some(last) => match last.verdict {
                    Ok(_) => false,
                    Err(x) => run.rest == last.rest && run.verdict == stopped_by(
                        x,
                        occur_verdict_array(o, count + n),
                    ),
                },
            }
        },
    }
}

/// What may occur more than once in an array is matched as often as it goes, but no
/// more often than the upper limit says; it fails if that is less often than the lower limit, and
/// at an error that is no mismatch.
pub proof fn lemma_array_occurrences(d: nat, o: Occur, items: Seq<ValueView>, rules: Rules)
    ensures
        array_occur(d, o, 0, items, rules) matches Some(run) ==> exists|n: nat| #[trigger]
            array_occurred(d, o, 0, n, items, run, rules),
{
    lemma_array_occurrences_from(d, o, 0, items, rules);
}

proof fn lemma_array_occurrences_from(
    d: nat,
    o: Occur,
    count: nat,
    items: Seq<ValueView>,
    rules: Rules,
)
    ensures
        array_occur(d, o, count, items, rules) matches Some(run) ==> exists|n: nat| #[trigger]
            array_occurred(d, o, count, n, items, run, rules),
    decreases limit_bounds(o.limit).1 - count,
{
    reveal_with_fuel(array_repeats, 2);
    if let Some(run) = array_occur(d, o, count, items, rules) {
        let first = array_member(d, *o.node, items, rules)->Some_0;
        if count >= limit_bounds(o.limit).1 || first.verdict is Err {
            assert(array_occurred(d, o, count, 0, items, run, rules));
        } else {
            lemma_array_occurrences_from(d, o, count + 1, first.rest, rules);
            let rest = array_occur(d, o, count + 1, first.rest, rules)->Some_0;
            let m = choose|m: nat| #[trigger]
                array_occurred(d, o, count + 1, m, first.rest, rest, rules);
            assert(array_occurred(d, o, count, m + 1, items, run, rules));
        }
    }
}

/// An error that is no mismatch is the verdict on an occurrence, even where nothing need occur,
/// unless the upper limit keeps the node from being tried at all.
pub proof fn lemma_occurrence_passes_error(
    d: nat,
    o: Occur,
    items: Seq<ValueView>,
    stock: Entries,
    rules: Rules,
)
    requires
        limit_bounds(o.limit).1 > 0,
    ensures
        array_member(d, *o.node, items, rules) matches Some(run) ==> run.verdict matches Err(x)
            ==> !(x is Mismatch) ==> array_occur(d, o, 0, items, rules) == Some(run),
        map_member(d, *o.node, stock, rules) matches Some(run) ==> run.verdict matches Err(x)
            ==> !(x is Mismatch) ==> map_occur(d, o, 0, stock, rules) == Some(run),
{
}

/// What is left of a map after a node has matched `n` times in a row.
pub open spec fn map_repeats(
    d: nat,
    node: Node,
    n: nat,
    stock: Entries,
    rules: Rules,
) -> Option<Entries>
    decreases n,
{
    if n == 0 {
        Some(stock)
    } else {
        match map_member(d, node, stock, rules) {
            None => None,
            Some(run) => match run.verdict {
                Ok(_) => map_repeats(d, node, (n - 1) as nat, run.rest, rules),
                Err(_) => None,
            },
        }
    }
}

/// After `count` times, the node of an occurrence has matched `n` times more, and then either it
/// may occur no more or the next attempt has failed.
pub open spec fn map_occurred(
    d: nat,
    o: Occur,
    count: nat,
    n: nat,
    stock: Entries,
    run: Run<(ValueView, ValueView)>,
    rules: Rules,
) -> bool {
    match map_repeats(d, *o.node, n, stock, rules) {
        None => false,
        Some(left) => if n == tries_left(o, count) {
            run.rest == left && run.verdict == occur_verdict_map(o, count + n)
        } else {
            n < tries_left(o, count) && match map_member(d, *o.node, left, rules) {
                None => false,
                Some(last) => match last.verdict {
                    Ok(_) => false,
                    Err(x) => run.rest == last.rest && run.verdict == stopped_by(
                        x,
                        occur_verdict_map(o, count + n),
                    ),
                },
            }
        },
    }
}

/// What may occur more than once in a map is matched as often as it goes, but no more
/// often than the upper limit says; it fails if that is less often than the lower limit, and at an
/// error that is no mismatch.
pub proof fn lemma_map_occurrences(d: nat, o: Occur, stock: Entries, rules: Rules)
    ensures
        map_occur(d, o, 0, stock, rules) matches Some(run) ==> exists|n: nat| #[trigger]
            map_occurred(d, o, 0, n, stock, run, rules),
{
    lemma_map_occurrences_from(d, o, 0, stock, rules);
}

proof fn lemma_map_occurrences_from(d: nat, o: Occur, count: nat, stock: Entries, rules: Rules)
    ensures
        map_occur(d, o, count, stock, rules) matches Some(run) ==> exists|n: nat| #[trigger]
            map_occurred(d, o, count, n, stock, run, rules),
    decreases limit_bounds(o.limit).1 - count,
{
    reveal_with_fuel(map_repeats, 2);
    if let Some(run) = map_occur(d, o, count, stock, rules) {
        let first = map_member(d, *o.node, stock, rules)->Some_0;
        if count >= limit_bounds(o.limit).1 || first.verdict is Err {
            assert(map_occurred(d, o, count, 0, stock, run, rules));
        } else {
            lemma_map_occurrences_from(d, o, count + 1, first.rest, rules);
            let rest = map_occur(d, o, count + 1, first.rest, rules)->Some_0;
            let m = choose|m: nat| #[trigger]
                map_occurred(d, o, count + 1, m, first.rest, rest, rules);
            assert(map_occurred(d, o, count, m + 1, stock, run, rules));
        }
    }
}

} // verus!
