//! What it comes to when an array or a map is unwrapped into another.
use vstd::prelude::*;

use crate::context::Rules;
use crate::depth::{lemma_array_members_depth, lemma_map_members_depth};
use crate::entries::Entries;
use crate::ivt::{Array, Mapping, Node, Rule};
use crate::runs::{lemma_resumed, lemma_resumed_idle};
use crate::semantics::{
    array_member, array_members, array_unwrap, expected, idle, judge_array, judge_mapping,
    map_member, map_members, map_unwrap, resumed, Run,
};
use crate::util::ErrorView;
use crate::value::ValueView;

verus! {

/// What members give that are followed by others, where those after them give `next`: a failure of
/// the first stands.
pub open spec fn followed_by<T>(first: Option<Run<T>>, next: Option<Run<T>>) -> Option<Run<T>> {
    match first {
        None => None,
        Some(run) => match run.verdict {
            Ok(_) => resumed(run, next),
            Err(_) => first,
        },
    }
}

/// Two runs take and leave the same, and both match or fail with the same error.
spec fn same_run<T>(a: Option<Run<T>>, b: Option<Run<T>>) -> bool {
    match (a, b) {
        (None, None) => true,
        (Some(r), Some(s)) => {
            &&& r.rest == s.rest
            &&& r.taken == s.taken
            &&& match (r.verdict, s.verdict) {
                (Ok(_), Ok(_)) => true,
                (Err(x), Err(y)) => x == y,
                _ => false,
            }
        },
        _ => false,
    }
}

/// Members after others are matched as if they were all.
pub proof fn lemma_array_members_shift(
    d: nat,
    a: Seq<Node>,
    b: Seq<Node>,
    i: int,
    items: Seq<ValueView>,
    rules: Rules,
)
    requires
        0 <= i <= b.len(),
    ensures
        array_members(d, a + b, a.len() + i, items, rules) == array_members(d, b, i, items, rules),
    decreases b.len() - i,
{
    if i < b.len() {
        assert((a + b)[a.len() + i] == b[i]);
        if let Some(run) = array_member(d, b[i], items, rules) {
            lemma_array_members_shift(d, a, b, i + 1, run.rest, rules);
        }
    }
}

proof fn lemma_array_members_concat_from(
    d: nat,
    a: Seq<Node>,
    b: Seq<Node>,
    i: int,
    items: Seq<ValueView>,
    rules: Rules,
)
    requires
        0 <= i <= a.len(),
    ensures
        ({
            let first = array_members(d, a, i, items, rules);
            array_members(d, a + b, i, items, rules) == followed_by(
                first,
                array_members(d, b, 0, first->Some_0.rest, rules),
            )
        }),
    decreases a.len() - i,
{
    if i < a.len() {
        assert((a + b)[i] == a[i]);
        if let Some(run) = array_member(d, a[i], items, rules) {
            if run.verdict is Ok {
                lemma_array_members_concat_from(d, a, b, i + 1, run.rest, rules);
                if let Some(second) = array_members(d, a, i + 1, run.rest, rules) {
                    lemma_resumed(run, second, array_members(d, b, 0, second.rest, rules));
                }
            }
        }
    } else {
        lemma_array_members_shift(d, a, b, 0, items, rules);
        lemma_resumed_idle(Ok(()), items, array_members(d, b, 0, items, rules));
    }
}

/// Members in two parts are matched as one part after the other, the second with what the first
/// leaves.
pub proof fn lemma_array_members_concat(
    d: nat,
    a: Seq<Node>,
    b: Seq<Node>,
    items: Seq<ValueView>,
    rules: Rules,
)
    ensures
        ({
            let first = array_members(d, a, 0, items, rules);
            array_members(d, a + b, 0, items, rules) == followed_by(
                first,
                array_members(d, b, 0, first->Some_0.rest, rules),
            )
        }),
{
    lemma_array_members_concat_from(d, a, b, 0, items, rules);
}

proof fn lemma_array_single_member(d: nat, n: Node, items: Seq<ValueView>, rules: Rules)
    ensures
        same_run(array_members(d, seq![n], 0, items, rules), array_member(d, n, items, rules)),
{
    if let Some(run) = array_member(d, n, items, rules) {
        assert(array_members(d, seq![n], 1, run.rest, rules) == Some(idle(Ok(()), run.rest)));
        assert(run.taken + Seq::empty() =~= run.taken);
    }
}

proof fn lemma_array_parts(
    d: nat,
    before: Seq<Node>,
    middle: Seq<Node>,
    after: Seq<Node>,
    items: Seq<ValueView>,
    rules: Rules,
)
    ensures
        ({
            let first = array_members(d, before, 0, items, rules);
            let second = array_members(d, middle, 0, first->Some_0.rest, rules);
            array_members(d, before + middle + after, 0, items, rules) == followed_by(
                first,
                followed_by(second, array_members(d, after, 0, second->Some_0.rest, rules)),
            )
        }),
{
    assert(before + middle + after =~= before + (middle + after));
    lemma_array_members_concat(d, before, middle + after, items, rules);
    let first = array_members(d, before, 0, items, rules);
    lemma_array_members_concat(d, middle, after, first->Some_0.rest, rules);
}

proof fn lemma_array_splice_members(
    d: nat,
    before: Seq<Node>,
    r: Rule,
    inner: Array,
    after: Seq<Node>,
    items: Seq<ValueView>,
    rules: Rules,
)
    requires
        rules(r.name@) == Ok::<Node, ErrorView>(Node::Array(inner)),
    ensures
        ({
            let unwrapped = before + seq![Node::Unwrap(r)] + after;
            let spliced = before + inner.members@ + after;
            &&& array_members(d, unwrapped, 0, items, rules) is Some ==> array_members(
                d,
                spliced,
                0,
                items,
                rules,
            ) == array_members(d, unwrapped, 0, items, rules)
            &&& array_members(d, spliced, 0, items, rules) is Some ==> array_members(
                d + 1,
                unwrapped,
                0,
                items,
                rules,
            ) == array_members(d, spliced, 0, items, rules)
        }),
{
    let single = seq![Node::Unwrap(r)];
    lemma_array_parts(d, before, single, after, items, rules);
    lemma_array_parts(d + 1, before, single, after, items, rules);
    lemma_array_parts(d, before, inner.members@, after, items, rules);
    if let Some(first) = array_members(d, before, 0, items, rules) {
        let left = first.rest;
        lemma_array_members_depth(d, d + 1, before, 0, items, rules);
        lemma_array_single_member(d, Node::Unwrap(r), left, rules);
        lemma_array_single_member(d + 1, Node::Unwrap(r), left, rules);
        if d > 0 {
            lemma_array_unwrapped((d - 1) as nat, r, inner, left, rules);
            if array_members((d - 1) as nat, inner.members@, 0, left, rules) is Some {
                lemma_array_members_depth((d - 1) as nat, d, inner.members@, 0, left, rules);
            }
        }
        lemma_array_unwrapped(d, r, inner, left, rules);
        if let Some(second) = array_members(d, inner.members@, 0, left, rules) {
            if array_members(d, after, 0, second.rest, rules) is Some {
                lemma_array_members_depth(d, d + 1, after, 0, second.rest, rules);
            }
        }
    }
}

proof fn lemma_array_unwrapped(d: nat, r: Rule, inner: Array, items: Seq<ValueView>, rules: Rules)
    requires
        rules(r.name@) == Ok::<Node, ErrorView>(Node::Array(inner)),
    ensures
        array_member(d + 1, Node::Unwrap(r), items, rules) == array_members(
            d,
            inner.members@,
            0,
            items,
            rules,
        ),
{
    assert(array_unwrap(d, Node::Array(inner), items, rules) == array_members(
        d,
        inner.members@,
        0,
        items,
        rules,
    ));
}

/// Unwrapping an array splices its members in: a verdict on an array with `before`, the unwrapped
/// array and `after` is the verdict on one with `before`, the members of the unwrapped array and
/// `after`, and the other way round. What those members leave is no error by itself.
pub proof fn lemma_array_unwrap_splices(
    d: nat,
    before: Seq<Node>,
    r: Rule,
    inner: Array,
    after: Seq<Node>,
    unwrapped: Array,
    spliced: Array,
    v: ValueView,
    rules: Rules,
)
    requires
        rules(r.name@) == Ok::<Node, ErrorView>(Node::Array(inner)),
        unwrapped.members@ == before + seq![Node::Unwrap(r)] + after,
        spliced.members@ == before + inner.members@ + after,
    ensures
        judge_array(d, unwrapped, v, rules) is Some ==> judge_array(d, spliced, v, rules)
            == judge_array(d, unwrapped, v, rules),
        judge_array(d, spliced, v, rules) is Some ==> judge_array(d + 1, unwrapped, v, rules)
            == judge_array(d, spliced, v, rules),
{
    if let ValueView::Array(items) = v {
        lemma_array_splice_members(d, before, r, inner, after, items, rules);
    }
}

/// What is unwrapped into an array must be an array; anything else is a mismatch, and takes
/// nothing.
pub proof fn lemma_array_unwrap_needs_array(
    d: nat,
    r: Rule,
    n: Node,
    items: Seq<ValueView>,
    rules: Rules,
)
    requires
        rules(r.name@) == Ok::<Node, ErrorView>(n),
        !(n is Array),
    ensures
        array_member(d + 1, Node::Unwrap(r), items, rules) == Some(
            idle(expected("unwrap array"@), items),
        ),
{
    assert(array_unwrap(d, n, items, rules) == Some(idle(expected("unwrap array"@), items)));
}

/// Members after others are matched as if they were all.
pub proof fn lemma_map_members_shift(
    d: nat,
    a: Seq<Node>,
    b: Seq<Node>,
    i: int,
    stock: Entries,
    rules: Rules,
)
    requires
        0 <= i <= b.len(),
    ensures
        map_members(d, a + b, a.len() + i, stock, rules) == map_members(d, b, i, stock, rules),
    decreases b.len() - i,
{
    if i < b.len() {
        assert((a + b)[a.len() + i] == b[i]);
        if let Some(run) = map_member(d, b[i], stock, rules) {
            lemma_map_members_shift(d, a, b, i + 1, run.rest, rules);
        }
    }
}

proof fn lemma_map_members_concat_from(
    d: nat,
    a: Seq<Node>,
    b: Seq<Node>,
    i: int,
    stock: Entries,
    rules: Rules,
)
    requires
        0 <= i <= a.len(),
    ensures
        ({
            let first = map_members(d, a, i, stock, rules);
            map_members(d, a + b, i, stock, rules) == followed_by(
                first,
                map_members(d, b, 0, first->Some_0.rest, rules),
            )
        }),
    decreases a.len() - i,
{
    if i < a.len() {
        assert((a + b)[i] == a[i]);
        if let Some(run) = map_member(d, a[i], stock, rules) {
            if run.verdict is Ok {
                lemma_map_members_concat_from(d, a, b, i + 1, run.rest, rules);
                if let Some(second) = map_members(d, a, i + 1, run.rest, rules) {
                    lemma_resumed(run, second, map_members(d, b, 0, second.rest, rules));
                }
            }
        }
    } else {
        lemma_map_members_shift(d, a, b, 0, stock, rules);
        lemma_resumed_idle(Ok(()), stock, map_members(d, b, 0, stock, rules));
    }
}

/// Members in two parts are matched as one part after the other, the second with what the first
/// leaves.
pub proof fn lemma_map_members_concat(
    d: nat,
    a: Seq<Node>,
    b: Seq<Node>,
    stock: Entries,
    rules: Rules,
)
    ensures
        ({
            let first = map_members(d, a, 0, stock, rules);
            map_members(d, a + b, 0, stock, rules) == followed_by(
                first,
                map_members(d, b, 0, first->Some_0.rest, rules),
            )
        }),
{
    lemma_map_members_concat_from(d, a, b, 0, stock, rules);
}

proof fn lemma_map_single_member(d: nat, n: Node, stock: Entries, rules: Rules)
    ensures
        same_run(map_members(d, seq![n], 0, stock, rules), map_member(d, n, stock, rules)),
{
    if let Some(run) = map_member(d, n, stock, rules) {
        assert(map_members(d, seq![n], 1, run.rest, rules) == Some(idle(Ok(()), run.rest)));
        assert(run.taken + Seq::empty() =~= run.taken);
    }
}

proof fn lemma_map_parts(
    d: nat,
    before: Seq<Node>,
    middle: Seq<Node>,
    after: Seq<Node>,
    stock: Entries,
    rules: Rules,
)
    ensures
        ({
            let first = map_members(d, before, 0, stock, rules);
            let second = map_members(d, middle, 0, first->Some_0.rest, rules);
            map_members(d, before + middle + after, 0, stock, rules) == followed_by(
                first,
                followed_by(second, map_members(d, after, 0, second->Some_0.rest, rules)),
            )
        }),
{
    assert(before + middle + after =~= before + (middle + after));
    lemma_map_members_concat(d, before, middle + after, stock, rules);
    let first = map_members(d, before, 0, stock, rules);
    lemma_map_members_concat(d, middle, after, first->Some_0.rest, rules);
}

proof fn lemma_map_splice_members(
    d: nat,
    before: Seq<Node>,
    r: Rule,
    inner: Mapping,
    after: Seq<Node>,
    stock: Entries,
    rules: Rules,
)
    requires
        rules(r.name@) == Ok::<Node, ErrorView>(Node::Mapping(inner)),
    ensures
        ({
            let unwrapped = before + seq![Node::Unwrap(r)] + after;
            let spliced = before + inner.members@ + after;
            &&& map_members(d, unwrapped, 0, stock, rules) is Some ==> map_members(
                d,
                spliced,
                0,
                stock,
                rules,
            ) == map_members(d, unwrapped, 0, stock, rules)
            &&& map_members(d, spliced, 0, stock, rules) is Some ==> map_members(
                d + 1,
                unwrapped,
                0,
                stock,
                rules,
            ) == map_members(d, spliced, 0, stock, rules)
        }),
{
    let single = seq![Node::Unwrap(r)];
    lemma_map_parts(d, before, single, after, stock, rules);
    lemma_map_parts(d + 1, before, single, after, stock, rules);
    lemma_map_parts(d, before, inner.members@, after, stock, rules);
    if let Some(first) = map_members(d, before, 0, stock, rules) {
        let left = first.rest;
        lemma_map_members_depth(d, d + 1, before, 0, stock, rules);
        lemma_map_single_member(d, Node::Unwrap(r), left, rules);
        lemma_map_single_member(d + 1, Node::Unwrap(r), left, rules);
        if d > 0 {
            lemma_map_unwrapped((d - 1) as nat, r, inner, left, rules);
            if map_members((d - 1) as nat, inner.members@, 0, left, rules) is Some {
                lemma_map_members_depth((d - 1) as nat, d, inner.members@, 0, left, rules);
            }
        }
        lemma_map_unwrapped(d, r, inner, left, rules);
        if let Some(second) = map_members(d, inner.members@, 0, left, rules) {
            if map_members(d, after, 0, second.rest, rules) is Some {
                lemma_map_members_depth(d, d + 1, after, 0, second.rest, rules);
            }
        }
    }
}

proof fn lemma_map_unwrapped(d: nat, r: Rule, inner: Mapping, stock: Entries, rules: Rules)
    requires
        rules(r.name@) == Ok::<Node, ErrorView>(Node::Mapping(inner)),
    ensures
        map_member(d + 1, Node::Unwrap(r), stock, rules) == map_members(
            d,
            inner.members@,
            0,
            stock,
            rules,
        ),
{
    assert(map_unwrap(d, Node::Mapping(inner), stock, rules) == map_members(
        d,
        inner.members@,
        0,
        stock,
        rules,
    ));
}

/// Unwrapping a map splices its members in: a verdict on a map with `before`, the unwrapped
/// map and `after` is the verdict on one with `before`, the members of the unwrapped map and
/// `after`, and the other way round. What those members leave is no error by itself.
pub proof fn lemma_map_unwrap_splices(
    d: nat,
    before: Seq<Node>,
    r: Rule,
    inner: Mapping,
    after: Seq<Node>,
    unwrapped: Mapping,
    spliced: Mapping,
    v: ValueView,
    rules: Rules,
)
    requires
        rules(r.name@) == Ok::<Node, ErrorView>(Node::Mapping(inner)),
        unwrapped.members@ == before + seq![Node::Unwrap(r)] + after,
        spliced.members@ == before + inner.members@ + after,
    ensures
        judge_mapping(d, unwrapped, v, rules) is Some ==> judge_mapping(d, spliced, v, rules)
            == judge_mapping(d, unwrapped, v, rules),
        judge_mapping(d, spliced, v, rules) is Some ==> judge_mapping(d + 1, unwrapped, v, rules)
            == judge_mapping(d, spliced, v, rules),
{
    if let ValueView::Mapping(stock) = v {
        lemma_map_splice_members(d, before, r, inner, after, stock, rules);
    }
}

/// What is unwrapped into a map must be a map; anything else is a mismatch, and takes nothing.
pub proof fn lemma_map_unwrap_needs_map(d: nat, r: Rule, n: Node, stock: Entries, rules: Rules)
    requires
        rules(r.name@) == Ok::<Node, ErrorView>(n),
        !(n is Mapping),
    ensures
        map_member(d + 1, Node::Unwrap(r), stock, rules) == Some(
            idle(expected("unwrap map"@), stock),
        ),
{
    assert(map_unwrap(d, n, stock, rules) == Some(idle(expected("unwrap map"@), stock)));
}

} // verus!
