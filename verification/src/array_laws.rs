//! What becomes of the items of an array while it is matched.
use vstd::prelude::*;

use crate::context::Rules;
use crate::ivt::{limit_bounds, Array, Group, KeyValue, Node, Occur};
use crate::semantics::{
    array_member, array_members, array_occur, array_options, array_unwrap, array_value, followed,
    idle, judge_array, Run,
};
use crate::value::ValueView;

verus! {

/// What was taken came from the front, and what is left is the rest.
pub open spec fn array_accounted(items: Seq<ValueView>, run: Run<ValueView>) -> bool {
    items == run.taken + run.rest
}

proof fn lemma_idle_accounted(items: Seq<ValueView>, run: Run<ValueView>)
    requires
        run == idle(run.verdict, items),
    ensures
        array_accounted(items, run),
{
    assert(items =~= run.taken + run.rest);
}

proof fn lemma_followed_accounted(
    items: Seq<ValueView>,
    first: Run<ValueView>,
    second: Run<ValueView>,
)
    requires
        array_accounted(items, first),
        array_accounted(first.rest, second),
    ensures
        array_accounted(items, followed(first, second)),
{
    assert(items =~= first.taken + second.taken + second.rest);
}

/// Matching a member of an array accounts for every item.
pub proof fn lemma_array_member_accounted(d: nat, n: Node, items: Seq<ValueView>, rules: Rules)
    ensures
        array_member(d, n, items, rules) matches Some(run) ==> array_accounted(items, run),
    decreases d, 0int, 0int,
{
    if d > 0 {
        let e = (d - 1) as nat;
        match n {
            Node::Occur(o) => lemma_array_occur_accounted(e, o, 0, items, rules),
            Node::KeyValue(kv) => lemma_array_value_accounted(e, *kv.value, items, rules),
            Node::Rule(r) => match rules(r.name@) {
                Ok(node) => lemma_array_member_accounted(e, node, items, rules),
                Err(x) => lemma_idle_accounted(items, idle(Err(x), items)),
            },
            Node::Unwrap(r) => match rules(r.name@) {
                Ok(node) => lemma_array_unwrap_accounted(e, node, items, rules),
                Err(x) => lemma_idle_accounted(items, idle(Err(x), items)),
            },
            Node::Choice(c) => lemma_array_options_accounted(e, c.options@, 0, items, rules),
            Node::Group(g) => {
                lemma_array_members_accounted(e, g.members@, 0, items, rules);
                if let Some(run) = array_members(e, g.members@, 0, items, rules) {
                    lemma_idle_accounted(items, idle(run.verdict, items));
                }
            },
            _ => lemma_array_value_accounted(e, n, items, rules),
        }
    }
}

proof fn lemma_array_unwrap_accounted(d: nat, n: Node, items: Seq<ValueView>, rules: Rules)
    ensures
        array_unwrap(d, n, items, rules) matches Some(run) ==> array_accounted(items, run),
    decreases d, 2int, 0int,
{
    if let Node::Array(a) = n {
        lemma_array_members_accounted(d, a.members@, 0, items, rules);
    } else {
        lemma_idle_accounted(items, array_unwrap(d, n, items, rules)->Some_0);
    }
}

proof fn lemma_array_value_accounted(d: nat, n: Node, items: Seq<ValueView>, rules: Rules)
    ensures
        array_value(d, n, items, rules) matches Some(run) ==> array_accounted(items, run),
    decreases d, 1int, 0int,
{
    if let Some(run) = array_value(d, n, items, rules) {
        if run.verdict is Ok {
            assert(items =~= run.taken + run.rest);
        } else {
            lemma_idle_accounted(items, run);
        }
    }
}

/// Matching members of an array, one after the other, accounts for every item.
pub proof fn lemma_array_members_accounted(
    d: nat,
    members: Seq<Node>,
    i: int,
    items: Seq<ValueView>,
    rules: Rules,
)
    ensures
        array_members(d, members, i, items, rules) matches Some(run) ==> array_accounted(
            items,
            run,
        ),
    decreases d, 1int, members.len() - i,
{
    if 0 <= i < members.len() {
        lemma_array_member_accounted(d, members[i], items, rules);
        if let Some(run) = array_member(d, members[i], items, rules) {
            lemma_array_members_accounted(d, members, i + 1, run.rest, rules);
            if let Some(next) = array_members(d, members, i + 1, run.rest, rules) {
                lemma_followed_accounted(items, run, next);
            }
        }
    } else {
        lemma_idle_accounted(items, array_members(d, members, i, items, rules)->Some_0);
    }
}

proof fn lemma_array_options_accounted(
    d: nat,
    options: Seq<Node>,
    i: int,
    items: Seq<ValueView>,
    rules: Rules,
)
    ensures
        array_options(d, options, i, items, rules) matches Some(run) ==> array_accounted(
            items,
            run,
        ),
    decreases d, 1int, options.len() - i,
{
    if 0 <= i < options.len() {
        lemma_array_member_accounted(d, options[i], items, rules);
        if let Some(run) = array_member(d, options[i], items, rules) {
            lemma_array_options_accounted(d, options, i + 1, run.rest, rules);
            if let Some(next) = array_options(d, options, i + 1, run.rest, rules) {
                lemma_followed_accounted(items, run, next);
            }
        }
    } else {
        lemma_idle_accounted(items, array_options(d, options, i, items, rules)->Some_0);
    }
}

proof fn lemma_array_occur_accounted(
    d: nat,
    o: Occur,
    count: nat,
    items: Seq<ValueView>,
    rules: Rules,
)
    ensures
        array_occur(d, o, count, items, rules) matches Some(run) ==> array_accounted(items, run),
    decreases d, 1int, limit_bounds(o.limit).1 - count,
{
    if count >= limit_bounds(o.limit).1 {
        lemma_idle_accounted(items, array_occur(d, o, count, items, rules)->Some_0);
    } else {
        lemma_array_member_accounted(d, *o.node, items, rules);
        if let Some(run) = array_member(d, *o.node, items, rules) {
            lemma_array_occur_accounted(d, o, count + 1, run.rest, rules);
            if let Some(next) = array_occur(d, o, count + 1, run.rest, rules) {
                lemma_followed_accounted(items, run, next);
            }
        }
    }
}

/// A group of an array that fails leaves the array as it was, whatever the groups inside it have
/// taken.
pub proof fn lemma_failed_group_restores_array(
    d: nat,
    g: Group,
    items: Seq<ValueView>,
    rules: Rules,
)
    ensures
        array_member(d, Node::Group(g), items, rules) matches Some(run) ==> run.verdict is Err
            ==> run == idle(run.verdict, items),
{
    if d > 0 {
        lemma_array_members_accounted((d - 1) as nat, g.members@, 0, items, rules);
    }
}

/// An array that matches is used up: its members took the items, all of them and in order.
pub proof fn lemma_matched_array_used_up(
    d: nat,
    a: Array,
    items: Seq<ValueView>,
    rules: Rules,
)
    ensures
        judge_array(d, a, ValueView::Array(items), rules) matches Some(Ok(_)) ==> {
            let run = array_members(d, a.members@, 0, items, rules)->Some_0;
            run.taken == items
        },
{
    lemma_array_members_accounted(d, a.members@, 0, items, rules);
    if judge_array(d, a, ValueView::Array(items), rules) matches Some(Ok(_)) {
        let run = array_members(d, a.members@, 0, items, rules)->Some_0;
        assert(run.taken + run.rest =~= run.taken);
    }
}

/// In an array the key of a member is ignored.
pub proof fn lemma_array_ignores_keys(
    d: nat,
    a: KeyValue,
    b: KeyValue,
    items: Seq<ValueView>,
    rules: Rules,
)
    requires
        a.value == b.value,
    ensures
        array_member(d, Node::KeyValue(a), items, rules) == array_member(
            d,
            Node::KeyValue(b),
            items,
            rules,
        ),
{
}

} // verus!
