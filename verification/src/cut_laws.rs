//! How far a cut reaches.
use vstd::prelude::*;

use crate::context::Rules;
use crate::ivt::{limit_bounds, Node, Occur};
use crate::semantics::{
    array_member, array_members, array_occur, array_options, array_unwrap, array_value, bound,
    judge, judge_options,
};
use crate::util::ErrorView;
use crate::value::ValueView;

verus! {

/// No lookup gives a cut.
pub open spec fn lookups_uncut(rules: Rules) -> bool {
    forall|name: Seq<char>| !((#[trigger] rules(name)) matches Err(ErrorView::MapCut(_)))
}

/// A cut does not leave the map that it happened in: no verdict on a value is a cut, unless a
/// lookup gives one.
pub proof fn lemma_cut_stays_inside(d: nat, v: ValueView, n: Node, rules: Rules)
    requires
        lookups_uncut(rules),
    ensures
        !(judge(d, v, n, rules) matches Some(Err(ErrorView::MapCut(_)))),
    decreases d, 0int, 0int,
{
    if d > 0 {
        let e = (d - 1) as nat;
        match n {
            Node::Choice(c) => lemma_options_uncut(e, c.options@, 0, v, rules),
            Node::Array(a) => if let ValueView::Array(items) = v {
                lemma_array_members_uncut(e, a.members@, 0, items, rules);
            },
            Node::Rule(r) => if let Ok(node) = rules(r.name@) {
                lemma_cut_stays_inside(e, v, node, rules);
            },
            Node::Group(g) => if g.members@.len() == 1 {
                lemma_cut_stays_inside(e, v, g.members@[0], rules);
            },
            Node::Range(r) => {
                lemma_bound_uncut(e, *r.start, rules);
                lemma_bound_uncut(e, *r.end, rules);
            },
            _ => {},
        }
    }
}

proof fn lemma_options_uncut(d: nat, options: Seq<Node>, i: int, v: ValueView, rules: Rules)
    requires
        lookups_uncut(rules),
    ensures
        !(judge_options(d, options, i, v, rules) matches Some(Err(ErrorView::MapCut(_)))),
    decreases d, 1int, options.len() - i,
{
    if 0 <= i < options.len() {
        lemma_cut_stays_inside(d, v, options[i], rules);
        lemma_options_uncut(d, options, i + 1, v, rules);
    }
}

proof fn lemma_bound_uncut(d: nat, n: Node, rules: Rules)
    requires
        lookups_uncut(rules),
    ensures
        !(bound(d, n, rules) matches Some(Err(ErrorView::MapCut(_)))),
    decreases d, 0int, 0int,
{
    if d > 0 {
        if let Node::Rule(r) = n {
            if let Ok(node) = rules(r.name@) {
                lemma_bound_uncut((d - 1) as nat, node, rules);
            }
        }
    }
}

proof fn lemma_array_member_uncut(d: nat, n: Node, items: Seq<ValueView>, rules: Rules)
    requires
        lookups_uncut(rules),
    ensures
        array_member(d, n, items, rules) matches Some(run) ==> !(run.verdict matches Err(
            ErrorView::MapCut(_),
        )),
    decreases d, 0int, 0int,
{
    if d > 0 {
        let e = (d - 1) as nat;
        match n {
            Node::Occur(o) => lemma_array_occur_uncut(e, o, 0, items, rules),
            Node::KeyValue(kv) => lemma_array_value_uncut(e, *kv.value, items, rules),
            Node::Rule(r) => if let Ok(node) = rules(r.name@) {
                lemma_array_member_uncut(e, node, items, rules);
            },
            Node::Unwrap(r) => if let Ok(node) = rules(r.name@) {
                lemma_array_unwrap_uncut(e, node, items, rules);
            },
            Node::Choice(c) => lemma_array_options_uncut(e, c.options@, 0, items, rules),
            Node::Group(g) => lemma_array_members_uncut(e, g.members@, 0, items, rules),
            _ => lemma_array_value_uncut(e, n, items, rules),
        }
    }
}

proof fn lemma_array_unwrap_uncut(d: nat, n: Node, items: Seq<ValueView>, rules: Rules)
    requires
        lookups_uncut(rules),
    ensures
        array_unwrap(d, n, items, rules) matches Some(run) ==> !(run.verdict matches Err(
            ErrorView::MapCut(_),
        )),
    decreases d, 2int, 0int,
{
    if let Node::Array(a) = n {
        lemma_array_members_uncut(d, a.members@, 0, items, rules);
    }
}

proof fn lemma_array_value_uncut(d: nat, n: Node, items: Seq<ValueView>, rules: Rules)
    requires
        lookups_uncut(rules),
    ensures
        array_value(d, n, items, rules) matches Some(run) ==> !(run.verdict matches Err(
            ErrorView::MapCut(_),
        )),
    decreases d, 1int, 0int,
{
    if items.len() > 0 {
        lemma_cut_stays_inside(d, items[0], n, rules);
    }
}

proof fn lemma_array_members_uncut(
    d: nat,
    members: Seq<Node>,
    i: int,
    items: Seq<ValueView>,
    rules: Rules,
)
    requires
        lookups_uncut(rules),
    ensures
        array_members(d, members, i, items, rules) matches Some(run) ==> !(run.verdict matches Err(
            ErrorView::MapCut(_),
        )),
    decreases d, 1int, members.len() - i,
{
    if 0 <= i < members.len() {
        lemma_array_member_uncut(d, members[i], items, rules);
        if let Some(run) = array_member(d, members[i], items, rules) {
            lemma_array_members_uncut(d, members, i + 1, run.rest, rules);
        }
    }
}

proof fn lemma_array_options_uncut(
    d: nat,
    options: Seq<Node>,
    i: int,
    items: Seq<ValueView>,
    rules: Rules,
)
    requires
        lookups_uncut(rules),
    ensures
        array_options(d, options, i, items, rules) matches Some(run) ==> !(run.verdict matches Err(
            ErrorView::MapCut(_),
        )),
    decreases d, 1int, options.len() - i,
{
    if 0 <= i < options.len() {
        lemma_array_member_uncut(d, options[i], items, rules);
        if let Some(run) = array_member(d, options[i], items, rules) {
            lemma_array_options_uncut(d, options, i + 1, run.rest, rules);
        }
    }
}

proof fn lemma_array_occur_uncut(
    d: nat,
    o: Occur,
    count: nat,
    items: Seq<ValueView>,
    rules: Rules,
)
    requires
        lookups_uncut(rules),
    ensures
        array_occur(d, o, count, items, rules) matches Some(run) ==> !(run.verdict matches Err(
            ErrorView::MapCut(_),
        )),
    decreases d, 1int, limit_bounds(o.limit).1 - count,
{
    lemma_array_member_uncut(d, *o.node, items, rules);
    if let Some(run) = array_member(d, *o.node, items, rules) {
        if count + 1 < limit_bounds(o.limit).1 {
            lemma_array_occur_uncut(d, o, count + 1, run.rest, rules);
        }
    }
}

} // verus!
