//! The number of nested steps decides only whether matching comes to an end, never how.
use vstd::prelude::*;

use crate::context::Rules;
use crate::entries::Entries;
use crate::ivt::{limit_bounds, Array, KeyValue, Mapping, Node, Occur, Range, Rule};
use crate::semantics::{
    array_member, array_members, array_occur, array_options, array_unwrap, array_value, bound,
    judge, judge_array, judge_mapping, judge_options, judge_range, judge_rule,
    map_key, map_keyvalue, map_member, map_members, map_occur, map_options, map_unwrap,
    search_key,
};
use crate::value::ValueView;

verus! {

/// A verdict that was reached stands when more steps are allowed.
pub proof fn lemma_judge_depth(d: nat, e: nat, v: ValueView, n: Node, rules: Rules)
    requires
        d <= e,
        judge(d, v, n, rules) is Some,
    ensures
        judge(e, v, n, rules) == judge(d, v, n, rules),
    decreases d, 0int, 0int,
{
    let (p, q) = ((d - 1) as nat, (e - 1) as nat);
    match n {
        Node::Choice(c) => lemma_judge_options_depth(p, q, c.options@, 0, v, rules),
        Node::Mapping(m) => lemma_judge_mapping_depth(p, q, m, v, rules),
        Node::Array(a) => lemma_judge_array_depth(p, q, a, v, rules),
        Node::Rule(r) => lemma_judge_rule_depth(p, q, r, v, rules),
        Node::Group(g) => if g.members@.len() == 1 {
            lemma_judge_depth(p, q, v, g.members@[0], rules);
        },
        Node::Range(r) => lemma_judge_range_depth(p, q, r, v, rules),
        _ => {},
    }
}

/// The verdict on a choice stands when more steps are allowed.
pub proof fn lemma_judge_options_depth(
    d: nat,
    e: nat,
    options: Seq<Node>,
    i: int,
    v: ValueView,
    rules: Rules,
)
    requires
        d <= e,
        judge_options(d, options, i, v, rules) is Some,
    ensures
        judge_options(e, options, i, v, rules) == judge_options(d, options, i, v, rules),
    decreases d, 1int, options.len() - i,
{
    if 0 <= i < options.len() {
        lemma_judge_depth(d, e, v, options[i], rules);
        if let Some(Err(x)) = judge(d, v, options[i], rules) {
            if !x.is_fatal() {
                lemma_judge_options_depth(d, e, options, i + 1, v, rules);
            }
        }
    }
}

/// The verdict on a rule stands when more steps are allowed.
pub proof fn lemma_judge_rule_depth(d: nat, e: nat, r: Rule, v: ValueView, rules: Rules)
    requires
        d <= e,
        judge_rule(d, r, v, rules) is Some,
    ensures
        judge_rule(e, r, v, rules) == judge_rule(d, r, v, rules),
    decreases d, 1int, 0int,
{
    if let Ok(node) = rules(r.name@) {
        lemma_judge_depth(d, e, v, node, rules);
    }
}

/// The end of a bound stands when more steps are allowed.
pub proof fn lemma_bound_depth(d: nat, e: nat, n: Node, rules: Rules)
    requires
        d <= e,
        bound(d, n, rules) is Some,
    ensures
        bound(e, n, rules) == bound(d, n, rules),
    decreases d, 0int, 0int,
{
    if let Node::Rule(r) = n {
        if let Ok(node) = rules(r.name@) {
            lemma_bound_depth((d - 1) as nat, (e - 1) as nat, node, rules);
        }
    }
}

/// A verdict by a range stands when more steps are allowed.
pub proof fn lemma_judge_range_depth(d: nat, e: nat, r: Range, v: ValueView, rules: Rules)
    requires
        d <= e,
        judge_range(d, r, v, rules) is Some,
    ensures
        judge_range(e, r, v, rules) == judge_range(d, r, v, rules),
    decreases d, 1int, 0int,
{
    lemma_bound_depth(d, e, *r.start, rules);
    if let Some(Ok(_)) = bound(d, *r.start, rules) {
        lemma_bound_depth(d, e, *r.end, rules);
    }
}

/// A run over an array stands when more steps are allowed.
pub proof fn lemma_array_member_depth(
    d: nat,
    e: nat,
    n: Node,
    items: Seq<ValueView>,
    rules: Rules,
)
    requires
        d <= e,
        array_member(d, n, items, rules) is Some,
    ensures
        array_member(e, n, items, rules) == array_member(d, n, items, rules),
    decreases d, 0int, 0int,
{
    let (p, q) = ((d - 1) as nat, (e - 1) as nat);
    match n {
        Node::Occur(o) => lemma_array_occur_depth(p, q, o, 0, items, rules),
        Node::KeyValue(kv) => lemma_array_value_depth(p, q, *kv.value, items, rules),
        Node::Rule(r) => if let Ok(node) = rules(r.name@) {
            lemma_array_member_depth(p, q, node, items, rules);
        },
        Node::Unwrap(r) => if let Ok(node) = rules(r.name@) {
            lemma_array_unwrap_depth(p, q, node, items, rules);
        },
        Node::Choice(c) => lemma_array_options_depth(p, q, c.options@, 0, items, rules),
        Node::Group(g) => lemma_array_members_depth(p, q, g.members@, 0, items, rules),
        _ => lemma_array_value_depth(p, q, n, items, rules),
    }
}

/// A run of members over an array stands when more steps are allowed.
pub proof fn lemma_array_members_depth(
    d: nat,
    e: nat,
    members: Seq<Node>,
    i: int,
    items: Seq<ValueView>,
    rules: Rules,
)
    requires
        d <= e,
        array_members(d, members, i, items, rules) is Some,
    ensures
        array_members(e, members, i, items, rules) == array_members(d, members, i, items, rules),
    decreases d, 1int, members.len() - i,
{
    if 0 <= i < members.len() {
        lemma_array_member_depth(d, e, members[i], items, rules);
        let run = array_member(d, members[i], items, rules)->Some_0;
        if run.verdict is Ok {
            lemma_array_members_depth(d, e, members, i + 1, run.rest, rules);
        }
    }
}

/// A run over an array with unwrapped members stands when more steps are allowed.
pub proof fn lemma_array_unwrap_depth(d: nat, e: nat, n: Node, items: Seq<ValueView>, rules: Rules)
    requires
        d <= e,
        array_unwrap(d, n, items, rules) is Some,
    ensures
        array_unwrap(e, n, items, rules) == array_unwrap(d, n, items, rules),
    decreases d, 2int, 0int,
{
    if let Node::Array(a) = n {
        lemma_array_members_depth(d, e, a.members@, 0, items, rules);
    }
}

/// A run over an array with alternatives stands when more steps are allowed.
pub proof fn lemma_array_options_depth(
    d: nat,
    e: nat,
    options: Seq<Node>,
    i: int,
    items: Seq<ValueView>,
    rules: Rules,
)
    requires
        d <= e,
        array_options(d, options, i, items, rules) is Some,
    ensures
        array_options(e, options, i, items, rules) == array_options(d, options, i, items, rules),
    decreases d, 1int, options.len() - i,
{
    if 0 <= i < options.len() {
        lemma_array_member_depth(d, e, options[i], items, rules);
        let run = array_member(d, options[i], items, rules)->Some_0;
        if let Err(x) = run.verdict {
            if !x.is_fatal() {
                lemma_array_options_depth(d, e, options, i + 1, run.rest, rules);
            }
        }
    }
}

/// A run over an array with what may occur more than once stands when more steps are allowed.
pub proof fn lemma_array_occur_depth(
    d: nat,
    e: nat,
    o: Occur,
    count: nat,
    items: Seq<ValueView>,
    rules: Rules,
)
    requires
        d <= e,
        array_occur(d, o, count, items, rules) is Some,
    ensures
        array_occur(e, o, count, items, rules) == array_occur(d, o, count, items, rules),
    decreases d, 1int, limit_bounds(o.limit).1 - count,
{
    if count < limit_bounds(o.limit).1 {
        lemma_array_member_depth(d, e, *o.node, items, rules);
        let run = array_member(d, *o.node, items, rules)->Some_0;
        if run.verdict is Ok {
            lemma_array_occur_depth(d, e, o, count + 1, run.rest, rules);
        }
    }
}

/// A run over the first item of an array stands when more steps are allowed.
pub proof fn lemma_array_value_depth(d: nat, e: nat, n: Node, items: Seq<ValueView>, rules: Rules)
    requires
        d <= e,
        array_value(d, n, items, rules) is Some,
    ensures
        array_value(e, n, items, rules) == array_value(d, n, items, rules),
    decreases d, 1int, 0int,
{
    if items.len() > 0 {
        lemma_judge_depth(d, e, items[0], n, rules);
    }
}

/// A verdict by an array stands when more steps are allowed.
pub proof fn lemma_judge_array_depth(d: nat, e: nat, a: Array, v: ValueView, rules: Rules)
    requires
        d <= e,
        judge_array(d, a, v, rules) is Some,
    ensures
        judge_array(e, a, v, rules) == judge_array(d, a, v, rules),
    decreases d, 2int, 0int,
{
    if let ValueView::Array(items) = v {
        lemma_array_members_depth(d, e, a.members@, 0, items, rules);
    }
}

/// A run over a map stands when more steps are allowed.
pub proof fn lemma_map_member_depth(d: nat, e: nat, n: Node, stock: Entries, rules: Rules)
    requires
        d <= e,
        map_member(d, n, stock, rules) is Some,
    ensures
        map_member(e, n, stock, rules) == map_member(d, n, stock, rules),
    decreases d, 0int, 0int,
{
    let (p, q) = ((d - 1) as nat, (e - 1) as nat);
    match n {
        Node::Occur(o) => lemma_map_occur_depth(p, q, o, 0, stock, rules),
        Node::KeyValue(kv) => lemma_map_keyvalue_depth(p, q, kv, stock, rules),
        Node::Rule(r) => if let Ok(node) = rules(r.name@) {
            lemma_map_member_depth(p, q, node, stock, rules);
        },
        Node::Unwrap(r) => if let Ok(node) = rules(r.name@) {
            lemma_map_unwrap_depth(p, q, node, stock, rules);
        },
        Node::Group(g) => lemma_map_members_depth(p, q, g.members@, 0, stock, rules),
        Node::Choice(c) => lemma_map_options_depth(p, q, c.options@, 0, stock, rules),
        _ => {},
    }
}

/// A run of members over a map stands when more steps are allowed.
pub proof fn lemma_map_members_depth(
    d: nat,
    e: nat,
    members: Seq<Node>,
    i: int,
    stock: Entries,
    rules: Rules,
)
    requires
        d <= e,
        map_members(d, members, i, stock, rules) is Some,
    ensures
        map_members(e, members, i, stock, rules) == map_members(d, members, i, stock, rules),
    decreases d, 1int, members.len() - i,
{
    if 0 <= i < members.len() {
        lemma_map_member_depth(d, e, members[i], stock, rules);
        let run = map_member(d, members[i], stock, rules)->Some_0;
        if run.verdict is Ok {
            lemma_map_members_depth(d, e, members, i + 1, run.rest, rules);
        }
    }
}

/// A run over a map with unwrapped members stands when more steps are allowed.
pub proof fn lemma_map_unwrap_depth(d: nat, e: nat, n: Node, stock: Entries, rules: Rules)
    requires
        d <= e,
        map_unwrap(d, n, stock, rules) is Some,
    ensures
        map_unwrap(e, n, stock, rules) == map_unwrap(d, n, stock, rules),
    decreases d, 2int, 0int,
{
    if let Node::Mapping(m) = n {
        lemma_map_members_depth(d, e, m.members@, 0, stock, rules);
    }
}

/// A run over a map with alternatives stands when more steps are allowed.
pub proof fn lemma_map_options_depth(
    d: nat,
    e: nat,
    options: Seq<Node>,
    i: int,
    stock: Entries,
    rules: Rules,
)
    requires
        d <= e,
        map_options(d, options, i, stock, rules) is Some,
    ensures
        map_options(e, options, i, stock, rules) == map_options(d, options, i, stock, rules),
    decreases d, 1int, options.len() - i,
{
    if 0 <= i < options.len() {
        lemma_map_member_depth(d, e, options[i], stock, rules);
        let run = map_member(d, options[i], stock, rules)->Some_0;
        if let Err(x) = run.verdict {
            if x is Mismatch {
                lemma_map_options_depth(d, e, options, i + 1, run.rest, rules);
            }
        }
    }
}

/// A run over a map with what may occur more than once stands when more steps are allowed.
pub proof fn lemma_map_occur_depth(
    d: nat,
    e: nat,
    o: Occur,
    count: nat,
    stock: Entries,
    rules: Rules,
)
    requires
        d <= e,
        map_occur(d, o, count, stock, rules) is Some,
    ensures
        map_occur(e, o, count, stock, rules) == map_occur(d, o, count, stock, rules),
    decreases d, 1int, limit_bounds(o.limit).1 - count,
{
    if count < limit_bounds(o.limit).1 {
        lemma_map_member_depth(d, e, *o.node, stock, rules);
        let run = map_member(d, *o.node, stock, rules)->Some_0;
        if run.verdict is Ok {
            lemma_map_occur_depth(d, e, o, count + 1, run.rest, rules);
        }
    }
}

/// The place of a key stands when more steps are allowed.
pub proof fn lemma_search_key_depth(d: nat, e: nat, n: Node, stock: Entries, i: int, rules: Rules)
    requires
        d <= e,
        search_key(d, n, stock, i, rules) is Some,
    ensures
        search_key(e, n, stock, i, rules) == search_key(d, n, stock, i, rules),
    decreases d, 1int, stock.len() - i,
{
    if 0 <= i < stock.len() {
        lemma_judge_depth(d, e, stock[i].0, n, rules);
        if judge(d, stock[i].0, n, rules)->Some_0 is Err {
            lemma_search_key_depth(d, e, n, stock, i + 1, rules);
        }
    }
}

/// A run over the entry of a map stands when more steps are allowed.
pub proof fn lemma_map_keyvalue_depth(d: nat, e: nat, kv: KeyValue, stock: Entries, rules: Rules)
    requires
        d <= e,
        map_keyvalue(d, kv, stock, rules) is Some,
    ensures
        map_keyvalue(e, kv, stock, rules) == map_keyvalue(d, kv, stock, rules),
    decreases d, 3int, 0int,
{
    if !(*kv.key is Literal) {
        lemma_search_key_depth(d, e, *kv.key, stock, 0, rules);
    }
    if let Some(Ok(i)) = map_key(d, *kv.key, stock, rules) {
        lemma_judge_depth(d, e, stock[i].1, *kv.value, rules);
    }
}

/// A verdict by a map stands when more steps are allowed.
pub proof fn lemma_judge_mapping_depth(d: nat, e: nat, m: Mapping, v: ValueView, rules: Rules)
    requires
        d <= e,
        judge_mapping(d, m, v, rules) is Some,
    ensures
        judge_mapping(e, m, v, rules) == judge_mapping(d, m, v, rules),
    decreases d, 2int, 0int,
{
    if let ValueView::Mapping(stock) = v {
        lemma_map_members_depth(d, e, m.members@, 0, stock, rules);
    }
}

} // verus!
