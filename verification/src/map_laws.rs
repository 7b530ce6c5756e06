//! What becomes of the entries of a map while it is matched.
use vstd::prelude::*;

use crate::arrangement::{
    lemma_arrangement_unique, lemma_ascending_distinct, lemma_with_all_pool, lemma_without_pool,
    pool,
};
use crate::context::Rules;
use crate::entries::{keys_ascending, lemma_position, lemma_without_ascending, with_all, Entries};
use crate::ivt::{limit_bounds, Group, KeyValue, Mapping, Node, Occur};
use crate::semantics::{
    followed, idle, judge, judge_mapping, literal_value, map_key, map_keyvalue, map_member,
    map_members, map_occur, map_options, map_unwrap, search_key, Run,
};
use crate::value::ValueView;

verus! {

/// Every entry is left or was taken, and none comes from elsewhere. What is left is a map.
pub open spec fn map_accounted(stock: Entries, run: Run<(ValueView, ValueView)>) -> bool {
    &&& keys_ascending(run.rest)
    &&& pool(run.rest + run.taken) == pool(stock)
}

/// Putting back what was taken restores the map.
pub proof fn lemma_taken_restores(stock: Entries, run: Run<(ValueView, ValueView)>)
    requires
        keys_ascending(stock),
        map_accounted(stock, run),
    ensures
        with_all(run.rest, run.taken) == stock,
{
    lemma_ascending_distinct(stock);
    lemma_with_all_pool(run.rest, run.taken);
    lemma_arrangement_unique(with_all(run.rest, run.taken), stock);
}

proof fn lemma_idle_accounted(stock: Entries, run: Run<(ValueView, ValueView)>)
    requires
        keys_ascending(stock),
        run == idle(run.verdict, stock),
    ensures
        map_accounted(stock, run),
{
    assert(run.rest + run.taken =~= stock);
}

proof fn lemma_followed_accounted(
    stock: Entries,
    first: Run<(ValueView, ValueView)>,
    second: Run<(ValueView, ValueView)>,
)
    requires
        map_accounted(stock, first),
        map_accounted(first.rest, second),
    ensures
        map_accounted(stock, followed(first, second)),
{
    broadcast use vstd::multiset::group_multiset_axioms;

    let run = followed(first, second);
    vstd::seq_lib::lemma_multiset_commutative(first.rest, first.taken);
    vstd::seq_lib::lemma_multiset_commutative(second.rest, second.taken);
    vstd::seq_lib::lemma_multiset_commutative(run.rest, run.taken);
    vstd::seq_lib::lemma_multiset_commutative(first.taken, second.taken);
    assert(pool(run.rest + run.taken) =~= pool(stock));
}

/// Matching a member of a map accounts for every entry.
pub proof fn lemma_map_member_accounted(d: nat, n: Node, stock: Entries, rules: Rules)
    requires
        keys_ascending(stock),
    ensures
        map_member(d, n, stock, rules) matches Some(run) ==> map_accounted(stock, run),
    decreases d, 0int, 0int,
{
    if d > 0 {
        let e = (d - 1) as nat;
        match n {
            Node::Occur(o) => lemma_map_occur_accounted(e, o, 0, stock, rules),
            Node::KeyValue(kv) => lemma_map_keyvalue_accounted(e, kv, stock, rules),
            Node::Rule(r) => match rules(r.name@) {
                Ok(node) => lemma_map_member_accounted(e, node, stock, rules),
                Err(x) => lemma_idle_accounted(stock, idle(Err(x), stock)),
            },
            Node::Unwrap(r) => match rules(r.name@) {
                Ok(node) => lemma_map_unwrap_accounted(e, node, stock, rules),
                Err(x) => lemma_idle_accounted(stock, idle(Err(x), stock)),
            },
            Node::Choice(c) => lemma_map_options_accounted(e, c.options@, 0, stock, rules),
            Node::Group(g) => {
                lemma_map_members_accounted(e, g.members@, 0, stock, rules);
                if let Some(run) = map_members(e, g.members@, 0, stock, rules) {
                    lemma_taken_restores(stock, run);
                    lemma_idle_accounted(stock, idle(run.verdict, stock));
                }
            },
            _ => lemma_idle_accounted(stock, map_member(d, n, stock, rules)->Some_0),
        }
    }
}

proof fn lemma_map_unwrap_accounted(d: nat, n: Node, stock: Entries, rules: Rules)
    requires
        keys_ascending(stock),
    ensures
        map_unwrap(d, n, stock, rules) matches Some(run) ==> map_accounted(stock, run),
    decreases d, 2int, 0int,
{
    if let Node::Mapping(m) = n {
        lemma_map_members_accounted(d, m.members@, 0, stock, rules);
    } else {
        lemma_idle_accounted(stock, map_unwrap(d, n, stock, rules)->Some_0);
    }
}

/// Matching members of a map, one after the other, accounts for every entry.
pub proof fn lemma_map_members_accounted(
    d: nat,
    members: Seq<Node>,
    i: int,
    stock: Entries,
    rules: Rules,
)
    requires
        keys_ascending(stock),
    ensures
        map_members(d, members, i, stock, rules) matches Some(run) ==> map_accounted(stock, run),
    decreases d, 1int, members.len() - i,
{
    if 0 <= i < members.len() {
        lemma_map_member_accounted(d, members[i], stock, rules);
        if let Some(run) = map_member(d, members[i], stock, rules) {
            lemma_map_members_accounted(d, members, i + 1, run.rest, rules);
            if let Some(next) = map_members(d, members, i + 1, run.rest, rules) {
                lemma_followed_accounted(stock, run, next);
            }
        }
    } else {
        lemma_idle_accounted(stock, map_members(d, members, i, stock, rules)->Some_0);
    }
}

proof fn lemma_map_options_accounted(
    d: nat,
    options: Seq<Node>,
    i: int,
    stock: Entries,
    rules: Rules,
)
    requires
        keys_ascending(stock),
    ensures
        map_options(d, options, i, stock, rules) matches Some(run) ==> map_accounted(stock, run),
    decreases d, 1int, options.len() - i,
{
    if 0 <= i < options.len() {
        lemma_map_member_accounted(d, options[i], stock, rules);
        if let Some(run) = map_member(d, options[i], stock, rules) {
            lemma_map_options_accounted(d, options, i + 1, run.rest, rules);
            if let Some(next) = map_options(d, options, i + 1, run.rest, rules) {
                lemma_followed_accounted(stock, run, next);
            }
        }
    } else {
        lemma_idle_accounted(stock, map_options(d, options, i, stock, rules)->Some_0);
    }
}

proof fn lemma_map_occur_accounted(d: nat, o: Occur, count: nat, stock: Entries, rules: Rules)
    requires
        keys_ascending(stock),
    ensures
        map_occur(d, o, count, stock, rules) matches Some(run) ==> map_accounted(stock, run),
    decreases d, 1int, limit_bounds(o.limit).1 - count,
{
    if count >= limit_bounds(o.limit).1 {
        lemma_idle_accounted(stock, map_occur(d, o, count, stock, rules)->Some_0);
    } else {
        lemma_map_member_accounted(d, *o.node, stock, rules);
        if let Some(run) = map_member(d, *o.node, stock, rules) {
            lemma_map_occur_accounted(d, o, count + 1, run.rest, rules);
            if let Some(next) = map_occur(d, o, count + 1, run.rest, rules) {
                lemma_followed_accounted(stock, run, next);
            }
        }
    }
}

proof fn lemma_search_key(d: nat, n: Node, stock: Entries, i: int, rules: Rules)
    requires
        0 <= i <= stock.len(),
    ensures
        search_key(d, n, stock, i, rules) matches Some(Ok(k)) ==> {
            &&& i <= k < stock.len()
            &&& judge(d, stock[k].0, n, rules) matches Some(Ok(_))
        },
    decreases stock.len() - i,
{
    if i < stock.len() {
        lemma_search_key(d, n, stock, i + 1, rules);
    }
}

/// The key that is found for a node is one of the map, and it is the literal's own value or one
/// that matches the node.
pub proof fn lemma_key_found(d: nat, n: Node, stock: Entries, rules: Rules)
    ensures
        map_key(d, n, stock, rules) matches Some(Ok(k)) ==> {
            &&& 0 <= k < stock.len()
            &&& match n {
                Node::Literal(l) => stock[k].0 == literal_value(l),
                _ => judge(d, stock[k].0, n, rules) matches Some(Ok(_)),
            }
        },
{
    match n {
        Node::Literal(l) => lemma_position(stock, literal_value(l)),
        _ => lemma_search_key(d, n, stock, 0, rules),
    }
}

proof fn lemma_map_keyvalue_accounted(d: nat, kv: KeyValue, stock: Entries, rules: Rules)
    requires
        keys_ascending(stock),
    ensures
        map_keyvalue(d, kv, stock, rules) matches Some(run) ==> map_accounted(stock, run),
    decreases d, 3int, 0int,
{
    broadcast use vstd::multiset::group_multiset_axioms;

    lemma_key_found(d, *kv.key, stock, rules);
    if let Some(run) = map_keyvalue(d, kv, stock, rules) {
        match run.verdict {
            Ok(_) => {
                let i = map_key(d, *kv.key, stock, rules)->Some_0->Ok_0;
                lemma_without_ascending(stock, stock[i].0);
                lemma_without_pool(stock, i);
                assert(run.rest + run.taken =~= run.rest.push(stock[i]));
                vstd::seq_lib::to_multiset_build(run.rest, stock[i]);
            },
            Err(_) => lemma_idle_accounted(stock, run),
        }
    }
}

/// A group of a map that fails leaves the map as it was, whatever the groups inside it have taken.
pub proof fn lemma_failed_group_restores_map(d: nat, g: Group, stock: Entries, rules: Rules)
    requires
        keys_ascending(stock),
    ensures
        map_member(d, Node::Group(g), stock, rules) matches Some(run) ==> run.verdict is Err
            ==> run == idle(run.verdict, stock),
{
    if d > 0 {
        lemma_map_members_accounted((d - 1) as nat, g.members@, 0, stock, rules);
        if let Some(run) = map_members((d - 1) as nat, g.members@, 0, stock, rules) {
            lemma_taken_restores(stock, run);
        }
    }
}

/// A map that matches is used up: every entry was taken by a member.
pub proof fn lemma_matched_map_used_up(d: nat, m: Mapping, stock: Entries, rules: Rules)
    requires
        keys_ascending(stock),
    ensures
        judge_mapping(d, m, ValueView::Mapping(stock), rules) matches Some(Ok(_)) ==> {
            let run = map_members(d, m.members@, 0, stock, rules)->Some_0;
            pool(run.taken) == pool(stock)
        },
{
    lemma_map_members_accounted(d, m.members@, 0, stock, rules);
    if judge_mapping(d, m, ValueView::Mapping(stock), rules) matches Some(Ok(_)) {
        let run = map_members(d, m.members@, 0, stock, rules)->Some_0;
        assert(run.rest + run.taken =~= run.taken);
    }
}

} // verus!
