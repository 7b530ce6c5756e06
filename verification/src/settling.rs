//! When a number of nested steps suffices.
//!
//! A schema may refer to itself, as long as it does so inside an array or a map: the values in
//! there are nested less deeply. What may not be is a rule that leads back to itself for the same
//! value, or among the members of the same array or map.
use vstd::prelude::*;

use crate::context::Rules;
use crate::depth::{
    lemma_array_member_depth, lemma_array_members_depth, lemma_array_occur_depth,
    lemma_array_options_depth, lemma_bound_depth, lemma_judge_depth, lemma_judge_options_depth,
    lemma_map_member_depth, lemma_map_members_depth, lemma_map_occur_depth,
    lemma_map_options_depth, lemma_search_key_depth,
};
use crate::entries::{with, with_all, without, Entries};
use crate::ivt::{limit_bounds, Choice, KeyValue, Node, Occur, Rule};
use crate::semantics::{
    array_member, array_members, array_occur, array_options, array_unwrap, array_value, bound,
    judge, judge_options, judge_rule, map_key, map_keyvalue, map_member, map_members, map_occur,
    map_options, map_unwrap, search_key, Run,
};
use crate::value::ValueView;

verus! {

/// The greater of two numbers.
pub open spec fn greater(a: nat, b: nat) -> nat {
    if a < b {
        b
    } else {
        a
    }
}

/// How deeply arrays and maps are nested in a value.
pub open spec fn nesting(v: ValueView) -> nat
    decreases v, 0int,
{
    match v {
        ValueView::Array(items) => values_nesting(items, 0),
        ValueView::Mapping(entries) => entries_nesting(entries, 0),
        _ => 0,
    }
}

/// One more than the deepest nesting of the items from index `i` on.
pub open spec fn values_nesting(items: Seq<ValueView>, i: int) -> nat
    decreases items, items.len() - i,
{
    if i < 0 || i >= items.len() {
        0
    } else {
        greater(nesting(items[i]) + 1, values_nesting(items, i + 1))
    }
}

/// One more than the deepest nesting of the keys and the values from index `i` on.
pub open spec fn entries_nesting(entries: Entries, i: int) -> nat
    decreases entries, entries.len() - i,
{
    if i < 0 || i >= entries.len() {
        0
    } else {
        greater(
            greater(nesting(entries[i].0) + 1, nesting(entries[i].1) + 1),
            entries_nesting(entries, i + 1),
        )
    }
}

/// A number for each rule and each of the ways in which it is referred to.
pub ghost struct Ranks {
    /// As what a value is held against.
    pub value: spec_fn(Seq<char>) -> nat,
    /// As a member of an array, a map or a group.
    pub member: spec_fn(Seq<char>) -> nat,
    /// As an array or a map whose members are unwrapped.
    pub inside: spec_fn(Seq<char>) -> nat,
}

/// More than the rank of any rule that a value is held against on the way through a node.
pub open spec fn value_height(n: Node, ranks: Ranks) -> nat
    decreases n, 0int,
{
    match n {
        Node::Rule(r) => (ranks.value)(r.name@) + 1,
        Node::Choice(c) => values_height(c.options@, 0, ranks),
        Node::Group(g) => if g.members@.len() == 1 {
            value_height(g.members@[0], ranks)
        } else {
            0
        },
        Node::Range(r) => greater(value_height(*r.start, ranks), value_height(*r.end, ranks)),
        _ => 0,
    }
}

/// The greatest height of the nodes from index `i` on.
pub open spec fn values_height(nodes: Seq<Node>, i: int, ranks: Ranks) -> nat
    decreases nodes, nodes.len() - i,
{
    if i < 0 || i >= nodes.len() {
        0
    } else {
        greater(value_height(nodes[i], ranks), values_height(nodes, i + 1, ranks))
    }
}

/// More than the rank of any rule that stands for members on the way through a member.
pub open spec fn member_height(n: Node, ranks: Ranks) -> nat
    decreases n, 0int,
{
    match n {
        Node::Rule(r) => (ranks.member)(r.name@) + 1,
        Node::Unwrap(r) => (ranks.inside)(r.name@) + 1,
        Node::Occur(o) => member_height(*o.node, ranks),
        Node::Choice(c) => members_height(c.options@, 0, ranks),
        Node::Group(g) => members_height(g.members@, 0, ranks),
        _ => 0,
    }
}

/// The greatest height of the members from index `i` on.
pub open spec fn members_height(nodes: Seq<Node>, i: int, ranks: Ranks) -> nat
    decreases nodes, nodes.len() - i,
{
    if i < 0 || i >= nodes.len() {
        0
    } else {
        greater(member_height(nodes[i], ranks), members_height(nodes, i + 1, ranks))
    }
}

/// The greatest height of the members of an array or a map.
pub open spec fn inside_height(n: Node, ranks: Ranks) -> nat {
    match n {
        Node::Array(a) => members_height(a.members@, 0, ranks),
        Node::Mapping(m) => members_height(m.members@, 0, ranks),
        _ => 0,
    }
}

/// Every rule refers only to rules of a lower rank, but for those inside its arrays and maps.
pub open spec fn well_founded(rules: Rules, ranks: Ranks) -> bool {
    forall|name: Seq<char>| #[trigger]
        rules(name) matches Ok(node) ==> {
            &&& value_height(node, ranks) <= (ranks.value)(name)
            &&& member_height(node, ranks) <= (ranks.member)(name)
            &&& inside_height(node, ranks) <= (ranks.inside)(name)
        }
}

/// How deeply nodes are nested in a node.
pub open spec fn node_depth(n: Node) -> nat
    decreases n, 0int,
{
    match n {
        Node::Choice(c) => nodes_depth(c.options@, 0) + 1,
        Node::Mapping(m) => nodes_depth(m.members@, 0) + 1,
        Node::Array(a) => nodes_depth(a.members@, 0) + 1,
        Node::Group(g) => nodes_depth(g.members@, 0) + 1,
        Node::KeyValue(kv) => greater(node_depth(*kv.key), node_depth(*kv.value)) + 1,
        Node::Occur(o) => node_depth(*o.node) + 1,
        Node::Range(r) => greater(node_depth(*r.start), node_depth(*r.end)) + 1,
        _ => 0,
    }
}

/// The deepest nesting of the nodes from index `i` on.
pub open spec fn nodes_depth(nodes: Seq<Node>, i: int) -> nat
    decreases nodes, nodes.len() - i,
{
    if i < 0 || i >= nodes.len() {
        0
    } else {
        greater(node_depth(nodes[i]), nodes_depth(nodes, i + 1))
    }
}

/// How large a schema is: the greatest rank of a rule, and the deepest nesting of a definition.
pub ghost struct Size {
    pub rank: nat,
    pub depth: nat,
}

/// The rules keep to a size.
pub open spec fn sized(rules: Rules, ranks: Ranks, z: Size) -> bool {
    &&& forall|name: Seq<char>| #[trigger] (ranks.value)(name) <= z.rank
    &&& forall|name: Seq<char>| #[trigger] (ranks.member)(name) <= z.rank
    &&& forall|name: Seq<char>| #[trigger] (ranks.inside)(name) <= z.rank
    &&& forall|name: Seq<char>| #[trigger]
        rules(name) matches Ok(node) ==> node_depth(node) <= z.depth
}

/// The steps through `k` definitions, one after the other.
pub open spec fn hops(k: nat, z: Size) -> nat {
    k * (z.depth + 1)
}

/// The steps through a node and all definitions that it can lead to for the same value, or among
/// the members of the same array or map.
pub open spec fn span(z: Size) -> nat {
    hops(z.rank + 2, z)
}

/// The steps that suffice for any value that is nested less deeply than `h`.
pub open spec fn steps_below(h: nat, z: Size) -> nat {
    h * (2 * span(z))
}

/// The steps that suffice to hold members against an array or a map, if its items are nested less
/// deeply than `h`, rules of a rank below `k` are referred to, and nodes are nested `s` deep.
pub open spec fn member_steps(h: nat, k: nat, s: nat, z: Size) -> nat {
    hops(k, z) + s + 1 + steps_below(h, z)
}

/// The steps that suffice to hold a value against a node, if it is nested `h` deep, rules of a rank
/// below `k` are referred to, and nodes are nested `s` deep.
pub open spec fn value_steps(h: nat, k: nat, s: nat, z: Size) -> nat {
    hops(k, z) + s + 1 + span(z) + steps_below(h, z)
}

/// The steps that suffice for a value, in a schema of a size.
pub open spec fn steps_for(v: ValueView, z: Size) -> nat {
    steps_below(nesting(v) + 1, z)
}

proof fn lemma_hops(j: nat, k: nat, z: Size)
    requires
        j < k,
    ensures
        hops(j, z) + z.depth + 1 <= hops(k, z),
{
    assert(j * (z.depth + 1) + (z.depth + 1) <= k * (z.depth + 1)) by (nonlinear_arith)
        requires
            j + 1 <= k,
    ;
}

proof fn lemma_steps_below(h: nat, z: Size)
    requires
        h > 0,
    ensures
        steps_below(h, z) == steps_below((h - 1) as nat, z) + 2 * span(z),
{
    let p = 2 * span(z);
    assert(h * p == (h - 1) * p + p) by (nonlinear_arith);
}

proof fn lemma_value_height(n: Node, rules: Rules, ranks: Ranks, z: Size)
    requires
        sized(rules, ranks, z),
    ensures
        value_height(n, ranks) <= z.rank + 1,
    decreases n, 0int,
{
    match n {
        Node::Choice(c) => lemma_values_height(c.options@, 0, rules, ranks, z),
        Node::Group(g) => if g.members@.len() == 1 {
            lemma_value_height(g.members@[0], rules, ranks, z);
        },
        Node::Range(r) => {
            lemma_value_height(*r.start, rules, ranks, z);
            lemma_value_height(*r.end, rules, ranks, z);
        },
        _ => {},
    }
}

proof fn lemma_values_height(nodes: Seq<Node>, i: int, rules: Rules, ranks: Ranks, z: Size)
    requires
        sized(rules, ranks, z),
    ensures
        values_height(nodes, i, ranks) <= z.rank + 1,
    decreases nodes, nodes.len() - i,
{
    if 0 <= i < nodes.len() {
        lemma_value_height(nodes[i], rules, ranks, z);
        lemma_values_height(nodes, i + 1, rules, ranks, z);
    }
}

proof fn lemma_member_height(n: Node, rules: Rules, ranks: Ranks, z: Size)
    requires
        sized(rules, ranks, z),
    ensures
        member_height(n, ranks) <= z.rank + 1,
    decreases n, 0int,
{
    match n {
        Node::Occur(o) => lemma_member_height(*o.node, rules, ranks, z),
        Node::Choice(c) => lemma_members_height(c.options@, 0, rules, ranks, z),
        Node::Group(g) => lemma_members_height(g.members@, 0, rules, ranks, z),
        _ => {},
    }
}

proof fn lemma_members_height(nodes: Seq<Node>, i: int, rules: Rules, ranks: Ranks, z: Size)
    requires
        sized(rules, ranks, z),
    ensures
        members_height(nodes, i, ranks) <= z.rank + 1,
    decreases nodes, nodes.len() - i,
{
    if 0 <= i < nodes.len() {
        lemma_member_height(nodes[i], rules, ranks, z);
        lemma_members_height(nodes, i + 1, rules, ranks, z);
    }
}

/// Each item is nested less deeply than `h`.
pub open spec fn shallow(items: Seq<ValueView>, h: nat) -> bool {
    forall|i: int| 0 <= i < items.len() ==> nesting(#[trigger] items[i]) < h
}

/// Each key and each value is nested less deeply than `h`.
pub open spec fn shallow_entries(entries: Entries, h: nat) -> bool {
    forall|i: int|
        0 <= i < entries.len() ==> nesting((#[trigger] entries[i]).0) < h && nesting(entries[i].1)
            < h
}

proof fn lemma_values_nesting(items: Seq<ValueView>, i: int)
    requires
        0 <= i <= items.len(),
    ensures
        forall|j: int|
            i <= j < items.len() ==> nesting(#[trigger] items[j]) < values_nesting(items, i),
    decreases items.len() - i,
{
    if i < items.len() {
        lemma_values_nesting(items, i + 1);
    }
}

proof fn lemma_entries_nesting(entries: Entries, i: int)
    requires
        0 <= i <= entries.len(),
    ensures
        forall|j: int|
            i <= j < entries.len() ==> nesting((#[trigger] entries[j]).0) < entries_nesting(
                entries,
                i,
            ) && nesting(entries[j].1) < entries_nesting(entries, i),
    decreases entries.len() - i,
{
    if i < entries.len() {
        lemma_entries_nesting(entries, i + 1);
    }
}

/// What is in an array or a map is nested less deeply than the whole.
pub proof fn lemma_nesting(v: ValueView)
    ensures
        v matches ValueView::Array(items) ==> shallow(items, nesting(v)),
        v matches ValueView::Mapping(entries) ==> shallow_entries(entries, nesting(v)),
{
    match v {
        ValueView::Array(items) => lemma_values_nesting(items, 0),
        ValueView::Mapping(entries) => lemma_entries_nesting(entries, 0),
        _ => {},
    }
}

/// Validation comes to an end: where every rule refers only to rules of a lower rank, but for those
/// inside its arrays and maps, some number of nested steps suffices for any value and any node.
pub proof fn lemma_judge_settles(v: ValueView, n: Node, rules: Rules, ranks: Ranks) -> (d: nat)
    requires
        well_founded(rules, ranks),
    ensures
        judge(d, v, n, rules) is Some,
{
    let z = Size { rank: 0, depth: 0 };
    lemma_settles(v, n, nesting(v), value_height(n, ranks), 0, z, rules, ranks)
}

/// How many steps suffice: in a schema of a size, a number that grows with the nesting of the value
/// alone.
pub proof fn lemma_judge_settles_within(
    v: ValueView,
    n: Node,
    z: Size,
    rules: Rules,
    ranks: Ranks,
)
    requires
        well_founded(rules, ranks),
        sized(rules, ranks, z),
        node_depth(n) <= z.depth,
    ensures
        judge(steps_for(v, z), v, n, rules) is Some,
{
    let h = nesting(v);
    let k = value_height(n, ranks);
    let d = lemma_settles(v, n, h, k, z.depth, z, rules, ranks);
    lemma_value_height(n, rules, ranks, z);
    lemma_hops(k, z.rank + 2, z);
    lemma_steps_below(h + 1, z);
    lemma_judge_depth(d, steps_for(v, z), v, n, rules);
}

/// A value and a node may be handed to `validate` where the steps that suffice can be counted.
pub proof fn lemma_validate_ready(v: ValueView, n: Node, z: Size, rules: Rules, ranks: Ranks)
    requires
        well_founded(rules, ranks),
        sized(rules, ranks, z),
        node_depth(n) <= z.depth,
        steps_for(v, z) <= usize::MAX,
    ensures
        exists|d: nat| d <= usize::MAX && #[trigger] judge(d, v, n, rules) is Some,
{
    lemma_judge_settles_within(v, n, z, rules, ranks);
}

/// A value and a choice may be handed to `validate_choice` where the steps that suffice can be
/// counted.
pub proof fn lemma_validate_choice_ready(
    v: ValueView,
    c: Choice,
    z: Size,
    rules: Rules,
    ranks: Ranks,
)
    requires
        well_founded(rules, ranks),
        sized(rules, ranks, z),
        node_depth(Node::Choice(c)) <= z.depth,
        steps_for(v, z) <= usize::MAX,
    ensures
        exists|d: nat|
            d <= usize::MAX && #[trigger] judge_options(d, c.options@, 0, v, rules) is Some,
{
    let d = steps_for(v, z);
    lemma_judge_settles_within(v, Node::Choice(c), z, rules, ranks);
    assert(judge_options((d - 1) as nat, c.options@, 0, v, rules) is Some);
}

/// A value and a rule may be handed to `validate_rule` where the steps that suffice can be counted.
pub proof fn lemma_validate_rule_ready(
    v: ValueView,
    r: Rule,
    z: Size,
    rules: Rules,
    ranks: Ranks,
)
    requires
        well_founded(rules, ranks),
        sized(rules, ranks, z),
        steps_for(v, z) <= usize::MAX,
    ensures
        exists|d: nat| d <= usize::MAX && #[trigger] judge_rule(d, r, v, rules) is Some,
{
    let d = steps_for(v, z);
    lemma_judge_settles_within(v, Node::Rule(r), z, rules, ranks);
    assert(judge_rule((d - 1) as nat, r, v, rules) is Some);
}

/// One level less of nesting.
spec fn within(s: nat) -> nat {
    if s > 0 {
        (s - 1) as nat
    } else {
        0
    }
}

proof fn lemma_settles(
    v: ValueView,
    n: Node,
    h: nat,
    k: nat,
    s: nat,
    z: Size,
    rules: Rules,
    ranks: Ranks,
) -> (d: nat)
    requires
        well_founded(rules, ranks),
        nesting(v) <= h,
        value_height(n, ranks) <= k,
    ensures
        judge(d, v, n, rules) is Some,
        sized(rules, ranks, z) && node_depth(n) <= s <= z.depth ==> d <= value_steps(h, k, s, z),
    decreases h, 3int, k, n, 0int,
{
    match n {
        Node::Choice(c) => lemma_options_settle(
            c.options@,
            0,
            v,
            h,
            k,
            within(s),
            z,
            rules,
            ranks,
        ) + 1,
        Node::Rule(r) => match rules(r.name@) {
            Ok(node) => {
                let j = (ranks.value)(r.name@);
                lemma_hops(j, k, z);
                lemma_settles(v, node, h, j, z.depth, z, rules, ranks) + 1
            },
            Err(_) => 1,
        },
        Node::Group(g) => if g.members@.len() == 1 {
            assert(nodes_depth(g.members@, 0) >= node_depth(g.members@[0]));
            lemma_settles(v, g.members@[0], h, k, within(s), z, rules, ranks) + 1
        } else {
            1
        },
        Node::Range(r) => {
            let a = lemma_bound_settles(*r.start, k, within(s), z, rules, ranks);
            let b = lemma_bound_settles(*r.end, k, within(s), z, rules, ranks);
            lemma_bound_depth(a, greater(a, b), *r.start, rules);
            lemma_bound_depth(b, greater(a, b), *r.end, rules);
            greater(a, b) + 1
        },
        Node::Array(a) => {
            lemma_nesting(v);
            if let ValueView::Array(items) = v {
                let j = members_height(a.members@, 0, ranks);
                if sized(rules, ranks, z) {
                    lemma_members_height(a.members@, 0, rules, ranks, z);
                    lemma_hops(j, z.rank + 2, z);
                }
                lemma_array_members_settle(a.members@, 0, items, h, j, within(s), z, rules, ranks)
                    + 1
            } else {
                1
            }
        },
        Node::Mapping(m) => {
            lemma_nesting(v);
            if let ValueView::Mapping(stock) = v {
                let j = members_height(m.members@, 0, ranks);
                if sized(rules, ranks, z) {
                    lemma_members_height(m.members@, 0, rules, ranks, z);
                    lemma_hops(j, z.rank + 2, z);
                }
                lemma_map_members_settle(m.members@, 0, stock, h, j, within(s), z, rules, ranks)
                    + 1
            } else {
                1
            }
        },
        _ => 1,
    }
}

proof fn lemma_options_settle(
    options: Seq<Node>,
    i: int,
    v: ValueView,
    h: nat,
    k: nat,
    s: nat,
    z: Size,
    rules: Rules,
    ranks: Ranks,
) -> (d: nat)
    requires
        well_founded(rules, ranks),
        nesting(v) <= h,
        values_height(options, i, ranks) <= k,
    ensures
        judge_options(d, options, i, v, rules) is Some,
        sized(rules, ranks, z) && nodes_depth(options, i) <= s <= z.depth ==> d <= value_steps(
            h,
            k,
            s,
            z,
        ),
    decreases h, 3int, k, options, options.len() - i,
{
    if 0 <= i < options.len() {
        let a = lemma_settles(v, options[i], h, k, s, z, rules, ranks);
        let b = lemma_options_settle(options, i + 1, v, h, k, s, z, rules, ranks);
        let d = greater(a, b);
        lemma_judge_depth(a, d, v, options[i], rules);
        lemma_judge_options_depth(b, d, options, i + 1, v, rules);
        d
    } else {
        0
    }
}

proof fn lemma_bound_settles(
    n: Node,
    k: nat,
    s: nat,
    z: Size,
    rules: Rules,
    ranks: Ranks,
) -> (d: nat)
    requires
        well_founded(rules, ranks),
        value_height(n, ranks) <= k,
    ensures
        bound(d, n, rules) is Some,
        sized(rules, ranks, z) ==> d <= hops(k, z) + s + 1,
    decreases k,
{
    match n {
        Node::Rule(r) => match rules(r.name@) {
            Ok(node) => {
                let j = (ranks.value)(r.name@);
                lemma_hops(j, k, z);
                lemma_bound_settles(node, j, z.depth, z, rules, ranks) + 1
            },
            Err(_) => 1,
        },
        _ => 1,
    }
}

proof fn lemma_settles_below(
    v: ValueView,
    n: Node,
    h: nat,
    z: Size,
    rules: Rules,
    ranks: Ranks,
) -> (d: nat)
    requires
        well_founded(rules, ranks),
        nesting(v) < h,
    ensures
        judge(d, v, n, rules) is Some,
        sized(rules, ranks, z) && node_depth(n) <= z.depth ==> d <= steps_below(h, z),
    decreases h - 1, 4int, 0int, n, 0int,
{
    let k = value_height(n, ranks);
    if sized(rules, ranks, z) {
        lemma_value_height(n, rules, ranks, z);
        lemma_hops(k, z.rank + 2, z);
    }
    lemma_steps_below(h, z);
    lemma_settles(v, n, (h - 1) as nat, k, z.depth, z, rules, ranks)
}

/// The run comes to an end, and leaves and takes only what is nested less deeply than `h`.
pub open spec fn shallow_run(run: Option<Run<ValueView>>, h: nat) -> bool {
    run matches Some(r) && shallow(r.rest, h) && shallow(r.taken, h)
}

proof fn lemma_array_member_settles(
    n: Node,
    items: Seq<ValueView>,
    h: nat,
    k: nat,
    s: nat,
    z: Size,
    rules: Rules,
    ranks: Ranks,
) -> (d: nat)
    requires
        well_founded(rules, ranks),
        shallow(items, h),
        member_height(n, ranks) <= k,
    ensures
        shallow_run(array_member(d, n, items, rules), h),
        sized(rules, ranks, z) && node_depth(n) <= s <= z.depth ==> d <= member_steps(h, k, s, z),
    decreases h, 2int, k, n, 0int,
{
    match n {
        Node::Occur(o) => lemma_array_occur_settles(
            o,
            0,
            items,
            h,
            k,
            within(s),
            z,
            rules,
            ranks,
        ) + 1,
        Node::KeyValue(kv) => lemma_array_value_settles(*kv.value, items, h, z, rules, ranks) + 1,
        Node::Rule(r) => match rules(r.name@) {
            Ok(node) => {
                let j = (ranks.member)(r.name@);
                lemma_hops(j, k, z);
                lemma_array_member_settles(node, items, h, j, z.depth, z, rules, ranks) + 1
            },
            Err(_) => 1,
        },
        Node::Unwrap(r) => match rules(r.name@) {
            Ok(node) => {
                let j = (ranks.inside)(r.name@);
                lemma_hops(j, k, z);
                lemma_array_unwrap_settles(node, items, h, j, z.depth, z, rules, ranks) + 1
            },
            Err(_) => 1,
        },
        Node::Choice(c) => lemma_array_options_settle(
            c.options@,
            0,
            items,
            h,
            k,
            within(s),
            z,
            rules,
            ranks,
        ) + 1,
        Node::Group(g) => lemma_array_members_settle(
            g.members@,
            0,
            items,
            h,
            k,
            within(s),
            z,
            rules,
            ranks,
        ) + 1,
        _ => lemma_array_value_settles(n, items, h, z, rules, ranks) + 1,
    }
}

proof fn lemma_array_unwrap_settles(
    n: Node,
    items: Seq<ValueView>,
    h: nat,
    k: nat,
    s: nat,
    z: Size,
    rules: Rules,
    ranks: Ranks,
) -> (d: nat)
    requires
        well_founded(rules, ranks),
        shallow(items, h),
        inside_height(n, ranks) <= k,
    ensures
        shallow_run(array_unwrap(d, n, items, rules), h),
        sized(rules, ranks, z) && node_depth(n) <= s <= z.depth ==> d <= member_steps(h, k, s, z),
    decreases h, 2int, k, n, 0int,
{
    match n {
        Node::Array(a) => lemma_array_members_settle(
            a.members@,
            0,
            items,
            h,
            k,
            s,
            z,
            rules,
            ranks,
        ),
        _ => 0,
    }
}

proof fn lemma_array_value_settles(
    n: Node,
    items: Seq<ValueView>,
    h: nat,
    z: Size,
    rules: Rules,
    ranks: Ranks,
) -> (d: nat)
    requires
        well_founded(rules, ranks),
        shallow(items, h),
    ensures
        shallow_run(array_value(d, n, items, rules), h),
        sized(rules, ranks, z) && node_depth(n) <= z.depth ==> d <= steps_below(h, z),
    decreases h, 0int, 0int, n, 0int,
{
    if items.len() == 0 {
        0
    } else {
        assert(nesting(items[0]) < h);
        lemma_settles_below(items[0], n, h, z, rules, ranks)
    }
}

proof fn lemma_array_members_settle(
    members: Seq<Node>,
    i: int,
    items: Seq<ValueView>,
    h: nat,
    k: nat,
    s: nat,
    z: Size,
    rules: Rules,
    ranks: Ranks,
) -> (d: nat)
    requires
        well_founded(rules, ranks),
        shallow(items, h),
        members_height(members, i, ranks) <= k,
    ensures
        shallow_run(array_members(d, members, i, items, rules), h),
        sized(rules, ranks, z) && nodes_depth(members, i) <= s <= z.depth ==> d <= member_steps(
            h,
            k,
            s,
            z,
        ),
    decreases h, 2int, k, members, members.len() - i,
{
    if 0 <= i < members.len() {
        let a = lemma_array_member_settles(members[i], items, h, k, s, z, rules, ranks);
        let run = array_member(a, members[i], items, rules)->Some_0;
        let b = lemma_array_members_settle(members, i + 1, run.rest, h, k, s, z, rules, ranks);
        let d = greater(a, b);
        lemma_array_member_depth(a, d, members[i], items, rules);
        lemma_array_members_depth(b, d, members, i + 1, run.rest, rules);
        d
    } else {
        0
    }
}

proof fn lemma_array_options_settle(
    options: Seq<Node>,
    i: int,
    items: Seq<ValueView>,
    h: nat,
    k: nat,
    s: nat,
    z: Size,
    rules: Rules,
    ranks: Ranks,
) -> (d: nat)
    requires
        well_founded(rules, ranks),
        shallow(items, h),
        members_height(options, i, ranks) <= k,
    ensures
        shallow_run(array_options(d, options, i, items, rules), h),
        sized(rules, ranks, z) && nodes_depth(options, i) <= s <= z.depth ==> d <= member_steps(
            h,
            k,
            s,
            z,
        ),
    decreases h, 2int, k, options, options.len() - i,
{
    if 0 <= i < options.len() {
        let a = lemma_array_member_settles(options[i], items, h, k, s, z, rules, ranks);
        let run = array_member(a, options[i], items, rules)->Some_0;
        let b = lemma_array_options_settle(options, i + 1, run.rest, h, k, s, z, rules, ranks);
        let d = greater(a, b);
        lemma_array_member_depth(a, d, options[i], items, rules);
        lemma_array_options_depth(b, d, options, i + 1, run.rest, rules);
        d
    } else {
        0
    }
}

proof fn lemma_array_occur_settles(
    o: Occur,
    count: nat,
    items: Seq<ValueView>,
    h: nat,
    k: nat,
    s: nat,
    z: Size,
    rules: Rules,
    ranks: Ranks,
) -> (d: nat)
    requires
        well_founded(rules, ranks),
        shallow(items, h),
        member_height(*o.node, ranks) <= k,
    ensures
        shallow_run(array_occur(d, o, count, items, rules), h),
        sized(rules, ranks, z) && node_depth(*o.node) <= s <= z.depth ==> d <= member_steps(
            h,
            k,
            s,
            z,
        ),
    decreases h, 2int, k, o, limit_bounds(o.limit).1 - count,
{
    if count < limit_bounds(o.limit).1 {
        let a = lemma_array_member_settles(*o.node, items, h, k, s, z, rules, ranks);
        let run = array_member(a, *o.node, items, rules)->Some_0;
        let b = lemma_array_occur_settles(o, count + 1, run.rest, h, k, s, z, rules, ranks);
        let d = greater(a, b);
        lemma_array_member_depth(a, d, *o.node, items, rules);
        lemma_array_occur_depth(b, d, o, count + 1, run.rest, rules);
        d
    } else {
        0
    }
}

/// The run comes to an end, and leaves and takes only what is nested less deeply than `h`.
pub open spec fn shallow_map_run(run: Option<Run<(ValueView, ValueView)>>, h: nat) -> bool {
    run matches Some(r) && shallow_entries(r.rest, h) && shallow_entries(r.taken, h)
}

proof fn lemma_with_all_shallow(s: Entries, pairs: Entries, h: nat)
    requires
        shallow_entries(s, h),
        shallow_entries(pairs, h),
    ensures
        shallow_entries(with_all(s, pairs), h),
    decreases pairs.len(),
{
    if pairs.len() > 0 {
        let entry = pairs[0];
        let t = with(s, entry.0, entry.1);
        crate::entries::lemma_slot_from(s, entry.0, 0);
        let p = crate::entries::slot_from(s, entry.0, 0);
        assert forall|i: int| 0 <= i < t.len() implies nesting((#[trigger] t[i]).0) < h && nesting(
            t[i].1,
        ) < h by {
            if t.len() == s.len() {
                assert(t[i] == entry || t[i] == s[i]);
            } else {
                assert(t[i] == entry || i < p && t[i] == s[i] || i > p && t[i] == s[i - 1]);
            }
        }
        lemma_with_all_shallow(t, pairs.drop_first(), h);
    }
}

proof fn lemma_map_member_settles(
    n: Node,
    stock: Entries,
    h: nat,
    k: nat,
    s: nat,
    z: Size,
    rules: Rules,
    ranks: Ranks,
) -> (d: nat)
    requires
        well_founded(rules, ranks),
        shallow_entries(stock, h),
        member_height(n, ranks) <= k,
    ensures
        shallow_map_run(map_member(d, n, stock, rules), h),
        sized(rules, ranks, z) && node_depth(n) <= s <= z.depth ==> d <= member_steps(h, k, s, z),
    decreases h, 2int, k, n, 0int,
{
    match n {
        Node::Occur(o) => lemma_map_occur_settles(
            o,
            0,
            stock,
            h,
            k,
            within(s),
            z,
            rules,
            ranks,
        ) + 1,
        Node::KeyValue(kv) => lemma_map_keyvalue_settles(kv, stock, h, z, rules, ranks) + 1,
        Node::Rule(r) => match rules(r.name@) {
            Ok(node) => {
                let j = (ranks.member)(r.name@);
                lemma_hops(j, k, z);
                lemma_map_member_settles(node, stock, h, j, z.depth, z, rules, ranks) + 1
            },
            Err(_) => 1,
        },
        Node::Unwrap(r) => match rules(r.name@) {
            Ok(node) => {
                let j = (ranks.inside)(r.name@);
                lemma_hops(j, k, z);
                lemma_map_unwrap_settles(node, stock, h, j, z.depth, z, rules, ranks) + 1
            },
            Err(_) => 1,
        },
        Node::Choice(c) => lemma_map_options_settle(
            c.options@,
            0,
            stock,
            h,
            k,
            within(s),
            z,
            rules,
            ranks,
        ) + 1,
        Node::Group(g) => {
            let d = lemma_map_members_settle(
                g.members@,
                0,
                stock,
                h,
                k,
                within(s),
                z,
                rules,
                ranks,
            );
            let run = map_members(d, g.members@, 0, stock, rules)->Some_0;
            lemma_with_all_shallow(run.rest, run.taken, h);
            d + 1
        },
        _ => 1,
    }
}

proof fn lemma_map_unwrap_settles(
    n: Node,
    stock: Entries,
    h: nat,
    k: nat,
    s: nat,
    z: Size,
    rules: Rules,
    ranks: Ranks,
) -> (d: nat)
    requires
        well_founded(rules, ranks),
        shallow_entries(stock, h),
        inside_height(n, ranks) <= k,
    ensures
        shallow_map_run(map_unwrap(d, n, stock, rules), h),
        sized(rules, ranks, z) && node_depth(n) <= s <= z.depth ==> d <= member_steps(h, k, s, z),
    decreases h, 2int, k, n, 0int,
{
    match n {
        Node::Mapping(m) => lemma_map_members_settle(
            m.members@,
            0,
            stock,
            h,
            k,
            s,
            z,
            rules,
            ranks,
        ),
        _ => 0,
    }
}

proof fn lemma_search_settles(
    n: Node,
    stock: Entries,
    i: int,
    h: nat,
    z: Size,
    rules: Rules,
    ranks: Ranks,
) -> (d: nat)
    requires
        well_founded(rules, ranks),
        shallow_entries(stock, h),
        0 <= i,
    ensures
        search_key(d, n, stock, i, rules) matches Some(r) && (r matches Ok(j) ==> 0 <= j
            < stock.len()),
        sized(rules, ranks, z) && node_depth(n) <= z.depth ==> d <= steps_below(h, z),
    decreases h, 0int, 0int, n, stock.len() - i,
{
    if i < stock.len() {
        assert(nesting(stock[i].0) < h);
        let a = lemma_settles_below(stock[i].0, n, h, z, rules, ranks);
        let b = lemma_search_settles(n, stock, i + 1, h, z, rules, ranks);
        let d = greater(a, b);
        lemma_judge_depth(a, d, stock[i].0, n, rules);
        lemma_search_key_depth(b, d, n, stock, i + 1, rules);
        d
    } else {
        0
    }
}

proof fn lemma_map_keyvalue_settles(
    kv: KeyValue,
    stock: Entries,
    h: nat,
    z: Size,
    rules: Rules,
    ranks: Ranks,
) -> (d: nat)
    requires
        well_founded(rules, ranks),
        shallow_entries(stock, h),
    ensures
        shallow_map_run(map_keyvalue(d, kv, stock, rules), h),
        sized(rules, ranks, z) && node_depth(Node::KeyValue(kv)) <= z.depth ==> d <= steps_below(
            h,
            z,
        ),
    decreases h, 1int, 0int, kv, 0int,
{
    let a = lemma_search_settles(*kv.key, stock, 0, h, z, rules, ranks);
    crate::map_laws::lemma_key_found(a, *kv.key, stock, rules);
    match map_key(a, *kv.key, stock, rules) {
        Some(Ok(i)) => {
            assert(nesting(stock[i].1) < h);
            let b = lemma_settles_below(stock[i].1, *kv.value, h, z, rules, ranks);
            let d = greater(a, b);
            lemma_search_key_depth(a, d, *kv.key, stock, 0, rules);
            lemma_judge_depth(b, d, stock[i].1, *kv.value, rules);
            crate::entries::lemma_position(stock, stock[i].0);
            assert(shallow_entries(without(stock, stock[i].0), h));
            d
        },
        _ => a,
    }
}

proof fn lemma_map_members_settle(
    members: Seq<Node>,
    i: int,
    stock: Entries,
    h: nat,
    k: nat,
    s: nat,
    z: Size,
    rules: Rules,
    ranks: Ranks,
) -> (d: nat)
    requires
        well_founded(rules, ranks),
        shallow_entries(stock, h),
        members_height(members, i, ranks) <= k,
    ensures
        shallow_map_run(map_members(d, members, i, stock, rules), h),
        sized(rules, ranks, z) && nodes_depth(members, i) <= s <= z.depth ==> d <= member_steps(
            h,
            k,
            s,
            z,
        ),
    decreases h, 2int, k, members, members.len() - i,
{
    if 0 <= i < members.len() {
        let a = lemma_map_member_settles(members[i], stock, h, k, s, z, rules, ranks);
        let run = map_member(a, members[i], stock, rules)->Some_0;
        let b = lemma_map_members_settle(members, i + 1, run.rest, h, k, s, z, rules, ranks);
        let d = greater(a, b);
        lemma_map_member_depth(a, d, members[i], stock, rules);
        lemma_map_members_depth(b, d, members, i + 1, run.rest, rules);
        d
    } else {
        0
    }
}

proof fn lemma_map_options_settle(
    options: Seq<Node>,
    i: int,
    stock: Entries,
    h: nat,
    k: nat,
    s: nat,
    z: Size,
    rules: Rules,
    ranks: Ranks,
) -> (d: nat)
    requires
        well_founded(rules, ranks),
        shallow_entries(stock, h),
        members_height(options, i, ranks) <= k,
    ensures
        shallow_map_run(map_options(d, options, i, stock, rules), h),
        sized(rules, ranks, z) && nodes_depth(options, i) <= s <= z.depth ==> d <= member_steps(
            h,
            k,
            s,
            z,
        ),
    decreases h, 2int, k, options, options.len() - i,
{
    if 0 <= i < options.len() {
        let a = lemma_map_member_settles(options[i], stock, h, k, s, z, rules, ranks);
        let run = map_member(a, options[i], stock, rules)->Some_0;
        let b = lemma_map_options_settle(options, i + 1, run.rest, h, k, s, z, rules, ranks);
        let d = greater(a, b);
        lemma_map_member_depth(a, d, options[i], stock, rules);
        lemma_map_options_depth(b, d, options, i + 1, run.rest, rules);
        d
    } else {
        0
    }
}

proof fn lemma_map_occur_settles(
    o: Occur,
    count: nat,
    stock: Entries,
    h: nat,
    k: nat,
    s: nat,
    z: Size,
    rules: Rules,
    ranks: Ranks,
) -> (d: nat)
    requires
        well_founded(rules, ranks),
        shallow_entries(stock, h),
        member_height(*o.node, ranks) <= k,
    ensures
        shallow_map_run(map_occur(d, o, count, stock, rules), h),
        sized(rules, ranks, z) && node_depth(*o.node) <= s <= z.depth ==> d <= member_steps(
            h,
            k,
            s,
            z,
        ),
    decreases h, 2int, k, o, limit_bounds(o.limit).1 - count,
{
    if count < limit_bounds(o.limit).1 {
        let a = lemma_map_member_settles(*o.node, stock, h, k, s, z, rules, ranks);
        let run = map_member(a, *o.node, stock, rules)->Some_0;
        let b = lemma_map_occur_settles(o, count + 1, run.rest, h, k, s, z, rules, ranks);
        let d = greater(a, b);
        lemma_map_member_depth(a, d, *o.node, stock, rules);
        lemma_map_occur_depth(b, d, o, count + 1, run.rest, rules);
        d
    } else {
        0
    }
}

} // verus!
