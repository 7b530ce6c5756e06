//! What it comes to for data to match arrays and maps of the plainest kinds.
use vstd::prelude::*;

use crate::context::Rules;
use crate::entries::{
    keys_ascending, lemma_position, lemma_without_ascending, lemma_without_other, position,
    value_at, without, Entries,
};
use crate::ivt::{Array, Mapping, Node, Occur, OccurLimit};
use crate::laws::matched;
use crate::semantics::{
    array_member, array_members, array_occur, array_value, idle, judge, judge_array,
    judge_mapping, literal_value, map_keyvalue, map_member, map_members,
};
use crate::value::ValueView;

verus! {

/// What a single item is held against by a member that always takes one.
pub open spec fn item_node(member: Node) -> Option<Node> {
    match member {
        Node::KeyValue(kv) => Some(*kv.value),
        Node::Occur(_) | Node::Rule(_) | Node::Unwrap(_) | Node::Choice(_) | Node::Group(_) => None,
        n => Some(n),
    }
}

/// Every member takes a single item.
pub open spec fn takes_items(members: Seq<Node>) -> bool {
    forall|i: int| 0 <= i < members.len() ==> item_node(#[trigger] members[i]) is Some
}

/// An item matches a member that takes a single one.
pub open spec fn item_fits(d: nat, item: ValueView, member: Node, rules: Rules) -> bool {
    matched(judge(d, item, item_node(member)->Some_0, rules))
}

/// The items match the members from index `i` on, each the member in its place.
pub open spec fn items_fit(
    d: nat,
    members: Seq<Node>,
    i: int,
    items: Seq<ValueView>,
    rules: Rules,
) -> bool {
    &&& items.len() == members.len() - i
    &&& forall|j: int|
        i <= j < members.len() ==> item_fits(d, items[j - i], #[trigger] members[j], rules)
}

proof fn lemma_items_fit(
    d: nat,
    members: Seq<Node>,
    i: int,
    items: Seq<ValueView>,
    rules: Rules,
)
    requires
        takes_items(members),
        0 <= i <= members.len(),
    ensures
        ({
            let run = array_members(d + 1, members, i, items, rules);
            (run matches Some(r) && r.verdict is Ok && r.rest.len() == 0) <==> items_fit(
                d,
                members,
                i,
                items,
                rules,
            )
        }),
    decreases members.len() - i,
{
    if i < members.len() {
        let next = i + 1;
        let node = item_node(members[i])->Some_0;
        assert(array_member(d + 1, members[i], items, rules) == array_value(d, node, items, rules));
        if items.len() > 0 {
            let tail = items.drop_first();
            lemma_items_fit(d, members, next, tail, rules);
            if items_fit(d, members, next, tail, rules) && item_fits(
                d,
                items[0],
                members[i],
                rules,
            ) {
                assert forall|j: int| i <= j < members.len() implies item_fits(
                    d,
                    items[j - i],
                    #[trigger] members[j],
                    rules,
                ) by {
                    if j > i {
                        assert(tail[j - next] == items[j - i]);
                    }
                }
            }
            if items_fit(d, members, i, items, rules) {
                assert(item_fits(d, items[i - i], members[i], rules));
                assert forall|j: int| next <= j < members.len() implies item_fits(
                    d,
                    tail[j - next],
                    #[trigger] members[j],
                    rules,
                ) by {
                    assert(tail[j - next] == items[j - i]);
                }
            }
        }
    }
}

/// An array whose members take one item each matches exactly the arrays of that length whose items
/// match the members in their places.
pub proof fn lemma_plain_array(d: nat, a: Array, items: Seq<ValueView>, rules: Rules)
    requires
        takes_items(a.members@),
    ensures
        matched(judge_array(d + 1, a, ValueView::Array(items), rules)) <==> items_fit(
            d,
            a.members@,
            0,
            items,
            rules,
        ),
{
    lemma_items_fit(d, a.members@, 0, items, rules);
}

/// Every item matches a node.
pub open spec fn all_match(d: nat, items: Seq<ValueView>, n: Node, rules: Rules) -> bool {
    forall|i: int| 0 <= i < items.len() ==> matched(judge(d, #[trigger] items[i], n, rules))
}

proof fn lemma_uniform_occur(
    d: nat,
    o: Occur,
    count: nat,
    items: Seq<ValueView>,
    rules: Rules,
)
    requires
        o.limit == OccurLimit::ZeroOrMore,
        item_node(*o.node) is Some,
        count + items.len() <= usize::MAX,
    ensures
        ({
            let run = array_occur(d + 1, o, count, items, rules);
            (run matches Some(r) && r.verdict is Ok && r.rest.len() == 0) <==> all_match(
                d,
                items,
                item_node(*o.node)->Some_0,
                rules,
            )
        }),
    decreases items.len(),
{
    let n = item_node(*o.node)->Some_0;
    assert(array_member(d + 1, *o.node, items, rules) == array_value(d, n, items, rules));
    if items.len() > 0 {
        let tail = items.drop_first();
        lemma_uniform_occur(d, o, count + 1, tail, rules);
        if matched(judge(d, items[0], n, rules)) {
            if all_match(d, tail, n, rules) {
                assert forall|i: int| 0 <= i < items.len() implies matched(
                    judge(d, #[trigger] items[i], n, rules),
                ) by {
                    if i > 0 {
                        assert(tail[i - 1] == items[i]);
                    }
                }
            }
            if all_match(d, items, n, rules) {
                assert forall|i: int| 0 <= i < tail.len() implies matched(
                    judge(d, #[trigger] tail[i], n, rules),
                ) by {
                    assert(tail[i] == items[i + 1]);
                }
            }
        }
    }
}

/// An array with one member that may occur any number of times, and takes one item each time,
/// matches exactly the arrays all of whose items match it.
pub proof fn lemma_uniform_array(
    d: nat,
    a: Array,
    o: Occur,
    items: Seq<ValueView>,
    rules: Rules,
)
    requires
        a.members@ == seq![Node::Occur(o)],
        o.limit == OccurLimit::ZeroOrMore,
        item_node(*o.node) is Some,
        items.len() <= usize::MAX,
    ensures
        matched(judge_array(d + 2, a, ValueView::Array(items), rules)) <==> all_match(
            d,
            items,
            item_node(*o.node)->Some_0,
            rules,
        ),
{
    lemma_uniform_occur(d, o, 0, items, rules);
    assert(array_member(d + 2, Node::Occur(o), items, rules) == array_occur(
        (d + 1) as nat,
        o,
        0,
        items,
        rules,
    ));
    if let Some(run) = array_member(d + 2, Node::Occur(o), items, rules) {
        assert(array_members(d + 2, a.members@, 1, run.rest, rules) == Some(
            idle(Ok(()), run.rest),
        ));
    }
}

/// The key that a member of a map asks for, if that is a literal.
pub open spec fn member_key(member: Node) -> Option<ValueView> {
    match member {
        Node::KeyValue(kv) => match *kv.key {
            Node::Literal(l) => Some(literal_value(l)),
            _ => None,
        },
        _ => None,
    }
}

/// Every member asks for a literal key, and no two for the same.
pub open spec fn takes_keys(members: Seq<Node>) -> bool {
    &&& forall|i: int| 0 <= i < members.len() ==> member_key(#[trigger] members[i]) is Some
    &&& forall|i: int, j: int|
        0 <= i < j < members.len() ==> member_key(#[trigger] members[i]) != member_key(
            #[trigger] members[j],
        )
}

/// The map has the key that a member asks for, and the value under it matches.
pub open spec fn entry_fits(d: nat, stock: Entries, member: Node, rules: Rules) -> bool {
    match value_at(stock, member_key(member)->Some_0) {
        None => false,
        Some(v) => matched(judge(d, v, *member->KeyValue_0.value, rules)),
    }
}

/// The map has as many entries as there are members from index `i` on, and fits each of them.
pub open spec fn entries_fit(
    d: nat,
    members: Seq<Node>,
    i: int,
    stock: Entries,
    rules: Rules,
) -> bool {
    &&& stock.len() == members.len() - i
    &&& forall|j: int|
        i <= j < members.len() ==> entry_fits(d, stock, #[trigger] members[j], rules)
}

proof fn lemma_entries_fit(d: nat, members: Seq<Node>, i: int, stock: Entries, rules: Rules)
    requires
        takes_keys(members),
        keys_ascending(stock),
        0 <= i <= members.len(),
    ensures
        ({
            let run = map_members(d + 1, members, i, stock, rules);
            (run matches Some(r) && r.verdict is Ok && r.rest.len() == 0) <==> entries_fit(
                d,
                members,
                i,
                stock,
                rules,
            )
        }),
    decreases members.len() - i,
{
    if i < members.len() {
        let next = i + 1;
        let kv = members[i]->KeyValue_0;
        let key = member_key(members[i])->Some_0;
        assert(members[i] == Node::KeyValue(kv));
        assert(map_member(d + 1, members[i], stock, rules) == map_keyvalue(d, kv, stock, rules));
        lemma_position(stock, key);
        let p = position(stock, key);
        if p < stock.len() {
            let tail = without(stock, key);
            lemma_without_ascending(stock, key);
            lemma_entries_fit(d, members, next, tail, rules);
            assert forall|j: int| next <= j < members.len() implies entry_fits(
                d,
                tail,
                #[trigger] members[j],
                rules,
            ) == entry_fits(d, stock, members[j], rules) by {
                assert(member_key(members[i]) != member_key(members[j]));
                lemma_without_other(stock, key, member_key(members[j])->Some_0);
            }
            assert(value_at(stock, key) == Some(stock[p].1));
            if entry_fits(d, stock, members[i], rules) {
                assert(entries_fit(d, members, next, tail, rules) ==> entries_fit(
                    d,
                    members,
                    i,
                    stock,
                    rules,
                ));
            }
        } else {
            assert(value_at(stock, key) is None);
            assert(!entry_fits(d, stock, members[i], rules));
        }
    }
}

/// A map whose members ask for different literal keys matches exactly the maps with those keys and
/// no others whose values match.
pub proof fn lemma_plain_map(d: nat, m: Mapping, stock: Entries, rules: Rules)
    requires
        takes_keys(m.members@),
        keys_ascending(stock),
    ensures
        matched(judge_mapping(d + 1, m, ValueView::Mapping(stock), rules)) <==> entries_fit(
            d,
            m.members@,
            0,
            stock,
            rules,
        ),
{
    lemma_entries_fit(d, m.members@, 0, stock, rules);
}

} // verus!
