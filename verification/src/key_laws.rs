//! What becomes of a key of a map and the value under it.
use vstd::prelude::*;

use crate::context::Rules;
use crate::entries::{position_from, without, Entries};
use crate::ivt::{Group, KeyValue, Literal, Mapping, Node};
use crate::map_laws::lemma_key_found;
use crate::semantics::{
    expected, idle, judge, judge_literal, judge_mapping, literal_value, map_key, map_keyvalue,
    map_member, map_members, map_options, search_key,
};
use crate::splice_laws::lemma_map_members_concat;
use crate::text::{literal_text, node_text};
use crate::util::ErrorView;
use crate::value::ValueView;

verus! {

proof fn lemma_literal_search_from(d: nat, l: Literal, stock: Entries, i: int, rules: Rules)
    requires
        d > 0,
        0 <= i <= stock.len(),
    ensures
        search_key(d, Node::Literal(l), stock, i, rules) == Some(
            if position_from(stock, literal_value(l), i) < stock.len() {
                Ok(position_from(stock, literal_value(l), i))
            } else {
                Err(ErrorView::Mismatch("map{"@ + literal_text(l) + "}"@))
            },
        ),
    decreases stock.len() - i,
{
    assert(node_text(Node::Literal(l)) == literal_text(l));
    if i < stock.len() {
        assert(judge(d, stock[i].0, Node::Literal(l), rules) == Some(
            judge_literal(l, stock[i].0),
        ));
        lemma_literal_search_from(d, l, stock, i + 1, rules);
    }
}

/// Looking up the key that a literal stands for finds what searching all keys would find.
pub proof fn lemma_lookup_agrees_with_search(d: nat, l: Literal, stock: Entries, rules: Rules)
    requires
        d > 0,
    ensures
        map_key(d, Node::Literal(l), stock, rules) == search_key(
            d,
            Node::Literal(l),
            stock,
            0,
            rules,
        ),
{
    lemma_literal_search_from(d, l, stock, 0, rules);
}

/// A member with a key takes the one entry whose key and value match, or nothing.
pub proof fn lemma_keyvalue_takes_entry(d: nat, kv: KeyValue, stock: Entries, rules: Rules)
    ensures
        map_keyvalue(d, kv, stock, rules) matches Some(run) ==> {
            match run.verdict {
                Ok(_) => exists|i: int|
                    #![trigger stock[i]]
                    {
                        &&& 0 <= i < stock.len()
                        &&& run.taken == seq![stock[i]]
                        &&& run.rest == without(stock, stock[i].0)
                        &&& judge(d, stock[i].1, *kv.value, rules) matches Some(Ok(_))
                    },
                Err(_) => run.rest == stock && run.taken.len() == 0,
            }
        },
{
    lemma_key_found(d, *kv.key, stock, rules);
}

/// The key of entry `i` is the one that a member finds, and the value under it is not what the
/// member asks for.
pub open spec fn value_mismatched(
    d: nat,
    kv: KeyValue,
    stock: Entries,
    i: int,
    what: Seq<char>,
    rules: Rules,
) -> bool {
    &&& map_key(d, *kv.key, stock, rules) == Some(Ok::<int, ErrorView>(i))
    &&& judge(d, stock[i].1, *kv.value, rules) == Some(expected(what))
}

/// Where a key matches and the value under it does not, a member with cut semantics gives a cut,
/// and one without leaves the entry to other members. Either way the entry stays.
pub proof fn lemma_cut_decides(
    d: nat,
    kv: KeyValue,
    stock: Entries,
    i: int,
    what: Seq<char>,
    rules: Rules,
)
    requires
        value_mismatched(d, kv, stock, i, what, rules),
    ensures
        map_keyvalue(d, kv, stock, rules) == Some(
            idle(
                Err(
                    if kv.cut {
                        ErrorView::MapCut(what)
                    } else {
                        ErrorView::Mismatch(what)
                    },
                ),
                stock,
            ),
        ),
{
}

/// Whether a member has cut semantics changes only the kind of its error: it takes the same, and
/// fails alike but for a cut in the place of a mismatch.
pub proof fn lemma_cut_changes_only_error(
    d: nat,
    a: KeyValue,
    b: KeyValue,
    stock: Entries,
    rules: Rules,
)
    requires
        a.key == b.key,
        a.value == b.value,
    ensures
        match (map_keyvalue(d, a, stock, rules), map_keyvalue(d, b, stock, rules)) {
            (None, None) => true,
            (Some(r), Some(s)) => {
                &&& r.rest == s.rest
                &&& r.taken == s.taken
                &&& match (r.verdict, s.verdict) {
                    (Ok(_), Ok(_)) => true,
                    (Err(x), Err(y)) => x.erase_mapcut() == y.erase_mapcut(),
                    _ => false,
                }
            },
            _ => false,
        },
{
}

/// A cut fails the map around it: once the members before it have matched, a member that gives a
/// cut, be it a key with its value or whatever leads to one, makes the whole map a mismatch.
pub proof fn lemma_cut_fails_map(
    d: nat,
    m: Mapping,
    k: int,
    stock: Entries,
    what: Seq<char>,
    rules: Rules,
)
    requires
        0 <= k < m.members@.len(),
        map_members(d, m.members@.take(k), 0, stock, rules) matches Some(first)
            && first.verdict is Ok,
        ({
            let left = map_members(d, m.members@.take(k), 0, stock, rules)->Some_0.rest;
            map_member(d, m.members@[k], left, rules) matches Some(run) && run.verdict == Err::<
                (),
                ErrorView,
            >(ErrorView::MapCut(what))
        }),
    ensures
        judge_mapping(d, m, ValueView::Mapping(stock), rules) == Some(expected(what)),
{
    let rest = m.members@.skip(k);
    assert(m.members@ =~= m.members@.take(k) + rest);
    lemma_map_members_concat(d, m.members@.take(k), rest, stock, rules);
    assert(rest[0] == m.members@[k]);
}

/// A group forgets a cut, so that what stands beside it may still match.
pub proof fn lemma_group_forgets_cut(d: nat, g: Group, stock: Entries, rules: Rules)
    ensures
        map_member(d, Node::Group(g), stock, rules) matches Some(run) ==> !(run.verdict matches Err(
            ErrorView::MapCut(_),
        )),
{
}

/// A choice among the members of a map tries no further option after a cut.
pub proof fn lemma_cut_ends_choice(
    d: nat,
    options: Seq<Node>,
    i: int,
    stock: Entries,
    rules: Rules,
)
    requires
        0 <= i < options.len(),
        map_member(d, options[i], stock, rules) matches Some(run) && run.verdict matches Err(
            ErrorView::MapCut(_),
        ),
    ensures
        map_options(d, options, i, stock, rules) == map_member(d, options[i], stock, rules),
{
}

} // verus!
