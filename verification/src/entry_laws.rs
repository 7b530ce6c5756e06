//! What the members of a map take from it.
use vstd::prelude::*;

use crate::context::Rules;
use crate::entries::{
    keys_ascending, lemma_position, lemma_position_of_entry, lemma_without_ascending, position,
    without, Entries,
};
use crate::item_laws::{enough, fails_with, limited};
use crate::ivt::{Choice, Group, KeyValue, Literal, Mapping, Node, Occur, Rule};
use crate::key_laws::lemma_lookup_agrees_with_search;
use crate::map_laws::{lemma_failed_group_restores_map, lemma_key_found};
use crate::occur_laws::map_repeats;
use crate::plain_laws::{entries_fit, lemma_plain_map, takes_keys};
use crate::semantics::{
    judge, judge_mapping, literal_key, literal_value, map_key, map_keyvalue, map_member,
    map_members, map_occur, map_options, map_unwrap, search_key, Run,
};
use crate::splice_laws::lemma_map_members_shift;
use crate::text::{decimal, literal_text, node_text, occur_text};
use crate::util::ErrorView;
use crate::value::ValueView;
use crate::verdict_laws::{lemma_literal_matches, stands_for};

verus! {

/// Only maps match a map, and they match if the members match and leave nothing. Otherwise the
/// error is that of the member that failed, a cut as a plain mismatch, or that the map is too long.
pub proof fn lemma_map_node(d: nat, m: Mapping, v: ValueView, rules: Rules)
    ensures
        !(v is Mapping) ==> judge(d + 1, v, Node::Mapping(m), rules) == Some(
            Err::<(), ErrorView>(ErrorView::Mismatch("map"@)),
        ),
        v matches ValueView::Mapping(stock) ==> match map_members(d, m.members@, 0, stock, rules) {
            None => judge(d + 1, v, Node::Mapping(m), rules) is None,
            Some(run) => match run.verdict {
                Err(e) => fails_uncut(judge(d + 1, v, Node::Mapping(m), rules), e),
                Ok(_) => if run.rest.len() > 0 {
                    judge(d + 1, v, Node::Mapping(m), rules) == Some(
                        Err::<(), ErrorView>(ErrorView::Mismatch("shorter map"@)),
                    )
                } else {
                    judge(d + 1, v, Node::Mapping(m), rules) matches Some(Ok(_))
                },
            },
        },
{
    assert(judge(d + 1, v, Node::Mapping(m), rules) == judge_mapping(d, m, v, rules));
}

/// The same error, but for a plain mismatch in the place of a cut.
pub open spec fn uncut(e: ErrorView, f: ErrorView) -> bool {
    match e {
        ErrorView::MapCut(what) => f == ErrorView::Mismatch(what),
        _ => f == e,
    }
}

/// A verdict that fails with an error, a cut as a plain mismatch.
pub open spec fn fails_uncut(verdict: Option<Result<(), ErrorView>>, e: ErrorView) -> bool {
    verdict matches Some(Err(f)) && uncut(e, f)
}

/// Some nodes cannot stand among the members of a map, which each of them says by its name.
pub proof fn lemma_map_misplaced_nodes(d: nat, n: Node, stock: Entries, rules: Rules)
    ensures
        n is Literal ==> fails_with(
            map_member(d + 1, n, stock, rules),
            ErrorView::StructuralError("literal map member"@),
            stock,
        ),
        n is PreludeType ==> fails_with(
            map_member(d + 1, n, stock, rules),
            ErrorView::StructuralError("prelude type map member"@),
            stock,
        ),
        n is Mapping ==> fails_with(
            map_member(d + 1, n, stock, rules),
            ErrorView::StructuralError("map as map member"@),
            stock,
        ),
        n is Array ==> fails_with(
            map_member(d + 1, n, stock, rules),
            ErrorView::StructuralError("array as map member"@),
            stock,
        ),
        n is Range ==> fails_with(
            map_member(d + 1, n, stock, rules),
            ErrorView::StructuralError("range as map member"@),
            stock,
        ),
{
}

/// A group among the members of a map matches exactly when its members all match, in order, and
/// then takes and leaves what they do. If one of them fails, so does the group, with the same error
/// but for a plain mismatch in the place of a cut, and nothing is taken.
pub proof fn lemma_map_group(d: nat, g: Group, stock: Entries, rules: Rules)
    requires
        keys_ascending(stock),
    ensures
        match map_members(d, g.members@, 0, stock, rules) {
            None => map_member(d + 1, Node::Group(g), stock, rules) is None,
            Some(run) => match run.verdict {
                Ok(_) => map_member(d + 1, Node::Group(g), stock, rules) == Some(run),
                Err(e) => map_member(d + 1, Node::Group(g), stock, rules) matches Some(after)
                    && after.verdict matches Err(f) && uncut(e, f) && after.rest == stock
                    && after.taken.len() == 0,
            },
        },
{
    lemma_failed_group_restores_map(d + 1, g, stock, rules);
}

/// A map with a single group matches what a map with the members of the group matches.
pub proof fn lemma_map_of_group(
    d: nat,
    m: Mapping,
    b: Mapping,
    g: Group,
    stock: Entries,
    rules: Rules,
)
    requires
        keys_ascending(stock),
        m.members@ == seq![Node::Group(g)],
        b.members@ == g.members@,
    ensures
        (judge(d + 2, ValueView::Mapping(stock), Node::Mapping(m), rules) matches Some(Ok(_)))
            <==> (judge(d + 1, ValueView::Mapping(stock), Node::Mapping(b), rules) matches Some(
            Ok(_),
        )),
{
    let e = (d + 1) as nat;
    let v = ValueView::Mapping(stock);
    lemma_map_node(e, m, v, rules);
    lemma_map_node(d, b, v, rules);
    lemma_map_group(d, g, stock, rules);
    lemma_map_first_member(e, m.members@, stock, rules);
    assert(m.members@.drop_first() =~= Seq::<Node>::empty());
    if let Some(run) = map_member(e, Node::Group(g), stock, rules) {
        lemma_map_no_members(e, run.rest, rules);
    }
}

/// A map whose only member is a group of different literal keys matches exactly the maps with all
/// of those keys and no others, if the values under them match.
pub proof fn lemma_map_of_plain_group(
    d: nat,
    m: Mapping,
    b: Mapping,
    g: Group,
    stock: Entries,
    rules: Rules,
)
    requires
        keys_ascending(stock),
        m.members@ == seq![Node::Group(g)],
        b.members@ == g.members@,
        takes_keys(g.members@),
    ensures
        (judge(d + 3, ValueView::Mapping(stock), Node::Mapping(m), rules) matches Some(Ok(_)))
            <==> entries_fit(d, g.members@, 0, stock, rules),
{
    let e = (d + 1) as nat;
    lemma_map_of_group(e, m, b, g, stock, rules);
    lemma_plain_map(d, b, stock, rules);
    assert(judge(
        e + 1,
        ValueView::Mapping(stock),
        Node::Mapping(b),
        rules,
    ) == judge_mapping(e, b, ValueView::Mapping(stock), rules));
}

/// The verdict on a key is that it does not match.
pub open spec fn key_fails(d: nat, stock: Entries, i: int, n: Node, rules: Rules) -> bool {
    judge(d, stock[i].0, n, rules) matches Some(Err(_))
}

proof fn lemma_search_from(d: nat, n: Node, stock: Entries, k: int, i: int, rules: Rules)
    requires
        0 <= k <= i <= stock.len(),
        forall|j: int| k <= j < i ==> #[trigger] key_fails(d, stock, j, n, rules),
        i < stock.len() ==> !key_fails(d, stock, i, n, rules),
    ensures
        if i < stock.len() {
            match judge(d, stock[i].0, n, rules) {
                None => search_key(d, n, stock, k, rules) is None,
                Some(_) => search_key(d, n, stock, k, rules) == Some(Ok::<int, ErrorView>(i)),
            }
        } else {
            search_key(d, n, stock, k, rules) == Some(
                Err::<int, ErrorView>(ErrorView::Mismatch("map{"@ + node_text(n) + "}"@)),
            )
        },
    decreases i - k,
{
    if k < i {
        assert(key_fails(d, stock, k, n, rules));
        lemma_search_from(d, n, stock, k + 1, i, rules);
    }
}

/// The search for a key is complete and takes the first: where no key before `i` matches, whatever
/// the kind of node, key `i` is found if it matches; and only where no key matches is there none to
/// be found.
pub proof fn lemma_first_key_found(d: nat, n: Node, stock: Entries, i: int, rules: Rules)
    requires
        d > 0 || !(n is Literal),
        0 <= i <= stock.len(),
        forall|j: int| 0 <= j < i ==> #[trigger] key_fails(d, stock, j, n, rules),
        i < stock.len() ==> !key_fails(d, stock, i, n, rules),
    ensures
        if i < stock.len() {
            match judge(d, stock[i].0, n, rules) {
                None => map_key(d, n, stock, rules) is None,
                Some(_) => map_key(d, n, stock, rules) == Some(Ok::<int, ErrorView>(i)),
            }
        } else {
            map_key(d, n, stock, rules) == Some(
                Err::<int, ErrorView>(ErrorView::Mismatch("map{"@ + node_text(n) + "}"@)),
            )
        },
        search_key(d, n, stock, 0, rules) == map_key(d, n, stock, rules),
{
    lemma_search_from(d, n, stock, 0, i, rules);
    if let Node::Literal(l) = n {
        lemma_lookup_agrees_with_search(d, l, stock, rules);
    }
}

/// The key that a literal stands for is found where it stands; without it there is none to be
/// found.
pub proof fn lemma_literal_key_found(d: nat, l: Literal, stock: Entries, i: int, rules: Rules)
    requires
        0 <= i <= stock.len(),
        forall|j: int| 0 <= j < i ==> !stands_for(l, (#[trigger] stock[j]).0),
        i < stock.len() ==> stands_for(l, stock[i].0),
    ensures
        i < stock.len() ==> map_key(d, Node::Literal(l), stock, rules) == Some(
            Ok::<int, ErrorView>(i),
        ),
        i == stock.len() ==> map_key(d, Node::Literal(l), stock, rules) == Some(
            Err::<int, ErrorView>(ErrorView::Mismatch("map{"@ + literal_text(l) + "}"@)),
        ),
        map_key(d, Node::Literal(l), stock, rules) == Some(literal_key(l, stock)),
{
    let key = literal_value(l);
    lemma_position(stock, key);
    let p = position(stock, key);
    if p < i {
        lemma_literal_matches(d, l, stock[p].0, rules);
    }
    if i < stock.len() {
        lemma_literal_matches(d, l, stock[i].0, rules);
    }
}

/// If some key of a map matches a node, and every key can be judged, a key is found, and it
/// matches.
pub proof fn lemma_matching_key_found(d: nat, n: Node, stock: Entries, k: int, rules: Rules)
    requires
        0 <= k < stock.len(),
        judge(d, stock[k].0, n, rules) matches Some(Ok(_)),
        forall|j: int| 0 <= j < stock.len() ==> judge(d, (#[trigger] stock[j]).0, n, rules) is Some,
    ensures
        map_key(d, n, stock, rules) matches Some(Ok(i)) && 0 <= i <= k && (judge(
            d,
            stock[i].0,
            n,
            rules,
        ) matches Some(Ok(_))),
{
    let i = lemma_first_unfailing(d, n, stock, 0, rules);
    lemma_first_key_found(d, n, stock, i, rules);
    if k < i {
        assert(key_fails(d, stock, k, n, rules));
    }
    assert(judge(d, stock[i].0, n, rules) is Some);
}

proof fn lemma_first_unfailing(d: nat, n: Node, stock: Entries, k: int, rules: Rules) -> (i: int)
    requires
        0 <= k <= stock.len(),
        forall|j: int| 0 <= j < k ==> #[trigger] key_fails(d, stock, j, n, rules),
    ensures
        k <= i <= stock.len(),
        forall|j: int| 0 <= j < i ==> #[trigger] key_fails(d, stock, j, n, rules),
        i < stock.len() ==> !key_fails(d, stock, i, n, rules),
    decreases stock.len() - k,
{
    if k < stock.len() && key_fails(d, stock, k, n, rules) {
        lemma_first_unfailing(d, n, stock, k + 1, rules)
    } else {
        k
    }
}

/// A key with its value takes the entry whose key is found, if the value under it matches. If the
/// value mismatches, that is a cut where the key cuts; any other error is passed on.
pub proof fn lemma_map_pair(d: nat, kv: KeyValue, stock: Entries, rules: Rules)
    requires
        keys_ascending(stock),
    ensures
        map_member(d + 1, Node::KeyValue(kv), stock, rules) == map_keyvalue(d, kv, stock, rules),
        match map_key(d, *kv.key, stock, rules) {
            None => map_keyvalue(d, kv, stock, rules) is None,
            Some(Err(e)) => fails_with(map_keyvalue(d, kv, stock, rules), e, stock),
            Some(Ok(i)) => match judge(d, stock[i].1, *kv.value, rules) {
                None => map_keyvalue(d, kv, stock, rules) is None,
                Some(Ok(_)) => map_keyvalue(d, kv, stock, rules) matches Some(run)
                    && run.verdict is Ok && run.taken == seq![stock[i]] && run.rest
                    == stock.remove(i),
                Some(Err(ErrorView::Mismatch(what))) => fails_with(
                    map_keyvalue(d, kv, stock, rules),
                    if kv.cut {
                        ErrorView::MapCut(what)
                    } else {
                        ErrorView::Mismatch(what)
                    },
                    stock,
                ),
                Some(Err(e)) => fails_with(map_keyvalue(d, kv, stock, rules), e, stock),
            },
        },
{
    lemma_key_found(d, *kv.key, stock, rules);
    if let Some(Ok(i)) = map_key(d, *kv.key, stock, rules) {
        lemma_position_of_entry(stock, i);
    }
}

/// Without members nothing is taken.
pub proof fn lemma_map_no_members(d: nat, stock: Entries, rules: Rules)
    ensures
        map_members(d, Seq::empty(), 0, stock, rules) matches Some(run) && run.verdict is Ok
            && run.rest == stock && run.taken.len() == 0,
{
}

/// The first member is matched with everything, and the others with what it leaves, if it matches.
pub proof fn lemma_map_first_member(d: nat, members: Seq<Node>, stock: Entries, rules: Rules)
    requires
        members.len() > 0,
    ensures
        match map_member(d, members[0], stock, rules) {
            None => map_members(d, members, 0, stock, rules) is None,
            Some(first) => match first.verdict {
                Err(_) => map_members(d, members, 0, stock, rules) == Some(first),
                Ok(_) => match map_members(d, members.drop_first(), 0, first.rest, rules) {
                    None => map_members(d, members, 0, stock, rules) is None,
                    Some(others) => map_members(d, members, 0, stock, rules) == Some(
                        Run {
                            verdict: others.verdict,
                            rest: others.rest,
                            taken: first.taken + others.taken,
                        },
                    ),
                },
            },
        },
{
    if let Some(first) = map_member(d, members[0], stock, rules) {
        assert(members =~= seq![members[0]] + members.drop_first());
        lemma_map_members_shift(
            d,
            seq![members[0]],
            members.drop_first(),
            0,
            first.rest,
            rules,
        );
    }
}

/// Members from an index on are matched as if they were all.
pub proof fn lemma_map_members_from(
    d: nat,
    members: Seq<Node>,
    i: int,
    stock: Entries,
    rules: Rules,
)
    requires
        0 <= i <= members.len(),
    ensures
        map_members(d, members, i, stock, rules) == map_members(
            d,
            members.skip(i),
            0,
            stock,
            rules,
        ),
{
    assert(members =~= members.take(i) + members.skip(i));
    lemma_map_members_shift(d, members.take(i), members.skip(i), 0, stock, rules);
}

/// A rule among the members does what the member does that it stands for.
pub proof fn lemma_map_rule(d: nat, r: Rule, stock: Entries, rules: Rules)
    ensures
        rules(r.name@) matches Ok(node) ==> map_member(d + 1, Node::Rule(r), stock, rules)
            == map_member(d, node, stock, rules),
        rules(r.name@) matches Err(e) ==> {
            &&& fails_with(map_member(d + 1, Node::Rule(r), stock, rules), e, stock)
            &&& fails_with(map_member(d + 1, Node::Unwrap(r), stock, rules), e, stock)
        },
{
}

/// Unwrapping stands for the members of the map that a rule stands for; what is no map is a
/// mismatch.
pub proof fn lemma_map_unwrap(d: nat, r: Rule, n: Node, stock: Entries, rules: Rules)
    requires
        rules(r.name@) == Ok::<Node, ErrorView>(n),
    ensures
        n matches Node::Mapping(inner) ==> map_member(d + 1, Node::Unwrap(r), stock, rules)
            == map_members(d, inner.members@, 0, stock, rules),
        !(n is Mapping) ==> fails_with(
            map_member(d + 1, Node::Unwrap(r), stock, rules),
            ErrorView::Mismatch("unwrap map"@),
            stock,
        ),
        map_member(d + 1, Node::Unwrap(r), stock, rules) == map_unwrap(d, n, stock, rules),
{
    assert(map_member(d + 1, Node::Unwrap(r), stock, rules) == map_unwrap(d, n, stock, rules));
    if let Node::Mapping(inner) = n {
        assert(map_unwrap(d, n, stock, rules) == map_members(d, inner.members@, 0, stock, rules));
    }
}

/// Only a map can be unwrapped into a map, and what it comes to are its members.
pub proof fn lemma_map_unwrapped_node(d: nat, n: Node, stock: Entries, rules: Rules)
    ensures
        n matches Node::Mapping(inner) ==> map_unwrap(d, n, stock, rules) == map_members(
            d,
            inner.members@,
            0,
            stock,
            rules,
        ),
        !(n is Mapping) ==> fails_with(
            map_unwrap(d, n, stock, rules),
            ErrorView::Mismatch("unwrap map"@),
            stock,
        ),
{
}

proof fn lemma_map_options_in_turn_from(
    d: nat,
    options: Seq<Node>,
    i: int,
    stock: Entries,
    rules: Rules,
)
    requires
        0 <= i <= options.len(),
    ensures
        map_option_in_turn(d, options, i, stock, rules),
{
}

/// From option `i` on: the option decides if it matches, or fails with anything but a mismatch;
/// otherwise the next one is tried with what it left, and if there is none, the choice says how
/// many options there were.
pub open spec fn map_option_in_turn(
    d: nat,
    options: Seq<Node>,
    i: int,
    stock: Entries,
    rules: Rules,
) -> bool {
    let result = map_options(d, options, i, stock, rules);
    if i >= options.len() {
        fails_with(result, ErrorView::Mismatch("choice of "@ + decimal(options.len())), stock)
    } else {
        match map_member(d, options[i], stock, rules) {
            None => result is None,
            Some(first) => if first.verdict matches Err(ErrorView::Mismatch(_)) {
                match map_options(d, options, i + 1, first.rest, rules) {
                    None => result is None,
                    Some(next) => result == Some(
                        Run {
                            verdict: next.verdict,
                            rest: next.rest,
                            taken: first.taken + next.taken,
                        },
                    ),
                }
            } else {
                result == Some(first)
            },
        }
    }
}

/// A choice among the members of a map tries its options in turn.
pub proof fn lemma_map_choice_in_turn(d: nat, c: Choice, i: int, stock: Entries, rules: Rules)
    requires
        0 <= i <= c.options@.len(),
    ensures
        map_member(d + 1, Node::Choice(c), stock, rules) == map_options(
            d,
            c.options@,
            0,
            stock,
            rules,
        ),
        map_option_in_turn(d, c.options@, i, stock, rules),
{
    lemma_map_options_in_turn_from(d, c.options@, i, stock, rules);
}

proof fn lemma_map_occur_from(
    d: nat,
    o: Occur,
    lower: nat,
    upper: nat,
    count: nat,
    n: nat,
    stock: Entries,
    rules: Rules,
)
    requires
        limited(o.limit, lower, upper),
        count + n <= upper,
        map_repeats(d, *o.node, n, stock, rules) is Some,
        count + n < upper ==> (map_member(
            d,
            *o.node,
            map_repeats(d, *o.node, n, stock, rules)->Some_0,
            rules,
        ) matches Some(last) && last.verdict is Err),
    ensures
        map_occur(d, o, count, stock, rules) matches Some(run) && map_stopped(
            d,
            o,
            lower,
            upper,
            count + n,
            map_repeats(d, *o.node, n, stock, rules)->Some_0,
            run,
            rules,
        ),
    decreases n,
{
    if n > 0 {
        let first = map_member(d, *o.node, stock, rules)->Some_0;
        lemma_map_occur_from(
            d,
            o,
            lower,
            upper,
            count + 1,
            (n - 1) as nat,
            first.rest,
            rules,
        );
    }
}

/// Matching what may occur from `lower` to `upper` times has stopped after `n` times: because it
/// may occur no more, or because the next attempt failed. It is enough, and matches, if `n` is not
/// below `lower`; an error that is no mismatch is passed on.
pub open spec fn map_stopped(
    d: nat,
    o: Occur,
    lower: nat,
    upper: nat,
    n: nat,
    left: Entries,
    run: Run<(ValueView, ValueView)>,
    rules: Rules,
) -> bool {
    let what = "map{"@ + occur_text(o) + "}]"@;
    if n == upper {
        run.rest == left && enough(run.verdict, n >= lower, what)
    } else {
        match map_member(d, *o.node, left, rules) {
            None => false,
            Some(last) => run.rest == last.rest && match last.verdict {
                Ok(_) => false,
                Err(ErrorView::Mismatch(_)) => enough(run.verdict, n >= lower, what),
                Err(x) => run.verdict == Err::<(), ErrorView>(x),
            },
        }
    }
}

/// How often it matches decides on what may occur from `lower` to `upper` times: where it matches
/// `n` times in a row, and then may not or does not match once more, it matches if `n` is not below
/// `lower`.
pub proof fn lemma_map_occurs(
    d: nat,
    o: Occur,
    lower: nat,
    upper: nat,
    n: nat,
    stock: Entries,
    rules: Rules,
)
    requires
        limited(o.limit, lower, upper),
        n <= upper,
        map_repeats(d, *o.node, n, stock, rules) is Some,
        n < upper ==> (map_member(
            d,
            *o.node,
            map_repeats(d, *o.node, n, stock, rules)->Some_0,
            rules,
        ) matches Some(last) && last.verdict is Err),
    ensures
        map_member(d + 1, Node::Occur(o), stock, rules) == map_occur(d, o, 0, stock, rules),
        map_occur(d, o, 0, stock, rules) matches Some(run) && map_stopped(
            d,
            o,
            lower,
            upper,
            n,
            map_repeats(d, *o.node, n, stock, rules)->Some_0,
            run,
            rules,
        ),
{
    lemma_map_occur_from(d, o, lower, upper, 0, n, stock, rules);
}

proof fn lemma_map_occurrence_count_from(
    d: nat,
    o: Occur,
    lower: nat,
    upper: nat,
    count: nat,
    stock: Entries,
    rules: Rules,
) -> (n: nat)
    requires
        limited(o.limit, lower, upper),
        count <= upper,
        map_occur(d, o, count, stock, rules) is Some,
    ensures
        count + n <= upper,
        map_repeats(d, *o.node, n, stock, rules) is Some,
        count + n < upper ==> (map_member(
            d,
            *o.node,
            map_repeats(d, *o.node, n, stock, rules)->Some_0,
            rules,
        ) matches Some(last) && last.verdict is Err),
    decreases upper - count,
{
    if count == upper {
        0
    } else {
        let first = map_member(d, *o.node, stock, rules)->Some_0;
        if first.verdict is Ok {
            lemma_map_occurrence_count_from(d, o, lower, upper, count + 1, first.rest, rules) + 1
        } else {
            0
        }
    }
}

/// What matches has occurred at least `lower` times, and at most `upper` times.
pub proof fn lemma_map_occurs_within_limits(
    d: nat,
    o: Occur,
    lower: nat,
    upper: nat,
    stock: Entries,
    rules: Rules,
) -> (n: nat)
    requires
        limited(o.limit, lower, upper),
        map_member(d + 1, Node::Occur(o), stock, rules) matches Some(run) && run.verdict is Ok,
    ensures
        lower <= n <= upper,
        map_repeats(d, *o.node, n, stock, rules) is Some,
{
    let n = lemma_map_occurrence_count_from(d, o, lower, upper, 0, stock, rules);
    lemma_map_occurs(d, o, lower, upper, n, stock, rules);
    n
}

/// An entry matches a key with its value.
pub open spec fn entry_matches(
    d: nat,
    stock: Entries,
    i: int,
    kv: KeyValue,
    rules: Rules,
) -> bool {
    &&& judge(d, stock[i].0, *kv.key, rules) matches Some(Ok(_))
    &&& judge(d, stock[i].1, *kv.value, rules) matches Some(Ok(_))
}

/// Every entry matches a key with its value.
pub open spec fn all_entries_match(d: nat, stock: Entries, kv: KeyValue, rules: Rules) -> bool {
    forall|i: int| 0 <= i < stock.len() ==> #[trigger] entry_matches(d, stock, i, kv, rules)
}

proof fn lemma_counted_map_from(
    d: nat,
    o: Occur,
    kv: KeyValue,
    lower: nat,
    upper: nat,
    count: nat,
    stock: Entries,
    rules: Rules,
)
    requires
        d > 0,
        keys_ascending(stock),
        limited(o.limit, lower, upper),
        *o.node == Node::KeyValue(kv),
        count <= upper,
    ensures
        ({
            let run = map_occur(d + 1, o, count, stock, rules);
            (run matches Some(r) && r.verdict is Ok && r.rest.len() == 0) <==> lower <= count
                + stock.len() <= upper && all_entries_match(d, stock, kv, rules)
        }),
    decreases stock.len(),
{
    let i = lemma_first_unfailing(d, *kv.key, stock, 0, rules);
    lemma_first_key_found(d, *kv.key, stock, i, rules);
    lemma_map_pair(d, kv, stock, rules);
    if all_entries_match(d, stock, kv, rules) && stock.len() > 0 {
        assert(entry_matches(d, stock, 0, kv, rules));
        if i > 0 {
            assert(key_fails(d, stock, 0, *kv.key, rules));
        }
        assert(i == 0);
    }
    if stock.len() > 0 && i == stock.len() {
        assert(key_fails(d, stock, 0, *kv.key, rules));
        assert(!entry_matches(d, stock, 0, kv, rules));
    }
    if i < stock.len() && count < upper {
        let tail = stock.remove(i);
        lemma_position_of_entry(stock, i);
        lemma_without_ascending(stock, stock[i].0);
        assert(tail == without(stock, stock[i].0));
        lemma_counted_map_from(d, o, kv, lower, upper, count + 1, tail, rules);
        if entry_matches(d, stock, i, kv, rules) {
            if all_entries_match(d, tail, kv, rules) {
                assert forall|j: int| 0 <= j < stock.len() implies #[trigger] entry_matches(
                    d,
                    stock,
                    j,
                    kv,
                    rules,
                ) by {
                    if j < i {
                        assert(entry_matches(d, tail, j, kv, rules));
                        assert(tail[j] == stock[j]);
                    } else if j > i {
                        assert(entry_matches(d, tail, j - 1, kv, rules));
                        assert(tail[j - 1] == stock[j]);
                    }
                }
            }
            if all_entries_match(d, stock, kv, rules) {
                assert forall|j: int| 0 <= j < tail.len() implies #[trigger] entry_matches(
                    d,
                    tail,
                    j,
                    kv,
                    rules,
                ) by {
                    let q = if j < i {
                        j
                    } else {
                        j + 1
                    };
                    assert(entry_matches(d, stock, q, kv, rules));
                    assert(tail[j] == stock[q]);
                }
            }
        }
    }
}

/// A map with one member, a key with its value that may occur from `lower` to `upper` times,
/// matches exactly the maps of as many entries that all match it.
pub proof fn lemma_counted_map(
    d: nat,
    m: Mapping,
    o: Occur,
    kv: KeyValue,
    lower: nat,
    upper: nat,
    stock: Entries,
    rules: Rules,
)
    requires
        d > 0,
        keys_ascending(stock),
        m.members@ == seq![Node::Occur(o)],
        *o.node == Node::KeyValue(kv),
        limited(o.limit, lower, upper),
    ensures
        (judge(d + 3, ValueView::Mapping(stock), Node::Mapping(m), rules) matches Some(Ok(_)))
            <==> lower <= stock.len() <= upper && all_entries_match(d, stock, kv, rules),
{
    let e = (d + 2) as nat;
    lemma_counted_map_from(d, o, kv, lower, upper, 0, stock, rules);
    lemma_map_node(e, m, ValueView::Mapping(stock), rules);
    lemma_map_first_member(e, m.members@, stock, rules);
    assert(m.members@.drop_first() =~= Seq::<Node>::empty());
    assert(map_member(e, Node::Occur(o), stock, rules) == map_occur(
        (d + 1) as nat,
        o,
        0,
        stock,
        rules,
    ));
    if let Some(run) = map_member(e, Node::Occur(o), stock, rules) {
        lemma_map_no_members(e, run.rest, rules);
    }
}

/// A map with one member, a key with its value, matches exactly the maps of one entry that matches
/// it, whatever the kind of node the key is.
pub proof fn lemma_single_pair_map(
    d: nat,
    m: Mapping,
    kv: KeyValue,
    stock: Entries,
    rules: Rules,
)
    requires
        d > 0,
        keys_ascending(stock),
        m.members@ == seq![Node::KeyValue(kv)],
    ensures
        (judge(d + 2, ValueView::Mapping(stock), Node::Mapping(m), rules) matches Some(Ok(_)))
            <==> stock.len() == 1 && entry_matches(d, stock, 0, kv, rules),
{
    let e = (d + 1) as nat;
    let i = lemma_first_unfailing(d, *kv.key, stock, 0, rules);
    lemma_first_key_found(d, *kv.key, stock, i, rules);
    lemma_map_pair(d, kv, stock, rules);
    lemma_map_node(e, m, ValueView::Mapping(stock), rules);
    lemma_map_first_member(e, m.members@, stock, rules);
    assert(m.members@.drop_first() =~= Seq::<Node>::empty());
    if stock.len() > 0 && i > 0 {
        assert(key_fails(d, stock, 0, *kv.key, rules));
    }
    if let Some(run) = map_member(e, Node::KeyValue(kv), stock, rules) {
        lemma_map_no_members(e, run.rest, rules);
    }
}

} // verus!
