//! What the members of an array take from it.
use vstd::prelude::*;

use crate::array_laws::lemma_failed_group_restores_array;
use crate::context::Rules;
use crate::ivt::{Array, Choice, Group, Node, Occur, OccurLimit, Rule};
use crate::occur_laws::array_repeats;
use crate::plain_laws::all_match;
use crate::semantics::{
    array_member, array_members, array_occur, array_options, array_unwrap, array_value, judge,
    judge_array, Run,
};
use crate::splice_laws::lemma_array_members_shift;
use crate::text::{decimal, node_text, occur_text};
use crate::util::{ErrorView, Verdict};
use crate::value::ValueView;

verus! {

/// A run that fails with an error, and leaves everything as it was.
pub open spec fn fails_with<T>(run: Option<Run<T>>, e: ErrorView, stock: Seq<T>) -> bool {
    &&& run matches Some(r)
    &&& r.verdict == Err::<(), ErrorView>(e)
    &&& r.rest == stock
    &&& r.taken.len() == 0
}

/// A verdict that fails with either kind of mismatch.
pub open spec fn soft(verdict: Verdict) -> bool {
    ||| verdict matches Err(ErrorView::Mismatch(_))
    ||| verdict matches Err(ErrorView::MapCut(_))
}

/// A verdict that matches, or says that something was expected.
pub open spec fn enough(verdict: Verdict, fits: bool, what: Seq<char>) -> bool {
    if fits {
        verdict is Ok
    } else {
        verdict == Err::<(), ErrorView>(ErrorView::Mismatch(what))
    }
}

/// The marks of an occurrence: optional is up to once, `*` any number of times, `+` once or more,
/// and two numbers say how often.
pub open spec fn limited(limit: OccurLimit, lower: nat, upper: nat) -> bool {
    ||| limit is Optional && lower == 0 && upper == 1
    ||| limit is ZeroOrMore && lower == 0 && upper == usize::MAX
    ||| limit is OneOrMore && lower == 1 && upper == usize::MAX
    ||| limit == OccurLimit::Numbered(lower as usize, upper as usize) && lower <= usize::MAX
        && upper <= usize::MAX
}

/// Only arrays match an array, and they match if the members match and leave nothing. Otherwise the
/// error is that of the member that failed, or that the array is too long.
pub proof fn lemma_array_node(d: nat, a: Array, v: ValueView, rules: Rules)
    ensures
        !(v is Array) ==> judge(d + 1, v, Node::Array(a), rules) == Some(
            Err::<(), ErrorView>(ErrorView::Mismatch("array"@)),
        ),
        v matches ValueView::Array(items) ==> match array_members(d, a.members@, 0, items, rules) {
            None => judge(d + 1, v, Node::Array(a), rules) is None,
            Some(run) => match run.verdict {
                Err(e) => judge(d + 1, v, Node::Array(a), rules) == Some(Err::<(), ErrorView>(e)),
                Ok(_) => if run.rest.len() > 0 {
                    judge(d + 1, v, Node::Array(a), rules) == Some(
                        Err::<(), ErrorView>(ErrorView::Mismatch("shorter array"@)),
                    )
                } else {
                    judge(d + 1, v, Node::Array(a), rules) matches Some(Ok(_))
                },
            },
        },
{
    assert(judge(d + 1, v, Node::Array(a), rules) == judge_array(d, a, v, rules));
}

/// A member that stands for a single item, which is held against `node`: a value of its own, or a
/// key with one.
pub open spec fn stands_for_item(n: Node, node: Node) -> bool {
    ||| n is Literal && node == n
    ||| n is PreludeType && node == n
    ||| n is Mapping && node == n
    ||| n is Array && node == n
    ||| n is Range && node == n
    ||| n matches Node::KeyValue(kv) && node == *kv.value
}

/// A member that stands for a single item takes the first item if it matches, and nothing
/// otherwise. The key of such a member plays no part.
pub proof fn lemma_array_item(d: nat, n: Node, node: Node, items: Seq<ValueView>, rules: Rules)
    requires
        stands_for_item(n, node),
    ensures
        array_member(d + 1, n, items, rules) == array_value(d, node, items, rules),
        items.len() == 0 ==> fails_with(
            array_member(d + 1, n, items, rules),
            ErrorView::Mismatch("array element "@ + node_text(node)),
            items,
        ),
        items.len() > 0 ==> match judge(d, items[0], node, rules) {
            None => array_member(d + 1, n, items, rules) is None,
            Some(Err(e)) => fails_with(array_member(d + 1, n, items, rules), e, items),
            Some(Ok(_)) => array_member(d + 1, n, items, rules) matches Some(run)
                && run.verdict is Ok && run.taken == seq![items[0]] && run.rest
                == items.subrange(1, items.len() as int),
        },
{
    assert(array_member(d + 1, n, items, rules) == array_value(d, node, items, rules));
}

/// A group among the members of an array matches exactly when its members all match, in order, and
/// then takes and leaves what they do. If one of them fails, so does the group, with the same
/// error, and nothing is taken.
pub proof fn lemma_array_group(d: nat, g: Group, items: Seq<ValueView>, rules: Rules)
    ensures
        match array_members(d, g.members@, 0, items, rules) {
            None => array_member(d + 1, Node::Group(g), items, rules) is None,
            Some(run) => match run.verdict {
                Ok(_) => array_member(d + 1, Node::Group(g), items, rules) == Some(run),
                Err(e) => fails_with(array_member(d + 1, Node::Group(g), items, rules), e, items),
            },
        },
{
    lemma_failed_group_restores_array(d + 1, g, items, rules);
}

/// Without members nothing is taken.
pub proof fn lemma_array_no_members(d: nat, items: Seq<ValueView>, rules: Rules)
    ensures
        array_members(d, Seq::empty(), 0, items, rules) matches Some(run) && run.verdict is Ok
            && run.rest == items && run.taken.len() == 0,
{
}

/// The first member is matched with everything, and the others with what it leaves, if it matches.
pub proof fn lemma_array_first_member(
    d: nat,
    members: Seq<Node>,
    items: Seq<ValueView>,
    rules: Rules,
)
    requires
        members.len() > 0,
    ensures
        match array_member(d, members[0], items, rules) {
            None => array_members(d, members, 0, items, rules) is None,
            Some(first) => match first.verdict {
                Err(_) => array_members(d, members, 0, items, rules) == Some(first),
                Ok(_) => match array_members(d, members.drop_first(), 0, first.rest, rules) {
                    None => array_members(d, members, 0, items, rules) is None,
                    Some(others) => array_members(d, members, 0, items, rules) == Some(
                        Run {
                            verdict: others.verdict,
                            rest: others.rest,
                            taken: first.taken + others.taken,
                        },
                    ),
                },
            },
        },
{
    if let Some(first) = array_member(d, members[0], items, rules) {
        assert(members =~= seq![members[0]] + members.drop_first());
        lemma_array_members_shift(
            d,
            seq![members[0]],
            members.drop_first(),
            0,
            first.rest,
            rules,
        );
    }
}

/// Members from an index on are matched as if they were all.
pub proof fn lemma_array_members_from(
    d: nat,
    members: Seq<Node>,
    i: int,
    items: Seq<ValueView>,
    rules: Rules,
)
    requires
        0 <= i <= members.len(),
    ensures
        array_members(d, members, i, items, rules) == array_members(
            d,
            members.skip(i),
            0,
            items,
            rules,
        ),
{
    assert(members =~= members.take(i) + members.skip(i));
    lemma_array_members_shift(d, members.take(i), members.skip(i), 0, items, rules);
}

/// A rule among the members does what the member does that it stands for.
pub proof fn lemma_array_rule(d: nat, r: Rule, items: Seq<ValueView>, rules: Rules)
    ensures
        rules(r.name@) matches Ok(node) ==> array_member(d + 1, Node::Rule(r), items, rules)
            == array_member(d, node, items, rules),
        rules(r.name@) matches Err(e) ==> {
            &&& fails_with(array_member(d + 1, Node::Rule(r), items, rules), e, items)
            &&& fails_with(array_member(d + 1, Node::Unwrap(r), items, rules), e, items)
        },
{
}

/// Unwrapping stands for the members of the array that a rule stands for; what is no array is a
/// mismatch.
pub proof fn lemma_array_unwrap(d: nat, r: Rule, n: Node, items: Seq<ValueView>, rules: Rules)
    requires
        rules(r.name@) == Ok::<Node, ErrorView>(n),
    ensures
        n matches Node::Array(inner) ==> array_member(d + 1, Node::Unwrap(r), items, rules)
            == array_members(d, inner.members@, 0, items, rules),
        !(n is Array) ==> fails_with(
            array_member(d + 1, Node::Unwrap(r), items, rules),
            ErrorView::Mismatch("unwrap array"@),
            items,
        ),
        array_member(d + 1, Node::Unwrap(r), items, rules) == array_unwrap(d, n, items, rules),
{
    assert(array_member(d + 1, Node::Unwrap(r), items, rules) == array_unwrap(d, n, items, rules));
    if let Node::Array(inner) = n {
        assert(array_unwrap(d, n, items, rules) == array_members(
            d,
            inner.members@,
            0,
            items,
            rules,
        ));
    }
}

/// Only an array can be unwrapped into an array, and what it comes to are its members.
pub proof fn lemma_array_unwrapped_node(d: nat, n: Node, items: Seq<ValueView>, rules: Rules)
    ensures
        n matches Node::Array(inner) ==> array_unwrap(d, n, items, rules) == array_members(
            d,
            inner.members@,
            0,
            items,
            rules,
        ),
        !(n is Array) ==> fails_with(
            array_unwrap(d, n, items, rules),
            ErrorView::Mismatch("unwrap array"@),
            items,
        ),
{
}

proof fn lemma_array_options_in_turn_from(
    d: nat,
    options: Seq<Node>,
    i: int,
    items: Seq<ValueView>,
    rules: Rules,
)
    requires
        0 <= i <= options.len(),
    ensures
        array_option_in_turn(d, options, i, items, rules),
{
}

/// From option `i` on: the option decides if it matches, or fails fatally; otherwise the next one
/// is tried with what it left, and if there is none, the choice says how many options there were.
pub open spec fn array_option_in_turn(
    d: nat,
    options: Seq<Node>,
    i: int,
    items: Seq<ValueView>,
    rules: Rules,
) -> bool {
    let result = array_options(d, options, i, items, rules);
    if i >= options.len() {
        fails_with(result, ErrorView::Mismatch("choice of "@ + decimal(options.len())), items)
    } else {
        match array_member(d, options[i], items, rules) {
            None => result is None,
            Some(first) => if soft(first.verdict) {
                match array_options(d, options, i + 1, first.rest, rules) {
                    None => result is None,
                    Some(next) => result == Some(
                        Run {
                            verdict: next.verdict,
                            rest: next.rest,
                            taken: first.taken + next.taken,
                        },
                    ),
                }
            } else {
                result == Some(first)
            },
        }
    }
}

/// A choice among the members of an array tries its options in turn.
pub proof fn lemma_array_choice_in_turn(
    d: nat,
    c: Choice,
    i: int,
    items: Seq<ValueView>,
    rules: Rules,
)
    requires
        0 <= i <= c.options@.len(),
    ensures
        array_member(d + 1, Node::Choice(c), items, rules) == array_options(
            d,
            c.options@,
            0,
            items,
            rules,
        ),
        array_option_in_turn(d, c.options@, i, items, rules),
{
    lemma_array_options_in_turn_from(d, c.options@, i, items, rules);
}

proof fn lemma_array_occur_from(
    d: nat,
    o: Occur,
    lower: nat,
    upper: nat,
    count: nat,
    n: nat,
    items: Seq<ValueView>,
    rules: Rules,
)
    requires
        limited(o.limit, lower, upper),
        count + n <= upper,
        array_repeats(d, *o.node, n, items, rules) is Some,
        count + n < upper ==> (array_member(
            d,
            *o.node,
            array_repeats(d, *o.node, n, items, rules)->Some_0,
            rules,
        ) matches Some(last) && last.verdict is Err),
    ensures
        array_occur(d, o, count, items, rules) matches Some(run) && array_stopped(
            d,
            o,
            lower,
            upper,
            count + n,
            array_repeats(d, *o.node, n, items, rules)->Some_0,
            run,
            rules,
        ),
    decreases n,
{
    if n > 0 {
        let first = array_member(d, *o.node, items, rules)->Some_0;
        lemma_array_occur_from(
            d,
            o,
            lower,
            upper,
            count + 1,
            (n - 1) as nat,
            first.rest,
            rules,
        );
    }
}

/// Matching what may occur from `lower` to `upper` times has stopped after `n` times: because it
/// may occur no more, or because the next attempt failed. It is enough, and matches, if `n` is not
/// below `lower`; an error that is no mismatch is passed on.
pub open spec fn array_stopped(
    d: nat,
    o: Occur,
    lower: nat,
    upper: nat,
    n: nat,
    left: Seq<ValueView>,
    run: Run<ValueView>,
    rules: Rules,
) -> bool {
    let what = "more array element ["@ + occur_text(o) + "]"@;
    if n == upper {
        run.rest == left && enough(run.verdict, n >= lower, what)
    } else {
        match array_member(d, *o.node, left, rules) {
            None => false,
            Some(last) => run.rest == last.rest && match last.verdict {
                Ok(_) => false,
                Err(ErrorView::Mismatch(_)) => enough(run.verdict, n >= lower, what),
                Err(x) => run.verdict == Err::<(), ErrorView>(x),
            },
        }
    }
}

/// How often it matches decides on what may occur from `lower` to `upper` times: where it matches
/// `n` times in a row, and then may not or does not match once more, it matches if `n` is not below
/// `lower`.
pub proof fn lemma_array_occurs(
    d: nat,
    o: Occur,
    lower: nat,
    upper: nat,
    n: nat,
    items: Seq<ValueView>,
    rules: Rules,
)
    requires
        limited(o.limit, lower, upper),
        n <= upper,
        array_repeats(d, *o.node, n, items, rules) is Some,
        n < upper ==> (array_member(
            d,
            *o.node,
            array_repeats(d, *o.node, n, items, rules)->Some_0,
            rules,
        ) matches Some(last) && last.verdict is Err),
    ensures
        array_member(d + 1, Node::Occur(o), items, rules) == array_occur(d, o, 0, items, rules),
        array_occur(d, o, 0, items, rules) matches Some(run) && array_stopped(
            d,
            o,
            lower,
            upper,
            n,
            array_repeats(d, *o.node, n, items, rules)->Some_0,
            run,
            rules,
        ),
{
    lemma_array_occur_from(d, o, lower, upper, 0, n, items, rules);
}

proof fn lemma_array_occurrence_count_from(
    d: nat,
    o: Occur,
    lower: nat,
    upper: nat,
    count: nat,
    items: Seq<ValueView>,
    rules: Rules,
) -> (n: nat)
    requires
        limited(o.limit, lower, upper),
        count <= upper,
        array_occur(d, o, count, items, rules) is Some,
    ensures
        count + n <= upper,
        array_repeats(d, *o.node, n, items, rules) is Some,
        count + n < upper ==> (array_member(
            d,
            *o.node,
            array_repeats(d, *o.node, n, items, rules)->Some_0,
            rules,
        ) matches Some(last) && last.verdict is Err),
    decreases upper - count,
{
    if count == upper {
        0
    } else {
        let first = array_member(d, *o.node, items, rules)->Some_0;
        if first.verdict is Ok {
            lemma_array_occurrence_count_from(d, o, lower, upper, count + 1, first.rest, rules) + 1
        } else {
            0
        }
    }
}

/// What matches has occurred at least `lower` times, and at most `upper` times.
pub proof fn lemma_array_occurs_within_limits(
    d: nat,
    o: Occur,
    lower: nat,
    upper: nat,
    items: Seq<ValueView>,
    rules: Rules,
) -> (n: nat)
    requires
        limited(o.limit, lower, upper),
        array_member(d + 1, Node::Occur(o), items, rules) matches Some(run) && run.verdict is Ok,
    ensures
        lower <= n <= upper,
        array_repeats(d, *o.node, n, items, rules) is Some,
{
    let n = lemma_array_occurrence_count_from(d, o, lower, upper, 0, items, rules);
    lemma_array_occurs(d, o, lower, upper, n, items, rules);
    n
}

proof fn lemma_counted_from(
    d: nat,
    o: Occur,
    node: Node,
    lower: nat,
    upper: nat,
    count: nat,
    items: Seq<ValueView>,
    rules: Rules,
)
    requires
        limited(o.limit, lower, upper),
        stands_for_item(*o.node, node),
        count <= upper,
    ensures
        ({
            let run = array_occur(d + 1, o, count, items, rules);
            (run matches Some(r) && r.verdict is Ok && r.rest.len() == 0) <==> lower <= count
                + items.len() <= upper && all_match(d, items, node, rules)
        }),
    decreases items.len(),
{
    let n = node;
    lemma_array_item(d, *o.node, node, items, rules);
    if items.len() > 0 && count < upper {
        let tail = items.drop_first();
        lemma_counted_from(d, o, node, lower, upper, count + 1, tail, rules);
        if judge(d, items[0], n, rules) matches Some(Ok(_)) {
            if all_match(d, tail, n, rules) {
                assert forall|i: int| 0 <= i < items.len() implies (judge(
                    d,
                    #[trigger] items[i],
                    n,
                    rules,
                ) matches Some(Ok(_))) by {
                    if i > 0 {
                        assert(tail[i - 1] == items[i]);
                    }
                }
            }
            if all_match(d, items, n, rules) {
                assert forall|i: int| 0 <= i < tail.len() implies (judge(
                    d,
                    #[trigger] tail[i],
                    n,
                    rules,
                ) matches Some(Ok(_))) by {
                    assert(tail[i] == items[i + 1]);
                }
            }
        }
    }
}

/// An array with one member that takes a single item and may occur from `lower` to `upper` times
/// matches exactly the arrays of as many items that all match it.
pub proof fn lemma_counted_array(
    d: nat,
    a: Array,
    o: Occur,
    node: Node,
    lower: nat,
    upper: nat,
    items: Seq<ValueView>,
    rules: Rules,
)
    requires
        a.members@ == seq![Node::Occur(o)],
        limited(o.limit, lower, upper),
        stands_for_item(*o.node, node),
    ensures
        (judge(d + 3, ValueView::Array(items), Node::Array(a), rules) matches Some(Ok(_))) <==> {
            &&& lower <= items.len() <= upper
            &&& forall|i: int|
                0 <= i < items.len() ==> (judge(
                    d,
                    #[trigger] items[i],
                    node,
                    rules,
                ) matches Some(Ok(_)))
        },
{
    let e = (d + 2) as nat;
    lemma_counted_from(d, o, node, lower, upper, 0, items, rules);
    lemma_array_node(e, a, ValueView::Array(items), rules);
    lemma_array_first_member(e, a.members@, items, rules);
    assert(a.members@.drop_first() =~= Seq::<Node>::empty());
    assert(array_member(e, Node::Occur(o), items, rules) == array_occur(
        (d + 1) as nat,
        o,
        0,
        items,
        rules,
    ));
    if let Some(run) = array_member(e, Node::Occur(o), items, rules) {
        lemma_array_no_members(e, run.rest, rules);
    }
}

/// An array with a single group matches what an array with the members of the group matches.
pub proof fn lemma_array_of_group(
    d: nat,
    a: Array,
    b: Array,
    g: Group,
    v: ValueView,
    rules: Rules,
)
    requires
        a.members@ == seq![Node::Group(g)],
        b.members@ == g.members@,
    ensures
        (judge(d + 2, v, Node::Array(a), rules) matches Some(Ok(_))) <==> (judge(
            d + 1,
            v,
            Node::Array(b),
            rules,
        ) matches Some(Ok(_))),
{
    let e = (d + 1) as nat;
    lemma_array_node(e, a, v, rules);
    lemma_array_node(d, b, v, rules);
    if let ValueView::Array(items) = v {
        lemma_array_group(d, g, items, rules);
        lemma_array_first_member(e, a.members@, items, rules);
        assert(a.members@.drop_first() =~= Seq::<Node>::empty());
        if let Some(run) = array_member(e, Node::Group(g), items, rules) {
            lemma_array_no_members(e, run.rest, rules);
        }
    }
}

} // verus!
