//! What holds of validation as a whole.
use vstd::prelude::*;

use crate::context::Rules;
use crate::entries::Entries;
use crate::float::Float;
use crate::ivt::{Node, PreludeType, Rule};
use crate::semantics::{
    array_member, expected_choice, float_in_range, idle, in_prelude_type, int_in_range, judge,
    judge_options, judge_rule, map_member,
};
use crate::util::{ErrorView, Verdict};
use crate::value::ValueView;

verus! {

/// The verdict is that the value matches.
pub open spec fn matched(verdict: Option<Verdict>) -> bool {
    verdict matches Some(Ok(_))
}

/// An option that does not match, and leaves the options after it a chance.
pub open spec fn passes_on(verdict: Option<Verdict>) -> bool {
    match verdict {
        Some(Err(e)) => !e.is_fatal(),
        _ => false,
    }
}

/// Option `i` is the first, from option `k` on, that does not leave the options after it a chance,
/// and it matches.
pub open spec fn settled_by(
    d: nat,
    options: Seq<Node>,
    k: int,
    i: int,
    v: ValueView,
    rules: Rules,
) -> bool {
    &&& k <= i < options.len()
    &&& matched(judge(d, v, options[i], rules))
    &&& forall|j: int| k <= j < i ==> passes_on(judge(d, v, #[trigger] options[j], rules))
}

/// A choice matches exactly when one of its options matches and none before it fails with a fatal
/// error.
pub proof fn lemma_choice_matches(d: nat, options: Seq<Node>, v: ValueView, rules: Rules)
    ensures
        matched(judge_options(d, options, 0, v, rules)) <==> exists|i: int|
            settled_by(d, options, 0, i, v, rules),
{
    lemma_choice_matches_from(d, options, 0, v, rules);
}

proof fn lemma_choice_matches_from(d: nat, options: Seq<Node>, k: int, v: ValueView, rules: Rules)
    requires
        0 <= k <= options.len(),
    ensures
        matched(judge_options(d, options, k, v, rules)) <==> exists|i: int|
            settled_by(d, options, k, i, v, rules),
    decreases options.len() - k,
{
    if k < options.len() {
        let next = k + 1;
        lemma_choice_matches_from(d, options, next, v, rules);
        let here = judge(d, v, options[k], rules);
        if matched(here) {
            assert(settled_by(d, options, k, k, v, rules));
        } else if passes_on(here) {
            if exists|i: int| settled_by(d, options, next, i, v, rules) {
                let i = choose|i: int| settled_by(d, options, next, i, v, rules);
                assert(settled_by(d, options, k, i, v, rules));
            }
            if exists|i: int| settled_by(d, options, k, i, v, rules) {
                let i = choose|i: int| settled_by(d, options, k, i, v, rules);
                assert(settled_by(d, options, next, i, v, rules));
            }
        } else if exists|i: int| settled_by(d, options, k, i, v, rules) {
            let i = choose|i: int| settled_by(d, options, k, i, v, rules);
            assert(passes_on(judge(d, v, options[k], rules)));
        }
    }
}

/// Where every option fails and leaves the next a chance, the choice fails and says how many
/// options there were.
pub proof fn lemma_choice_exhausted(d: nat, options: Seq<Node>, v: ValueView, rules: Rules)
    requires
        forall|j: int|
            0 <= j < options.len() ==> passes_on(judge(d, v, #[trigger] options[j], rules)),
    ensures
        judge_options(d, options, 0, v, rules) == Some(expected_choice(options.len())),
{
    lemma_choice_exhausted_from(d, options, 0, v, rules);
}

proof fn lemma_choice_exhausted_from(
    d: nat,
    options: Seq<Node>,
    k: int,
    v: ValueView,
    rules: Rules,
)
    requires
        0 <= k <= options.len(),
        forall|j: int|
            k <= j < options.len() ==> passes_on(judge(d, v, #[trigger] options[j], rules)),
    ensures
        judge_options(d, options, k, v, rules) == Some(expected_choice(options.len())),
    decreases options.len() - k,
{
    if k < options.len() {
        assert(passes_on(judge(d, v, options[k], rules)));
        lemma_choice_exhausted_from(d, options, k + 1, v, rules);
    }
}

/// A rule stands for its definition: it gives the verdict of the node that it refers to, and a
/// rule that cannot be looked up gives the error of the lookup.
pub proof fn lemma_rule_falls_through(d: nat, r: Rule, v: ValueView, rules: Rules)
    ensures
        match rules(r.name@) {
            Ok(node) => judge(d + 1, v, Node::Rule(r), rules) == judge(d, v, node, rules),
            Err(e) => judge(d + 1, v, Node::Rule(r), rules) == Some(Err::<(), ErrorView>(e)),
        },
{
    assert(judge(d + 1, v, Node::Rule(r), rules) == judge_rule(d, r, v, rules));
}

/// Among the members of an array or a map, a rule is seen through: it does what the node does that
/// it refers to, and a rule that cannot be looked up gives the error of the lookup and takes
/// nothing.
pub proof fn lemma_member_rule_seen_through(
    d: nat,
    r: Rule,
    items: Seq<ValueView>,
    stock: Entries,
    rules: Rules,
)
    ensures
        match rules(r.name@) {
            Ok(node) => {
                &&& array_member(d + 1, Node::Rule(r), items, rules) == array_member(
                    d,
                    node,
                    items,
                    rules,
                )
                &&& map_member(d + 1, Node::Rule(r), stock, rules) == map_member(
                    d,
                    node,
                    stock,
                    rules,
                )
            },
            Err(e) => {
                &&& array_member(d + 1, Node::Rule(r), items, rules) == Some(
                    idle(Err(e), items),
                )
                &&& map_member(d + 1, Node::Rule(r), stock, rules) == Some(idle(Err(e), stock))
            },
        },
{
}

/// The integers are the unsigned and the negative ones, and none is both.
pub proof fn lemma_integers_split(v: ValueView)
    ensures
        in_prelude_type(PreludeType::Int, v) <==> in_prelude_type(PreludeType::Uint, v)
            || in_prelude_type(PreludeType::Nint, v),
        !(in_prelude_type(PreludeType::Uint, v) && in_prelude_type(PreludeType::Nint, v)),
{
}

/// An integer is in a range that includes its end exactly when it is in the range without the end
/// or is the end itself and not below the start.
pub proof fn lemma_inclusive_range(start: int, end: int, x: int)
    ensures
        int_in_range(start, end, x, true) <==> int_in_range(start, end, x, false) || x == end
            && start <= end,
        int_in_range(start, end, x, false) ==> start < end,
{
}

/// What is no number is in no range.
pub proof fn lemma_no_number_in_no_range(start: Float, end: Float, x: Float, inclusive: bool)
    requires
        x.is_nan(),
    ensures
        !float_in_range(start, end, x, inclusive),
{
}

} // verus!
