//! Validation of data against a schema.
use vstd::prelude::*;
use vstd::string::StringExecFns;

use crate::array::validate_array;
use crate::context::Context;
use crate::depth::{lemma_judge_depth, lemma_judge_options_depth, lemma_judge_rule_depth};
use crate::ivt::{Choice, Group, Node, Rule};
use crate::map::validate_map;
use crate::scalar::{validate_literal, validate_prelude_type, validate_range};
use crate::semantics::{expected_choice, judge, judge_group, judge_options, judge_rule};
use crate::text::count_text;
use crate::util::{mismatch, verdict, ErrorView, ValidateError, ValidateResult, Verdict};
use crate::value::Value;

verus! {

/// What the outcome of a validation says, where the depth sufficed.
pub open spec fn outcome(r: Option<ValidateResult>) -> Option<Verdict> {
    match r {
        None => None,
        Some(result) => Some(verdict(result)),
    }
}

/// Validates a value against a node.
///
/// The rules that the node refers to may refer to each other without end; the value and the node
/// must be such that matching comes to an end.
pub fn validate<C: Context + ?Sized>(value: &Value, node: &Node, ctx: &C) -> (r: ValidateResult)
    requires
        exists|d: nat|
            d <= usize::MAX && #[trigger] judge(d, value@, *node, ctx.rules()) is Some,
    ensures
        forall|d: nat|
            #![trigger judge(d, value@, *node, ctx.rules())]
            judge(d, value@, *node, ctx.rules()) is Some ==> judge(d, value@, *node, ctx.rules())
                == Some(verdict(r)),
{
    let ghost (v, n, rules, top) = (value@, *node, ctx.rules(), usize::MAX as nat);
    proof {
        let d = choose|d: nat| d <= usize::MAX && #[trigger] judge(d, v, n, rules) is Some;
        lemma_judge_depth(d, top, v, n, rules);
        assert forall|d: nat| judge(d, v, n, rules) is Some implies #[trigger] judge(
            d,
            v,
            n,
            rules,
        ) == judge(top, v, n, rules) by {
            if d <= top {
                lemma_judge_depth(d, top, v, n, rules);
            } else {
                lemma_judge_depth(top, d, v, n, rules);
            }
        }
    }
    validate_within(value, node, ctx, usize::MAX).unwrap()
}

/// Validates a `Choice` containing an arbitrary number of "option" nodes.
///
/// The options are tried in order. The first that matches makes the validation successful, unless
/// one before it has failed with a fatal error. Matching must come to an end.
pub fn validate_choice<C: Context + ?Sized>(choice: &Choice, value: &Value, ctx: &C) -> (r:
    ValidateResult)
    requires
        exists|d: nat|
            d <= usize::MAX && #[trigger] judge_options(
                d,
                choice.options@,
                0,
                value@,
                ctx.rules(),
            ) is Some,
    ensures
        forall|d: nat|
            #![trigger judge_options(d, choice.options@, 0, value@, ctx.rules())]
            judge_options(d, choice.options@, 0, value@, ctx.rules()) is Some ==> judge_options(
                d,
                choice.options@,
                0,
                value@,
                ctx.rules(),
            ) == Some(verdict(r)),
{
    let ghost (v, options, rules, top) = (
        value@,
        choice.options@,
        ctx.rules(),
        usize::MAX as nat,
    );
    proof {
        let d = choose|d: nat|
            d <= usize::MAX && #[trigger] judge_options(d, options, 0, v, rules) is Some;
        lemma_judge_options_depth(d, top, options, 0, v, rules);
        assert forall|d: nat| judge_options(d, options, 0, v, rules) is Some implies #[trigger]
            judge_options(d, options, 0, v, rules) == judge_options(
            top,
            options,
            0,
            v,
            rules,
        ) by {
            if d <= top {
                lemma_judge_options_depth(d, top, options, 0, v, rules);
            } else {
                lemma_judge_options_depth(top, d, options, 0, v, rules);
            }
        }
    }
    validate_choice_within(choice, value, ctx, usize::MAX).unwrap()
}

/// Validates a `Rule` reference.
///
/// This just falls through to the referenced `Node`. Matching must come to an end.
pub fn validate_rule<C: Context + ?Sized>(rule: &Rule, value: &Value, ctx: &C) -> (r:
    ValidateResult)
    requires
        exists|d: nat|
            d <= usize::MAX && #[trigger] judge_rule(d, *rule, value@, ctx.rules()) is Some,
    ensures
        forall|d: nat|
            #![trigger judge_rule(d, *rule, value@, ctx.rules())]
            judge_rule(d, *rule, value@, ctx.rules()) is Some ==> judge_rule(
                d,
                *rule,
                value@,
                ctx.rules(),
            ) == Some(verdict(r)),
{
    let ghost (v, n, rules, top) = (value@, *rule, ctx.rules(), usize::MAX as nat);
    proof {
        let d = choose|d: nat| d <= usize::MAX && #[trigger] judge_rule(d, n, v, rules) is Some;
        lemma_judge_rule_depth(d, top, n, v, rules);
        assert forall|d: nat| judge_rule(d, n, v, rules) is Some implies #[trigger] judge_rule(
            d,
            n,
            v,
            rules,
        ) == judge_rule(top, n, v, rules) by {
            if d <= top {
                lemma_judge_rule_depth(d, top, n, v, rules);
            } else {
                lemma_judge_rule_depth(top, d, n, v, rules);
            }
        }
    }
    validate_rule_within(rule, value, ctx, usize::MAX).unwrap()
}

/// Validates a value against a node, as [`validate`] does, with at most `depth` nested steps;
/// gives `None` where that does not suffice.
pub fn validate_within<C: Context + ?Sized>(
    value: &Value,
    node: &Node,
    ctx: &C,
    depth: usize,
) -> (r: Option<ValidateResult>)
    ensures
        outcome(r) == judge(depth as nat, value@, *node, ctx.rules()),
    decreases depth, 0int,
{
    if depth == 0 {
        return None;
    }
    let depth: usize = depth - 1;
    match node {
        Node::Literal(l) => Some(validate_literal(l, value)),
        Node::PreludeType(p) => Some(validate_prelude_type(*p, value)),
        Node::Choice(c) => validate_choice_within(c, value, ctx, depth),
        Node::Mapping(m) => validate_map(m, value, ctx, depth),
        Node::Array(a) => validate_array(a, value, ctx, depth),
        Node::Rule(r) => validate_rule_within(r, value, ctx, depth),
        Node::Group(g) => validate_standalone_group(g, value, ctx, depth),
        Node::KeyValue(_) => Some(
            Err(ValidateError::StructuralError("unexpected KeyValue".to_owned())),
        ),
        Node::Occur(_) => Some(Err(ValidateError::StructuralError("unexpected Occur".to_owned()))),
        Node::Unwrap(_) => Some(
            Err(ValidateError::StructuralError("unexpected Unwrap".to_owned())),
        ),
        Node::Range(r) => validate_range(r, value, ctx, depth),
    }
}

/// Validates a value against a choice, as [`validate_choice`] does, with at most `depth` nested
/// steps; gives `None` where that does not suffice.
pub fn validate_choice_within<C: Context + ?Sized>(
    choice: &Choice,
    value: &Value,
    ctx: &C,
    depth: usize,
) -> (r: Option<ValidateResult>)
    ensures
        outcome(r) == judge_options(depth as nat, choice.options@, 0, value@, ctx.rules()),
    decreases depth, 1int,
{
    let ghost (d, rules, options) = (depth as nat, ctx.rules(), choice.options@);
    for i in 0..choice.options.len()
        invariant
            d == depth,
            rules == ctx.rules(),
            options == choice.options@,
            judge_options(d, options, 0, value@, rules) == judge_options(
                d,
                options,
                i as int,
                value@,
                rules,
            ),
    {
        match validate_within(value, &choice.options[i], ctx, depth)? {
            Ok(()) => {
                return Some(Ok(()));
            },
            Err(e) => {
                // Only fail if the error is considered fatal.
                // Otherwise, we'll keep trying other options.
                if e.is_fatal() {
                    return Some(Err(e));
                }
            },
        }
    }
    Some(Err(no_choice(choice)))
}

/// The error that none of the alternatives matched.
pub(crate) fn no_choice(choice: &Choice) -> (r: ValidateError)
    ensures
        Err::<(), ErrorView>(r@) == expected_choice(choice.options@.len()),
{
    mismatch("choice of ".to_owned().concat(count_text(choice.options.len()).as_str()))
}

/// Validates a value against a rule, as [`validate_rule`] does, with at most `depth` nested
/// steps; gives `None` where that does not suffice.
pub fn validate_rule_within<C: Context + ?Sized>(
    rule: &Rule,
    value: &Value,
    ctx: &C,
    depth: usize,
) -> (r: Option<ValidateResult>)
    ensures
        outcome(r) == judge_rule(depth as nat, *rule, value@, ctx.rules()),
    decreases depth, 1int,
{
    match ctx.lookup_rule(rule.name.as_str()) {
        Ok(node) => validate_within(value, node, ctx, depth),
        Err(e) => Some(Err(e)),
    }
}

/// Validates a value against a group that stands in neither a map nor an array.
pub fn validate_standalone_group<C: Context + ?Sized>(
    g: &Group,
    value: &Value,
    ctx: &C,
    depth: usize,
) -> (r: Option<ValidateResult>)
    ensures
        outcome(r) == judge_group(depth as nat, *g, value@, ctx.rules()),
    decreases depth, 1int,
{
    // Since we're not in an array or map context, it's not clear how we should
    // validate a group containing multiple elements.  If we see one, return an
    // error.
    if g.members.len() == 1 {
        // Since our group has length 1, validate against that single element.
        validate_within(value, &g.members[0], ctx, depth)
    } else {
        Some(Err(ValidateError::Unsupported("standalone group".to_owned())))
    }
}

} // verus!
