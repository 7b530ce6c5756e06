//! Validation of arrays.
//!
//! The members of a schema's array take items from the front of a working copy. The members stand
//! in matching order, so that each takes what it can and the next goes on from there.
use vstd::prelude::*;
use vstd::string::StringExecFns;

use crate::context::Context;
use crate::ivt::{limit_bounds, Array, Choice, Node, Occur};
use crate::runs::{lemma_idle, lemma_resumed, lemma_resumed_idle, ran};
use crate::semantics::{
    array_member, array_members, array_occur, array_options, array_unwrap, array_value, expected,
    followed, idle, judge_array, occur_verdict_array, resumed, Run,
};
use crate::text::node_text;
use crate::util::{mismatch, ValidateResult};
use crate::validate::{no_choice, outcome, validate_within};
use crate::value::{values_view, Value, ValueView};
use crate::working::{lemma_recorded, recorded, WorkingArray};

verus! {

/// Validates a value against an array.
pub fn validate_array<C: Context + ?Sized>(
    ar: &Array,
    value: &Value,
    ctx: &C,
    depth: usize,
) -> (r: Option<ValidateResult>)
    ensures
        outcome(r) == judge_array(depth as nat, *ar, value@, ctx.rules()),
    decreases depth, 3int,
{
    match value {
        Value::Array(a) => validate_array_part2(ar, a.as_slice(), ctx, depth),
        _ => Some(Err(mismatch("array".to_owned()))),
    }
}

/// Validates the items of an array: the members take them from the front, in order, and must
/// leave none.
pub fn validate_array_part2<C: Context + ?Sized>(
    ar: &Array,
    value_array: &[Value],
    ctx: &C,
    depth: usize,
) -> (r: Option<ValidateResult>)
    ensures
        outcome(r) == judge_array(
            depth as nat,
            *ar,
            ValueView::Array(values_view(value_array@)),
            ctx.rules(),
        ),
    decreases depth, 2int,
{
    let mut working_array = WorkingArray::new(value_array);
    match validate_array_members(&ar.members, &mut working_array, ctx, depth)? {
        Ok(()) => {},
        Err(e) => {
            return Some(Err(e));
        },
    }
    if working_array.is_empty() {
        Some(Ok(()))
    } else {
        // If the working array isn't empty, that means we had some extra values
        // that didn't match anything.
        Some(Err(mismatch("shorter array".to_owned())))
    }
}

/// Validates the front of an array against a member of an array or of a group in it.
pub fn validate_array_member<C: Context + ?Sized>(
    member: &Node,
    working_array: &mut WorkingArray,
    ctx: &C,
    depth: usize,
) -> (r: Option<ValidateResult>)
    ensures
        ran(
            r,
            old(working_array)@,
            final(working_array)@,
            array_member(depth as nat, *member, old(working_array)@.items, ctx.rules()),
        ),
    decreases depth, 0int,
{
    if depth == 0 {
        return None;
    }
    let depth: usize = depth - 1;
    let ghost before = working_array@;
    match member {
        Node::Occur(o) => validate_array_occur(o, working_array, ctx, depth),
        // The key is ignored.  Validate the value only.
        Node::KeyValue(kv) => validate_array_value(&kv.value, working_array, ctx, depth),
        // We need to dereference the rule here: validate_array_value() could not "see
        // through" KeyValue and Group nodes while remembering that we are in an array.
        Node::Rule(r) => match ctx.lookup_rule(r.name.as_str()) {
            Ok(next_node) => validate_array_member(next_node, working_array, ctx, depth),
            Err(e) => {
                proof {
                    lemma_idle(before, Err(e@));
                }
                Some(Err(e))
            },
        },
        // Like Rule, we are dereferencing the Rule by hand here.
        Node::Unwrap(r) => match ctx.lookup_rule(r.name.as_str()) {
            Ok(node) => validate_array_unwrap(node, working_array, ctx, depth),
            Err(e) => {
                proof {
                    lemma_idle(before, Err(e@));
                }
                Some(Err(e))
            },
        },
        Node::Choice(c) => validate_array_options(c, working_array, ctx, depth),
        Node::Group(g) => {
            // We don't know how many items the members might speculatively pop from the
            // list.  So we'll take a snapshot now and commit our changes if we match
            // successfully (and roll them back if it fails).
            working_array.snapshot();
            let ghost run = array_members(depth as nat, g.members@, 0, before.items, ctx.rules());
            let result = validate_array_members(&g.members, working_array, ctx, depth)?;
            proof {
                lemma_recorded(before.snaps, run->Some_0.taken, Seq::empty());
                assert(before.snaps.push(run->Some_0.taken).drop_last() =~= before.snaps);
            }
            match result {
                Ok(()) => {
                    // All group members validated Ok.
                    working_array.commit();
                    Some(Ok(()))
                },
                Err(e) => {
                    // Since we failed to validate the entire group, rewind to our most
                    // recent snapshot.  This may put values back into the array,
                    // so they can be matched by whatever we try next (or trigger
                    // an error if they aren't consumed by anything).
                    working_array.rewind();
                    Some(Err(e))
                },
            }
        },
        m => validate_array_value(m, working_array, ctx, depth),
    }
}

/// Validates the front of an array against members, each where the one before it left off.
pub fn validate_array_members<C: Context + ?Sized>(
    members: &Vec<Node>,
    working_array: &mut WorkingArray,
    ctx: &C,
    depth: usize,
) -> (r: Option<ValidateResult>)
    ensures
        ran(
            r,
            old(working_array)@,
            final(working_array)@,
            array_members(depth as nat, members@, 0, old(working_array)@.items, ctx.rules()),
        ),
    decreases depth, 1int,
{
    let ghost (d, rules, before) = (depth as nat, ctx.rules(), working_array@);
    let ghost mut so_far = idle(Ok(()), before.items);
    proof {
        lemma_recorded(before.snaps, Seq::empty(), Seq::empty());
        lemma_resumed_idle(
            Ok(()),
            before.items,
            array_members(d, members@, 0, before.items, rules),
        );
    }
    for i in 0..members.len()
        invariant
            d == depth,
            rules == ctx.rules(),
            before == old(working_array)@,
            array_members(d, members@, 0, before.items, rules) == resumed(
                so_far,
                array_members(d, members@, i as int, working_array@.items, rules),
            ),
            working_array@.snaps == recorded(before.snaps, so_far.taken),
    {
        let ghost run = array_member(d, members@[i as int], working_array@.items, rules);
        let result = validate_array_member(&members[i], working_array, ctx, depth)?;
        proof {
            let next = array_members(d, members@, i + 1, run->Some_0.rest, rules);
            lemma_recorded(before.snaps, so_far.taken, run->Some_0.taken);
            lemma_resumed(so_far, run->Some_0, next);
            so_far = followed(so_far, run->Some_0);
        }
        match result {
            Ok(()) => {},
            Err(e) => {
                return Some(Err(e));
            },
        }
    }
    Some(Ok(()))
}

/// Validates the front of an array against alternatives, first to last.
pub fn validate_array_options<C: Context + ?Sized>(
    choice: &Choice,
    working_array: &mut WorkingArray,
    ctx: &C,
    depth: usize,
) -> (r: Option<ValidateResult>)
    ensures
        ran(
            r,
            old(working_array)@,
            final(working_array)@,
            array_options(
                depth as nat,
                choice.options@,
                0,
                old(working_array)@.items,
                ctx.rules(),
            ),
        ),
    decreases depth, 1int,
{
    let ghost (d, rules, before) = (depth as nat, ctx.rules(), working_array@);
    let ghost options = choice.options@;
    let ghost mut so_far = idle(Ok(()), before.items);
    proof {
        lemma_recorded(before.snaps, Seq::empty(), Seq::empty());
        lemma_resumed_idle(Ok(()), before.items, array_options(d, options, 0, before.items, rules));
    }
    for i in 0..choice.options.len()
        invariant
            d == depth,
            rules == ctx.rules(),
            before == old(working_array)@,
            options == choice.options@,
            array_options(d, options, 0, before.items, rules) == resumed(
                so_far,
                array_options(d, options, i as int, working_array@.items, rules),
            ),
            working_array@.snaps == recorded(before.snaps, so_far.taken),
    {
        let ghost run = array_member(d, options[i as int], working_array@.items, rules);
        let result = validate_array_member(&choice.options[i], working_array, ctx, depth)?;
        proof {
            let next = array_options(d, options, i + 1, run->Some_0.rest, rules);
            lemma_recorded(before.snaps, so_far.taken, run->Some_0.taken);
            lemma_resumed(so_far, run->Some_0, next);
            so_far = followed(so_far, run->Some_0);
        }
        match result {
            Ok(()) => {
                return Some(Ok(()));
            },
            Err(e) => {
                // Only fail if the error is considered fatal.
                // Otherwise, we'll keep trying other options.
                if e.is_fatal() {
                    return Some(Err(e));
                }
            },
        }
    }
    // None of the choices worked.
    Some(Err(no_choice(choice)))
}

/// Validates an occurrence against a mutable working array.
pub fn validate_array_occur<C: Context + ?Sized>(
    occur: &Occur,
    working_array: &mut WorkingArray,
    ctx: &C,
    depth: usize,
) -> (r: Option<ValidateResult>)
    ensures
        ran(
            r,
            old(working_array)@,
            final(working_array)@,
            array_occur(depth as nat, *occur, 0, old(working_array)@.items, ctx.rules()),
        ),
    decreases depth, 1int,
{
    let (lower_limit, upper_limit): (usize, usize) = occur.limits();
    let mut count: usize = 0;
    let ghost (d, rules, before) = (depth as nat, ctx.rules(), working_array@);
    let ghost mut so_far = idle(Ok(()), before.items);
    proof {
        lemma_recorded(before.snaps, Seq::empty(), Seq::empty());
        lemma_resumed_idle(Ok(()), before.items, array_occur(d, *occur, 0, before.items, rules));
    }
    loop
        invariant_except_break
            array_occur(d, *occur, 0, before.items, rules) == resumed(
                so_far,
                array_occur(d, *occur, count as nat, working_array@.items, rules),
            ),
        invariant
            d == depth,
            rules == ctx.rules(),
            before == old(working_array)@,
            (lower_limit, upper_limit) == limit_bounds(occur.limit),
            working_array@.snaps == recorded(before.snaps, so_far.taken),
        ensures
            array_occur(d, *occur, 0, before.items, rules) == Some(
                Run {
                    verdict: occur_verdict_array(*occur, count as nat),
                    rest: working_array@.items,
                    ..so_far
                },
            ),
        decreases upper_limit - count,
    {
        if count >= upper_limit {
            // Stop matching; we've consumed the maximum number of this element.
            assert(so_far.taken + Seq::empty() =~= so_far.taken);
            break;
        }
        let ghost run = array_member(d, *occur.node, working_array@.items, rules);
        let result = validate_array_member(&occur.node, working_array, ctx, depth)?;
        proof {
            let next = array_occur(d, *occur, (count + 1) as nat, run->Some_0.rest, rules);
            lemma_recorded(before.snaps, so_far.taken, run->Some_0.taken);
            lemma_resumed(so_far, run->Some_0, next);
            so_far = followed(so_far, run->Some_0);
        }
        match result {
            Ok(()) => {},
            Err(e) => {
                if e.is_mismatch() {
                    // Stop trying to match this occurrence.
                    break;
                }
                // The error is something serious (e.g. MissingRule or
                // Unsupported).  We should fail now and propagate that
                // error upward.
                return Some(Err(e));
            },
        }
        count += 1;
    }
    if count < lower_limit {
        return Some(
            Err(
                mismatch(
                    "more array element [".to_owned().concat(occur.text().as_str()).concat("]"),
                ),
            ),
        );
    }
    Some(Ok(()))
}

/// Validates the front of an array against the members of an array that is unwrapped into it.
pub fn validate_array_unwrap<C: Context + ?Sized>(
    node: &Node,
    working_array: &mut WorkingArray,
    ctx: &C,
    depth: usize,
) -> (r: Option<ValidateResult>)
    ensures
        ran(
            r,
            old(working_array)@,
            final(working_array)@,
            array_unwrap(depth as nat, *node, old(working_array)@.items, ctx.rules()),
        ),
    decreases depth, 2int,
{
    // After traversing an unwrap from inside an array, the next node must be an array
    // node too.
    match node {
        Node::Array(a) => validate_array_members(&a.members, working_array, ctx, depth),
        _ => {
            proof {
                lemma_idle(working_array@, expected("unwrap array"@));
            }
            Some(Err(mismatch("unwrap array".to_owned())))
        },
    }
}

/// Validates some node against a mutable working array.
pub fn validate_array_value<C: Context + ?Sized>(
    node: &Node,
    working_array: &mut WorkingArray,
    ctx: &C,
    depth: usize,
) -> (r: Option<ValidateResult>)
    ensures
        ran(
            r,
            old(working_array)@,
            final(working_array)@,
            array_value(depth as nat, *node, old(working_array)@.items, ctx.rules()),
        ),
    decreases depth, 1int,
{
    let ghost before = working_array@;
    match working_array.peek_front() {
        Some(val) => match validate_within(val, node, ctx, depth)? {
            Ok(()) => {
                // We had a successful match; remove the matched value.
                working_array.pop_front();
                Some(Ok(()))
            },
            Err(e) => {
                proof {
                    lemma_idle(before, Err(e@));
                }
                Some(Err(e))
            },
        },
        None => {
            proof {
                lemma_idle(before, expected("array element "@ + node_text(*node)));
            }
            Some(Err(mismatch("array element ".to_owned().concat(node.text().as_str()))))
        },
    }
}

} // verus!
