//! Validation of maps.
//!
//! The members of a schema's map take entries from a working copy. The members stand in matching
//! order (literal keys first, more general ones at the end), so that each takes what it can and the
//! next goes on with the rest.
use vstd::prelude::*;
use vstd::string::StringExecFns;

use crate::context::Context;
use crate::entries::{lemma_position, lemma_position_of_entry, position, Entries};
use crate::ivt::{limit_bounds, Choice, KeyValue, Literal, Mapping, Node, Occur};
use crate::runs::{lemma_idle, lemma_resumed, lemma_resumed_idle, ran};
use crate::semantics::{
    expected, followed, idle, judge_mapping, literal_key, map_key, map_keyvalue, map_member,
    map_members, map_occur, map_options, map_unwrap, occur_verdict_map, resumed, search_key,
    senseless, value_error, Run,
};
use crate::util::{mismatch, ErrorView, ValidateError, ValidateResult};
use crate::validate::{no_choice, outcome, validate_within};
use crate::value::{Value, ValueMap, ValueView};
use crate::working::{lemma_recorded, recorded, WorkingMap};

verus! {

/// What a search gave is the key and the value at a place of a map, where that key stands.
pub open spec fn found(
    r: Option<Result<(Value, &Value), ValidateError>>,
    stock: Entries,
    place: Option<Result<int, ErrorView>>,
) -> bool {
    match r {
        None => place is None,
        Some(Err(e)) => place == Some(Err::<int, ErrorView>(e@)),
        Some(Ok((key, value))) => {
            let i = position(stock, key@);
            &&& place == Some(Ok::<int, ErrorView>(i))
            &&& 0 <= i < stock.len()
            &&& stock[i] == (key@, value@)
        },
    }
}

/// Validates a value against a map.
pub fn validate_map<C: Context + ?Sized>(
    m: &Mapping,
    value: &Value,
    ctx: &C,
    depth: usize,
) -> (r: Option<ValidateResult>)
    ensures
        outcome(r) == judge_mapping(depth as nat, *m, value@, ctx.rules()),
    decreases depth, 3int,
{
    match value {
        Value::Mapping(vm) => validate_map_part2(m, vm, ctx, depth),
        _ => Some(Err(mismatch("map".to_owned()))),
    }
}

/// Validates the entries of a map: each member takes those that it matches, and the members must
/// leave none.
pub fn validate_map_part2<C: Context + ?Sized>(
    m: &Mapping,
    value_map: &ValueMap,
    ctx: &C,
    depth: usize,
) -> (r: Option<ValidateResult>)
    ensures
        outcome(r) == judge_mapping(
            depth as nat,
            *m,
            ValueView::Mapping(value_map@),
            ctx.rules(),
        ),
    decreases depth, 2int,
{
    let mut working_map = WorkingMap::new(value_map);
    match validate_map_members(&m.members, &mut working_map, ctx, depth)? {
        Ok(()) => {},
        Err(e) => {
            // If a MapCut error pops out here, change it to a Mismatch, so that
            // it can't cause trouble in nested maps.
            return Some(Err(e.erase_mapcut()));
        },
    }
    if working_map.left().is_empty() {
        Some(Ok(()))
    } else {
        // If the working map isn't empty, that means we had some extra values
        // that didn't match anything.
        Some(Err(mismatch("shorter map".to_owned())))
    }
}

/// Validates what is left of a map against a member of a map or of a group in it.
pub fn validate_map_member<C: Context + ?Sized>(
    member: &Node,
    working_map: &mut WorkingMap,
    ctx: &C,
    depth: usize,
) -> (r: Option<ValidateResult>)
    ensures
        ran(
            r,
            old(working_map)@,
            final(working_map)@,
            map_member(depth as nat, *member, old(working_map)@.items, ctx.rules()),
        ),
    decreases depth, 0int,
{
    if depth == 0 {
        return None;
    }
    let depth: usize = depth - 1;
    let ghost before = working_map@;
    match member {
        Node::Occur(o) => validate_map_occur(o, working_map, ctx, depth),
        Node::KeyValue(kv) => validate_map_keyvalue(kv, working_map, ctx, depth),
        // We can't use the generic validation here; we would forget that
        // we were in a map context.  We need to punch down a level into
        // the rule and match again.
        Node::Rule(r) => match ctx.lookup_rule(r.name.as_str()) {
            Ok(next_node) => validate_map_member(next_node, working_map, ctx, depth),
            Err(e) => {
                proof {
                    lemma_idle(before, Err(e@));
                }
                Some(Err(e))
            },
        },
        // Like Rule, we are dereferencing the Rule by hand here.
        Node::Unwrap(r) => match ctx.lookup_rule(r.name.as_str()) {
            Ok(node) => validate_map_unwrap(node, working_map, ctx, depth),
            Err(e) => {
                proof {
                    lemma_idle(before, Err(e@));
                }
                Some(Err(e))
            },
        },
        Node::Group(g) => {
            // We don't know how many entries the members might speculatively take.  So
            // we'll take a snapshot now and commit our changes if we match successfully
            // (and roll them back if it fails).
            working_map.snapshot();
            let ghost run = map_members(depth as nat, g.members@, 0, before.items, ctx.rules());
            let result = validate_map_members(&g.members, working_map, ctx, depth)?;
            proof {
                lemma_recorded(before.snaps, run->Some_0.taken, Seq::empty());
                assert(before.snaps.push(run->Some_0.taken).drop_last() =~= before.snaps);
            }
            match result {
                Ok(()) => {
                    // All group members validated Ok.
                    working_map.commit();
                    Some(Ok(()))
                },
                Err(e) => {
                    // Since we failed to validate the entire group,
                    // rewind to our most recent snapshot.  This may put
                    // values back into the map, so they can be matched by
                    // whatever we try next (or trigger an error if they
                    // aren't consumed by anything).
                    working_map.rewind();
                    // Also forget any MapCut errors, so that a sibling
                    // group may succeed where we failed.
                    Some(Err(e.erase_mapcut()))
                },
            }
        },
        Node::Choice(c) => validate_map_options(c, working_map, ctx, depth),
        // None of these can stand in a map by the grammar of a schema.
        Node::Literal(_) => Some(Err(senseless_member("literal map member", working_map))),
        Node::PreludeType(_) => Some(
            Err(senseless_member("prelude type map member", working_map)),
        ),
        Node::Mapping(_) => Some(Err(senseless_member("map as map member", working_map))),
        Node::Array(_) => Some(Err(senseless_member("array as map member", working_map))),
        Node::Range(_) => Some(Err(senseless_member("range as map member", working_map))),
    }
}

/// The error of a node that cannot stand in a map.
fn senseless_member(what: &str, working_map: &WorkingMap) -> (r: ValidateError)
    ensures
        r@ == ErrorView::StructuralError(what@),
        working_map@.after(idle(Err(r@), working_map@.items)) == working_map@,
{
    proof {
        lemma_idle(working_map@, senseless(what@));
    }
    ValidateError::StructuralError(what.to_owned())
}

/// Validates what is left of a map against members, each with what the one before it left.
pub fn validate_map_members<C: Context + ?Sized>(
    members: &Vec<Node>,
    working_map: &mut WorkingMap,
    ctx: &C,
    depth: usize,
) -> (r: Option<ValidateResult>)
    ensures
        ran(
            r,
            old(working_map)@,
            final(working_map)@,
            map_members(depth as nat, members@, 0, old(working_map)@.items, ctx.rules()),
        ),
    decreases depth, 1int,
{
    let ghost (d, rules, before) = (depth as nat, ctx.rules(), working_map@);
    let ghost mut so_far = idle(Ok(()), before.items);
    proof {
        lemma_recorded(before.snaps, Seq::empty(), Seq::empty());
        lemma_resumed_idle(Ok(()), before.items, map_members(d, members@, 0, before.items, rules));
    }
    for i in 0..members.len()
        invariant
            d == depth,
            rules == ctx.rules(),
            before == old(working_map)@,
            map_members(d, members@, 0, before.items, rules) == resumed(
                so_far,
                map_members(d, members@, i as int, working_map@.items, rules),
            ),
            working_map@.snaps == recorded(before.snaps, so_far.taken),
    {
        let ghost run = map_member(d, members@[i as int], working_map@.items, rules);
        let result = validate_map_member(&members[i], working_map, ctx, depth)?;
        proof {
            let next = map_members(d, members@, i + 1, run->Some_0.rest, rules);
            lemma_recorded(before.snaps, so_far.taken, run->Some_0.taken);
            lemma_resumed(so_far, run->Some_0, next);
            so_far = followed(so_far, run->Some_0);
        }
        match result {
            Ok(()) => {},
            Err(e) => {
                return Some(Err(e));
            },
        }
    }
    Some(Ok(()))
}

/// Validates what is left of a map against alternatives, first to last.
pub fn validate_map_options<C: Context + ?Sized>(
    choice: &Choice,
    working_map: &mut WorkingMap,
    ctx: &C,
    depth: usize,
) -> (r: Option<ValidateResult>)
    ensures
        ran(
            r,
            old(working_map)@,
            final(working_map)@,
            map_options(
                depth as nat,
                choice.options@,
                0,
                old(working_map)@.items,
                ctx.rules(),
            ),
        ),
    decreases depth, 1int,
{
    let ghost (d, rules, before) = (depth as nat, ctx.rules(), working_map@);
    let ghost options = choice.options@;
    let ghost mut so_far = idle(Ok(()), before.items);
    proof {
        lemma_recorded(before.snaps, Seq::empty(), Seq::empty());
        lemma_resumed_idle(Ok(()), before.items, map_options(d, options, 0, before.items, rules));
    }
    for i in 0..choice.options.len()
        invariant
            d == depth,
            rules == ctx.rules(),
            before == old(working_map)@,
            options == choice.options@,
            map_options(d, options, 0, before.items, rules) == resumed(
                so_far,
                map_options(d, options, i as int, working_map@.items, rules),
            ),
            working_map@.snaps == recorded(before.snaps, so_far.taken),
    {
        let ghost run = map_member(d, options[i as int], working_map@.items, rules);
        let result = validate_map_member(&choice.options[i], working_map, ctx, depth)?;
        proof {
            let next = map_options(d, options, i + 1, run->Some_0.rest, rules);
            lemma_recorded(before.snaps, so_far.taken, run->Some_0.taken);
            lemma_resumed(so_far, run->Some_0, next);
            so_far = followed(so_far, run->Some_0);
        }
        match result {
            Ok(()) => {
                return Some(Ok(()));
            },
            Err(e) => {
                // We can keep trying other options as long as the
                // error is a Mismatch, not a MapCut or something
                // fatal.
                if !e.is_mismatch() {
                    return Some(Err(e));
                }
            },
        }
    }
    // None of the choices worked.
    Some(Err(no_choice(choice)))
}

/// Validates an occurrence against a mutable working map.
pub fn validate_map_occur<C: Context + ?Sized>(
    occur: &Occur,
    working_map: &mut WorkingMap,
    ctx: &C,
    depth: usize,
) -> (r: Option<ValidateResult>)
    ensures
        ran(
            r,
            old(working_map)@,
            final(working_map)@,
            map_occur(depth as nat, *occur, 0, old(working_map)@.items, ctx.rules()),
        ),
    decreases depth, 1int,
{
    let (lower_limit, upper_limit): (usize, usize) = occur.limits();
    let mut count: usize = 0;
    let ghost (d, rules, before) = (depth as nat, ctx.rules(), working_map@);
    let ghost mut so_far = idle(Ok(()), before.items);
    proof {
        lemma_recorded(before.snaps, Seq::empty(), Seq::empty());
        lemma_resumed_idle(Ok(()), before.items, map_occur(d, *occur, 0, before.items, rules));
    }
    loop
        invariant_except_break
            map_occur(d, *occur, 0, before.items, rules) == resumed(
                so_far,
                map_occur(d, *occur, count as nat, working_map@.items, rules),
            ),
        invariant
            d == depth,
            rules == ctx.rules(),
            before == old(working_map)@,
            (lower_limit, upper_limit) == limit_bounds(occur.limit),
            working_map@.snaps == recorded(before.snaps, so_far.taken),
        ensures
            map_occur(d, *occur, 0, before.items, rules) == Some(
                Run {
                    verdict: occur_verdict_map(*occur, count as nat),
                    rest: working_map@.items,
                    ..so_far
                },
            ),
        decreases upper_limit - count,
    {
        if count >= upper_limit {
            // Stop matching; we've consumed the maximum number of this key.
            assert(so_far.taken + Seq::empty() =~= so_far.taken);
            break;
        }
        let ghost run = map_member(d, *occur.node, working_map@.items, rules);
        let result = validate_map_member(&occur.node, working_map, ctx, depth)?;
        proof {
            let next = map_occur(d, *occur, (count + 1) as nat, run->Some_0.rest, rules);
            lemma_recorded(before.snaps, so_far.taken, run->Some_0.taken);
            lemma_resumed(so_far, run->Some_0, next);
            so_far = followed(so_far, run->Some_0);
        }
        match result {
            Ok(()) => {},
            Err(e) => {
                if e.is_mismatch() {
                    // Stop trying to match this occurrence.
                    break;
                }
                // Either we got a MapCut error, or it's something even more
                // serious (e.g. MissingRule or Unsupported).  We should fail
                // now and propagate that error upward.
                return Some(Err(e));
            },
        }
        count += 1;
    }
    if count < lower_limit {
        return Some(
            Err(mismatch("map{".to_owned().concat(occur.text().as_str()).concat("}]"))),
        );
    }
    Some(Ok(()))
}

/// Validates what is left of a map against the members of a map that is unwrapped into it.
pub fn validate_map_unwrap<C: Context + ?Sized>(
    node: &Node,
    working_map: &mut WorkingMap,
    ctx: &C,
    depth: usize,
) -> (r: Option<ValidateResult>)
    ensures
        ran(
            r,
            old(working_map)@,
            final(working_map)@,
            map_unwrap(depth as nat, *node, old(working_map)@.items, ctx.rules()),
        ),
    decreases depth, 2int,
{
    // After traversing an unwrap from inside a map, the next node must be a map
    // node too.
    match node {
        Node::Mapping(m) => validate_map_members(&m.members, working_map, ctx, depth),
        _ => {
            proof {
                lemma_idle(working_map@, expected("unwrap map"@));
            }
            Some(Err(mismatch("unwrap map".to_owned())))
        },
    }
}

/// The first entry of a map whose key matches a node: a copy of the key, and the value.
pub fn validate_map_key<'a, C: Context + ?Sized>(
    working_map: &'a WorkingMap,
    node: &Node,
    ctx: &C,
    depth: usize,
) -> (r: Option<Result<(Value, &'a Value), ValidateError>>)
    ensures
        found(r, working_map@.items, map_key(depth as nat, *node, working_map@.items, ctx.rules())),
    decreases depth, 2int,
{
    match node {
        Node::Literal(l) => Some(map_search_literal(l, working_map)),
        _ => map_search(node, working_map, ctx, depth),
    }
}

/// Finds a specific key in the map: a copy of the key, and the value.
pub fn map_search_literal<'a>(literal: &Literal, working_map: &'a WorkingMap) -> (r: Result<
    (Value, &'a Value),
    ValidateError,
>)
    ensures
        found(Some(r), working_map@.items, Some(literal_key(*literal, working_map@.items))),
{
    let search_key = Value::from(literal);
    proof {
        lemma_position(working_map@.items, search_key@);
    }
    match working_map.peek_at(&search_key) {
        Some(val) => Ok((search_key, val)),
        None => {
            // We didn't find the key; return an error
            Err(mismatch("map{".to_owned().concat(literal.text().as_str()).concat("}")))
        },
    }
}

/// Looks at each key that is left, in order, until one matches: a copy of the key, and the value.
pub fn map_search<'a, C: Context + ?Sized>(
    node: &Node,
    working_map: &'a WorkingMap,
    ctx: &C,
    depth: usize,
) -> (r: Option<Result<(Value, &'a Value), ValidateError>>)
    ensures
        found(
            r,
            working_map@.items,
            search_key(depth as nat, *node, working_map@.items, 0, ctx.rules()),
        ),
    decreases depth, 1int,
{
    let ghost (d, rules, stock) = (depth as nat, ctx.rules(), working_map@.items);
    let left = working_map.left();
    let n: usize = left.len();
    for i in 0..n
        invariant
            d == depth,
            rules == ctx.rules(),
            stock == working_map@.items,
            stock == left@,
            n == stock.len(),
            search_key(d, *node, stock, 0, rules) == search_key(d, *node, stock, i as int, rules),
    {
        let (key, value) = left.entry(i);
        let attempt = validate_within(key, node, ctx, depth)?;
        if attempt.is_ok() {
            proof {
                lemma_position_of_entry(stock, i as int);
            }
            return Some(Ok((key.clone(), value)));
        }
    }
    // We searched all the keys without finding a match.  Validation fails.
    Some(Err(mismatch("map{".to_owned().concat(node.text().as_str()).concat("}"))))
}

/// Validates a key-value pair against a mutable working map.
pub fn validate_map_keyvalue<C: Context + ?Sized>(
    kv: &KeyValue,
    working_map: &mut WorkingMap,
    ctx: &C,
    depth: usize,
) -> (r: Option<ValidateResult>)
    ensures
        ran(
            r,
            old(working_map)@,
            final(working_map)@,
            map_keyvalue(depth as nat, *kv, old(working_map)@.items, ctx.rules()),
        ),
    decreases depth, 3int,
{
    // If we're using "cut" semantics, a partial match (key matches + value
    // mismatch) should force validation failure for the entire map.  We
    // signal this to our caller with a MapCut error.
    // If we're using "non-cut" semantics, a partial match will leave the
    // key-value pair in place, in the hope it may match something else.
    let ghost before = working_map@;
    // If we fail to validate a key, exit now with an error.
    let (working_key, working_val) = match validate_map_key(working_map, &kv.key, ctx, depth)? {
        Ok(entry) => entry,
        Err(e) => {
            proof {
                lemma_idle(before, Err(e@));
            }
            return Some(Err(e));
        },
    };
    // Match the value that was returned.
    match validate_within(working_val, &kv.value, ctx, depth)? {
        Ok(()) => {
            working_map.remove(&working_key);
            Some(Ok(()))
        },
        Err(e) => {
            proof {
                lemma_idle(before, Err(value_error(kv.cut, e@)));
            }
            match (kv.cut, e) {
                // If "cut" semantics are in force, then rewrite Mismatch errors.
                // This allows special handling when nested inside Occur nodes.
                (true, ValidateError::Mismatch(m)) => Some(Err(ValidateError::MapCut(m))),
                (_, x) => Some(Err(x)),
            }
        },
    }
}

} // verus!
