//! What it means for data to match a schema.
//!
//! A schema may refer to itself by the names of its rules, so that matching need not come to an
//! end. Each notion below is therefore given for a number of nested steps: it says `None` where
//! that many do not suffice.
use vstd::prelude::*;

use crate::context::Rules;
use crate::entries::{position, with_all, without, Entries};
use crate::float::Float;
use crate::ivt::{
    limit_bounds, Array, Group, KeyValue, Literal, Mapping, Node, Occur, PreludeType, Range,
    Rule,
};
use crate::text::{decimal, literal_text, node_text, occur_text, range_text};
use crate::util::{ErrorView, Verdict};
use crate::value::ValueView;

verus! {

/// The verdict that something else was expected.
pub open spec fn expected(what: Seq<char>) -> Verdict {
    Err(ErrorView::Mismatch(what))
}

/// The verdict that the schema makes no sense.
pub open spec fn senseless(what: Seq<char>) -> Verdict {
    Err(ErrorView::StructuralError(what))
}

/// The verdict that none of a number of alternatives matched.
pub open spec fn expected_choice(n: nat) -> Verdict {
    expected("choice of "@ + decimal(n))
}

/// The value that a literal stands for.
pub open spec fn literal_value(l: Literal) -> ValueView {
    match l {
        Literal::Bool(b) => ValueView::Bool(b),
        Literal::Int(i) => ValueView::Integer(i as int),
        Literal::Float(f) => ValueView::Float(f.value),
        Literal::Text(t) => ValueView::Text(t@),
        Literal::Bytes(b) => ValueView::Bytes(b@),
    }
}

/// A literal matches the value that it stands for.
pub open spec fn judge_literal(l: Literal, v: ValueView) -> Verdict {
    if v == literal_value(l) {
        Ok(())
    } else {
        expected(literal_text(l))
    }
}

/// Whether a value belongs to a type that needs no definition.
pub open spec fn in_prelude_type(p: PreludeType, v: ValueView) -> bool {
    match p {
        PreludeType::Any => true,
        PreludeType::Nil => v is Null,
        PreludeType::Bool => v is Bool,
        PreludeType::Int => v is Integer,
        PreludeType::Uint => v is Integer && v->Integer_0 >= 0,
        PreludeType::Nint => v is Integer && v->Integer_0 < 0,
        PreludeType::Float => v is Float,
        PreludeType::Tstr => v is Text,
        PreludeType::Bstr => v is Bytes,
    }
}

/// A type that needs no definition matches the values that belong to it.
pub open spec fn judge_prelude_type(p: PreludeType, v: ValueView) -> Verdict {
    if in_prelude_type(p, v) {
        Ok(())
    } else {
        expected(crate::text::prelude_text(p))
    }
}

/// Holds a value against a node.
pub open spec fn judge(d: nat, v: ValueView, n: Node, rules: Rules) -> Option<Verdict>
    decreases d, 0int, 0int,
{
    if d == 0 {
        None
    } else {
        let e = (d - 1) as nat;
        match n {
            Node::Literal(l) => Some(judge_literal(l, v)),
            Node::PreludeType(p) => Some(judge_prelude_type(p, v)),
            Node::Choice(c) => judge_options(e, c.options@, 0, v, rules),
            Node::Mapping(m) => judge_mapping(e, m, v, rules),
            Node::Array(a) => judge_array(e, a, v, rules),
            Node::Rule(r) => judge_rule(e, r, v, rules),
            Node::Group(g) => judge_group(e, g, v, rules),
            Node::KeyValue(_) => Some(senseless("unexpected KeyValue"@)),
            Node::Occur(_) => Some(senseless("unexpected Occur"@)),
            Node::Unwrap(_) => Some(senseless("unexpected Unwrap"@)),
            Node::Range(r) => judge_range(e, r, v, rules),
        }
    }
}

/// Holds a value against the alternatives of a choice from index `i` on. The first that matches
/// settles the matter, and so does the first that fails with a fatal error.
pub open spec fn judge_options(
    d: nat,
    options: Seq<Node>,
    i: int,
    v: ValueView,
    rules: Rules,
) -> Option<Verdict>
    decreases d, 1int, options.len() - i,
{
    if i < 0 || i >= options.len() {
        Some(expected_choice(options.len()))
    } else {
        match judge(d, v, options[i], rules) {
            None => None,
            Some(Ok(())) => Some(Ok(())),
            Some(Err(e)) => if e.is_fatal() {
                Some(Err(e))
            } else {
                judge_options(d, options, i + 1, v, rules)
            },
        }
    }
}

/// Holds a value against the node that a rule stands for.
pub open spec fn judge_rule(d: nat, r: Rule, v: ValueView, rules: Rules) -> Option<Verdict>
    decreases d, 1int, 0int,
{
    match rules(r.name@) {
        Ok(node) => judge(d, v, node, rules),
        Err(e) => Some(Err(e)),
    }
}

/// Holds a value against a group that stands in neither a map nor an array: it must have a
/// single member.
pub open spec fn judge_group(d: nat, g: Group, v: ValueView, rules: Rules) -> Option<Verdict>
    decreases d, 1int, 0int,
{
    if g.members@.len() == 1 {
        judge(d, v, g.members@[0], rules)
    } else {
        Some(Err(ErrorView::Unsupported("standalone group"@)))
    }
}

/// The literal at which a bound of a range ends, through rules that stand for it.
pub open spec fn bound(d: nat, n: Node, rules: Rules) -> Option<Result<Literal, ErrorView>>
    decreases d, 0int, 0int,
{
    if d == 0 {
        None
    } else {
        match n {
            Node::Literal(l) => Some(Ok(l)),
            Node::Rule(r) => match rules(r.name@) {
                Ok(node) => bound((d - 1) as nat, node, rules),
                Err(e) => Some(Err(e)),
            },
            _ => Some(Err(ErrorView::StructuralError("confusing type on range operator"@))),
        }
    }
}

/// Whether an integer is not below `start` and is below `end`, or equal to it if that is
/// included.
pub open spec fn int_in_range(start: int, end: int, x: int, inclusive: bool) -> bool {
    start <= x && (x < end || inclusive && x == end)
}

/// Whether a number is not below `start` and is below `end`, or equal to it if that is included.
/// A pattern that is no number is below nothing, and nothing is below it.
pub open spec fn float_in_range(start: Float, end: Float, x: Float, inclusive: bool) -> bool {
    &&& !(x.precedes(start))
    &&& x.precedes(end) || inclusive && x.equals(end)
}

/// Whether two literals are of the same kind.
pub open spec fn same_kind(a: Literal, b: Literal) -> bool {
    match a {
        Literal::Bool(_) => b is Bool,
        Literal::Int(_) => b is Int,
        Literal::Float(_) => b is Float,
        Literal::Text(_) => b is Text,
        Literal::Bytes(_) => b is Bytes,
    }
}

/// Holds a value against the literals at which the bounds of a range end.
pub open spec fn judge_bounds(start: Literal, end: Literal, r: Range, v: ValueView) -> Verdict {
    match (start, end, v) {
        (Literal::Int(a), Literal::Int(b), ValueView::Integer(x)) => if int_in_range(
            a as int,
            b as int,
            x,
            r.inclusive,
        ) {
            Ok(())
        } else {
            expected(range_text(r))
        },
        (Literal::Float(a), Literal::Float(b), ValueView::Float(x)) => if float_in_range(
            a.value,
            b.value,
            x,
            r.inclusive,
        ) {
            Ok(())
        } else {
            expected(range_text(r))
        },
        _ => if same_kind(start, end) {
            expected(range_text(r))
        } else {
            senseless("mismatched types on range operator"@)
        },
    }
}

/// Holds a value against a range.
pub open spec fn judge_range(d: nat, r: Range, v: ValueView, rules: Rules) -> Option<Verdict>
    decreases d, 1int, 0int,
{
    match bound(d, *r.start, rules) {
        None => None,
        Some(Err(e)) => Some(Err(e)),
        Some(Ok(start)) => match bound(d, *r.end, rules) {
            None => None,
            Some(Err(e)) => Some(Err(e)),
            Some(Ok(end)) => Some(judge_bounds(start, end, r, v)),
        },
    }
}

/// How far matching has come with a stock of items: the verdict, the items that are left, and those
/// that were taken and will be put back if a group around them fails.
#[verifier::ext_equal]
pub ghost struct Run<T> {
    pub verdict: Verdict,
    pub rest: Seq<T>,
    pub taken: Seq<T>,
}

/// A run that takes nothing.
pub open spec fn idle<T>(verdict: Verdict, stock: Seq<T>) -> Run<T> {
    Run { verdict, rest: stock, taken: Seq::empty() }
}

/// Two runs as one, the second with what the first left.
pub open spec fn followed<T>(first: Run<T>, second: Run<T>) -> Run<T> {
    Run { verdict: second.verdict, rest: second.rest, taken: first.taken + second.taken }
}

/// A run that went on after another.
pub open spec fn resumed<T>(first: Run<T>, next: Option<Run<T>>) -> Option<Run<T>> {
    match next {
        None => None,
        Some(second) => Some(followed(first, second)),
    }
}

/// Holds the front of an array against a member of an array or of a group in it.
pub open spec fn array_member(
    d: nat,
    n: Node,
    items: Seq<ValueView>,
    rules: Rules,
) -> Option<Run<ValueView>>
    decreases d, 0int, 0int,
{
    if d == 0 {
        None
    } else {
        let e = (d - 1) as nat;
        match n {
            Node::Occur(o) => array_occur(e, o, 0, items, rules),
            Node::KeyValue(kv) => array_value(e, *kv.value, items, rules),
            Node::Rule(r) => match rules(r.name@) {
                Ok(node) => array_member(e, node, items, rules),
                Err(x) => Some(idle(Err(x), items)),
            },
            Node::Unwrap(r) => match rules(r.name@) {
                Ok(node) => array_unwrap(e, node, items, rules),
                Err(x) => Some(idle(Err(x), items)),
            },
            Node::Choice(c) => array_options(e, c.options@, 0, items, rules),
            Node::Group(g) => match array_members(e, g.members@, 0, items, rules) {
                None => None,
                Some(run) => match run.verdict {
                    Ok(()) => Some(run),
                    // What the members took is put back before what is left.
                    Err(x) => Some(idle(Err(x), run.taken + run.rest)),
                },
            },
            _ => array_value(e, n, items, rules),
        }
    }
}

/// Holds the front of an array against the members from index `i` on, each where the one before
/// it left off.
pub open spec fn array_members(
    d: nat,
    members: Seq<Node>,
    i: int,
    items: Seq<ValueView>,
    rules: Rules,
) -> Option<Run<ValueView>>
    decreases d, 1int, members.len() - i,
{
    if i < 0 || i >= members.len() {
        Some(idle(Ok(()), items))
    } else {
        match array_member(d, members[i], items, rules) {
            None => None,
            Some(run) => match run.verdict {
                Ok(()) => resumed(run, array_members(d, members, i + 1, run.rest, rules)),
                Err(_) => Some(run),
            },
        }
    }
}

/// Holds the front of an array against the alternatives from index `i` on. What an alternative
/// that failed has left is what the next one finds.
pub open spec fn array_options(
    d: nat,
    options: Seq<Node>,
    i: int,
    items: Seq<ValueView>,
    rules: Rules,
) -> Option<Run<ValueView>>
    decreases d, 1int, options.len() - i,
{
    if i < 0 || i >= options.len() {
        Some(idle(expected_choice(options.len()), items))
    } else {
        match array_member(d, options[i], items, rules) {
            None => None,
            Some(run) => match run.verdict {
                Ok(()) => Some(run),
                Err(x) => if x.is_fatal() {
                    Some(run)
                } else {
                    resumed(run, array_options(d, options, i + 1, run.rest, rules))
                },
            },
        }
    }
}

/// Holds the front of an array against what may occur more than once, after `count` times. It is
/// tried no more once it has occurred as often as it may.
pub open spec fn array_occur(
    d: nat,
    o: Occur,
    count: nat,
    items: Seq<ValueView>,
    rules: Rules,
) -> Option<Run<ValueView>>
    decreases d, 1int, limit_bounds(o.limit).1 - count,
{
    if count >= limit_bounds(o.limit).1 {
        Some(idle(occur_verdict_array(o, count), items))
    } else {
        match array_member(d, *o.node, items, rules) {
            None => None,
            Some(run) => match run.verdict {
                Ok(()) => resumed(run, array_occur(d, o, count + 1, run.rest, rules)),
                Err(x) => if x is Mismatch {
                    Some(Run { verdict: occur_verdict_array(o, count), ..run })
                } else {
                    Some(run)
                },
            },
        }
    }
}

/// The verdict on what occurred `count` times in an array.
pub open spec fn occur_verdict_array(o: Occur, count: nat) -> Verdict {
    if count < limit_bounds(o.limit).0 {
        expected("more array element ["@ + occur_text(o) + "]"@)
    } else {
        Ok(())
    }
}

/// Holds the first item of an array against a node, and takes it if it matches.
pub open spec fn array_value(
    d: nat,
    n: Node,
    items: Seq<ValueView>,
    rules: Rules,
) -> Option<Run<ValueView>>
    decreases d, 1int, 0int,
{
    if items.len() == 0 {
        Some(idle(expected("array element "@ + node_text(n)), items))
    } else {
        match judge(d, items[0], n, rules) {
            None => None,
            Some(Ok(())) => Some(
                Run { verdict: Ok(()), rest: items.drop_first(), taken: seq![items[0]] },
            ),
            Some(Err(x)) => Some(idle(Err(x), items)),
        }
    }
}

/// Holds the front of an array against the members of an array that was unwrapped into it.
pub open spec fn array_unwrap(
    d: nat,
    n: Node,
    items: Seq<ValueView>,
    rules: Rules,
) -> Option<Run<ValueView>>
    decreases d, 2int, 0int,
{
    match n {
        Node::Array(a) => array_members(d, a.members@, 0, items, rules),
        _ => Some(idle(expected("unwrap array"@), items)),
    }
}

/// Holds a value against an array: the members must take all of its items.
pub open spec fn judge_array(d: nat, a: Array, v: ValueView, rules: Rules) -> Option<Verdict>
    decreases d, 2int, 0int,
{
    match v {
        ValueView::Array(items) => match array_members(d, a.members@, 0, items, rules) {
            None => None,
            Some(run) => match run.verdict {
                Ok(()) => if run.rest.len() == 0 {
                    Some(Ok(()))
                } else {
                    Some(expected("shorter array"@))
                },
                Err(x) => Some(Err(x)),
            },
        },
        _ => Some(expected("array"@)),
    }
}

/// Holds what is left of a map against a member of a map or of a group in it.
pub open spec fn map_member(d: nat, n: Node, stock: Entries, rules: Rules) -> Option<
    Run<(ValueView, ValueView)>,
>
    decreases d, 0int, 0int,
{
    if d == 0 {
        None
    } else {
        let e = (d - 1) as nat;
        match n {
            Node::Occur(o) => map_occur(e, o, 0, stock, rules),
            Node::KeyValue(kv) => map_keyvalue(e, kv, stock, rules),
            Node::Rule(r) => match rules(r.name@) {
                Ok(node) => map_member(e, node, stock, rules),
                Err(x) => Some(idle(Err(x), stock)),
            },
            Node::Unwrap(r) => match rules(r.name@) {
                Ok(node) => map_unwrap(e, node, stock, rules),
                Err(x) => Some(idle(Err(x), stock)),
            },
            Node::Group(g) => match map_members(e, g.members@, 0, stock, rules) {
                None => None,
                Some(run) => match run.verdict {
                    Ok(()) => Some(run),
                    // What the members took is put back among what is left.
                    Err(x) => Some(idle(Err(x.erase_mapcut()), with_all(run.rest, run.taken))),
                },
            },
            Node::Choice(c) => map_options(e, c.options@, 0, stock, rules),
            Node::Literal(_) => Some(idle(senseless("literal map member"@), stock)),
            Node::PreludeType(_) => Some(idle(senseless("prelude type map member"@), stock)),
            Node::Mapping(_) => Some(idle(senseless("map as map member"@), stock)),
            Node::Array(_) => Some(idle(senseless("array as map member"@), stock)),
            Node::Range(_) => Some(idle(senseless("range as map member"@), stock)),
        }
    }
}

/// Holds what is left of a map against the members from index `i` on, each with what the one
/// before it left.
pub open spec fn map_members(
    d: nat,
    members: Seq<Node>,
    i: int,
    stock: Entries,
    rules: Rules,
) -> Option<Run<(ValueView, ValueView)>>
    decreases d, 1int, members.len() - i,
{
    if i < 0 || i >= members.len() {
        Some(idle(Ok(()), stock))
    } else {
        match map_member(d, members[i], stock, rules) {
            None => None,
            Some(run) => match run.verdict {
                Ok(()) => resumed(run, map_members(d, members, i + 1, run.rest, rules)),
                Err(_) => Some(run),
            },
        }
    }
}

/// Holds what is left of a map against the alternatives from index `i` on. Any error but a plain
/// mismatch settles the matter.
pub open spec fn map_options(
    d: nat,
    options: Seq<Node>,
    i: int,
    stock: Entries,
    rules: Rules,
) -> Option<Run<(ValueView, ValueView)>>
    decreases d, 1int, options.len() - i,
{
    if i < 0 || i >= options.len() {
        Some(idle(expected_choice(options.len()), stock))
    } else {
        match map_member(d, options[i], stock, rules) {
            None => None,
            Some(run) => match run.verdict {
                Ok(()) => Some(run),
                Err(x) => if x is Mismatch {
                    resumed(run, map_options(d, options, i + 1, run.rest, rules))
                } else {
                    Some(run)
                },
            },
        }
    }
}

/// Holds what is left of a map against what may occur more than once, after `count` times. It is
/// tried no more once it has occurred as often as it may.
pub open spec fn map_occur(
    d: nat,
    o: Occur,
    count: nat,
    stock: Entries,
    rules: Rules,
) -> Option<Run<(ValueView, ValueView)>>
    decreases d, 1int, limit_bounds(o.limit).1 - count,
{
    if count >= limit_bounds(o.limit).1 {
        Some(idle(occur_verdict_map(o, count), stock))
    } else {
        match map_member(d, *o.node, stock, rules) {
            None => None,
            Some(run) => match run.verdict {
                Ok(()) => resumed(run, map_occur(d, o, count + 1, run.rest, rules)),
                Err(x) => if x is Mismatch {
                    Some(Run { verdict: occur_verdict_map(o, count), ..run })
                } else {
                    Some(run)
                },
            },
        }
    }
}

/// The verdict on what occurred `count` times in a map.
pub open spec fn occur_verdict_map(o: Occur, count: nat) -> Verdict {
    if count < limit_bounds(o.limit).0 {
        expected("map{"@ + occur_text(o) + "}]"@)
    } else {
        Ok(())
    }
}

/// The place of the first key of a map, from index `i` on, that matches a node.
pub open spec fn search_key(d: nat, n: Node, stock: Entries, i: int, rules: Rules) -> Option<
    Result<int, ErrorView>,
>
    decreases d, 1int, stock.len() - i,
{
    if i < 0 || i >= stock.len() {
        Some(Err(ErrorView::Mismatch("map{"@ + node_text(n) + "}"@)))
    } else {
        match judge(d, stock[i].0, n, rules) {
            None => None,
            Some(Ok(())) => Some(Ok(i)),
            Some(Err(_)) => search_key(d, n, stock, i + 1, rules),
        }
    }
}

/// The place of the key that a literal stands for.
pub open spec fn literal_key(l: Literal, stock: Entries) -> Result<int, ErrorView> {
    let i = position(stock, literal_value(l));
    if i < stock.len() {
        Ok(i)
    } else {
        Err(ErrorView::Mismatch("map{"@ + literal_text(l) + "}"@))
    }
}

/// The place of the key of a map that matches a node.
pub open spec fn map_key(d: nat, n: Node, stock: Entries, rules: Rules) -> Option<
    Result<int, ErrorView>,
>
    decreases d, 2int, 0int,
{
    match n {
        Node::Literal(l) => Some(literal_key(l, stock)),
        _ => search_key(d, n, stock, 0, rules),
    }
}

/// The error of a value that does not match, once its key has.
pub open spec fn value_error(cut: bool, e: ErrorView) -> ErrorView {
    match e {
        ErrorView::Mismatch(what) => if cut {
            ErrorView::MapCut(what)
        } else {
            e
        },
        _ => e,
    }
}

/// Takes the entry of a map whose key matches, if its value matches too.
pub open spec fn map_keyvalue(d: nat, kv: KeyValue, stock: Entries, rules: Rules) -> Option<
    Run<(ValueView, ValueView)>,
>
    decreases d, 3int, 0int,
{
    match map_key(d, *kv.key, stock, rules) {
        None => None,
        Some(Err(x)) => Some(idle(Err(x), stock)),
        Some(Ok(i)) => match judge(d, stock[i].1, *kv.value, rules) {
            None => None,
            Some(Ok(())) => Some(
                Run {
                    verdict: Ok(()),
                    rest: without(stock, stock[i].0),
                    taken: seq![stock[i]],
                },
            ),
            Some(Err(x)) => Some(idle(Err(value_error(kv.cut, x)), stock)),
        },
    }
}

/// Holds what is left of a map against the members of a map that was unwrapped into it.
pub open spec fn map_unwrap(d: nat, n: Node, stock: Entries, rules: Rules) -> Option<
    Run<(ValueView, ValueView)>,
>
    decreases d, 2int, 0int,
{
    match n {
        Node::Mapping(m) => map_members(d, m.members@, 0, stock, rules),
        _ => Some(idle(expected("unwrap map"@), stock)),
    }
}

/// Holds a value against a map: the members must take all of its entries.
pub open spec fn judge_mapping(d: nat, m: Mapping, v: ValueView, rules: Rules) -> Option<Verdict>
    decreases d, 2int, 0int,
{
    match v {
        ValueView::Mapping(stock) => match map_members(d, m.members@, 0, stock, rules) {
            None => None,
            Some(run) => match run.verdict {
                Ok(()) => if run.rest.len() == 0 {
                    Some(Ok(()))
                } else {
                    Some(expected("shorter map"@))
                },
                Err(x) => Some(Err(x.erase_mapcut())),
            },
        },
        _ => Some(expected("map"@)),
    }
}

} // verus!
