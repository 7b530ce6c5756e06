//! Validation of values that hold no others.
use vstd::prelude::*;
use vstd::std_specs::cmp::{PartialOrdIs, PartialOrdSpec};

use crate::context::Context;
use crate::ivt::{Literal, Node, PreludeType, Range};
use crate::semantics::{
    bound, judge_literal, judge_prelude_type, judge_range, literal_value, same_kind,
};
use crate::util::{mismatch, verdict, ErrorView, ValidateError, ValidateResult};
use crate::validate::outcome;
use crate::value::Value;

verus! {

impl From<&Literal> for Value {
    fn from(l: &Literal) -> (r: Value)
        ensures
            r@ == literal_value(*l),
    {
        match l {
            Literal::Bool(b) => Value::Bool(*b),
            Literal::Int(i) => Value::Integer(*i),
            Literal::Float(f) => Value::Float(f.value),
            Literal::Text(t) => Value::Text(t.clone()),
            Literal::Bytes(b) => {
                let copy = b.clone();
                assert(copy@ =~= b@);
                Value::Bytes(copy)
            },
        }
    }
}

impl vstd::std_specs::convert::FromSpecImpl<&Literal> for Value {
    open spec fn obeys_from_spec() -> bool {
        false
    }

    open spec fn from_spec(l: &Literal) -> Value {
        arbitrary()
    }
}

/// Validates a value against a literal.
pub fn validate_literal(literal: &Literal, value: &Value) -> (r: ValidateResult)
    ensures
        verdict(r) == judge_literal(*literal, value@),
{
    if *value == Value::from(literal) {
        return Ok(());
    }
    Err(mismatch(literal.text()))
}

/// Validates a value against a type that needs no definition.
pub fn validate_prelude_type(ty: PreludeType, value: &Value) -> (r: ValidateResult)
    ensures
        verdict(r) == judge_prelude_type(ty, value@),
{
    match (ty, value) {
        (PreludeType::Any, _) => Ok(()),
        (PreludeType::Nil, Value::Null) => Ok(()),
        (PreludeType::Nil, _) => Err(mismatch("nil".to_owned())),
        (PreludeType::Bool, Value::Bool(_)) => Ok(()),
        (PreludeType::Bool, _) => Err(mismatch("bool".to_owned())),
        (PreludeType::Int, Value::Integer(_)) => Ok(()),
        (PreludeType::Int, _) => Err(mismatch("int".to_owned())),
        (PreludeType::Uint, Value::Integer(x)) if *x >= 0 => Ok(()),
        (PreludeType::Uint, _) => Err(mismatch("uint".to_owned())),
        (PreludeType::Nint, Value::Integer(x)) if *x < 0 => Ok(()),
        (PreludeType::Nint, _) => Err(mismatch("nint".to_owned())),
        (PreludeType::Float, Value::Float(_)) => Ok(()),
        (PreludeType::Float, _) => Err(mismatch("float".to_owned())),
        (PreludeType::Tstr, Value::Text(_)) => Ok(()),
        (PreludeType::Tstr, _) => Err(mismatch("tstr".to_owned())),
        (PreludeType::Bstr, Value::Bytes(_)) => Ok(()),
        (PreludeType::Bstr, _) => Err(mismatch("bstr".to_owned())),
    }
}

/// Whether a value lies within a range.
pub fn check_range<T: PartialOrd>(start: T, end: T, value: T, inclusive: bool) -> (r: bool)
    ensures
        T::obeys_partial_cmp_spec() ==> r == (!value.is_lt(&start) && (if inclusive {
            value.is_le(&end)
        } else {
            value.is_lt(&end)
        })),
{
    if value < start {
        return false;
    }
    if inclusive {
        value <= end
    } else {
        value < end
    }
}

/// The literal at which a bound of a range ends.
pub fn deref_range_rule<'a, C: Context + ?Sized>(
    node: &'a Node,
    ctx: &'a C,
    depth: usize,
) -> (r: Option<Result<&'a Literal, ValidateError>>)
    ensures
        match r {
            None => bound(depth as nat, *node, ctx.rules()) is None,
            Some(Ok(l)) => bound(depth as nat, *node, ctx.rules()) == Some(
                Ok::<Literal, ErrorView>(*l),
            ),
            Some(Err(e)) => bound(depth as nat, *node, ctx.rules()) == Some(
                Err::<Literal, ErrorView>(e@),
            ),
        },
    decreases depth,
{
    if depth == 0 {
        return None;
    }
    match node {
        Node::Literal(l) => Some(Ok(l)),
        Node::Rule(r) => match ctx.lookup_rule(r.name.as_str()) {
            Ok(next_node) => deref_range_rule(next_node, ctx, depth - 1),
            Err(e) => Some(Err(e)),
        },
        _ => Some(
            Err(ValidateError::StructuralError("confusing type on range operator".to_owned())),
        ),
    }
}

/// Whether two literals are of the same kind.
fn of_same_kind(a: &Literal, b: &Literal) -> (r: bool)
    ensures
        r == same_kind(*a, *b),
{
    match (a, b) {
        (Literal::Bool(_), Literal::Bool(_)) => true,
        (Literal::Int(_), Literal::Int(_)) => true,
        (Literal::Float(_), Literal::Float(_)) => true,
        (Literal::Text(_), Literal::Text(_)) => true,
        (Literal::Bytes(_), Literal::Bytes(_)) => true,
        _ => false,
    }
}

/// Validates a value against a range.
pub fn validate_range<C: Context + ?Sized>(
    range: &Range,
    value: &Value,
    ctx: &C,
    depth: usize,
) -> (r: Option<ValidateResult>)
    ensures
        outcome(r) == judge_range(depth as nat, *range, value@, ctx.rules()),
{
    // First dereference rules on start and end, if necessary.
    let start = match deref_range_rule(&range.start, ctx, depth)? {
        Ok(l) => l,
        Err(e) => {
            return Some(Err(e));
        },
    };
    let end = match deref_range_rule(&range.end, ctx, depth)? {
        Ok(l) => l,
        Err(e) => {
            return Some(Err(e));
        },
    };
    Some(
        match (start, end, value) {
            (Literal::Int(i1), Literal::Int(i2), Value::Integer(v)) => {
                if check_range(*i1, *i2, *v, range.inclusive) {
                    Ok(())
                } else {
                    Err(mismatch(range.text()))
                }
            },
            (Literal::Float(f1), Literal::Float(f2), Value::Float(v)) => {
                if check_range(f1.value, f2.value, *v, range.inclusive) {
                    Ok(())
                } else {
                    Err(mismatch(range.text()))
                }
            },
            _ => {
                if of_same_kind(start, end) {
                    // The range types were the same, so this is just a mismatch.
                    Err(mismatch(range.text()))
                } else {
                    // The range types didn't agree: the schema itself is at fault.
                    Err(
                        ValidateError::StructuralError(
                            "mismatched types on range operator".to_owned(),
                        ),
                    )
                }
            },
        },
    )
}

} // verus!
