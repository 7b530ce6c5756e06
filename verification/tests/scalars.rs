use cddl_validate::context::BasicContext;
use cddl_validate::float::Float;
use cddl_validate::ivt::{FloatLiteral, Literal, Node, PreludeType, Range, Rule};
use cddl_validate::scalar::{check_range, validate_literal, validate_prelude_type};
use cddl_validate::util::{Mismatch, ValidateError, ValidateResult};
use cddl_validate::validate::validate;
use cddl_validate::value::{Value, ValueMap};

fn num(i: i128) -> Value {
    Value::Integer(i)
}

fn text(s: &str) -> Value {
    Value::Text(s.to_string())
}

fn number(x: f64) -> Float {
    Float { bits: x.to_bits() }
}

fn float(x: f64) -> Value {
    Value::Float(number(x))
}

fn float_literal(x: f64) -> Literal {
    Literal::Float(FloatLiteral { value: number(x), text: format!("{:?}", x) })
}

fn lit(i: i128) -> Node {
    Node::Literal(Literal::Int(i))
}

fn range(start: Node, end: Node, inclusive: bool) -> Node {
    Node::Range(Range { start: Box::new(start), end: Box::new(end), inclusive })
}

fn floats(start: f64, end: f64, inclusive: bool) -> Node {
    range(
        Node::Literal(float_literal(start)),
        Node::Literal(float_literal(end)),
        inclusive,
    )
}

fn mismatched(what: &str) -> ValidateResult {
    Err(ValidateError::Mismatch(Mismatch { expected: what.to_string() }))
}

fn check(value: &Value, node: &Node) -> ValidateResult {
    validate(value, node, &BasicContext::new())
}

#[test]
fn a_literal_matches_its_own_value_only() {
    let seven = Literal::Int(7);
    assert_eq!(validate_literal(&seven, &num(7)), Ok(()));
    assert_eq!(validate_literal(&seven, &num(8)), mismatched("7"));
    assert_eq!(validate_literal(&seven, &float(7.0)), mismatched("7"));
    assert_eq!(validate_literal(&seven, &text("7")), mismatched("7"));
    assert_eq!(check(&num(7), &lit(7)), Ok(()));
    assert_eq!(check(&num(8), &lit(7)), mismatched("7"));
}

#[test]
fn literals_are_quoted_as_a_schema_writes_them() {
    let least = "-170141183460469231731687303715884105728";
    let greatest = "170141183460469231731687303715884105727";
    let cases = vec![
        (Literal::Bool(true), "true"),
        (Literal::Bool(false), "false"),
        (Literal::Int(0), "0"),
        (Literal::Int(-10), "-10"),
        (Literal::Int(1203), "1203"),
        (Literal::Int(i128::MIN), least),
        (Literal::Int(i128::MAX), greatest),
        (float_literal(2.5), "2.5"),
        (Literal::Text("foo".to_string()), "\"foo\""),
        (Literal::Bytes(vec![0, 171, 16]), "h'00ab10'"),
        (Literal::Bytes(vec![]), "h''"),
    ];
    for (literal, quoted) in cases {
        assert_eq!(literal.text(), quoted);
        assert_eq!(validate_literal(&literal, &Value::Null), mismatched(quoted));
        assert_eq!(validate_literal(&literal, &Value::from(&literal)), Ok(()));
    }
}

#[test]
fn a_literal_gives_the_value_that_it_stands_for() {
    assert_eq!(Value::from(&Literal::Bool(true)), Value::Bool(true));
    assert_eq!(Value::from(&Literal::Int(-3)), num(-3));
    assert_eq!(Value::from(&float_literal(0.5)), float(0.5));
    assert_eq!(Value::from(&Literal::Text("a".to_string())), text("a"));
    assert_eq!(Value::from(&Literal::Bytes(vec![1, 2])), Value::Bytes(vec![1, 2]));
}

#[test]
fn float_literals_match_bit_for_bit() {
    assert_eq!(validate_literal(&float_literal(0.0), &float(0.0)), Ok(()));
    assert_eq!(validate_literal(&float_literal(0.0), &float(-0.0)), mismatched("0.0"));
    assert_eq!(validate_literal(&float_literal(f64::NAN), &float(f64::NAN)), Ok(()));
}

#[test]
fn prelude_types_match_their_kinds() {
    let values = vec![
        Value::Null,
        Value::Bool(false),
        num(0),
        num(-1),
        float(1.0),
        Value::Bytes(vec![]),
        text(""),
        Value::Array(vec![]),
        Value::Mapping(ValueMap::new()),
    ];
    let cases = vec![
        (PreludeType::Any, "any", vec![0, 1, 2, 3, 4, 5, 6, 7, 8]),
        (PreludeType::Nil, "nil", vec![0]),
        (PreludeType::Bool, "bool", vec![1]),
        (PreludeType::Int, "int", vec![2, 3]),
        (PreludeType::Uint, "uint", vec![2]),
        (PreludeType::Nint, "nint", vec![3]),
        (PreludeType::Float, "float", vec![4]),
        (PreludeType::Bstr, "bstr", vec![5]),
        (PreludeType::Tstr, "tstr", vec![6]),
    ];
    for (ty, name, members) in cases {
        for i in 0..values.len() {
            let outcome = if members.contains(&i) { Ok(()) } else { mismatched(name) };
            assert_eq!(validate_prelude_type(ty, &values[i]), outcome);
            assert_eq!(check(&values[i], &Node::PreludeType(ty)), outcome);
        }
    }
}

#[test]
fn integer_ranges_include_their_end_or_not() {
    let closed = range(lit(1), lit(5), true);
    let open = range(lit(1), lit(5), false);
    for i in 1..5 {
        assert_eq!(check(&num(i), &closed), Ok(()));
        assert_eq!(check(&num(i), &open), Ok(()));
    }
    assert_eq!(check(&num(5), &closed), Ok(()));
    assert_eq!(check(&num(5), &open), mismatched("1...5"));
    for i in [0, 6, -1] {
        assert_eq!(check(&num(i), &closed), mismatched("1..5"));
        assert_eq!(check(&num(i), &open), mismatched("1...5"));
    }
}

#[test]
fn a_range_that_ends_before_it_starts_holds_nothing() {
    let backward = range(lit(5), lit(1), true);
    for i in 0..7 {
        assert_eq!(check(&num(i), &backward), mismatched("5..1"));
    }
    assert_eq!(check(&num(3), &range(lit(3), lit(3), true)), Ok(()));
    assert_eq!(check(&num(3), &range(lit(3), lit(3), false)), mismatched("3...3"));
}

#[test]
fn float_ranges_go_by_the_numbers() {
    let closed = floats(-1.5, 2.5, true);
    let open = floats(-1.5, 2.5, false);
    for x in [-1.5, -0.0, 0.0, 1e-300, 2.4999] {
        assert_eq!(check(&float(x), &closed), Ok(()));
        assert_eq!(check(&float(x), &open), Ok(()));
    }
    assert_eq!(check(&float(2.5), &closed), Ok(()));
    assert_eq!(check(&float(2.5), &open), mismatched("-1.5...2.5"));
    for x in [-1.6, 2.6, f64::INFINITY, f64::NEG_INFINITY, f64::NAN] {
        assert_eq!(check(&float(x), &closed), mismatched("-1.5..2.5"));
    }
    assert_eq!(check(&float(-0.0), &floats(0.0, 1.0, true)), Ok(()));
    assert_eq!(check(&float(0.0), &floats(-1.0, -0.0, true)), Ok(()));
    assert_eq!(check(&float(0.0), &floats(-1.0, -0.0, false)), mismatched("-1.0...-0.0"));
}

#[test]
fn nothing_is_below_a_start_that_is_no_number() {
    assert_eq!(check(&float(1.0), &floats(f64::NAN, 2.0, true)), Ok(()));
    assert_eq!(check(&float(3.0), &floats(f64::NAN, 2.0, true)), mismatched("NaN..2.0"));
    assert_eq!(check(&float(3.0), &floats(1.0, f64::NAN, true)), mismatched("1.0..NaN"));
}

#[test]
fn numbers_are_ordered_as_hardware_orders_them() {
    let samples = [
        f64::NEG_INFINITY,
        f64::MIN,
        -2.0,
        -1.0,
        -f64::MIN_POSITIVE,
        -5e-324,
        -0.0,
        0.0,
        5e-324,
        f64::MIN_POSITIVE,
        1.0,
        1.0000000000000002,
        2.0,
        f64::MAX,
        f64::INFINITY,
        f64::NAN,
    ];
    for x in samples {
        for y in samples {
            assert_eq!(number(x) < number(y), x < y);
            assert_eq!(number(x) <= number(y), x <= y);
            assert_eq!(number(x) == number(y), x == y);
            assert_eq!(number(x).partial_cmp(&number(y)), x.partial_cmp(&y));
        }
    }
}

#[test]
fn values_of_another_kind_are_outside_a_range() {
    assert_eq!(check(&float(2.0), &range(lit(1), lit(5), true)), mismatched("1..5"));
    assert_eq!(check(&num(2), &floats(1.0, 5.0, true)), mismatched("1.0..5.0"));
    let letters = range(
        Node::Literal(Literal::Text("a".to_string())),
        Node::Literal(Literal::Text("z".to_string())),
        true,
    );
    assert_eq!(check(&text("m"), &letters), mismatched("\"a\"..\"z\""));
}

#[test]
fn the_bounds_of_a_range_must_be_of_one_kind() {
    let mixed = range(lit(1), Node::Literal(float_literal(5.0)), true);
    assert_eq!(
        check(&num(2), &mixed),
        Err(ValidateError::StructuralError("mismatched types on range operator".to_string()))
    );
}

#[test]
fn the_bounds_of_a_range_may_be_rules() {
    let named = |s: &str| Node::Rule(Rule { name: s.to_string() });
    let mut ctx = BasicContext::new();
    ctx.define("low".to_string(), lit(1));
    ctx.define("alias".to_string(), named("high"));
    ctx.define("high".to_string(), lit(5));
    ctx.define("type".to_string(), Node::PreludeType(PreludeType::Int));
    let node = range(named("low"), named("alias"), true);
    assert_eq!(validate(&num(5), &node, &ctx), Ok(()));
    assert_eq!(validate(&num(6), &node, &ctx), mismatched("low..alias"));
    assert_eq!(
        validate(&num(1), &range(named("low"), named("nowhere"), true), &ctx),
        Err(ValidateError::MissingRule("nowhere".to_string()))
    );
    let confusing: ValidateResult =
        Err(ValidateError::StructuralError("confusing type on range operator".to_string()));
    assert_eq!(validate(&num(1), &range(named("low"), named("type"), true), &ctx), confusing);
    assert_eq!(validate(&num(1), &range(named("type"), named("nowhere"), true), &ctx), confusing);
}

#[test]
fn ranges_hold_for_anything_with_an_order() {
    assert!(check_range(1, 5, 1, false));
    assert!(check_range(1, 5, 5, true));
    assert!(!check_range(1, 5, 5, false));
    assert!(!check_range(1, 5, 0, true));
    assert!(check_range(1.0, 5.0, 4.5, false));
}
