use cddl_validate::context::BasicContext;
use cddl_validate::ivt::{
    Array, Choice, Group, KeyValue, Literal, Node, Occur, OccurLimit, PreludeType, Rule,
};
use cddl_validate::util::{Mismatch, ValidateError, ValidateResult};
use cddl_validate::validate::validate;
use cddl_validate::value::{Value, ValueMap};

fn num(i: i128) -> Value {
    Value::Integer(i)
}

fn text(s: &str) -> Value {
    Value::Text(s.to_string())
}

fn list(items: Vec<Value>) -> Value {
    Value::Array(items)
}

fn table(entries: Vec<(Value, Value)>) -> Value {
    let mut map = ValueMap::new();
    for (key, value) in entries {
        map.insert(key, value);
    }
    Value::Mapping(map)
}

fn lit(i: i128) -> Node {
    Node::Literal(Literal::Int(i))
}

fn word(s: &str) -> Node {
    Node::Literal(Literal::Text(s.to_string()))
}

fn of(p: PreludeType) -> Node {
    Node::PreludeType(p)
}

fn named(s: &str) -> Node {
    Node::Rule(Rule { name: s.to_string() })
}

fn unwrapped(s: &str) -> Node {
    Node::Unwrap(Rule { name: s.to_string() })
}

fn either(options: Vec<Node>) -> Node {
    Node::Choice(Choice { options })
}

fn group(members: Vec<Node>) -> Node {
    Node::Group(Group { members })
}

fn array(members: Vec<Node>) -> Node {
    Node::Array(Array { members })
}

fn pair(key: Node, value: Node, cut: bool) -> Node {
    Node::KeyValue(KeyValue { key: Box::new(key), value: Box::new(value), cut })
}

fn occurs(limit: OccurLimit, node: Node) -> Node {
    Node::Occur(Occur { limit, node: Box::new(node) })
}

fn mismatched(what: &str) -> ValidateResult {
    Err(ValidateError::Mismatch(Mismatch { expected: what.to_string() }))
}

fn missing(name: &str) -> ValidateResult {
    Err(ValidateError::MissingRule(name.to_string()))
}

fn no_rules() -> BasicContext {
    BasicContext::new()
}

fn check(value: &Value, node: &Node) -> ValidateResult {
    validate(value, node, &no_rules())
}

#[test]
fn members_take_items_in_order() {
    let node = array(vec![of(PreludeType::Int), of(PreludeType::Tstr)]);
    assert_eq!(check(&list(vec![num(1), text("a")]), &node), Ok(()));
    assert_eq!(check(&list(vec![text("a"), num(1)]), &node), mismatched("int"));
    assert_eq!(check(&list(vec![num(1)]), &node), mismatched("array element tstr"));
    assert_eq!(check(&list(vec![]), &node), mismatched("array element int"));
}

#[test]
fn items_left_over_are_a_mismatch() {
    let node = array(vec![of(PreludeType::Int)]);
    assert_eq!(check(&list(vec![num(1), num(2)]), &node), mismatched("shorter array"));
    assert_eq!(check(&list(vec![]), &array(vec![])), Ok(()));
    assert_eq!(check(&list(vec![num(1)]), &array(vec![])), mismatched("shorter array"));
}

#[test]
fn only_an_array_matches_an_array() {
    assert_eq!(check(&num(1), &array(vec![])), mismatched("array"));
    assert_eq!(check(&table(vec![]), &array(vec![])), mismatched("array"));
}

#[test]
fn the_key_of_an_array_member_is_ignored() {
    let a = array(vec![pair(word("x"), of(PreludeType::Int), true)]);
    let b = array(vec![pair(of(PreludeType::Bool), of(PreludeType::Int), false)]);
    for node in [a, b] {
        assert_eq!(check(&list(vec![num(1)]), &node), Ok(()));
        assert_eq!(check(&list(vec![text("x")]), &node), mismatched("int"));
    }
}

#[test]
fn optional_items_may_be_absent() {
    let node = array(vec![
        occurs(OccurLimit::Optional, of(PreludeType::Int)),
        of(PreludeType::Tstr),
    ]);
    assert_eq!(check(&list(vec![num(1), text("a")]), &node), Ok(()));
    assert_eq!(check(&list(vec![text("a")]), &node), Ok(()));
    assert_eq!(check(&list(vec![num(1), num(2), text("a")]), &node), mismatched("tstr"));
}

#[test]
fn repeated_items_are_taken_as_often_as_it_goes() {
    let some = array(vec![
        occurs(OccurLimit::ZeroOrMore, of(PreludeType::Int)),
        of(PreludeType::Tstr),
    ]);
    assert_eq!(check(&list(vec![num(1), num(2), num(3), text("a")]), &some), Ok(()));
    assert_eq!(check(&list(vec![text("a")]), &some), Ok(()));
    let greedy = array(vec![
        occurs(OccurLimit::ZeroOrMore, of(PreludeType::Int)),
        of(PreludeType::Int),
    ]);
    assert_eq!(check(&list(vec![num(1), num(2)]), &greedy), mismatched("array element int"));
}

#[test]
fn one_or_more_items_need_one() {
    let node = array(vec![occurs(OccurLimit::OneOrMore, of(PreludeType::Int))]);
    assert_eq!(check(&list(vec![]), &node), mismatched("more array element [+ int]"));
    assert_eq!(check(&list(vec![num(1)]), &node), Ok(()));
    assert_eq!(check(&list(vec![num(1), num(2)]), &node), Ok(()));
}

#[test]
fn numbered_items_keep_to_their_limits() {
    let node = array(vec![occurs(OccurLimit::Numbered(2, 3), of(PreludeType::Int))]);
    assert_eq!(check(&list(vec![num(1)]), &node), mismatched("more array element [2*3 int]"));
    assert_eq!(check(&list(vec![num(1), num(2)]), &node), Ok(()));
    assert_eq!(check(&list(vec![num(1), num(2), num(3)]), &node), Ok(()));
    assert_eq!(
        check(&list(vec![num(1), num(2), num(3), num(4)]), &node),
        mismatched("shorter array")
    );
}

#[test]
fn an_upper_limit_of_zero_admits_no_item() {
    let none = || occurs(OccurLimit::Numbered(0, 0), of(PreludeType::Int));
    assert_eq!(check(&list(vec![]), &array(vec![none()])), Ok(()));
    assert_eq!(check(&list(vec![num(5)]), &array(vec![none()])), mismatched("shorter array"));
    let then_one = array(vec![none(), of(PreludeType::Int)]);
    assert_eq!(check(&list(vec![num(5)]), &then_one), Ok(()));
    let never_tried = array(vec![occurs(OccurLimit::Numbered(0, 0), named("nowhere"))]);
    assert_eq!(check(&list(vec![]), &never_tried), Ok(()));
    let never_enough = array(vec![occurs(OccurLimit::Numbered(1, 0), of(PreludeType::Int))]);
    assert_eq!(
        check(&list(vec![num(5)]), &never_enough),
        mismatched("more array element [1*0 int]")
    );
}

#[test]
fn an_occurrence_does_not_swallow_a_fatal_error() {
    let node = array(vec![occurs(OccurLimit::ZeroOrMore, named("nowhere"))]);
    assert_eq!(check(&list(vec![]), &node), missing("nowhere"));
    assert_eq!(check(&list(vec![num(1)]), &node), missing("nowhere"));
}

#[test]
fn a_failed_group_puts_its_items_back() {
    let node = array(vec![either(vec![
        group(vec![of(PreludeType::Int), of(PreludeType::Tstr)]),
        group(vec![of(PreludeType::Int), of(PreludeType::Int)]),
    ])]);
    assert_eq!(check(&list(vec![num(1), text("a")]), &node), Ok(()));
    assert_eq!(check(&list(vec![num(1), num(2)]), &node), Ok(()));
    assert_eq!(check(&list(vec![num(1), Value::Null]), &node), mismatched("choice of 2"));
}

#[test]
fn a_failed_group_puts_back_what_a_group_inside_it_took() {
    let node = array(vec![either(vec![
        group(vec![group(vec![of(PreludeType::Int)]), of(PreludeType::Tstr)]),
        group(vec![of(PreludeType::Int), of(PreludeType::Bool)]),
    ])]);
    assert_eq!(check(&list(vec![num(1), text("a")]), &node), Ok(()));
    assert_eq!(check(&list(vec![num(1), Value::Bool(true)]), &node), Ok(()));
    assert_eq!(check(&list(vec![num(1), num(2)]), &node), mismatched("choice of 2"));
    assert_eq!(
        check(&list(vec![num(1), Value::Bool(true), num(3)]), &node),
        mismatched("shorter array")
    );
}

#[test]
fn a_failed_group_puts_everything_back_in_order() {
    let whole = || of(PreludeType::Int);
    let first = group(vec![
        whole(),
        group(vec![whole(), group(vec![whole()])]),
        whole(),
        of(PreludeType::Tstr),
    ]);
    let second = group(vec![lit(1), lit(2), lit(3), lit(4), lit(5)]);
    let node = array(vec![either(vec![first, second])]);
    let value = list(vec![num(1), num(2), num(3), num(4), num(5)]);
    assert_eq!(check(&value, &node), Ok(()));
}

#[test]
fn repeated_groups_take_items_together() {
    let node = array(vec![occurs(
        OccurLimit::ZeroOrMore,
        group(vec![of(PreludeType::Tstr), of(PreludeType::Int)]),
    )]);
    assert_eq!(check(&list(vec![]), &node), Ok(()));
    assert_eq!(check(&list(vec![text("a"), num(1), text("b"), num(2)]), &node), Ok(()));
    assert_eq!(
        check(&list(vec![text("a"), num(1), text("b")]), &node),
        mismatched("shorter array")
    );
}

#[test]
fn a_choice_among_array_members_stops_at_a_fatal_error() {
    let fatal_first = array(vec![either(vec![named("nowhere"), of(PreludeType::Int)])]);
    assert_eq!(check(&list(vec![num(1)]), &fatal_first), missing("nowhere"));
    let match_first = array(vec![either(vec![of(PreludeType::Int), named("nowhere")])]);
    assert_eq!(check(&list(vec![num(1)]), &match_first), Ok(()));
}

#[test]
fn members_of_an_unwrapped_array_join_the_array_around_them() {
    let mut ctx = no_rules();
    ctx.define("two".to_string(), array(vec![of(PreludeType::Int), of(PreludeType::Int)]));
    ctx.define("one".to_string(), of(PreludeType::Int));
    let node = array(vec![unwrapped("two"), of(PreludeType::Tstr)]);
    assert_eq!(validate(&list(vec![num(1), num(2), text("a")]), &node, &ctx), Ok(()));
    assert_eq!(validate(&list(vec![num(1), text("a")]), &node, &ctx), mismatched("int"));
    let wrong = array(vec![unwrapped("one")]);
    assert_eq!(validate(&list(vec![num(1)]), &wrong, &ctx), mismatched("unwrap array"));
    let lost = array(vec![unwrapped("nowhere")]);
    assert_eq!(validate(&list(vec![num(1)]), &lost, &ctx), missing("nowhere"));
}

#[test]
fn an_unwrapped_array_that_fails_keeps_what_it_took() {
    let mut ctx = no_rules();
    ctx.define("two".to_string(), array(vec![of(PreludeType::Int), of(PreludeType::Int)]));
    let node = array(vec![either(vec![unwrapped("two"), of(PreludeType::Int)])]);
    assert_eq!(validate(&list(vec![num(1)]), &node, &ctx), mismatched("choice of 2"));
    assert_eq!(validate(&list(vec![num(1), num(2)]), &node, &ctx), Ok(()));
}

#[test]
fn groups_are_seen_through_rules() {
    let mut ctx = no_rules();
    ctx.define("point".to_string(), group(vec![of(PreludeType::Int), of(PreludeType::Int)]));
    let node = array(vec![named("point"), named("point")]);
    let four = list(vec![num(1), num(2), num(3), num(4)]);
    assert_eq!(validate(&four, &node, &ctx), Ok(()));
    let three = list(vec![num(1), num(2), num(3)]);
    assert_eq!(validate(&three, &node, &ctx), mismatched("array element int"));
}

#[test]
fn arrays_nest() {
    let inner = array(vec![occurs(OccurLimit::ZeroOrMore, of(PreludeType::Int))]);
    let node = array(vec![inner, of(PreludeType::Bool)]);
    let good = list(vec![list(vec![num(1), num(2)]), Value::Bool(true)]);
    assert_eq!(check(&good, &node), Ok(()));
    let bad = list(vec![list(vec![num(1), text("a")]), Value::Bool(true)]);
    assert_eq!(check(&bad, &node), mismatched("shorter array"));
}

#[test]
fn an_array_of_one_repeated_type_matches_if_all_items_do() {
    let node = array(vec![occurs(OccurLimit::ZeroOrMore, of(PreludeType::Int))]);
    assert_eq!(check(&list(vec![]), &node), Ok(()));
    assert_eq!(check(&list(vec![num(3), num(1), num(2)]), &node), Ok(()));
    assert_eq!(check(&list(vec![num(3), text("a"), num(2)]), &node), mismatched("shorter array"));
}

#[test]
fn unwrapping_an_array_splices_its_members_in() {
    let mut ctx = no_rules();
    ctx.define("inner".to_string(), array(vec![of(PreludeType::Tstr), of(PreludeType::Int)]));
    let unwrapping =
        array(vec![of(PreludeType::Int), unwrapped("inner"), of(PreludeType::Bool)]);
    let spliced = array(vec![
        of(PreludeType::Int),
        of(PreludeType::Tstr),
        of(PreludeType::Int),
        of(PreludeType::Bool),
    ]);
    let good = list(vec![num(1), text("a"), num(2), Value::Bool(true)]);
    let short = list(vec![num(1), text("a")]);
    let wrong = list(vec![num(1), num(2)]);
    for value in [&good, &short, &wrong] {
        assert_eq!(validate(value, &unwrapping, &ctx), validate(value, &spliced, &ctx));
    }
    assert_eq!(validate(&good, &unwrapping, &ctx), Ok(()));
}

#[test]
fn a_choice_of_groups_is_decided_by_the_first_that_fits() {
    let node = array(vec![
        either(vec![
            group(vec![of(PreludeType::Int), of(PreludeType::Int)]),
            group(vec![of(PreludeType::Int)]),
        ]),
        of(PreludeType::Tstr),
    ]);
    assert_eq!(check(&list(vec![num(1), text("a")]), &node), Ok(()));
    assert_eq!(check(&list(vec![num(1), num(2), text("a")]), &node), Ok(()));
    assert_eq!(check(&list(vec![text("a")]), &node), mismatched("choice of 2"));
}
