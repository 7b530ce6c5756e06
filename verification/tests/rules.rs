use cddl_validate::context::{BasicContext, Context};
use cddl_validate::ivt::{
    Array, Choice, Group, KeyValue, Literal, Node, Occur, OccurLimit, PreludeType, Rule,
};
use cddl_validate::util::{Mismatch, ValidateError, ValidateResult};
use cddl_validate::validate::{
    validate, validate_choice, validate_choice_within, validate_rule, validate_rule_within,
    validate_within,
};
use cddl_validate::value::Value;

fn num(i: i128) -> Value {
    Value::Integer(i)
}

fn text(s: &str) -> Value {
    Value::Text(s.to_string())
}

fn list(items: Vec<Value>) -> Value {
    Value::Array(items)
}

fn lit(i: i128) -> Node {
    Node::Literal(Literal::Int(i))
}

fn of(p: PreludeType) -> Node {
    Node::PreludeType(p)
}

fn named(s: &str) -> Node {
    Node::Rule(Rule { name: s.to_string() })
}

fn unwrapped(s: &str) -> Node {
    Node::Unwrap(Rule { name: s.to_string() })
}

fn group(members: Vec<Node>) -> Node {
    Node::Group(Group { members })
}

fn array(members: Vec<Node>) -> Node {
    Node::Array(Array { members })
}

fn pair(key: Node, value: Node, cut: bool) -> Node {
    Node::KeyValue(KeyValue { key: Box::new(key), value: Box::new(value), cut })
}

fn occurs(limit: OccurLimit, node: Node) -> Node {
    Node::Occur(Occur { limit, node: Box::new(node) })
}

fn mismatched(what: &str) -> ValidateResult {
    Err(ValidateError::Mismatch(Mismatch { expected: what.to_string() }))
}

fn senseless(what: &str) -> ValidateResult {
    Err(ValidateError::StructuralError(what.to_string()))
}

fn missing(name: &str) -> ValidateResult {
    Err(ValidateError::MissingRule(name.to_string()))
}

fn no_rules() -> BasicContext {
    BasicContext::new()
}

fn check(value: &Value, node: &Node) -> ValidateResult {
    validate(value, node, &no_rules())
}

#[test]
fn a_choice_matches_if_an_option_does() {
    let choice = Choice { options: vec![of(PreludeType::Int), of(PreludeType::Tstr)] };
    assert_eq!(validate_choice(&choice, &num(1), &no_rules()), Ok(()));
    assert_eq!(validate_choice(&choice, &text("a"), &no_rules()), Ok(()));
    assert_eq!(validate_choice(&choice, &Value::Null, &no_rules()), mismatched("choice of 2"));
}

#[test]
fn a_choice_without_options_never_matches() {
    let choice = Choice { options: vec![] };
    assert_eq!(validate_choice(&choice, &num(1), &no_rules()), mismatched("choice of 0"));
}

#[test]
fn a_choice_counts_many_options() {
    let mut options = vec![];
    for i in 0..12 {
        options.push(lit(i));
    }
    let choice = Choice { options };
    assert_eq!(validate_choice(&choice, &num(11), &no_rules()), Ok(()));
    assert_eq!(validate_choice(&choice, &num(12), &no_rules()), mismatched("choice of 12"));
}

#[test]
fn a_fatal_error_ends_a_choice() {
    let early = Choice { options: vec![named("nowhere"), of(PreludeType::Int)] };
    assert_eq!(validate_choice(&early, &num(1), &no_rules()), missing("nowhere"));
    let late = Choice { options: vec![of(PreludeType::Int), named("nowhere")] };
    assert_eq!(validate_choice(&late, &num(1), &no_rules()), Ok(()));
    assert_eq!(validate_choice(&late, &text("a"), &no_rules()), missing("nowhere"));
}

#[test]
fn a_rule_stands_for_its_definition() {
    let mut ctx = no_rules();
    ctx.define("number".to_string(), of(PreludeType::Int));
    ctx.define("alias".to_string(), named("number"));
    let rule = Rule { name: "alias".to_string() };
    assert_eq!(validate_rule(&rule, &num(1), &ctx), Ok(()));
    assert_eq!(validate_rule(&rule, &text("a"), &ctx), mismatched("int"));
    let lost = Rule { name: "nowhere".to_string() };
    assert_eq!(validate_rule(&lost, &num(1), &ctx), missing("nowhere"));
}

#[test]
fn a_later_definition_takes_the_place_of_an_earlier_one() {
    let mut ctx = no_rules();
    ctx.define("a".to_string(), of(PreludeType::Int));
    ctx.define("b".to_string(), of(PreludeType::Bool));
    ctx.define("a".to_string(), of(PreludeType::Tstr));
    assert_eq!(validate(&text("x"), &named("a"), &ctx), Ok(()));
    assert_eq!(validate(&num(1), &named("a"), &ctx), mismatched("tstr"));
    assert_eq!(validate(&Value::Bool(true), &named("b"), &ctx), Ok(()));
}

#[test]
fn any_context_will_do() {
    let mut ctx = no_rules();
    ctx.define("number".to_string(), of(PreludeType::Int));
    let place: &dyn Context = &ctx;
    let rule = Rule { name: "number".to_string() };
    assert_eq!(validate_rule(&rule, &num(1), place), Ok(()));
}

#[test]
fn rules_may_refer_to_themselves_inside_arrays() {
    let mut ctx = no_rules();
    ctx.define(
        "tree".to_string(),
        array(vec![of(PreludeType::Int), occurs(OccurLimit::ZeroOrMore, named("tree"))]),
    );
    let leaf = |i: i128| list(vec![num(i)]);
    let tree = list(vec![num(1), leaf(2), list(vec![num(3), leaf(4), leaf(5)])]);
    assert_eq!(validate(&tree, &named("tree"), &ctx), Ok(()));
    let broken = list(vec![num(1), leaf(2), list(vec![text("x"), leaf(4)])]);
    assert_eq!(validate(&broken, &named("tree"), &ctx), mismatched("shorter array"));
}

#[test]
fn a_rule_that_only_leads_back_to_itself_is_never_settled() {
    let mut ctx = no_rules();
    ctx.define("a".to_string(), named("b"));
    ctx.define("b".to_string(), named("a"));
    assert_eq!(validate_within(&num(1), &named("a"), &ctx, 1000), None);
    let rule = Rule { name: "a".to_string() };
    assert_eq!(validate_rule_within(&rule, &num(1), &ctx, 1000), None);
    let choice = Choice { options: vec![of(PreludeType::Int), named("a")] };
    assert_eq!(validate_choice_within(&choice, &num(1), &ctx, 1000), Some(Ok(())));
    assert_eq!(validate_choice_within(&choice, &text("x"), &ctx, 1000), None);
}

#[test]
fn more_steps_do_not_change_an_outcome() {
    let mut ctx = no_rules();
    ctx.define("number".to_string(), of(PreludeType::Int));
    let node = array(vec![named("number"), named("number")]);
    let value = list(vec![num(1), num(2)]);
    let mut settled_at = 0;
    while validate_within(&value, &node, &ctx, settled_at).is_none() {
        settled_at += 1;
    }
    assert_eq!(settled_at, 4);
    for depth in settled_at..20 {
        assert_eq!(validate_within(&value, &node, &ctx, depth), Some(Ok(())));
    }
    assert_eq!(validate(&value, &node, &ctx), Ok(()));
}

#[test]
fn a_group_by_itself_needs_a_single_member() {
    let unsupported: ValidateResult =
        Err(ValidateError::Unsupported("standalone group".to_string()));
    assert_eq!(check(&num(1), &group(vec![of(PreludeType::Int)])), Ok(()));
    assert_eq!(check(&text("a"), &group(vec![of(PreludeType::Int)])), mismatched("int"));
    assert_eq!(check(&num(1), &group(vec![])), unsupported);
    let two = group(vec![of(PreludeType::Int), of(PreludeType::Int)]);
    assert_eq!(check(&num(1), &two), unsupported);
}

#[test]
fn some_nodes_need_an_array_or_a_map_around_them() {
    assert_eq!(
        check(&num(1), &pair(lit(1), lit(1), false)),
        senseless("unexpected KeyValue")
    );
    assert_eq!(
        check(&num(1), &occurs(OccurLimit::Optional, lit(1))),
        senseless("unexpected Occur")
    );
    assert_eq!(check(&num(1), &unwrapped("a")), senseless("unexpected Unwrap"));
}
