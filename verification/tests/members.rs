use cddl_validate::array::{validate_array_member, validate_array_occur};
use cddl_validate::context::BasicContext;
use cddl_validate::ivt::{
    Choice, Group, KeyValue, Literal, Node, Occur, OccurLimit, PreludeType, Rule,
};
use cddl_validate::map::{
    map_search, validate_map_key, validate_map_keyvalue, validate_map_member,
    validate_map_unwrap,
};
use cddl_validate::util::{Mismatch, ValidateError, ValidateResult};
use cddl_validate::value::{Value, ValueMap};
use cddl_validate::working::{WorkingArray, WorkingMap};

fn num(i: i128) -> Value {
    Value::Integer(i)
}

fn text(s: &str) -> Value {
    Value::Text(s.to_string())
}

fn of(p: PreludeType) -> Node {
    Node::PreludeType(p)
}

fn word(s: &str) -> Node {
    Node::Literal(Literal::Text(s.to_string()))
}

fn named(s: &str) -> Node {
    Node::Rule(Rule { name: s.to_string() })
}

fn pair(key: Node, value: Node, cut: bool) -> KeyValue {
    KeyValue { key: Box::new(key), value: Box::new(value), cut }
}

fn failed(e: ValidateError) -> Option<ValidateResult> {
    Some(Err(e))
}

fn mismatched(what: &str) -> ValidateError {
    ValidateError::Mismatch(Mismatch { expected: what.to_string() })
}

fn cut_off(what: &str) -> ValidateError {
    ValidateError::MapCut(Mismatch { expected: what.to_string() })
}

fn holding(entries: Vec<(Value, Value)>) -> WorkingMap {
    let mut map = ValueMap::new();
    for (key, value) in entries {
        map.insert(key, value);
    }
    WorkingMap::new(&map)
}

fn walked(map: &WorkingMap) -> Vec<(Value, Value)> {
    let mut entries = vec![];
    for i in 0..map.left().len() {
        let (key, value) = map.left().entry(i);
        entries.push((key.clone(), value.clone()));
    }
    entries
}

fn drained(mut array: WorkingArray) -> Vec<Value> {
    let mut items = vec![];
    while !array.is_empty() {
        items.push(array.peek_front().unwrap().clone());
        array.pop_front();
    }
    items
}

#[test]
fn a_failed_group_leaves_the_array_as_it_was() {
    let inner = Node::Group(Group { members: vec![of(PreludeType::Int)] });
    let outer = Node::Group(Group { members: vec![inner, of(PreludeType::Tstr)] });
    let items = vec![num(1), Value::Bool(true)];
    let mut array = WorkingArray::new(&items);
    let r = validate_array_member(&outer, &mut array, &BasicContext::new(), 9);
    assert_eq!(r, failed(mismatched("tstr")));
    assert_eq!(drained(array), items);
}

#[test]
fn an_occurrence_takes_no_more_than_its_maximum() {
    for upper in 0..4 {
        let occur = Occur {
            limit: OccurLimit::Numbered(0, upper),
            node: Box::new(of(PreludeType::Int)),
        };
        let mut array = WorkingArray::new(&[num(0), num(1), num(2)]);
        let r = validate_array_occur(&occur, &mut array, &BasicContext::new(), 9);
        assert_eq!(r, Some(Ok(())));
        assert_eq!(drained(array).len(), 3 - upper);
    }
}

#[test]
fn a_member_of_an_array_ignores_its_key() {
    for key in [word("x"), of(PreludeType::Bool), named("nowhere")] {
        let member = Node::KeyValue(pair(key, of(PreludeType::Int), true));
        let mut array = WorkingArray::new(&[num(1), num(2)]);
        let r = validate_array_member(&member, &mut array, &BasicContext::new(), 9);
        assert_eq!(r, Some(Ok(())));
        assert_eq!(drained(array), vec![num(2)]);
    }
}

#[test]
fn a_cut_changes_only_the_kind_of_the_error() {
    let ctx = BasicContext::new();
    for cut in [true, false] {
        let kv = pair(word("a"), of(PreludeType::Int), cut);
        let mut wrong = holding(vec![(text("a"), text("x"))]);
        let error = if cut { cut_off("int") } else { mismatched("int") };
        assert_eq!(validate_map_keyvalue(&kv, &mut wrong, &ctx, 9), failed(error));
        assert_eq!(walked(&wrong), vec![(text("a"), text("x"))]);
        let mut right = holding(vec![(text("a"), num(1))]);
        assert_eq!(validate_map_keyvalue(&kv, &mut right, &ctx, 9), Some(Ok(())));
        assert_eq!(walked(&right), vec![]);
    }
}

#[test]
fn a_rule_among_the_members_of_a_map_is_seen_through() {
    let mut ctx = BasicContext::new();
    let member = || Node::KeyValue(pair(word("a"), of(PreludeType::Int), true));
    ctx.define("a".to_string(), Node::Group(Group { members: vec![member()] }));
    let mut map = holding(vec![(text("a"), num(1)), (text("b"), num(2))]);
    assert_eq!(validate_map_member(&named("a"), &mut map, &ctx, 9), Some(Ok(())));
    assert_eq!(walked(&map), vec![(text("b"), num(2))]);
    let lost = ValidateError::MissingRule("nowhere".to_string());
    assert_eq!(validate_map_member(&named("nowhere"), &mut map, &ctx, 9), failed(lost));
    assert_eq!(walked(&map), vec![(text("b"), num(2))]);
}

#[test]
fn options_behind_rules_are_decided_by_the_first_that_is_no_mismatch() {
    let mut ctx = BasicContext::new();
    let member = |key: &str, p: PreludeType, cut: bool| {
        Node::KeyValue(pair(word(key), of(p), cut))
    };
    ctx.define("absent".to_string(), member("z", PreludeType::Any, true));
    ctx.define("wrong".to_string(), member("a", PreludeType::Int, false));
    ctx.define("cut".to_string(), member("a", PreludeType::Int, true));
    ctx.define("fits".to_string(), member("a", PreludeType::Tstr, true));
    let cases = vec![
        (vec!["absent", "wrong", "fits", "cut"], Some(Ok(())), 0),
        (vec!["absent", "cut", "fits"], failed(cut_off("int")), 1),
        (vec!["absent", "wrong"], failed(mismatched("choice of 2")), 1),
        (vec![], failed(mismatched("choice of 0")), 1),
    ];
    for (names, outcome, left) in cases {
        let mut options = vec![];
        for name in names {
            options.push(named(name));
        }
        let choice = Node::Choice(Choice { options });
        let mut map = holding(vec![(text("a"), text("x"))]);
        assert_eq!(validate_map_member(&choice, &mut map, &ctx, 9), outcome);
        assert_eq!(walked(&map).len(), left);
    }
}

#[test]
fn a_cut_comes_through_occurrences_choices_and_rules() {
    let mut ctx = BasicContext::new();
    let member = || Node::KeyValue(pair(word("a"), of(PreludeType::Int), true));
    ctx.define("a".to_string(), member());
    let optional = Node::Occur(Occur {
        limit: OccurLimit::Optional,
        node: Box::new(named("a")),
    });
    let choice = Node::Choice(Choice { options: vec![member(), word("never reached")] });
    for node in [optional, choice, named("a")] {
        let mut map = holding(vec![(text("a"), text("x"))]);
        assert_eq!(validate_map_member(&node, &mut map, &ctx, 9), failed(cut_off("int")));
    }
}

#[test]
fn the_key_of_a_literal_is_found_either_way() {
    let ctx = BasicContext::new();
    let map = holding(vec![(text("a"), num(1)), (text("b"), num(2))]);
    let looked_up = validate_map_key(&map, &word("b"), &ctx, 9);
    assert_eq!(looked_up, Some(Ok((text("b"), &num(2)))));
    assert_eq!(map_search(&word("b"), &map, &ctx, 9), looked_up);
    let absent = validate_map_key(&map, &word("c"), &ctx, 9);
    assert_eq!(absent, Some(Err(mismatched("map{\"c\"}"))));
    assert_eq!(map_search(&word("c"), &map, &ctx, 9), absent);
}

#[test]
fn only_a_map_is_unwrapped_into_a_map() {
    let mut map = holding(vec![(text("a"), num(1))]);
    let r = validate_map_unwrap(&of(PreludeType::Any), &mut map, &BasicContext::new(), 9);
    assert_eq!(r, failed(mismatched("unwrap map")));
    assert_eq!(walked(&map), vec![(text("a"), num(1))]);
}
