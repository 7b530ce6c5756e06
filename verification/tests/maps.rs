use cddl_validate::context::BasicContext;
use cddl_validate::ivt::{
    Array, Choice, Group, KeyValue, Literal, Mapping, Node, Occur, OccurLimit, PreludeType,
    Range, Rule,
};
use cddl_validate::util::{Mismatch, ValidateError, ValidateResult};
use cddl_validate::validate::validate;
use cddl_validate::value::{Value, ValueMap};

fn num(i: i128) -> Value {
    Value::Integer(i)
}

fn text(s: &str) -> Value {
    Value::Text(s.to_string())
}

fn list(items: Vec<Value>) -> Value {
    Value::Array(items)
}

fn table(entries: Vec<(Value, Value)>) -> Value {
    let mut map = ValueMap::new();
    for (key, value) in entries {
        map.insert(key, value);
    }
    Value::Mapping(map)
}

fn lit(i: i128) -> Node {
    Node::Literal(Literal::Int(i))
}

fn word(s: &str) -> Node {
    Node::Literal(Literal::Text(s.to_string()))
}

fn of(p: PreludeType) -> Node {
    Node::PreludeType(p)
}

fn named(s: &str) -> Node {
    Node::Rule(Rule { name: s.to_string() })
}

fn unwrapped(s: &str) -> Node {
    Node::Unwrap(Rule { name: s.to_string() })
}

fn either(options: Vec<Node>) -> Node {
    Node::Choice(Choice { options })
}

fn group(members: Vec<Node>) -> Node {
    Node::Group(Group { members })
}

fn array(members: Vec<Node>) -> Node {
    Node::Array(Array { members })
}

fn mapping(members: Vec<Node>) -> Node {
    Node::Mapping(Mapping { members })
}

fn pair(key: Node, value: Node, cut: bool) -> Node {
    Node::KeyValue(KeyValue { key: Box::new(key), value: Box::new(value), cut })
}

fn occurs(limit: OccurLimit, node: Node) -> Node {
    Node::Occur(Occur { limit, node: Box::new(node) })
}

fn mismatched(what: &str) -> ValidateResult {
    Err(ValidateError::Mismatch(Mismatch { expected: what.to_string() }))
}

fn senseless(what: &str) -> ValidateResult {
    Err(ValidateError::StructuralError(what.to_string()))
}

fn missing(name: &str) -> ValidateResult {
    Err(ValidateError::MissingRule(name.to_string()))
}

fn no_rules() -> BasicContext {
    BasicContext::new()
}

fn check(value: &Value, node: &Node) -> ValidateResult {
    validate(value, node, &no_rules())
}

#[test]
fn literal_keys_are_looked_up() {
    let node = mapping(vec![pair(word("a"), of(PreludeType::Int), true)]);
    assert_eq!(check(&table(vec![(text("a"), num(1))]), &node), Ok(()));
    assert_eq!(check(&table(vec![]), &node), mismatched("map{\"a\"}"));
    assert_eq!(check(&table(vec![(text("b"), num(1))]), &node), mismatched("map{\"a\"}"));
    assert_eq!(check(&table(vec![(text("a"), text("x"))]), &node), mismatched("int"));
    let by_number = mapping(vec![pair(lit(1), of(PreludeType::Int), true)]);
    assert_eq!(check(&table(vec![(num(1), num(2))]), &by_number), Ok(()));
    assert_eq!(check(&table(vec![(num(2), num(2))]), &by_number), mismatched("map{1}"));
}

#[test]
fn entries_left_over_are_a_mismatch() {
    let node = mapping(vec![pair(word("a"), of(PreludeType::Int), true)]);
    let two = table(vec![(text("a"), num(1)), (text("b"), num(2))]);
    assert_eq!(check(&two, &node), mismatched("shorter map"));
    assert_eq!(check(&table(vec![]), &mapping(vec![])), Ok(()));
    assert_eq!(check(&two, &mapping(vec![])), mismatched("shorter map"));
}

#[test]
fn only_a_map_matches_a_map() {
    assert_eq!(check(&num(1), &mapping(vec![])), mismatched("map"));
    assert_eq!(check(&list(vec![]), &mapping(vec![])), mismatched("map"));
}

#[test]
fn a_type_as_key_takes_the_first_key_that_matches() {
    let node = mapping(vec![
        pair(of(PreludeType::Tstr), of(PreludeType::Int), false),
        pair(of(PreludeType::Int), of(PreludeType::Tstr), false),
    ]);
    let good = table(vec![(num(5), text("x")), (text("a"), num(1))]);
    assert_eq!(check(&good, &node), Ok(()));
    assert_eq!(check(&table(vec![(num(5), text("x"))]), &node), mismatched("map{tstr}"));
}

#[test]
fn no_other_key_is_tried_once_one_has_matched() {
    let node = mapping(vec![
        pair(of(PreludeType::Tstr), of(PreludeType::Int), false),
        pair(of(PreludeType::Tstr), of(PreludeType::Any), false),
    ]);
    let first_fails = table(vec![(text("a"), text("x")), (text("b"), num(1))]);
    assert_eq!(check(&first_fails, &node), mismatched("int"));
    let first_fits = table(vec![(text("a"), num(1)), (text("b"), text("x"))]);
    assert_eq!(check(&first_fits, &node), Ok(()));
}

#[test]
fn errors_on_keys_only_pass_the_key_over() {
    let node = mapping(vec![pair(named("nowhere"), of(PreludeType::Any), true)]);
    assert_eq!(check(&table(vec![(num(1), num(1))]), &node), mismatched("map{nowhere}"));
}

#[test]
fn errors_on_values_are_passed_on() {
    let lost = mapping(vec![pair(word("a"), named("nowhere"), true)]);
    assert_eq!(check(&table(vec![(text("a"), num(1))]), &lost), missing("nowhere"));
    let many = group(vec![of(PreludeType::Int), of(PreludeType::Int)]);
    let odd = mapping(vec![pair(word("a"), many, true)]);
    assert_eq!(
        check(&table(vec![(text("a"), num(1))]), &odd),
        Err(ValidateError::Unsupported("standalone group".to_string()))
    );
}

#[test]
fn a_cut_keeps_later_members_from_the_key() {
    let any_other = || {
        occurs(
            OccurLimit::ZeroOrMore,
            pair(of(PreludeType::Tstr), of(PreludeType::Any), false),
        )
    };
    let with_cut = mapping(vec![
        occurs(OccurLimit::Optional, pair(word("a"), of(PreludeType::Int), true)),
        any_other(),
    ]);
    let without_cut = mapping(vec![
        occurs(OccurLimit::Optional, pair(word("a"), of(PreludeType::Int), false)),
        any_other(),
    ]);
    let value = table(vec![(text("a"), text("x")), (text("b"), num(1))]);
    assert_eq!(check(&value, &with_cut), mismatched("int"));
    assert_eq!(check(&value, &without_cut), Ok(()));
    let fits = table(vec![(text("a"), num(1)), (text("b"), num(1))]);
    assert_eq!(check(&fits, &with_cut), Ok(()));
    assert_eq!(check(&fits, &without_cut), Ok(()));
}

#[test]
fn a_cut_ends_a_choice_and_a_group_forgets_it() {
    let bare = |cut: bool| {
        mapping(vec![either(vec![
            pair(word("a"), of(PreludeType::Int), cut),
            pair(word("a"), of(PreludeType::Tstr), cut),
        ])])
    };
    let value = table(vec![(text("a"), text("x"))]);
    assert_eq!(check(&value, &bare(true)), mismatched("int"));
    assert_eq!(check(&value, &bare(false)), Ok(()));
    let grouped = mapping(vec![either(vec![
        group(vec![pair(word("a"), of(PreludeType::Int), true)]),
        group(vec![pair(word("a"), of(PreludeType::Tstr), true)]),
    ])]);
    assert_eq!(check(&value, &grouped), Ok(()));
    let neither = table(vec![(text("a"), Value::Null)]);
    assert_eq!(check(&neither, &grouped), mismatched("choice of 2"));
}

#[test]
fn a_cut_does_not_leave_its_map() {
    let inner = mapping(vec![pair(word("a"), of(PreludeType::Int), true)]);
    let node = mapping(vec![
        occurs(OccurLimit::Optional, pair(word("m"), inner, false)),
        occurs(
            OccurLimit::ZeroOrMore,
            pair(of(PreludeType::Tstr), of(PreludeType::Any), false),
        ),
    ]);
    let value = table(vec![(text("m"), table(vec![(text("a"), text("x"))]))]);
    assert_eq!(check(&value, &node), Ok(()));
}

#[test]
fn repeated_keys_keep_to_their_limits() {
    let entry = || pair(of(PreludeType::Tstr), of(PreludeType::Int), false);
    let some = mapping(vec![occurs(OccurLimit::Numbered(2, 3), entry())]);
    let sized = |n: i128| {
        let mut entries = vec![];
        for i in 0..n {
            entries.push((text(&format!("k{}", i)), num(i)));
        }
        table(entries)
    };
    assert_eq!(check(&sized(1), &some), mismatched("map{2*3 tstr => int}]"));
    assert_eq!(check(&sized(2), &some), Ok(()));
    assert_eq!(check(&sized(3), &some), Ok(()));
    assert_eq!(check(&sized(4), &some), mismatched("shorter map"));
    let one = mapping(vec![occurs(OccurLimit::OneOrMore, entry())]);
    assert_eq!(check(&sized(0), &one), mismatched("map{+ tstr => int}]"));
    assert_eq!(check(&sized(5), &one), Ok(()));
    let any = mapping(vec![occurs(OccurLimit::ZeroOrMore, entry())]);
    assert_eq!(check(&sized(0), &any), Ok(()));
    assert_eq!(check(&sized(5), &any), Ok(()));
}

#[test]
fn an_upper_limit_of_zero_admits_no_entry() {
    let entry = || pair(of(PreludeType::Tstr), of(PreludeType::Int), false);
    let none = || occurs(OccurLimit::Numbered(0, 0), entry());
    let one = table(vec![(text("a"), num(1))]);
    assert_eq!(check(&table(vec![]), &mapping(vec![none()])), Ok(()));
    assert_eq!(check(&one, &mapping(vec![none()])), mismatched("shorter map"));
    assert_eq!(check(&one, &mapping(vec![none(), entry()])), Ok(()));
    let never_enough = mapping(vec![occurs(OccurLimit::Numbered(1, 0), entry())]);
    assert_eq!(check(&one, &never_enough), mismatched("map{1*0 tstr => int}]"));
}

#[test]
fn a_failed_group_puts_its_entries_back() {
    let node = mapping(vec![either(vec![
        group(vec![
            pair(word("a"), of(PreludeType::Int), true),
            pair(word("b"), of(PreludeType::Int), true),
        ]),
        group(vec![pair(word("a"), of(PreludeType::Int), true)]),
    ])]);
    assert_eq!(check(&table(vec![(text("a"), num(1))]), &node), Ok(()));
    assert_eq!(check(&table(vec![(text("a"), num(1)), (text("b"), num(2))]), &node), Ok(()));
    assert_eq!(check(&table(vec![(text("b"), num(2))]), &node), mismatched("choice of 2"));
}

#[test]
fn a_failed_group_puts_back_the_entries_of_a_group_inside_it() {
    let node = mapping(vec![either(vec![
        group(vec![
            group(vec![pair(word("a"), of(PreludeType::Int), true)]),
            pair(word("b"), of(PreludeType::Int), true),
        ]),
        group(vec![pair(word("a"), of(PreludeType::Int), true)]),
    ])]);
    assert_eq!(check(&table(vec![(text("a"), num(1)), (text("b"), num(2))]), &node), Ok(()));
    assert_eq!(check(&table(vec![(text("a"), num(1))]), &node), Ok(()));
    assert_eq!(check(&table(vec![(text("b"), num(1))]), &node), mismatched("choice of 2"));
}

#[test]
fn the_first_option_that_is_no_mismatch_decides() {
    let option = |key: &str, value: Node, cut: bool| pair(word(key), value, cut);
    let value = table(vec![(text("a"), text("x"))]);
    let skipped = || option("b", of(PreludeType::Any), true);
    let cut = || option("a", of(PreludeType::Int), true);
    let fatal = || option("a", named("nowhere"), true);
    let fits = || option("a", of(PreludeType::Tstr), true);
    let choice = |options: Vec<Node>| mapping(vec![either(options)]);
    assert_eq!(check(&value, &choice(vec![skipped(), fits(), fatal()])), Ok(()));
    assert_eq!(check(&value, &choice(vec![skipped(), cut(), fits()])), mismatched("int"));
    assert_eq!(check(&value, &choice(vec![skipped(), fatal(), fits()])), missing("nowhere"));
    let uncut = option("a", of(PreludeType::Int), false);
    assert_eq!(check(&value, &choice(vec![skipped(), uncut])), mismatched("choice of 2"));
}

#[test]
fn a_cut_changes_only_what_happens_next() {
    for cut in [true, false] {
        let node = mapping(vec![pair(word("a"), of(PreludeType::Int), cut)]);
        assert_eq!(check(&table(vec![(text("a"), num(1))]), &node), Ok(()));
        assert_eq!(check(&table(vec![(text("a"), text("x"))]), &node), mismatched("int"));
        assert_eq!(check(&table(vec![]), &node), mismatched("map{\"a\"}"));
    }
}

#[test]
fn unwrapping_a_map_splices_its_members_in() {
    let member = |key: &str| pair(word(key), of(PreludeType::Int), true);
    let mut ctx = no_rules();
    ctx.define("inner".to_string(), mapping(vec![member("b"), member("c")]));
    let unwrapping = mapping(vec![member("a"), unwrapped("inner"), member("d")]);
    let spliced = mapping(vec![member("a"), member("b"), member("c"), member("d")]);
    let keyed = |keys: &[&str]| {
        let mut entries = vec![];
        for key in keys {
            entries.push((text(key), num(1)));
        }
        table(entries)
    };
    for keys in [vec!["a", "b", "c", "d"], vec!["a", "b", "d"], vec![], vec!["a", "e"]] {
        let value = keyed(&keys);
        assert_eq!(
            validate(&value, &unwrapping, &ctx),
            validate(&value, &spliced, &ctx)
        );
    }
    assert_eq!(validate(&keyed(&["a", "b", "c", "d"]), &unwrapping, &ctx), Ok(()));
}

#[test]
fn some_nodes_cannot_stand_in_a_map() {
    let value = table(vec![(text("a"), num(1))]);
    let range = Node::Range(Range {
        start: Box::new(lit(1)),
        end: Box::new(lit(2)),
        inclusive: true,
    });
    assert_eq!(check(&value, &mapping(vec![lit(1)])), senseless("literal map member"));
    assert_eq!(
        check(&value, &mapping(vec![of(PreludeType::Any)])),
        senseless("prelude type map member")
    );
    assert_eq!(check(&value, &mapping(vec![mapping(vec![])])), senseless("map as map member"));
    assert_eq!(check(&value, &mapping(vec![array(vec![])])), senseless("array as map member"));
    assert_eq!(check(&value, &mapping(vec![range])), senseless("range as map member"));
}

#[test]
fn members_of_an_unwrapped_map_join_the_map_around_them() {
    let mut ctx = no_rules();
    ctx.define(
        "header".to_string(),
        mapping(vec![pair(word("id"), of(PreludeType::Int), true)]),
    );
    ctx.define("number".to_string(), of(PreludeType::Int));
    let node = mapping(vec![
        unwrapped("header"),
        pair(word("body"), of(PreludeType::Tstr), true),
    ]);
    let good = table(vec![(text("id"), num(1)), (text("body"), text("x"))]);
    assert_eq!(validate(&good, &node, &ctx), Ok(()));
    let headless = table(vec![(text("body"), text("x"))]);
    assert_eq!(validate(&headless, &node, &ctx), mismatched("map{\"id\"}"));
    let wrong = mapping(vec![unwrapped("number")]);
    assert_eq!(validate(&good, &wrong, &ctx), mismatched("unwrap map"));
    let lost = mapping(vec![unwrapped("nowhere")]);
    assert_eq!(validate(&good, &lost, &ctx), missing("nowhere"));
}

#[test]
fn members_are_seen_through_rules() {
    let mut ctx = no_rules();
    ctx.define("id".to_string(), pair(word("id"), of(PreludeType::Int), true));
    let node = mapping(vec![named("id")]);
    assert_eq!(validate(&table(vec![(text("id"), num(1))]), &node, &ctx), Ok(()));
    assert_eq!(
        validate(&table(vec![(text("id"), text("x"))]), &node, &ctx),
        mismatched("int")
    );
    let lost = mapping(vec![named("nowhere")]);
    assert_eq!(validate(&table(vec![]), &lost, &ctx), missing("nowhere"));
}

#[test]
fn looking_up_a_literal_key_finds_what_a_search_would() {
    let looked_up = mapping(vec![pair(word("b"), of(PreludeType::Int), true)]);
    let searched = mapping(vec![pair(either(vec![word("b")]), of(PreludeType::Int), true)]);
    let tables = vec![
        table(vec![]),
        table(vec![(text("a"), num(1))]),
        table(vec![(text("b"), num(1))]),
        table(vec![(text("b"), text("x"))]),
        table(vec![(text("a"), num(1)), (text("b"), num(2))]),
    ];
    for value in &tables {
        assert_eq!(check(value, &looked_up), check(value, &searched));
    }
    assert_eq!(check(&tables[1], &searched), mismatched("map{\"b\"}"));
}

#[test]
fn members_of_a_map_are_matched_in_turn() {
    let general = || pair(of(PreludeType::Tstr), of(PreludeType::Any), false);
    let special = || pair(word("a"), of(PreludeType::Int), true);
    let value = table(vec![(text("a"), num(1)), (text("b"), num(2))]);
    assert_eq!(check(&value, &mapping(vec![special(), general()])), Ok(()));
    assert_eq!(
        check(&value, &mapping(vec![general(), special()])),
        mismatched("map{\"a\"}")
    );
}

#[test]
fn a_map_of_literal_keys_matches_just_those_keys() {
    let node = mapping(vec![
        pair(word("x"), of(PreludeType::Int), true),
        pair(word("y"), of(PreludeType::Bool), true),
    ]);
    let x = || (text("x"), num(1));
    let y = || (text("y"), Value::Bool(true));
    assert_eq!(check(&table(vec![x(), y()]), &node), Ok(()));
    assert_eq!(check(&table(vec![y(), x()]), &node), Ok(()));
    assert_eq!(check(&table(vec![x()]), &node), mismatched("map{\"y\"}"));
    assert_eq!(check(&table(vec![x(), (text("y"), num(0))]), &node), mismatched("bool"));
    assert_eq!(
        check(&table(vec![x(), y(), (text("z"), num(0))]), &node),
        mismatched("shorter map")
    );
}
