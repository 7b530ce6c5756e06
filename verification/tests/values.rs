use cddl_validate::float::Float;
use cddl_validate::order::Relation;
use cddl_validate::value::{Value, ValueMap};

fn num(i: i128) -> Value {
    Value::Integer(i)
}

fn text(s: &str) -> Value {
    Value::Text(s.to_string())
}

fn float(x: f64) -> Value {
    Value::Float(Float { bits: x.to_bits() })
}

fn table(entries: Vec<(Value, Value)>) -> ValueMap {
    let mut map = ValueMap::new();
    for (key, value) in entries {
        map.insert(key, value);
    }
    map
}

fn walked(map: &ValueMap) -> Vec<(Value, Value)> {
    let mut entries = vec![];
    for i in 0..map.len() {
        let (key, value) = map.entry(i);
        entries.push((key.clone(), value.clone()));
    }
    entries
}

#[test]
fn values_are_ordered_by_kind_and_then_by_content() {
    let ascending = vec![
        Value::Null,
        Value::Bool(false),
        Value::Bool(true),
        num(i128::MIN),
        num(-1),
        num(2),
        num(i128::MAX),
        float(f64::NEG_INFINITY),
        float(-1.0),
        float(-0.0),
        float(0.0),
        float(1.0),
        float(f64::INFINITY),
        float(f64::NAN),
        Value::Bytes(vec![]),
        Value::Bytes(vec![1, 255]),
        Value::Bytes(vec![2]),
        text(""),
        text("a"),
        text("aa"),
        text("b"),
        text("\u{e9}"),
        text("\u{1f600}"),
        Value::Array(vec![]),
        Value::Array(vec![num(1)]),
        Value::Array(vec![num(1), num(0)]),
        Value::Array(vec![num(2)]),
        Value::Mapping(table(vec![])),
        Value::Mapping(table(vec![(num(1), num(1))])),
        Value::Mapping(table(vec![(num(1), num(1)), (num(2), num(0))])),
        Value::Mapping(table(vec![(num(1), num(2))])),
        Value::Mapping(table(vec![(num(2), num(0))])),
    ];
    for i in 0..ascending.len() {
        for j in 0..ascending.len() {
            let relation = ascending[i].compare(&ascending[j]);
            if i < j {
                assert_eq!(relation, Relation::Less);
            } else if i == j {
                assert_eq!(relation, Relation::Equal);
            } else {
                assert_eq!(relation, Relation::Greater);
            }
            assert_eq!(ascending[i] == ascending[j], i == j);
        }
    }
}

#[test]
fn a_map_is_walked_in_the_order_of_its_keys() {
    let map = table(vec![
        (text("b"), num(1)),
        (num(10), num(2)),
        (text("a"), num(3)),
        (num(9), num(4)),
    ]);
    assert_eq!(
        walked(&map),
        vec![
            (num(9), num(4)),
            (num(10), num(2)),
            (text("a"), num(3)),
            (text("b"), num(1)),
        ]
    );
}

#[test]
fn a_map_holds_one_value_under_a_key() {
    let mut map = ValueMap::new();
    assert!(map.is_empty());
    map.insert(text("a"), num(1));
    map.insert(text("a"), num(2));
    assert_eq!(map.len(), 1);
    assert!(!map.is_empty());
    assert_eq!(map.get(&text("a")), Some(&num(2)));
    assert_eq!(map.get(&text("b")), None);
    assert_eq!(map.remove(&text("b")), None);
    assert_eq!(map.remove(&text("a")), Some(num(2)));
    assert!(map.is_empty());
}

#[test]
fn putting_back_what_was_taken_out_restores_a_map() {
    let mut map = table(vec![(num(1), text("x")), (num(2), text("y")), (num(3), text("z"))]);
    let before = walked(&map);
    let taken = map.remove(&num(2)).unwrap();
    assert_eq!(walked(&map).len(), 2);
    map.insert(num(2), taken);
    assert_eq!(walked(&map), before);
}

#[test]
fn a_copy_holds_the_same() {
    let value = Value::Array(vec![
        Value::Null,
        Value::Bool(true),
        num(-4),
        float(2.5),
        Value::Bytes(vec![7]),
        text("x"),
        Value::Mapping(table(vec![(num(1), Value::Array(vec![text("y")]))])),
    ]);
    assert_eq!(value.clone(), value);
}
