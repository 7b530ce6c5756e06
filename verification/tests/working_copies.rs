use cddl_validate::value::{Value, ValueMap};
use cddl_validate::working::{WorkingArray, WorkingMap};

fn num(i: i128) -> Value {
    Value::Integer(i)
}

fn drained(mut array: WorkingArray) -> Vec<Value> {
    let mut items = vec![];
    while !array.is_empty() {
        items.push(array.peek_front().unwrap().clone());
        array.pop_front();
    }
    assert_eq!(array.peek_front(), None);
    items
}

fn walked(map: &WorkingMap) -> Vec<(Value, Value)> {
    let mut entries = vec![];
    for i in 0..map.left().len() {
        let (key, value) = map.left().entry(i);
        entries.push((key.clone(), value.clone()));
    }
    entries
}

fn squares() -> WorkingMap {
    let mut map = ValueMap::new();
    for i in 1..5 {
        map.insert(num(i), num(i * i));
    }
    WorkingMap::new(&map)
}

#[test]
fn rewinding_an_array_undoes_what_was_taken_since_the_snapshot() {
    let items = vec![num(1), num(2), num(3), num(4)];
    let mut array = WorkingArray::new(&items);
    array.pop_front();
    array.snapshot();
    array.pop_front();
    array.pop_front();
    assert_eq!(array.peek_front(), Some(&num(4)));
    array.rewind();
    assert_eq!(drained(array), vec![num(2), num(3), num(4)]);
}

#[test]
fn committing_an_array_keeps_what_is_left() {
    let items = vec![num(1), num(2), num(3)];
    let mut array = WorkingArray::new(&items);
    array.snapshot();
    array.pop_front();
    array.commit();
    assert_eq!(drained(array), vec![num(2), num(3)]);
}

#[test]
fn rewinding_an_array_undoes_what_an_inner_snapshot_committed() {
    let items = vec![num(1), num(2), num(3), num(4)];
    let mut array = WorkingArray::new(&items);
    array.snapshot();
    array.pop_front();
    array.snapshot();
    array.pop_front();
    array.commit();
    array.pop_front();
    assert_eq!(array.peek_front(), Some(&num(4)));
    array.rewind();
    assert_eq!(drained(array), items);
}

#[test]
fn an_inner_snapshot_of_an_array_can_be_rewound_by_itself() {
    let items = vec![num(1), num(2), num(3)];
    let mut array = WorkingArray::new(&items);
    array.snapshot();
    array.pop_front();
    array.snapshot();
    array.pop_front();
    array.rewind();
    assert_eq!(array.peek_front(), Some(&num(2)));
    array.rewind();
    assert_eq!(drained(array), vec![num(1), num(2), num(3)]);
}

#[test]
fn rewinding_a_map_undoes_what_was_taken_since_the_snapshot() {
    let mut map = squares();
    map.remove(&num(1));
    let before = walked(&map);
    map.snapshot();
    map.remove(&num(4));
    map.remove(&num(2));
    assert_eq!(map.peek_at(&num(2)), None);
    assert_eq!(map.peek_at(&num(3)), Some(&num(9)));
    map.rewind();
    assert_eq!(walked(&map), before);
    assert_eq!(map.peek_at(&num(2)), Some(&num(4)));
}

#[test]
fn committing_a_map_keeps_what_is_left() {
    let mut map = squares();
    map.snapshot();
    map.remove(&num(4));
    map.remove(&num(2));
    map.commit();
    assert_eq!(walked(&map), vec![(num(1), num(1)), (num(3), num(9))]);
}

#[test]
fn rewinding_a_map_undoes_what_an_inner_snapshot_committed() {
    let mut map = squares();
    map.snapshot();
    map.remove(&num(3));
    map.snapshot();
    map.remove(&num(1));
    map.commit();
    map.remove(&num(2));
    assert_eq!(walked(&map), vec![(num(4), num(16))]);
    map.rewind();
    assert_eq!(walked(&map), walked(&squares()));
}

#[test]
fn entries_can_be_put_back_in_any_order() {
    for keys in [[1, 2, 4], [4, 2, 1], [2, 4, 1]] {
        let mut map = squares();
        map.snapshot();
        for key in keys {
            map.remove(&num(key));
        }
        assert_eq!(walked(&map), vec![(num(3), num(9))]);
        map.rewind();
        assert_eq!(walked(&map), walked(&squares()));
    }
}
