//! Insert placement, replace, and delete consistency.

use listpack::encoding::Value;
use listpack::raw::Placement;
use listpack::Listpack;

#[test]
fn insert_after_last_is_append() {
    let mut by_append = Listpack::new();
    assert!(by_append.append(Value::Int(1)));
    assert!(by_append.append(Value::Int(2)));
    assert!(by_append.append(Value::Int(3)));

    let mut by_insert = Listpack::new();
    assert!(by_insert.append(Value::Int(1)));
    assert!(by_insert.append(Value::Int(2)));
    let last = by_insert.last().expect("not empty");
    by_insert.insert(Value::Int(3), Placement::After, Some(last)).expect("fits");

    assert_eq!(by_append.iter(), by_insert.iter());
    assert_eq!(by_append.get_total_bytes(), by_insert.get_total_bytes());
    assert_eq!(by_append.get_num_elements(), by_insert.get_num_elements());
}

#[test]
fn insert_without_target_is_append() {
    for place in [Placement::Before, Placement::After] {
        let mut by_append = Listpack::new();
        assert!(by_append.append(Value::Int(41)));
        assert!(by_append.append(Value::Int(42)));

        let mut by_insert = Listpack::new();
        assert!(by_insert.append(Value::Int(41)));
        by_insert.insert(Value::Int(42), place, None).expect("fits");

        assert_eq!(by_append.iter(), by_insert.iter());
        assert_eq!(by_append.get_total_bytes(), by_insert.get_total_bytes());
    }
}

#[test]
fn insert_before_and_after_place_correctly() {
    let mut lp = Listpack::new();
    assert!(lp.append(Value::Int(10)));
    assert!(lp.append(Value::Int(30)));
    let first = lp.first().expect("not empty");
    lp.insert(Value::Int(20), Placement::After, Some(first)).expect("fits");
    let first = lp.first().expect("not empty");
    lp.insert(Value::Int(5), Placement::Before, Some(first)).expect("fits");
    let vals = lp.iter();
    assert_eq!(
        vals,
        vec![Value::Int(5), Value::Int(10), Value::Int(20), Value::Int(30)],
    );
}

#[test]
fn delete_removes_exactly_one() {
    let mut lp = Listpack::new();
    for i in 0..5i64 {
        assert!(lp.append(Value::Int(i)));
    }
    let total_before = lp.get_total_bytes();
    let count_before = lp.get_num_elements();

    let victim = lp.seek(2).expect("in range");
    let entry_size = Value::Int(2).size_for_write();
    let successor = lp.delete(victim).expect("had a successor");
    assert_eq!(lp.get_int(successor), 3);

    assert_eq!(lp.get_num_elements(), count_before - 1);
    assert_eq!(lp.get_total_bytes(), total_before - entry_size);
    let vals = lp.iter();
    assert_eq!(
        vals,
        vec![Value::Int(0), Value::Int(1), Value::Int(3), Value::Int(4)],
    );
}

#[test]
fn delete_last_yields_no_successor() {
    let mut lp = Listpack::new();
    assert!(lp.append(Value::Int(1)));
    assert!(lp.append(Value::Int(2)));
    let last = lp.last().expect("not empty");
    assert!(lp.delete(last).is_none());
    assert_eq!(lp.iter(), vec![Value::Int(1)]);
    let only = lp.first().expect("one left");
    assert!(lp.delete(only).is_none());
    assert_eq!(lp.length(), 0);
    assert_eq!(lp.get_total_bytes(), 7);
}

#[test]
fn replace_same_size_in_place() {
    let mut lp = Listpack::new();
    assert!(lp.append(Value::Int(1)));
    assert!(lp.append(Value::Int(2)));
    let total = lp.get_total_bytes();
    let first = lp.first().expect("not empty");
    let e = lp.replace(first, Value::Int(9)).expect("fits");
    assert_eq!(lp.get_int(e), 9);
    assert_eq!(lp.get_total_bytes(), total);
    assert_eq!(lp.iter(), vec![Value::Int(9), Value::Int(2)]);
}

#[test]
fn replace_grow_and_shrink() {
    let mut lp = Listpack::new();
    assert!(lp.append(Value::Int(1)));
    assert!(lp.append(Value::Int(2)));

    // grow: one byte entry becomes a nine byte payload plus one byte tag
    let first = lp.first().expect("not empty");
    lp.replace(first, Value::Int(i64::MAX)).expect("fits");
    assert_eq!(lp.iter(), vec![Value::Int(i64::MAX), Value::Int(2)]);

    // shrink it back
    let first = lp.first().expect("not empty");
    lp.replace(first, Value::Int(7)).expect("fits");
    assert_eq!(lp.iter(), vec![Value::Int(7), Value::Int(2)]);
    assert_eq!(lp.get_num_elements(), 2);
}

#[test]
fn replace_string_payload() {
    let mut lp = Listpack::new();
    assert!(lp.append(Value::String(b"abc".to_vec())));
    let first = lp.first().expect("not empty");
    let e = lp.replace(first, Value::String(b"hello world".to_vec())).expect("fits");
    assert_eq!(lp.get_bytes(e), b"hello world".to_vec());
}
