//! Traversal symmetry: forward and backward walks visit the same elements
//! in opposite orders, and seeking by index matches both.

use listpack::encoding::Value;
use listpack::Listpack;

fn sample(n: i64) -> Listpack {
    let mut lp = Listpack::new();
    for i in 0..n {
        assert!(lp.append(Value::Int(i * 10)));
    }
    lp
}

#[test]
fn forward_walk_visits_in_order() {
    let n = 9i64;
    let lp = sample(n);
    let mut seen: Vec<i64> = Vec::new();
    let mut cur = lp.first();
    while let Some(e) = cur {
        seen.push(lp.get_int(e));
        cur = lp.next(e);
    }
    let expected: Vec<i64> = (0..n).map(|i| i * 10).collect();
    assert_eq!(seen, expected);
}

#[test]
fn backward_walk_visits_in_reverse() {
    let n = 9i64;
    let lp = sample(n);
    let mut seen: Vec<i64> = Vec::new();
    let mut cur = lp.last();
    while let Some(e) = cur {
        seen.push(lp.get_int(e));
        cur = lp.prev(e);
    }
    let expected: Vec<i64> = (0..n).rev().map(|i| i * 10).collect();
    assert_eq!(seen, expected);
}

#[test]
fn empty_listpack_has_no_ends() {
    let lp = Listpack::new();
    assert!(lp.first().is_none());
    assert!(lp.last().is_none());
    assert!(lp.seek(0).is_none());
    assert!(lp.seek(-1).is_none());
}

#[test]
fn first_or_next_walk() {
    let lp = sample(4);
    let mut seen: Vec<i64> = Vec::new();
    let mut cur = None;
    while let Some(e) = lp.first_or_next(cur) {
        seen.push(lp.get_int(e));
        cur = Some(e);
    }
    assert_eq!(seen, vec![0, 10, 20, 30]);
}

#[test]
fn last_or_prev_walk() {
    let lp = sample(4);
    let mut seen: Vec<i64> = Vec::new();
    let mut cur = None;
    while let Some(e) = lp.last_or_prev(cur) {
        seen.push(lp.get_int(e));
        cur = Some(e);
    }
    assert_eq!(seen, vec![30, 20, 10, 0]);
}

#[test]
fn seek_by_index() {
    let n = 7i64;
    let lp = sample(n);
    for i in 0..n {
        let e = lp.seek(i).expect("in range");
        assert_eq!(lp.get_int(e), i * 10);
        let e = lp.seek(i - n).expect("negative in range");
        assert_eq!(lp.get_int(e), i * 10);
    }
    assert!(lp.seek(n).is_none());
    assert!(lp.seek(-n - 1).is_none());
    assert!(lp.seek(i64::MAX).is_none());
    assert!(lp.seek(i64::MIN).is_none());
}

#[test]
fn iter_matches_walk() {
    let lp = sample(5);
    let vals = lp.iter();
    assert_eq!(vals.len(), 5);
    for (i, v) in vals.iter().enumerate() {
        assert_eq!(*v, Value::Int(i as i64 * 10));
    }
}
