//! Direct exercises of the raw engine: tag predicates, entry sizes, and
//! the iteration helpers.

use listpack::encoding::{
    is_12bit_str, is_13bit_int, is_16bit_int, is_24bit_int, is_32bit_int, is_32bit_str,
    is_64bit_int, is_6bit_str, is_7bit_uint, string_front_len, Value,
};
use listpack::raw;

#[test]
fn tag_predicates() {
    assert!(is_7bit_uint(0x00));
    assert!(is_7bit_uint(0x7F));
    assert!(!is_7bit_uint(0x80));
    assert!(is_6bit_str(0x80));
    assert!(is_6bit_str(0xBF));
    assert!(!is_6bit_str(0xC0));
    assert!(is_13bit_int(0xC0));
    assert!(is_13bit_int(0xDF));
    assert!(!is_13bit_int(0xE0));
    assert!(is_12bit_str(0xE0));
    assert!(is_12bit_str(0xEF));
    assert!(!is_12bit_str(0xF0));
    assert!(is_32bit_str(0xF0));
    assert!(is_16bit_int(0xF1));
    assert!(is_24bit_int(0xF2));
    assert!(is_32bit_int(0xF3));
    assert!(is_64bit_int(0xF4));
    assert!(!is_64bit_int(0xFF));
}

#[test]
fn string_front_len_classes() {
    assert_eq!(string_front_len(0), 1);
    assert_eq!(string_front_len(63), 1);
    assert_eq!(string_front_len(64), 2);
    assert_eq!(string_front_len(4095), 2);
    assert_eq!(string_front_len(4096), 5);
}

#[test]
fn encoded_size_reads_back() {
    let mut lp = raw::new();
    assert!(raw::append(&mut lp, &Value::Int(5)));
    assert!(raw::append(&mut lp, &Value::Int(-5)));
    assert!(raw::append(&mut lp, &Value::String(vec![9; 100])));
    let e = raw::first(&lp).unwrap();
    assert_eq!(raw::get_encoded_size(&lp, e), 1);
    let e = raw::next(&lp, e).unwrap();
    assert_eq!(raw::get_encoded_size(&lp, e), 2);
    let e = raw::next(&lp, e).unwrap();
    assert_eq!(raw::get_encoded_size(&lp, e), 102);
    assert!(raw::next(&lp, e).is_none());
}

#[test]
fn skip_steps_over_whole_entries() {
    let mut lp = raw::new();
    assert!(raw::append(&mut lp, &Value::Int(5)));
    assert!(raw::append(&mut lp, &Value::Int(6)));
    let first = raw::first(&lp).unwrap();
    let second = raw::skip(&lp, first);
    // a 7-bit integer entry is one tag byte plus a one-byte backlen
    assert_eq!(second.off(), first.off() + 2);
    assert_eq!(raw::get(&lp, second), Value::Int(6));
}

#[test]
fn element_bounds_check() {
    let mut lp = raw::new();
    assert!(raw::append(&mut lp, &Value::Int(5)));
    let e = raw::first(&lp).unwrap();
    assert!(raw::is_valid_element(&lp, &e));
}

#[test]
fn iter_index_pairs() {
    let mut lp = raw::new();
    for i in 0..4i64 {
        assert!(raw::append(&mut lp, &Value::Int(i + 100)));
    }
    let pairs = raw::iter_index(&lp);
    assert_eq!(pairs.len(), 4);
    for (i, (idx, v)) in pairs.iter().enumerate() {
        assert_eq!(*idx, i);
        assert_eq!(*v, Value::Int(i as i64 + 100));
    }
}

#[test]
fn iter_rev_reverses() {
    let mut lp = raw::new();
    for i in 0..4i64 {
        assert!(raw::append(&mut lp, &Value::Int(i)));
    }
    let fwd = raw::iter(&lp);
    let mut rev = raw::iter_rev(&lp);
    rev.reverse();
    assert_eq!(fwd, rev);
}

#[test]
fn raw_seek_directions() {
    let mut lp = raw::new();
    for i in 0..10i64 {
        assert!(raw::append(&mut lp, &Value::Int(i)));
    }
    // in the upper half the engine scans from the tail; the result is the
    // same element either way
    let e = raw::seek(&lp, 8).unwrap();
    assert_eq!(raw::get(&lp, e), Value::Int(8));
    let e = raw::seek(&lp, -2).unwrap();
    assert_eq!(raw::get(&lp, e), Value::Int(8));
    let e = raw::seek(&lp, 1).unwrap();
    assert_eq!(raw::get(&lp, e), Value::Int(1));
    assert!(raw::seek(&lp, 10).is_none());
    assert!(raw::seek(&lp, -11).is_none());
}

#[test]
fn raw_length_and_headers() {
    let mut lp = raw::new();
    assert_eq!(raw::get_total_bytes(&lp), 7);
    assert_eq!(raw::get_num_elements(&lp), 0);
    assert_eq!(raw::length(&mut lp), 0);
    assert!(raw::append_int(&mut lp, 1000i64));
    assert!(raw::append_string(&mut lp, &b"xy".to_vec()));
    assert_eq!(raw::length(&mut lp), 2);
    assert_eq!(raw::get_num_elements(&lp), 2);
    // 7 + (2 tag/payload + 1 backlen) + (3 tag/payload + 1 backlen)
    assert_eq!(raw::get_total_bytes(&lp), 14);
}

#[test]
fn raw_delete_and_replace() {
    let mut lp = raw::new();
    for i in 0..3i64 {
        assert!(raw::append(&mut lp, &Value::Int(i)));
    }
    let mid = raw::seek(&lp, 1).unwrap();
    let e = raw::replace(&mut lp, mid, &Value::Int(77)).unwrap();
    assert_eq!(raw::get(&lp, e), Value::Int(77));
    let succ = raw::delete(&mut lp, e).unwrap();
    assert_eq!(raw::get(&lp, succ), Value::Int(2));
    assert_eq!(raw::iter(&lp), vec![Value::Int(0), Value::Int(2)]);
}

#[test]
fn raw_typed_getters() {
    let mut lp = raw::new();
    assert!(raw::append(&mut lp, &Value::Int(-7)));
    let e = raw::first(&lp).unwrap();
    assert_eq!(listpack::convert::get_i8(&lp, e), -7);
    assert_eq!(listpack::convert::get_i16(&lp, e), -7);
    assert_eq!(listpack::convert::get_i32(&lp, e), -7);
    assert_eq!(listpack::convert::get_i64(&lp, e), -7);
    assert_eq!(listpack::convert::get_i128(&lp, e), -7);
    assert_eq!(listpack::convert::get_u8(&lp, e), 249);
    assert_eq!(listpack::convert::get_int(&lp, e), -7);
    assert_eq!(listpack::convert::get_signed_int(&lp, e), 3);
    assert_eq!(listpack::convert::get_bytes(&lp, e).len(), 8);
}
