//! End-to-end scenarios over the wrapper, byte-exact against the
//! documented layout, plus the typed getters.

use listpack::encoding::Value;
use listpack::raw::Placement;
use listpack::Listpack;

fn build() -> Listpack {
    let mut lp = Listpack::new();
    assert!(lp.append(Value::Int(20)));
    assert!(lp.append(Value::Int(21)));
    assert!(lp.append(Value::Int(22)));
    assert!(lp.append(Value::String(b"hello".to_vec())));
    lp
}

#[test]
fn four_appends_byte_exact() {
    let mut lp = build();
    assert_eq!(lp.length(), 4);

    let first = lp.first().expect("not empty");
    assert_eq!(lp.get(first), Some(Value::Int(20)));

    let tail = lp.seek(-1).expect("in range");
    assert_eq!(lp.get(tail), Some(Value::String(b"hello".to_vec())));

    // header(6) + three 2-byte integer entries + one 7-byte string entry
    // + 1 end marker byte
    assert_eq!(lp.get_total_bytes(), 6 + 6 + 7 + 1);
}

#[test]
fn insert_after_first_lands_second() {
    let mut lp = build();
    let first = lp.first().expect("not empty");
    lp.insert(Value::Int(1), Placement::After, Some(first)).expect("fits");
    let first = lp.first().expect("not empty");
    let second = lp.next(first).expect("has a successor");
    assert_eq!(lp.get(second), Some(Value::Int(1)));
}

#[test]
fn typed_getters_on_integers() {
    let mut lp = Listpack::new();
    assert!(lp.append(Value::Int(-2)));
    let e = lp.first().expect("one element");
    assert_eq!(lp.get_i8(e), -2);
    assert_eq!(lp.get_i16(e), -2);
    assert_eq!(lp.get_i32(e), -2);
    assert_eq!(lp.get_i64(e), -2);
    assert_eq!(lp.get_i128(e), -2);
    assert_eq!(lp.get_isize(e), -2);
    assert_eq!(lp.get_u8(e), 254);
    assert_eq!(lp.get_u64(e), u64::MAX - 1);
    assert_eq!(lp.get_int(e), -2);
    assert_eq!(lp.get_int_or(e, 77), -2);
}

#[test]
fn typed_getters_on_payloads() {
    let mut lp = Listpack::new();
    // a two-byte little-endian payload reads back as its 16-bit value
    assert!(lp.append(Value::String(vec![0x34, 0x12])));
    let e = lp.first().expect("one element");
    assert_eq!(lp.get_u16(e), 0x1234);
    assert_eq!(lp.get_u32(e), 0x1234);
    assert_eq!(lp.get_u64(e), 0x1234);
    assert_eq!(lp.get_int_or(e, 77), 77);

    // a payload of unmatched width reads as zero
    assert!(lp.append(Value::String(vec![1, 2, 3])));
    let e = lp.last().expect("not empty");
    assert_eq!(lp.get_u16(e), 0);
    assert_eq!(lp.get_u64(e), 0);
    // but as bytes it comes back whole
    assert_eq!(lp.get_bytes(e), vec![1, 2, 3]);
}

#[test]
fn sign_extension_of_narrow_payloads() {
    let mut lp = Listpack::new();
    assert!(lp.append(Value::String(vec![0xFF])));
    let e = lp.first().expect("one element");
    assert_eq!(lp.get_i8(e), -1);
    assert_eq!(lp.get_i16(e), -1);
    assert_eq!(lp.get_i64(e), -1);
    assert_eq!(lp.get_u16(e), 255);
}

#[test]
fn get_str_round_trip() {
    let mut lp = Listpack::new();
    assert!(lp.append(Value::String(b"hello".to_vec())));
    let e = lp.first().expect("one element");
    assert_eq!(lp.get_str(e), "hello");

    // invalid UTF-8 reads as the empty string
    assert!(lp.append(Value::String(vec![0xFF, 0xFE])));
    let e = lp.last().expect("not empty");
    assert_eq!(lp.get_str(e), "");
}

#[test]
fn get_bytes_of_integer_is_le64() {
    let mut lp = Listpack::new();
    assert!(lp.append(Value::Int(0x0102)));
    let e = lp.first().expect("one element");
    assert_eq!(lp.get_bytes(e), vec![0x02, 0x01, 0, 0, 0, 0, 0, 0]);
}

#[test]
fn typed_appends() {
    let mut lp = Listpack::new();
    assert!(lp.append_int(300u16));
    assert!(lp.append_int(-300i32));
    assert!(lp.append_int(true));
    let vals = lp.iter();
    assert_eq!(vals, vec![Value::Int(300), Value::Int(-300), Value::Int(1)]);

    // a string append stores the little-endian bytes of the value
    assert!(lp.append_string(0x1234u16));
    let e = lp.last().expect("not empty");
    assert_eq!(lp.get_bytes(e), vec![0x34, 0x12]);
    assert_eq!(lp.get_u16(e), 0x1234);

    assert!(lp.append_string(b"raw".to_vec()));
    let e = lp.last().expect("not empty");
    assert_eq!(lp.get_str(e), "raw");

    // slices and text go in directly too
    let bytes = [1u8, 2, 3];
    assert!(lp.append_string(&bytes[..]));
    let e = lp.last().expect("not empty");
    assert_eq!(lp.get_bytes(e), vec![1, 2, 3]);

    assert!(lp.append_string("text"));
    let e = lp.last().expect("not empty");
    assert_eq!(lp.get_str(e), "text");
}

#[test]
fn signed_round_trip() {
    let mut lp = Listpack::new();
    assert!(lp.append_signed_int(55i64));
    let e = lp.first().expect("one element");
    // the non-negative fold is what sits in the entry
    assert_eq!(lp.get_int(e), 110);
    // and the signed read undoes it
    assert_eq!(lp.get_signed_int(e), 55);

    for v in [0i64, 1, -1, -20, 300, -300, 4611686018427387903, -4611686018427387904] {
        let mut lp = Listpack::new();
        assert!(lp.append_signed_int(v));
        let e = lp.first().expect("one element");
        assert_eq!(lp.get_signed_int(e), v, "round trip of {}", v);
    }
}

#[test]
fn signed_fold_shortens_small_negatives() {
    // -20 folds to 39, which fits the one-byte class: entry is 2 bytes
    let mut lp = Listpack::new();
    assert!(lp.append_signed_int(-20i64));
    assert_eq!(lp.get_total_bytes(), 7 + 2);
    let e = lp.first().expect("one element");
    assert_eq!(lp.get_int(e), 39);
    assert_eq!(lp.get_signed_int(e), -20);
}

#[test]
fn zigzag_values() {
    // the unfold
    assert_eq!(listpack::convert::zigzag(0), 0);
    assert_eq!(listpack::convert::zigzag(1), -1);
    assert_eq!(listpack::convert::zigzag(2), 1);
    assert_eq!(listpack::convert::zigzag(39), -20);
    // the fold
    assert_eq!(listpack::convert::zigzag_fold(0), 0);
    assert_eq!(listpack::convert::zigzag_fold(1), 2);
    assert_eq!(listpack::convert::zigzag_fold(-1), 1);
    assert_eq!(listpack::convert::zigzag_fold(-20), 39);
    // and their round trip
    for v in [0i64, 1, -1, 17, -17, 123456789, -123456789] {
        assert_eq!(listpack::convert::zigzag(listpack::convert::zigzag_fold(v)), v);
    }
}

#[test]
fn replace_typed() {
    let mut lp = Listpack::new();
    assert!(lp.append(Value::Int(5)));
    let e = lp.first().expect("one element");
    let e = lp.replace_int(e, 500i32).expect("fits");
    assert_eq!(lp.get_int(e), 500);
    let e = lp.replace_string(e, b"str".to_vec()).expect("fits");
    assert_eq!(lp.get_str(e), "str");
    let e = lp.replace_signed_int(e, 55i64).expect("fits");
    assert_eq!(lp.get_int(e), 110);
    assert_eq!(lp.get_signed_int(e), 55);
}
