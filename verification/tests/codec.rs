//! Round trips of the integer, string and backlen codecs at every
//! documented class boundary.

use listpack::backlen::{backlen_size, decode_backlen, encode_backlen};
use listpack::encoding::Value;
use listpack::raw::decode_value;
use listpack::Listpack;

fn int_round_trip(v: i64, expected_size: u32) {
    let val = Value::Int(v);
    assert_eq!(val.encoded_size(), expected_size, "encoded size of {}", v);

    let mut lp = Listpack::new();
    assert!(lp.append(Value::Int(v)));
    let e = lp.first().expect("one element");
    assert_eq!(lp.get(e), Some(Value::Int(v)), "round trip of {}", v);
    assert_eq!(lp.get_i64(e), v);
}

#[test]
fn int_boundaries() {
    let cases: [(i64, u32); 18] = [
        (-9223372036854775808, 9),
        (-2147483649, 9),
        (-2147483648, 5),
        (-32769, 4),
        (-32768, 3),
        (-4097, 3),
        (-4096, 2),
        (-1, 2),
        (0, 1),
        (127, 1),
        (128, 2),
        (4095, 2),
        (4096, 3),
        (32767, 3),
        (32768, 4),
        (2147483647, 5),
        (2147483648, 9),
        (9223372036854775807, 9),
    ];
    for (v, size) in cases {
        int_round_trip(v, size);
    }
}

#[test]
fn int_tag_patterns() {
    // 7-bit unsigned: 0xxxxxxx
    assert_eq!(Value::Int(5).encode()[0], 5);
    // 13-bit signed: 110xxxxx
    assert_eq!(Value::Int(-1).encode()[0] & 0xE0, 0xC0);
    // fixed tags for the wider classes
    assert_eq!(Value::Int(-32768).encode()[0], 0xF1);
    assert_eq!(Value::Int(-32769).encode()[0], 0xF2);
    assert_eq!(Value::Int(-2147483648).encode()[0], 0xF3);
    assert_eq!(Value::Int(-2147483649).encode()[0], 0xF4);
}

fn str_round_trip(len: usize, expected_size: u32) {
    let payload: Vec<u8> = (0..len).map(|i| (i % 251) as u8).collect();
    let val = Value::String(payload.clone());
    assert_eq!(val.encoded_size(), expected_size, "encoded size of len {}", len);

    let mut lp = Listpack::new();
    assert!(lp.append(val));
    let e = lp.first().expect("one element");
    assert_eq!(lp.get_bytes(e), payload, "round trip of len {}", len);
}

#[test]
fn str_boundaries() {
    str_round_trip(0, 1);
    str_round_trip(63, 64);
    str_round_trip(64, 66);
    str_round_trip(4095, 4097);
    str_round_trip(4096, 4101);
}

#[test]
fn str_tag_patterns() {
    assert_eq!(Value::String(vec![1; 63]).encode()[0] & 0xC0, 0x80);
    assert_eq!(Value::String(vec![1; 64]).encode()[0] & 0xF0, 0xE0);
    assert_eq!(Value::String(vec![1; 4096]).encode()[0], 0xF0);
}

#[test]
fn backlen_round_trip() {
    let cases: [(u64, usize); 12] = [
        (1, 1),
        (127, 1),
        (128, 2),
        (16382, 2),
        (16383, 2),
        (16384, 3),
        (2097150, 3),
        (2097151, 3),
        (2097152, 4),
        (268435454, 4),
        (268435455, 4),
        (268435456, 5),
    ];
    for (l, size) in cases {
        let mut buf: Vec<u8> = Vec::new();
        let n = encode_backlen(&mut buf, l);
        assert_eq!(n, size, "encoded byte count of {}", l);
        assert_eq!(buf.len(), size);
        assert_eq!(backlen_size(l) as usize, size);
        let back = decode_backlen(&buf, buf.len() - 1);
        assert_eq!(back, l, "backward decode of {}", l);
    }
}

#[test]
fn backlen_decode_mid_buffer() {
    // the field is read relative to its last byte, whatever precedes it
    let mut buf: Vec<u8> = vec![0xAA, 0xBB, 0xCC, 0xDD];
    let n = encode_backlen(&mut buf, 300);
    assert_eq!(n, 2);
    assert_eq!(decode_backlen(&buf, buf.len() - 1), 300);
}

#[test]
fn backlen_overlong_is_saturated() {
    // five continuation bytes in a row exceed the cap: the decoder stops
    // and reports the saturated sentinel
    let buf: Vec<u8> = vec![0x81, 0x82, 0x83, 0x84, 0x85];
    assert_eq!(decode_backlen(&buf, 4), u64::MAX);
    // a field that would begin before the buffer is corrupt too
    let buf: Vec<u8> = vec![0x85];
    assert_eq!(decode_backlen(&buf, 0), u64::MAX);
}

#[test]
fn decode_value_round_trips() {
    for v in [0i64, 127, -1, 4095, -4096, 32767, -32768, 8388607, -8388608, i64::MAX, i64::MIN] {
        let entry = Value::Int(v).encode();
        let (got, n) = decode_value(&entry, 0).expect("well-formed");
        assert_eq!(got, Value::Int(v));
        assert_eq!(n as u32, Value::Int(v).encoded_size());
    }
    let s = Value::String(b"payload".to_vec());
    let entry = s.encode();
    let (got, n) = decode_value(&entry, 0).expect("well-formed");
    assert_eq!(got, s);
    assert_eq!(n, 8);
}

#[test]
fn decode_value_unrecognized_tag_sentinel() {
    // a tag byte outside every class decodes to the deterministic
    // corruption sentinel, never a failure
    for tag in 0xF5u8..=0xFF {
        let buf: Vec<u8> = vec![tag];
        let (got, n) = decode_value(&buf, 0).expect("sentinel");
        assert_eq!(got, Value::Int(12345678900000000 + tag as i64));
        assert_eq!(n, 1);
    }
    let buf: Vec<u8> = vec![0xF5];
    let (got, _) = decode_value(&buf, 0).unwrap();
    assert_eq!(got, Value::Int(12345678900000245));
}

#[test]
fn decode_value_truncated_payload() {
    // a declared payload that runs past the end of the buffer yields
    // nothing instead of reading out of bounds
    let buf: Vec<u8> = vec![0x85, b'a', b'b'];  // claims 5 payload bytes, has 2
    assert!(decode_value(&buf, 0).is_none());
    let buf: Vec<u8> = vec![0xF1, 0x01];  // 16-bit integer cut short
    assert!(decode_value(&buf, 0).is_none());
}

#[test]
fn encoded_sizes_include_backlen() {
    let v = Value::Int(20);
    assert_eq!(v.encoded_sizes(), (1, 1));
    assert_eq!(v.size_for_write(), 2);
    let s = Value::String(vec![0; 200]);
    assert_eq!(s.encoded_sizes(), (202, 2));
    assert_eq!(s.size_for_write(), 204);
}
