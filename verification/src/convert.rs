//! Typed views of element values: every integer width can be read out of a
//! stored value, and integers of any width can be handed in for storage.
//!
//! An integer value converts by truncation. A byte-string value converts
//! by reading its payload as a little-endian integer when the payload has
//! exactly the width of some integer type, and to zero otherwise, with the
//! same width dispatch for each target type that the stored widths allow.

use crate::encoding::{le2, le4, le8, Item, Value};
use crate::raw::{get, Element, RawListpack};
use vstd::arithmetic::div_mod::lemma_fundamental_div_mod_converse;
use vstd::prelude::*;
use vstd::string::StringSliceAdditionalSpecFns;

verus! {

/// The 16-bit little-endian value of the first two bytes.
pub open spec fn u16_le(b: Seq<u8>) -> u16 {
    (b[0] + 256 * b[1]) as u16
}

/// The 32-bit little-endian value of the first four bytes.
pub open spec fn u32_le(b: Seq<u8>) -> u32 {
    (b[0] + 256 * (b[1] as int) + 65536 * (b[2] as int) + 16777216 * (b[3] as int)) as u32
}

/// The 64-bit little-endian value of the first eight bytes.
pub open spec fn u64_le(b: Seq<u8>) -> u64 {
    (b[0] + 256 * (b[1] as int) + 65536 * (b[2] as int) + 16777216 * (b[3] as int) + 4294967296 * (
    b[4] as int) + 1099511627776 * (b[5] as int) + 281474976710656 * (b[6] as int)
        + 72057594037927936 * (b[7] as int)) as u64
}

/// The 128-bit little-endian value of the first sixteen bytes.
pub open spec fn u128_le(b: Seq<u8>) -> u128 {
    (u64_le(b) + 18446744073709551616 * (u64_le(b.skip(8)) as int)) as u128
}

/// What a stored value reads as `u8`.
pub open spec fn to_u8(it: Item) -> u8 {
    match it {
        Item::Int(i) => i as u8,
        Item::Str(b) => if b.len() == 0 {
            0u8
        } else {
            b[0]
        },
    }
}

/// What a stored value reads as `i8`.
pub open spec fn to_i8(it: Item) -> i8 {
    match it {
        Item::Int(i) => i as i8,
        Item::Str(b) => if b.len() == 0 {
            0i8
        } else {
            b[0] as i8
        },
    }
}

/// What a stored value reads as `u16`.
pub open spec fn to_u16(it: Item) -> u16 {
    match it {
        Item::Int(i) => i as u16,
        Item::Str(b) => if b.len() == 1 {
            b[0] as u16
        } else if b.len() == 2 {
            u16_le(b)
        } else {
            0u16
        },
    }
}

/// What a stored value reads as `i16`.
pub open spec fn to_i16(it: Item) -> i16 {
    match it {
        Item::Int(i) => i as i16,
        Item::Str(b) => if b.len() == 1 {
            b[0] as i8 as i16
        } else if b.len() == 2 {
            u16_le(b) as i16
        } else {
            0i16
        },
    }
}

/// What a stored value reads as `u32`.
pub open spec fn to_u32(it: Item) -> u32 {
    match it {
        Item::Int(i) => i as u32,
        Item::Str(b) => if b.len() == 1 {
            b[0] as u32
        } else if b.len() == 2 {
            u16_le(b) as u32
        } else if b.len() == 4 {
            u32_le(b)
        } else {
            0u32
        },
    }
}

/// What a stored value reads as `i32`.
pub open spec fn to_i32(it: Item) -> i32 {
    match it {
        Item::Int(i) => i as i32,
        Item::Str(b) => if b.len() == 1 {
            b[0] as i32
        } else if b.len() == 2 {
            u16_le(b) as i16 as i32
        } else if b.len() == 4 {
            u32_le(b) as i32
        } else {
            0i32
        },
    }
}

/// What a stored value reads as `u64`.
pub open spec fn to_u64(it: Item) -> u64 {
    match it {
        Item::Int(i) => i as u64,
        Item::Str(b) => if b.len() == 1 {
            b[0] as u64
        } else if b.len() == 2 {
            u16_le(b) as u64
        } else if b.len() == 4 {
            u32_le(b) as u64
        } else if b.len() == 8 {
            u64_le(b)
        } else {
            0u64
        },
    }
}

/// What a stored value reads as `i64`.
pub open spec fn to_i64(it: Item) -> i64 {
    match it {
        Item::Int(i) => i as i64,
        Item::Str(b) => if b.len() == 1 {
            b[0] as i8 as i64
        } else if b.len() == 2 {
            u16_le(b) as i16 as i64
        } else if b.len() == 4 {
            u32_le(b) as i32 as i64
        } else if b.len() == 8 {
            u64_le(b) as i64
        } else {
            0i64
        },
    }
}

/// What a stored value reads as `u128`.
pub open spec fn to_u128(it: Item) -> u128 {
    match it {
        Item::Int(i) => i as u128,
        Item::Str(b) => if b.len() == 1 {
            b[0] as u128
        } else if b.len() == 2 {
            u16_le(b) as u128
        } else if b.len() == 4 {
            u32_le(b) as u128
        } else if b.len() == 8 {
            u64_le(b) as u128
        } else if b.len() == 16 {
            u128_le(b)
        } else {
            0u128
        },
    }
}

/// What a stored value reads as `i128`.
pub open spec fn to_i128(it: Item) -> i128 {
    match it {
        Item::Int(i) => i as i128,
        Item::Str(b) => if b.len() == 1 {
            b[0] as i8 as i128
        } else if b.len() == 2 {
            u16_le(b) as i16 as i128
        } else if b.len() == 4 {
            u32_le(b) as i32 as i128
        } else if b.len() == 8 {
            u64_le(b) as i64 as i128
        } else if b.len() == 16 {
            u128_le(b) as i128
        } else {
            0i128
        },
    }
}

/// What a stored value reads as `usize`.
pub open spec fn to_usize(it: Item) -> usize {
    to_u64(it) as usize
}

/// What a stored value reads as `isize`.
pub open spec fn to_isize(it: Item) -> isize {
    to_i64(it) as isize
}

/// The raw bytes of a stored value: the payload of a byte string, or the
/// eight little-endian two's-complement bytes of an integer.
pub open spec fn to_bytes(it: Item) -> Seq<u8> {
    match it {
        Item::Int(i) => le8((i as u64) as nat),
        Item::Str(b) => b,
    }
}

/// Zigzag-unfold a 64-bit integer: even values map to their half, odd
/// ones to the complement of their half, recovering the sign that
/// [`spec_zigzag_fold`] interleaved.
pub open spec fn spec_zigzag(n: i64) -> int {
    if n % 2 == 0 {
        n / 2
    } else {
        -(n / 2) - 1
    }
}

/// Zigzag-fold a signed integer into a non-negative one, interleaving the
/// sign into the low bit: `2n` for `n >= 0`, `-2n - 1` for `n < 0`, so
/// small magnitudes of either sign take short encodings.
pub open spec fn spec_zigzag_fold(n: i64) -> int {
    if n >= 0 {
        2 * n
    } else {
        -2 * n - 1
    }
}

/// Unfolding a folded value recovers it exactly: the two transforms are a
/// round trip wherever the folded value fits the stored 64-bit integer.
pub proof fn lemma_zigzag_round_trip(n: i64)
    requires
        -4611686018427387904 <= n <= 4611686018427387903,
    ensures
        0 <= spec_zigzag_fold(n) <= i64::MAX,
        spec_zigzag(spec_zigzag_fold(n) as i64) == n,
{
    let m = spec_zigzag_fold(n) as i64;
    if n >= 0 {
        lemma_fundamental_div_mod_converse(m as int, 2, n as int, 0);
    } else {
        lemma_fundamental_div_mod_converse(m as int, 2, -(n as int) - 1, 1);
    }
}

/// Fold a signed integer into its non-negative zigzag form; applied when
/// a signed integer is stored, and undone by [`zigzag`] on read.
pub fn zigzag_fold(n: i64) -> (r: i64)
    requires
        -4611686018427387904 <= n <= 4611686018427387903,
    ensures
        r == spec_zigzag_fold(n),
{
    proof {
        lemma_zigzag_round_trip(n);
    }
    if n >= 0 {
        2 * n
    } else {
        // -2n - 1, grouped so the intermediate value stays in range
        -2 * (n + 1) + 1
    }
}

/// Unfold a zigzag-folded integer, recovering the signed value that
/// [`zigzag_fold`] stored; applied when a signed integer is read back.
pub fn zigzag(n: i64) -> (r: i64)
    ensures
        r == spec_zigzag(n),
{
    let a = n >> 1;
    let m = n & 1;
    proof {
        assert(0i64 <= (n & 1i64) <= 1i64) by (bit_vector);
    }
    let nm = -m;
    let r = a ^ nm;
    proof {
        assert((a ^ nm) == if n % 2 == 0 {
            n / 2
        } else {
            -(n / 2) - 1
        }) by (bit_vector)
            requires
                a == n >> 1i64,
                m == n & 1i64,
                m + nm == 0,
                -1 <= nm <= 0,
        ;
    }
    r
}

/// Read the element at `ele` as `u8`.
pub fn get_u8(lp: &RawListpack, ele: Element) -> (r: u8)
    requires
        lp.wf(),
        lp.valid_element(ele),
    ensures
        r == to_u8(lp@[ele.idx()]),
{
    match get(lp, ele) {
        Value::Int(i) => #[verifier::truncate] (i as u8),
        Value::String(b) => if b.len() == 0 {
            0
        } else {
            b[0]
        },
    }
}

/// Read the element at `ele` as `i8`.
pub fn get_i8(lp: &RawListpack, ele: Element) -> (r: i8)
    requires
        lp.wf(),
        lp.valid_element(ele),
    ensures
        r == to_i8(lp@[ele.idx()]),
{
    match get(lp, ele) {
        Value::Int(i) => #[verifier::truncate] (i as i8),
        Value::String(b) => if b.len() == 0 {
            0
        } else {
            #[verifier::truncate] (b[0] as i8)
        },
    }
}

/// Read the element at `ele` as `u16`.
pub fn get_u16(lp: &RawListpack, ele: Element) -> (r: u16)
    requires
        lp.wf(),
        lp.valid_element(ele),
    ensures
        r == to_u16(lp@[ele.idx()]),
{
    match get(lp, ele) {
        Value::Int(i) => #[verifier::truncate] (i as u16),
        Value::String(b) => if b.len() == 1 {
            b[0] as u16
        } else if b.len() == 2 {
            (b[0] as u16) + 256 * (b[1] as u16)
        } else {
            0
        },
    }
}

/// Read the element at `ele` as `i16`.
pub fn get_i16(lp: &RawListpack, ele: Element) -> (r: i16)
    requires
        lp.wf(),
        lp.valid_element(ele),
    ensures
        r == to_i16(lp@[ele.idx()]),
{
    match get(lp, ele) {
        Value::Int(i) => #[verifier::truncate] (i as i16),
        Value::String(b) => if b.len() == 1 {
            #[verifier::truncate] (b[0] as i8) as i16
        } else if b.len() == 2 {
            #[verifier::truncate] (((b[0] as u16) + 256 * (b[1] as u16)) as i16)
        } else {
            0
        },
    }
}

/// Read the element at `ele` as `u32`.
pub fn get_u32(lp: &RawListpack, ele: Element) -> (r: u32)
    requires
        lp.wf(),
        lp.valid_element(ele),
    ensures
        r == to_u32(lp@[ele.idx()]),
{
    match get(lp, ele) {
        Value::Int(i) => #[verifier::truncate] (i as u32),
        Value::String(b) => if b.len() == 1 {
            b[0] as u32
        } else if b.len() == 2 {
            (b[0] as u32) + 256 * (b[1] as u32)
        } else if b.len() == 4 {
            (b[0] as u32) + 256 * (b[1] as u32) + 65536 * (b[2] as u32) + 16777216 * (b[3] as u32)
        } else {
            0
        },
    }
}

/// Read the element at `ele` as `i32`.
pub fn get_i32(lp: &RawListpack, ele: Element) -> (r: i32)
    requires
        lp.wf(),
        lp.valid_element(ele),
    ensures
        r == to_i32(lp@[ele.idx()]),
{
    match get(lp, ele) {
        Value::Int(i) => #[verifier::truncate] (i as i32),
        Value::String(b) => if b.len() == 1 {
            b[0] as i32
        } else if b.len() == 2 {
            #[verifier::truncate] (((b[0] as u16) + 256 * (b[1] as u16)) as i16) as i32
        } else if b.len() == 4 {
            #[verifier::truncate] (((b[0] as u32) + 256 * (b[1] as u32) + 65536 * (b[2] as u32)
                + 16777216 * (b[3] as u32)) as i32)
        } else {
            0
        },
    }
}

/// The 64-bit little-endian value of the first eight bytes of `b`.
fn u64_le_exec(b: &Vec<u8>) -> (r: u64)
    requires
        b@.len() >= 8,
    ensures
        r == u64_le(b@),
{
    (b[0] as u64) + 256 * (b[1] as u64) + 65536 * (b[2] as u64) + 16777216 * (b[3] as u64)
        + 4294967296 * (b[4] as u64) + 1099511627776 * (b[5] as u64) + 281474976710656 * (
    b[6] as u64) + 72057594037927936 * (b[7] as u64)
}

/// Read the element at `ele` as `u64`.
pub fn get_u64(lp: &RawListpack, ele: Element) -> (r: u64)
    requires
        lp.wf(),
        lp.valid_element(ele),
    ensures
        r == to_u64(lp@[ele.idx()]),
{
    match get(lp, ele) {
        Value::Int(i) => #[verifier::truncate] (i as u64),
        Value::String(b) => if b.len() == 1 {
            b[0] as u64
        } else if b.len() == 2 {
            (b[0] as u64) + 256 * (b[1] as u64)
        } else if b.len() == 4 {
            (b[0] as u64) + 256 * (b[1] as u64) + 65536 * (b[2] as u64) + 16777216 * (b[3] as u64)
        } else if b.len() == 8 {
            u64_le_exec(&b)
        } else {
            0
        },
    }
}

/// Read the element at `ele` as `i64`.
pub fn get_i64(lp: &RawListpack, ele: Element) -> (r: i64)
    requires
        lp.wf(),
        lp.valid_element(ele),
    ensures
        r == to_i64(lp@[ele.idx()]),
{
    match get(lp, ele) {
        Value::Int(i) => i,
        Value::String(b) => if b.len() == 1 {
            #[verifier::truncate] (b[0] as i8) as i64
        } else if b.len() == 2 {
            #[verifier::truncate] (((b[0] as u16) + 256 * (b[1] as u16)) as i16) as i64
        } else if b.len() == 4 {
            #[verifier::truncate] (((b[0] as u32) + 256 * (b[1] as u32) + 65536 * (b[2] as u32)
                + 16777216 * (b[3] as u32)) as i32) as i64
        } else if b.len() == 8 {
            #[verifier::truncate] (u64_le_exec(&b) as i64)
        } else {
            0
        },
    }
}

/// Read the element at `ele` as `u128`.
pub fn get_u128(lp: &RawListpack, ele: Element) -> (r: u128)
    requires
        lp.wf(),
        lp.valid_element(ele),
    ensures
        r == to_u128(lp@[ele.idx()]),
{
    match get(lp, ele) {
        Value::Int(i) => #[verifier::truncate] (i as u128),
        Value::String(b) => if b.len() == 1 {
            b[0] as u128
        } else if b.len() == 2 {
            ((b[0] as u64) + 256 * (b[1] as u64)) as u128
        } else if b.len() == 4 {
            ((b[0] as u64) + 256 * (b[1] as u64) + 65536 * (b[2] as u64) + 16777216 * (
            b[3] as u64)) as u128
        } else if b.len() == 8 {
            u64_le_exec(&b) as u128
        } else if b.len() == 16 {
            let lo = u64_le_exec(&b);
            let hi = (b[8] as u64) + 256 * (b[9] as u64) + 65536 * (b[10] as u64) + 16777216 * (
            b[11] as u64) + 4294967296 * (b[12] as u64) + 1099511627776 * (b[13] as u64)
                + 281474976710656 * (b[14] as u64) + 72057594037927936 * (b[15] as u64);
            proof {
                assert(b@.skip(8).len() >= 8);
                assert forall|k: int| 0 <= k < 8 implies b@.skip(8)[k] == b@[8 + k] by {}
            }
            (lo as u128) + 18446744073709551616 * (hi as u128)
        } else {
            0
        },
    }
}

/// Read the element at `ele` as `i128`.
pub fn get_i128(lp: &RawListpack, ele: Element) -> (r: i128)
    requires
        lp.wf(),
        lp.valid_element(ele),
    ensures
        r == to_i128(lp@[ele.idx()]),
{
    match get(lp, ele) {
        Value::Int(i) => i as i128,
        Value::String(b) => if b.len() == 1 {
            #[verifier::truncate] (b[0] as i8) as i128
        } else if b.len() == 2 {
            #[verifier::truncate] (((b[0] as u16) + 256 * (b[1] as u16)) as i16) as i128
        } else if b.len() == 4 {
            #[verifier::truncate] (((b[0] as u32) + 256 * (b[1] as u32) + 65536 * (b[2] as u32)
                + 16777216 * (b[3] as u32)) as i32) as i128
        } else if b.len() == 8 {
            #[verifier::truncate] (u64_le_exec(&b) as i64) as i128
        } else if b.len() == 16 {
            let lo = u64_le_exec(&b);
            let hi = (b[8] as u64) + 256 * (b[9] as u64) + 65536 * (b[10] as u64) + 16777216 * (
            b[11] as u64) + 4294967296 * (b[12] as u64) + 1099511627776 * (b[13] as u64)
                + 281474976710656 * (b[14] as u64) + 72057594037927936 * (b[15] as u64);
            proof {
                assert(b@.skip(8).len() >= 8);
                assert forall|k: int| 0 <= k < 8 implies b@.skip(8)[k] == b@[8 + k] by {}
            }
            #[verifier::truncate] (((lo as u128) + 18446744073709551616 * (hi as u128)) as i128)
        } else {
            0
        },
    }
}

/// Read the element at `ele` as `usize`.
pub fn get_usize(lp: &RawListpack, ele: Element) -> (r: usize)
    requires
        lp.wf(),
        lp.valid_element(ele),
    ensures
        r == to_usize(lp@[ele.idx()]),
{
    #[verifier::truncate] (get_u64(lp, ele) as usize)
}

/// Read the element at `ele` as `isize`.
pub fn get_isize(lp: &RawListpack, ele: Element) -> (r: isize)
    requires
        lp.wf(),
        lp.valid_element(ele),
    ensures
        r == to_isize(lp@[ele.idx()]),
{
    #[verifier::truncate] (get_i64(lp, ele) as isize)
}

/// Read the element at `ele` as a 64-bit integer.
pub fn get_int(lp: &RawListpack, ele: Element) -> (r: i64)
    requires
        lp.wf(),
        lp.valid_element(ele),
    ensures
        r == to_i64(lp@[ele.idx()]),
{
    get_i64(lp, ele)
}

/// Read the element at `ele` unfolded by the zigzag transform, recovering
/// the signed value that a signed append or insert stored.
pub fn get_signed_int(lp: &RawListpack, ele: Element) -> (r: i64)
    requires
        lp.wf(),
        lp.valid_element(ele),
    ensures
        r == spec_zigzag(to_i64(lp@[ele.idx()])),
{
    zigzag(get_i64(lp, ele))
}

/// Append the eight little-endian bytes of `u` to `out`.
fn push_le8(out: &mut Vec<u8>, u: u64)
    requires
        old(out)@.len() + 8 <= usize::MAX,
    ensures
        final(out)@ == old(out)@ + le8(u as nat),
{
    let ghost pre = out@;
    out.push((u % 256) as u8);
    out.push(((u / 256) % 256) as u8);
    out.push(((u / 65536) % 256) as u8);
    out.push(((u / 16777216) % 256) as u8);
    out.push(((u / 4294967296) % 256) as u8);
    out.push(((u / 1099511627776) % 256) as u8);
    out.push(((u / 281474976710656) % 256) as u8);
    out.push((u / 72057594037927936) as u8);
    proof {
        crate::encoding::lemma_chunks256(u as nat);
        assert(out@ =~= pre + le8(u as nat));
    }
}

/// Read the element at `ele` as raw bytes: a byte string's payload, or the
/// eight little-endian two's-complement bytes of an integer.
pub fn get_bytes(lp: &RawListpack, ele: Element) -> (r: Vec<u8>)
    requires
        lp.wf(),
        lp.valid_element(ele),
    ensures
        r@ == to_bytes(lp@[ele.idx()]),
{
    match get(lp, ele) {
        Value::Int(i) => {
            let u = #[verifier::truncate] (i as u64);
            let mut out: Vec<u8> = Vec::new();
            push_le8(&mut out, u);
            proof {
                assert(out@ =~= le8((i as u64) as nat));
            }
            out
        },
        Value::String(b) => b,
    }
}

/// Relies on String::from_utf8: it succeeds exactly when the bytes are
/// valid UTF-8, and then the returned string's UTF-8 encoding is those
/// bytes.
#[verifier::external_body]
fn string_from_utf8(b: Vec<u8>) -> (r: Option<String>)
    ensures
        r is Some <==> vstd::utf8::valid_utf8(b@),
        r matches Some(s) ==> vstd::utf8::encode_utf8(s@) == b@,
{
    match String::from_utf8(b) {
        Ok(s) => Some(s),
        Err(_) => None,
    }
}

/// Read the element at `ele` as text: the string whose UTF-8 encoding is
/// the element's raw bytes, or the empty string when those bytes are not
/// valid UTF-8.
pub fn get_str(lp: &RawListpack, ele: Element) -> (r: String)
    requires
        lp.wf(),
        lp.valid_element(ele),
    ensures
        vstd::utf8::valid_utf8(to_bytes(lp@[ele.idx()])) ==> vstd::utf8::encode_utf8(r@)
            == to_bytes(lp@[ele.idx()]),
        !vstd::utf8::valid_utf8(to_bytes(lp@[ele.idx()])) ==> r@ == Seq::<char>::empty(),
{
    let b = get_bytes(lp, ele);
    match string_from_utf8(b) {
        Some(s) => s,
        None => String::new(),
    }
}

/// An integer-like type that can be handed to the integer insert and
/// append operations.
pub trait Int: Sized {
    /// The 64-bit integer this value is stored as.
    spec fn spec_to_int64(&self) -> i64;

    /// Convert to the 64-bit integer this value is stored as.
    fn to_int64(self) -> (r: i64)
        ensures
            r == self.spec_to_int64(),
    ;
}

impl Int for bool {
    open spec fn spec_to_int64(&self) -> i64 {
        if *self {
            1i64
        } else {
            0i64
        }
    }

    fn to_int64(self) -> i64 {
        if self {
            1
        } else {
            0
        }
    }
}

impl Int for i8 {
    open spec fn spec_to_int64(&self) -> i64 {
        *self as i64
    }

    fn to_int64(self) -> i64 {
        self as i64
    }
}

impl Int for u8 {
    open spec fn spec_to_int64(&self) -> i64 {
        *self as i64
    }

    fn to_int64(self) -> i64 {
        self as i64
    }
}

impl Int for i16 {
    open spec fn spec_to_int64(&self) -> i64 {
        *self as i64
    }

    fn to_int64(self) -> i64 {
        self as i64
    }
}

impl Int for u16 {
    open spec fn spec_to_int64(&self) -> i64 {
        *self as i64
    }

    fn to_int64(self) -> i64 {
        self as i64
    }
}

impl Int for i32 {
    open spec fn spec_to_int64(&self) -> i64 {
        *self as i64
    }

    fn to_int64(self) -> i64 {
        self as i64
    }
}

impl Int for u32 {
    open spec fn spec_to_int64(&self) -> i64 {
        *self as i64
    }

    fn to_int64(self) -> i64 {
        self as i64
    }
}

impl Int for i64 {
    open spec fn spec_to_int64(&self) -> i64 {
        *self
    }

    fn to_int64(self) -> i64 {
        self
    }
}

impl Int for u64 {
    open spec fn spec_to_int64(&self) -> i64 {
        *self as i64
    }

    fn to_int64(self) -> i64 {
        #[verifier::truncate] (self as i64)
    }
}

impl Int for usize {
    open spec fn spec_to_int64(&self) -> i64 {
        *self as i64
    }

    fn to_int64(self) -> i64 {
        #[verifier::truncate] (self as i64)
    }
}

impl Int for isize {
    open spec fn spec_to_int64(&self) -> i64 {
        *self as i64
    }

    fn to_int64(self) -> i64 {
        self as i64
    }
}

/// A type whose value can be handed to the string insert and append
/// operations as a little-endian byte payload.
pub trait Str: Sized {
    /// The payload bytes this value is stored as.
    spec fn spec_payload(&self) -> Seq<u8>;

    /// Build the byte-string value this value is stored as.
    fn as_value(&self) -> (v: Value)
        ensures
            v@ == Item::Str(self.spec_payload()),
    ;
}

impl Str for u8 {
    open spec fn spec_payload(&self) -> Seq<u8> {
        seq![*self]
    }

    fn as_value(&self) -> (v: Value)
        ensures
            v@ == Item::Str(self.spec_payload()),
    {
        let mut out: Vec<u8> = Vec::new();
        out.push(*self);
        proof {
            assert(out@ =~= self.spec_payload());
        }
        Value::String(out)
    }
}

impl Str for i8 {
    open spec fn spec_payload(&self) -> Seq<u8> {
        seq![*self as u8]
    }

    fn as_value(&self) -> (v: Value)
        ensures
            v@ == Item::Str(self.spec_payload()),
    {
        let mut out: Vec<u8> = Vec::new();
        out.push(#[verifier::truncate] (*self as u8));
        proof {
            assert(out@ =~= self.spec_payload());
        }
        Value::String(out)
    }
}

impl Str for u16 {
    open spec fn spec_payload(&self) -> Seq<u8> {
        le2(*self as nat)
    }

    fn as_value(&self) -> (v: Value)
        ensures
            v@ == Item::Str(self.spec_payload()),
    {
        let mut out: Vec<u8> = Vec::new();
        out.push((*self % 256) as u8);
        out.push((*self / 256) as u8);
        proof {
            crate::encoding::lemma_chunks256(*self as nat);
            assert(out@ =~= self.spec_payload());
        }
        Value::String(out)
    }
}

impl Str for i16 {
    open spec fn spec_payload(&self) -> Seq<u8> {
        le2((*self as u16) as nat)
    }

    fn as_value(&self) -> (v: Value)
        ensures
            v@ == Item::Str(self.spec_payload()),
    {
        let u = #[verifier::truncate] (*self as u16);
        let mut out: Vec<u8> = Vec::new();
        out.push((u % 256) as u8);
        out.push((u / 256) as u8);
        proof {
            crate::encoding::lemma_chunks256(u as nat);
            assert(out@ =~= self.spec_payload());
        }
        Value::String(out)
    }
}

impl Str for u32 {
    open spec fn spec_payload(&self) -> Seq<u8> {
        le4(*self as nat)
    }

    fn as_value(&self) -> (v: Value)
        ensures
            v@ == Item::Str(self.spec_payload()),
    {
        let mut out: Vec<u8> = Vec::new();
        out.push((*self % 256) as u8);
        out.push(((*self / 256) % 256) as u8);
        out.push(((*self / 65536) % 256) as u8);
        out.push((*self / 16777216) as u8);
        proof {
            crate::encoding::lemma_chunks256(*self as nat);
            assert(out@ =~= self.spec_payload());
        }
        Value::String(out)
    }
}

impl Str for i32 {
    open spec fn spec_payload(&self) -> Seq<u8> {
        le4((*self as u32) as nat)
    }

    fn as_value(&self) -> (v: Value)
        ensures
            v@ == Item::Str(self.spec_payload()),
    {
        let u = #[verifier::truncate] (*self as u32);
        let mut out: Vec<u8> = Vec::new();
        out.push((u % 256) as u8);
        out.push(((u / 256) % 256) as u8);
        out.push(((u / 65536) % 256) as u8);
        out.push((u / 16777216) as u8);
        proof {
            crate::encoding::lemma_chunks256(u as nat);
            assert(out@ =~= self.spec_payload());
        }
        Value::String(out)
    }
}

impl Str for u64 {
    open spec fn spec_payload(&self) -> Seq<u8> {
        le8(*self as nat)
    }

    fn as_value(&self) -> (v: Value)
        ensures
            v@ == Item::Str(self.spec_payload()),
    {
        let mut out: Vec<u8> = Vec::new();
        push_le8(&mut out, *self);
        proof {
            assert(out@ =~= self.spec_payload());
        }
        Value::String(out)
    }
}

impl Str for i64 {
    open spec fn spec_payload(&self) -> Seq<u8> {
        le8((*self as u64) as nat)
    }

    fn as_value(&self) -> (v: Value)
        ensures
            v@ == Item::Str(self.spec_payload()),
    {
        let u = #[verifier::truncate] (*self as u64);
        let mut out: Vec<u8> = Vec::new();
        push_le8(&mut out, u);
        proof {
            assert(out@ =~= self.spec_payload());
        }
        Value::String(out)
    }
}

impl Str for usize {
    open spec fn spec_payload(&self) -> Seq<u8> {
        le8(*self as nat)
    }

    fn as_value(&self) -> (v: Value)
        ensures
            v@ == Item::Str(self.spec_payload()),
    {
        let mut out: Vec<u8> = Vec::new();
        push_le8(&mut out, *self as u64);
        proof {
            assert(out@ =~= self.spec_payload());
        }
        Value::String(out)
    }
}

impl Str for isize {
    open spec fn spec_payload(&self) -> Seq<u8> {
        le8((*self as i64 as u64) as nat)
    }

    fn as_value(&self) -> (v: Value)
        ensures
            v@ == Item::Str(self.spec_payload()),
    {
        let u = #[verifier::truncate] ((*self as i64) as u64);
        let mut out: Vec<u8> = Vec::new();
        push_le8(&mut out, u);
        proof {
            assert(out@ =~= self.spec_payload());
        }
        Value::String(out)
    }
}

impl Str for u128 {
    open spec fn spec_payload(&self) -> Seq<u8> {
        le8((*self as u64) as nat) + le8(((*self / 18446744073709551616) as u64) as nat)
    }

    fn as_value(&self) -> (v: Value)
        ensures
            v@ == Item::Str(self.spec_payload()),
    {
        let lo = #[verifier::truncate] (*self as u64);
        let hi = (*self / 18446744073709551616) as u64;
        let mut out: Vec<u8> = Vec::new();
        push_le8(&mut out, lo);
        push_le8(&mut out, hi);
        proof {
            assert(out@ =~= self.spec_payload());
        }
        Value::String(out)
    }
}

impl Str for i128 {
    open spec fn spec_payload(&self) -> Seq<u8> {
        le8((*self as u128 as u64) as nat) + le8(
            (((*self as u128) / 18446744073709551616) as u64) as nat,
        )
    }

    fn as_value(&self) -> (v: Value)
        ensures
            v@ == Item::Str(self.spec_payload()),
    {
        let w = #[verifier::truncate] (*self as u128);
        let lo = #[verifier::truncate] (w as u64);
        let hi = (w / 18446744073709551616) as u64;
        let mut out: Vec<u8> = Vec::new();
        push_le8(&mut out, lo);
        push_le8(&mut out, hi);
        proof {
            assert(out@ =~= self.spec_payload());
        }
        Value::String(out)
    }
}

impl<'a> Str for &'a [u8] {
    open spec fn spec_payload(&self) -> Seq<u8> {
        (*self)@
    }

    fn as_value(&self) -> (v: Value)
        ensures
            v@ == Item::Str(self.spec_payload()),
    {
        let sl: &[u8] = *self;
        let mut out: Vec<u8> = Vec::new();
        let mut i: usize = 0;
        while i < sl.len()
            invariant
                i <= sl@.len(),
                out@ == sl@.take(i as int),
            decreases sl@.len() - i,
        {
            out.push(sl[i]);
            proof {
                assert(out@ =~= sl@.take(i + 1));
            }
            i += 1;
        }
        proof {
            assert(sl@.take(sl@.len() as int) =~= sl@);
        }
        Value::String(out)
    }
}

impl<'a> Str for &'a str {
    open spec fn spec_payload(&self) -> Seq<u8> {
        self.spec_bytes()
    }

    fn as_value(&self) -> (v: Value)
        ensures
            v@ == Item::Str(self.spec_payload()),
    {
        let sl: &[u8] = self.as_bytes();
        let mut out: Vec<u8> = Vec::new();
        let mut i: usize = 0;
        while i < sl.len()
            invariant
                i <= sl@.len(),
                sl@ == self.spec_bytes(),
                out@ == sl@.take(i as int),
            decreases sl@.len() - i,
        {
            out.push(sl[i]);
            proof {
                assert(out@ =~= sl@.take(i + 1));
            }
            i += 1;
        }
        proof {
            assert(sl@.take(sl@.len() as int) =~= sl@);
        }
        Value::String(out)
    }
}

impl Str for Vec<u8> {
    open spec fn spec_payload(&self) -> Seq<u8> {
        self@
    }

    fn as_value(&self) -> (v: Value)
        ensures
            v@ == Item::Str(self.spec_payload()),
    {
        let mut out: Vec<u8> = Vec::new();
        let mut i: usize = 0;
        while i < self.len()
            invariant
                i <= self@.len(),
                out@ == self@.take(i as int),
            decreases self@.len() - i,
        {
            out.push(self[i]);
            proof {
                assert(out@ =~= self@.take(i + 1));
            }
            i += 1;
        }
        proof {
            assert(self@.take(self@.len() as int) =~= self@);
        }
        Value::String(out)
    }
}

} // verus!
