//! Values and their tagged byte encodings.
//!
//! An integer is stored in the smallest tag class that represents it
//! exactly; negative values of the 13/16/24/32-bit classes are biased by
//! `1 << bits` into an unsigned magnitude. A byte string is stored behind
//! the smallest length prefix that fits its length. Multi-byte fields are
//! little-endian except the 13-bit integer and 12-bit string classes, whose
//! high bits share the tag byte.

use crate::backlen::{backlen_bytes, backlen_size, encode_backlen, MAX_ENTRY_BACKLEN};
use vstd::arithmetic::div_mod::{lemma_div_denominator, lemma_fundamental_div_mod};
use vstd::prelude::*;

verus! {

/// The byte that terminates every listpack; never a valid tag.
pub const EOF: u8 = 0xFF;

/// An element value: a signed 64-bit integer or an opaque byte string.
#[derive(Clone, Debug, PartialEq, Eq)]
pub enum Value {
    Int(i64),
    String(Vec<u8>),
}

/// The mathematical model of an element value.
pub enum Item {
    Int(int),
    Str(Seq<u8>),
}

impl View for Value {
    type V = Item;

    open spec fn view(&self) -> Item {
        match self {
            Value::Int(i) => Item::Int(*i as int),
            Value::String(b) => Item::Str(b@),
        }
    }
}

/// An integer is representable exactly; a byte string must leave room for
/// its length prefix and backlen within the 32-bit total-size budget.
pub open spec fn item_wf(it: Item) -> bool {
    match it {
        Item::Int(i) => i64::MIN <= i <= i64::MAX,
        Item::Str(b) => b.len() + 10 <= 0xFFFF_FFFF,
    }
}

impl Value {
    /// Whether this value can be encoded at all.
    pub open spec fn wf(&self) -> bool {
        item_wf(self@)
    }
}

/// The two little-endian bytes of `u % 65536`.
pub open spec fn le2(u: nat) -> Seq<u8> {
    seq![(u % 256) as u8, ((u / 256) % 256) as u8]
}

/// The three little-endian bytes of `u % 16777216`.
pub open spec fn le3(u: nat) -> Seq<u8> {
    seq![(u % 256) as u8, ((u / 256) % 256) as u8, ((u / 65536) % 256) as u8]
}

/// The four little-endian bytes of `u % 4294967296`.
pub open spec fn le4(u: nat) -> Seq<u8> {
    seq![
        (u % 256) as u8,
        ((u / 256) % 256) as u8,
        ((u / 65536) % 256) as u8,
        ((u / 16777216) % 256) as u8,
    ]
}

/// The eight little-endian bytes of `u % 2^64`.
pub open spec fn le8(u: nat) -> Seq<u8> {
    seq![
        (u % 256) as u8,
        ((u / 256) % 256) as u8,
        ((u / 65536) % 256) as u8,
        ((u / 16777216) % 256) as u8,
        ((u / 4294967296) % 256) as u8,
        ((u / 1099511627776) % 256) as u8,
        ((u / 281474976710656) % 256) as u8,
        ((u / 72057594037927936) % 256) as u8,
    ]
}

/// Base-256 decomposition: every quotient recombines with the digit below
/// it, so a value is recovered from its little-endian digits.
pub proof fn lemma_chunks256(u: nat)
    ensures
        u == (u / 256) * 256 + u % 256,
        u / 256 == (u / 65536) * 256 + (u / 256) % 256,
        u / 65536 == (u / 16777216) * 256 + (u / 65536) % 256,
        u / 16777216 == (u / 4294967296) * 256 + (u / 16777216) % 256,
        u / 4294967296 == (u / 1099511627776) * 256 + (u / 4294967296) % 256,
        u / 1099511627776 == (u / 281474976710656) * 256 + (u / 1099511627776) % 256,
        u / 281474976710656 == (u / 72057594037927936) * 256 + (u / 281474976710656) % 256,
        u % 256 < 256,
        (u / 256) % 256 < 256,
        (u / 65536) % 256 < 256,
        (u / 16777216) % 256 < 256,
        (u / 4294967296) % 256 < 256,
        (u / 1099511627776) % 256 < 256,
        (u / 281474976710656) % 256 < 256,
{
    lemma_fundamental_div_mod(u as int, 256);
    lemma_fundamental_div_mod(u as int / 256, 256);
    lemma_fundamental_div_mod(u as int / 65536, 256);
    lemma_fundamental_div_mod(u as int / 16777216, 256);
    lemma_fundamental_div_mod(u as int / 4294967296, 256);
    lemma_fundamental_div_mod(u as int / 1099511627776, 256);
    lemma_fundamental_div_mod(u as int / 281474976710656, 256);
    lemma_div_denominator(u as int, 256, 256);
    lemma_div_denominator(u as int, 65536, 256);
    lemma_div_denominator(u as int, 16777216, 256);
    lemma_div_denominator(u as int, 4294967296, 256);
    lemma_div_denominator(u as int, 1099511627776, 256);
    lemma_div_denominator(u as int, 281474976710656, 256);
}

/// The unsigned magnitude an integer of a biased class is stored as.
pub open spec fn bias(v: int, m: nat) -> nat {
    if v < 0 {
        (v + m) as nat
    } else {
        v as nat
    }
}

/// The tagged encoding of an integer, by the smallest class that holds it.
pub open spec fn int_enc(v: int) -> Seq<u8> {
    if 0 <= v <= 127 {
        seq![v as u8]
    } else if -4096 <= v <= 4095 {
        seq![(192 + bias(v, 8192) / 256) as u8, (bias(v, 8192) % 256) as u8]
    } else if -32768 <= v <= 32767 {
        seq![0xF1u8] + le2(bias(v, 65536))
    } else if -8388608 <= v <= 8388607 {
        seq![0xF2u8] + le3(bias(v, 16777216))
    } else if -2147483648 <= v <= 2147483647 {
        seq![0xF3u8] + le4(bias(v, 4294967296))
    } else {
        seq![0xF4u8] + le8(bias(v, 18446744073709551616))
    }
}

/// The tagged encoding of a byte string, by the smallest length prefix.
pub open spec fn str_enc(b: Seq<u8>) -> Seq<u8> {
    if b.len() < 64 {
        seq![(128 + b.len()) as u8] + b
    } else if b.len() < 4096 {
        seq![(224 + b.len() / 256) as u8, (b.len() % 256) as u8] + b
    } else {
        seq![0xF0u8] + le4(b.len()) + b
    }
}

/// The tag+payload encoding of a value.
pub open spec fn val_enc(it: Item) -> Seq<u8> {
    match it {
        Item::Int(i) => int_enc(i),
        Item::Str(b) => str_enc(b),
    }
}

/// The bytes of `s` beginning at position `p` are exactly the tag+payload
/// encoding of the value `it`.
pub open spec fn starts_with_value(s: Seq<u8>, p: int, it: Item) -> bool {
    &&& item_wf(it)
    &&& 0 <= p
    &&& p + val_enc(it).len() <= s.len()
    &&& s.subrange(p, p + val_enc(it).len()) == val_enc(it)
}

/// Every byte of an encoded value can be read off the sequence at its
/// place.
pub proof fn lemma_value_bytes(s: Seq<u8>, p: int, it: Item)
    requires
        starts_with_value(s, p, it),
    ensures
        forall|j: int| 0 <= j < val_enc(it).len() ==> s[p + j] == val_enc(it)[j],
{
    assert forall|j: int| 0 <= j < val_enc(it).len() implies s[p + j] == val_enc(it)[j] by {
        assert(s.subrange(p, p + val_enc(it).len())[j] == s[p + j]);
    }
}

/// A full entry: tag+payload followed by its backlen field.
pub open spec fn entry_bytes(it: Item) -> Seq<u8> {
    val_enc(it) + backlen_bytes(val_enc(it).len())
}

/// Whole size in bytes of the entry encoding a value.
pub open spec fn entry_sz(it: Item) -> nat {
    entry_bytes(it).len()
}

/// The tag byte selects the 7-bit unsigned integer class.
#[inline(always)]
pub fn is_7bit_uint(b: u8) -> (r: bool)
    ensures
        r <==> b < 128,
{
    proof {
        assert((b & 0x80u8 == 0u8) <==> b < 128) by (bit_vector);
    }
    b & 0x80 == 0
}

/// The tag byte selects the 6-bit string class.
#[inline(always)]
pub fn is_6bit_str(b: u8) -> (r: bool)
    ensures
        r <==> 128 <= b < 192,
{
    proof {
        assert((b & 0xC0u8 == 0x80u8) <==> (128 <= b < 192)) by (bit_vector);
    }
    b & 0xC0 == 0x80
}

/// The tag byte selects the 13-bit integer class.
#[inline(always)]
pub fn is_13bit_int(b: u8) -> (r: bool)
    ensures
        r <==> 192 <= b < 224,
{
    proof {
        assert((b & 0xE0u8 == 0xC0u8) <==> (192 <= b < 224)) by (bit_vector);
    }
    b & 0xE0 == 0xC0
}

/// The tag byte selects the 12-bit string class.
#[inline(always)]
pub fn is_12bit_str(b: u8) -> (r: bool)
    ensures
        r <==> 224 <= b < 240,
{
    proof {
        assert((b & 0xF0u8 == 0xE0u8) <==> (224 <= b < 240)) by (bit_vector);
    }
    b & 0xF0 == 0xE0
}

/// The tag byte selects the 16-bit integer class.
#[inline(always)]
pub fn is_16bit_int(b: u8) -> (r: bool)
    ensures
        r <==> b == 0xF1,
{
    proof {
        assert((b & 0xFFu8 == 0xF1u8) <==> b == 0xF1) by (bit_vector);
    }
    b & 0xFF == 0xF1
}

/// The tag byte selects the 24-bit integer class.
#[inline(always)]
pub fn is_24bit_int(b: u8) -> (r: bool)
    ensures
        r <==> b == 0xF2,
{
    proof {
        assert((b & 0xFFu8 == 0xF2u8) <==> b == 0xF2) by (bit_vector);
    }
    b & 0xFF == 0xF2
}

/// The tag byte selects the 32-bit integer class.
#[inline(always)]
pub fn is_32bit_int(b: u8) -> (r: bool)
    ensures
        r <==> b == 0xF3,
{
    proof {
        assert((b & 0xFFu8 == 0xF3u8) <==> b == 0xF3) by (bit_vector);
    }
    b & 0xFF == 0xF3
}

/// The tag byte selects the 32-bit string class.
#[inline(always)]
pub fn is_32bit_str(b: u8) -> (r: bool)
    ensures
        r <==> b == 0xF0,
{
    proof {
        assert((b & 0xFFu8 == 0xF0u8) <==> b == 0xF0) by (bit_vector);
    }
    b & 0xFF == 0xF0
}

/// The tag byte selects the 64-bit integer class.
#[inline(always)]
pub fn is_64bit_int(b: u8) -> (r: bool)
    ensures
        r <==> b == 0xF4,
{
    proof {
        assert((b & 0xFFu8 == 0xF4u8) <==> b == 0xF4) by (bit_vector);
    }
    b & 0xFF == 0xF4
}

/// Size in bytes of the length prefix of a string of `size` bytes.
#[inline(always)]
pub fn string_front_len(size: u32) -> (n: u64)
    ensures
        forall|b: Seq<u8>| b.len() == size ==> #[trigger] str_enc(b).len() == n + size,
        n == if size < 64 {
            1nat
        } else if size < 4096 {
            2nat
        } else {
            5nat
        },
{
    if size < 64 {
        1
    } else if size < 4096 {
        2
    } else {
        5
    }
}

/// Append the tag+payload encoding of an integer to `intenc`, returning the
/// number of bytes written.
#[verifier::rlimit(60)]
pub fn encode_int(v: i64, intenc: &mut Vec<u8>) -> (n: u64)
    requires
        old(intenc)@.len() + 9 <= usize::MAX,
    ensures
        final(intenc)@ == old(intenc)@ + int_enc(v as int),
        n == int_enc(v as int).len(),
{
    let ghost pre = intenc@;
    let n: u64;
    if v >= 0 && v <= 127 {
        intenc.push(v as u8);
        n = 1;
    } else if v >= -4096 && v <= 4095 {
        let u: u64 = if v < 0 {
            (v + 8192) as u64
        } else {
            v as u64
        };
        intenc.push(192 + (u / 256) as u8);
        intenc.push((u % 256) as u8);
        n = 2;
    } else if v >= -32768 && v <= 32767 {
        let u: u64 = if v < 0 {
            (v + 65536) as u64
        } else {
            v as u64
        };
        intenc.push(0xF1);
        intenc.push((u % 256) as u8);
        intenc.push((u / 256) as u8);
        proof {
            lemma_chunks256(u as nat);
        }
        n = 3;
    } else if v >= -8388608 && v <= 8388607 {
        let u: u64 = if v < 0 {
            (v + 16777216) as u64
        } else {
            v as u64
        };
        intenc.push(0xF2);
        intenc.push((u % 256) as u8);
        intenc.push(((u / 256) % 256) as u8);
        intenc.push((u / 65536) as u8);
        proof {
            lemma_chunks256(u as nat);
        }
        n = 4;
    } else if v >= -2147483648 && v <= 2147483647 {
        let u: u64 = if v < 0 {
            (v + 4294967296) as u64
        } else {
            v as u64
        };
        intenc.push(0xF3);
        intenc.push((u % 256) as u8);
        intenc.push(((u / 256) % 256) as u8);
        intenc.push(((u / 65536) % 256) as u8);
        intenc.push((u / 16777216) as u8);
        proof {
            lemma_chunks256(u as nat);
        }
        n = 5;
    } else {
        let u: u64 = #[verifier::truncate] (v as u64);
        intenc.push(0xF4);
        intenc.push((u % 256) as u8);
        intenc.push(((u / 256) % 256) as u8);
        intenc.push(((u / 65536) % 256) as u8);
        intenc.push(((u / 16777216) % 256) as u8);
        intenc.push(((u / 4294967296) % 256) as u8);
        intenc.push(((u / 1099511627776) % 256) as u8);
        intenc.push(((u / 281474976710656) % 256) as u8);
        intenc.push((u / 72057594037927936) as u8);
        proof {
            assert(v < 0 ==> v as u64 == v + 0x10000000000000000) by (bit_vector);
            assert(v >= 0 ==> v as u64 == v) by (bit_vector);
            lemma_chunks256(u as nat);
            assert(u as nat == bias(v as int, 18446744073709551616));
        }
        n = 9;
    }
    proof {
        assert(intenc@ =~= pre + int_enc(v as int));
    }
    n
}

impl Value {
    /// Size in bytes of this value's tag+payload encoding.
    #[inline(always)]
    pub fn encoded_size(&self) -> (n: u32)
        requires
            self.wf(),
        ensures
            n == val_enc(self@).len(),
    {
        match self {
            Value::Int(v) => {
                let v = *v;
                if v >= 0 && v <= 127 {
                    1
                } else if v >= -4096 && v <= 4095 {
                    2
                } else if v >= -32768 && v <= 32767 {
                    3
                } else if v >= -8388608 && v <= 8388607 {
                    4
                } else if v >= -2147483648 && v <= 2147483647 {
                    5
                } else {
                    9
                }
            },
            Value::String(b) => {
                let size = b.len() as u32;
                if size < 64 {
                    1 + size
                } else if size < 4096 {
                    2 + size
                } else {
                    5 + size
                }
            },
        }
    }

    /// Sizes of the tag+payload encoding and of its backlen field.
    #[inline(always)]
    pub fn encoded_sizes(&self) -> (r: (u32, u32))
        requires
            self.wf(),
        ensures
            r.0 == val_enc(self@).len(),
            r.1 == backlen_bytes(val_enc(self@).len()).len(),
    {
        let size = self.encoded_size();
        (size, backlen_size(size as u64))
    }

    /// Whole size in bytes this value takes in a listpack: tag+payload plus
    /// backlen.
    #[inline(always)]
    pub fn size_for_write(&self) -> (n: u32)
        requires
            self.wf(),
        ensures
            n == entry_sz(self@),
    {
        let size = self.encoded_size();
        size + backlen_size(size as u64)
    }

    /// The full entry encoding this value: tag+payload then backlen.
    pub fn encode(&self) -> (out: Vec<u8>)
        requires
            self.wf(),
        ensures
            out@ == entry_bytes(self@),
    {
        let mut out: Vec<u8> = Vec::new();
        match self {
            Value::Int(v) => {
                encode_int(*v, &mut out);
            },
            Value::String(b) => {
                let size = b.len() as u32;
                if size < 64 {
                    out.push(128 + size as u8);
                } else if size < 4096 {
                    out.push(224 + (size / 256) as u8);
                    out.push((size % 256) as u8);
                } else {
                    out.push(0xF0);
                    out.push((size % 256) as u8);
                    out.push(((size / 256) % 256) as u8);
                    out.push(((size / 65536) % 256) as u8);
                    out.push((size / 16777216) as u8);
                    proof {
                        lemma_chunks256(size as nat);
                    }
                }
                let ghost prefix = out@;
                let mut i: usize = 0;
                while i < b.len()
                    invariant
                        i <= b@.len(),
                        b@.len() + 10 <= 0xFFFF_FFFF,
                        prefix.len() <= 5,
                        out@ == prefix + b@.subrange(0, i as int),
                    decreases b@.len() - i,
                {
                    out.push(b[i]);
                    proof {
                        assert(out@ =~= prefix + b@.subrange(0, i + 1));
                    }
                    i += 1;
                }
                proof {
                    assert(b@.subrange(0, b@.len() as int) =~= b@);
                    assert(out@ =~= str_enc(b@));
                }
            },
        }
        proof {
            lemma_val_enc_facts(self@);
        }
        let l = out.len();
        encode_backlen(&mut out, l as u64);
        out
    }
}

/// Tag+payload sizes and the first byte of every encoding.
pub proof fn lemma_val_enc_facts(it: Item)
    requires
        item_wf(it),
    ensures
        1 <= val_enc(it).len() <= MAX_ENTRY_BACKLEN,
        val_enc(it).len() + 5 <= 0xFFFF_FFFF,
        val_enc(it)[0] != EOF,
        2 <= entry_sz(it) == val_enc(it).len() + backlen_bytes(val_enc(it).len()).len(),
        entry_sz(it) <= val_enc(it).len() + 5,
{
}

} // verus!
