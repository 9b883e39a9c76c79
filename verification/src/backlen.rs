//! The backlen codec: after each entry's tag+payload, a 1 to 5 byte field
//! stores that part's byte length in base 128, readable backwards. The most
//! significant chunk comes first with its high bit clear; every following
//! chunk has its high bit set as a continuation flag, so a reader scanning
//! backwards stops at (and includes) the first byte whose high bit is clear.

use vstd::arithmetic::div_mod::{lemma_div_denominator, lemma_fundamental_div_mod};
use vstd::prelude::*;

verus! {

/// Base-128 decomposition of a length: each 7-bit chunk recombines with the
/// next quotient, and the nested quotients collapse into single divisions.
proof fn lemma_chunks(l: nat)
    ensures
        l == (l / 128) * 128 + l % 128,
        l / 128 == (l / 16384) * 128 + (l / 128) % 128,
        l / 16384 == (l / 2097152) * 128 + (l / 16384) % 128,
        l / 2097152 == (l / 268435456) * 128 + (l / 2097152) % 128,
        l % 128 < 128,
        (l / 128) % 128 < 128,
        (l / 16384) % 128 < 128,
        (l / 2097152) % 128 < 128,
{
    lemma_fundamental_div_mod(l as int, 128);
    lemma_fundamental_div_mod(l as int / 128, 128);
    lemma_fundamental_div_mod(l as int / 16384, 128);
    lemma_fundamental_div_mod(l as int / 2097152, 128);
    lemma_div_denominator(l as int, 128, 128);
    lemma_div_denominator(l as int, 16384, 128);
    lemma_div_denominator(l as int, 2097152, 128);
}

/// Largest length a 5-byte backlen can carry (2^35 - 1).
pub const MAX_ENTRY_BACKLEN: u64 = 34359738367;

/// Largest size of an encoded backlen field, in bytes.
pub const MAX_BACKLEN_SIZE: usize = 5;

/// The encoded form of the backlen field for a tag+payload of `l` bytes.
/// Meaningful for `l <= MAX_ENTRY_BACKLEN`; beyond that no 5-byte encoding
/// exists and such a length is treated as corrupt on decode.
pub open spec fn backlen_bytes(l: nat) -> Seq<u8> {
    if l <= 127 {
        seq![l as u8]
    } else if l <= 16383 {
        seq![(l / 128) as u8, (l % 128 + 128) as u8]
    } else if l <= 2097151 {
        seq![(l / 16384) as u8, ((l / 128) % 128 + 128) as u8, (l % 128 + 128) as u8]
    } else if l <= 268435455 {
        seq![
            (l / 2097152) as u8,
            ((l / 16384) % 128 + 128) as u8,
            ((l / 128) % 128 + 128) as u8,
            (l % 128 + 128) as u8,
        ]
    } else {
        seq![
            (l / 268435456) as u8,
            ((l / 2097152) % 128 + 128) as u8,
            ((l / 16384) % 128 + 128) as u8,
            ((l / 128) % 128 + 128) as u8,
            (l % 128 + 128) as u8,
        ]
    }
}

/// The bytes ending at position `p` of `s` (inclusive) are exactly the
/// encoded backlen of a tag+payload of `l` bytes.
pub open spec fn ends_with_backlen(s: Seq<u8>, p: int, l: nat) -> bool {
    &&& l <= MAX_ENTRY_BACKLEN
    &&& backlen_bytes(l).len() <= p + 1 <= s.len()
    &&& s.subrange(p + 1 - backlen_bytes(l).len(), p + 1) == backlen_bytes(l)
}

/// In a well-formed backlen every byte but the first has its high bit set,
/// and the first (most significant) byte has it clear.
proof fn lemma_backlen_shape(l: nat)
    requires
        l <= MAX_ENTRY_BACKLEN,
    ensures
        backlen_bytes(l)[0] < 128,
        forall|j: int| 0 < j < backlen_bytes(l).len() ==> #[trigger] backlen_bytes(l)[j] >= 128,
{
}

/// Number of bytes the backlen field for a tag+payload of `l` bytes takes.
pub fn backlen_size(l: u64) -> (n: u32)
    requires
        l <= MAX_ENTRY_BACKLEN,
    ensures
        n == backlen_bytes(l as nat).len(),
        1 <= n <= 5,
{
    if l <= 127 {
        1
    } else if l <= 16383 {
        2
    } else if l <= 2097151 {
        3
    } else if l <= 268435455 {
        4
    } else {
        5
    }
}

/// Append the encoded backlen for a tag+payload of `l` bytes to `buf`,
/// returning the number of bytes written (1 to 5).
pub fn encode_backlen(buf: &mut Vec<u8>, l: u64) -> (n: usize)
    requires
        old(buf)@.len() + 5 <= usize::MAX,
        l <= MAX_ENTRY_BACKLEN,
    ensures
        final(buf)@ == old(buf)@ + backlen_bytes(l as nat),
        n == backlen_bytes(l as nat).len(),
{
    let ghost pre = buf@;
    let n: usize;
    if l <= 127 {
        buf.push(l as u8);
        n = 1;
    } else if l <= 16383 {
        buf.push((l / 128) as u8);
        buf.push((l % 128 + 128) as u8);
        n = 2;
    } else if l <= 2097151 {
        buf.push((l / 16384) as u8);
        buf.push(((l / 128) % 128 + 128) as u8);
        buf.push((l % 128 + 128) as u8);
        n = 3;
    } else if l <= 268435455 {
        buf.push((l / 2097152) as u8);
        buf.push(((l / 16384) % 128 + 128) as u8);
        buf.push(((l / 128) % 128 + 128) as u8);
        buf.push((l % 128 + 128) as u8);
        n = 4;
    } else {
        buf.push((l / 268435456) as u8);
        buf.push(((l / 2097152) % 128 + 128) as u8);
        buf.push(((l / 16384) % 128 + 128) as u8);
        buf.push(((l / 128) % 128 + 128) as u8);
        buf.push((l % 128 + 128) as u8);
        n = 5;
    }
    proof {
        assert(buf@ =~= pre + backlen_bytes(l as nat));
    }
    n
}

/// Every byte of a field that ends at position `p` can be read off the
/// sequence at its place.
proof fn lemma_field_bytes(s: Seq<u8>, p: int, l: nat)
    requires
        ends_with_backlen(s, p, l),
    ensures
        forall|j: int|
            0 <= j < backlen_bytes(l).len() ==> s[p + 1 - backlen_bytes(l).len() + j]
                == backlen_bytes(l)[j],
{
    let bl = backlen_bytes(l);
    assert forall|j: int| 0 <= j < bl.len() implies s[p + 1 - bl.len() + j] == bl[j] by {
        assert(s.subrange(p + 1 - bl.len(), p + 1)[j] == s[p + 1 - bl.len() + j]);
    }
}

/// Decode a backlen by scanning backwards from position `p`, the last byte
/// of the field. The scan accumulates 7 bits per byte and stops at the
/// first byte whose high bit is clear. A field that would run past the
/// 5-byte cap, or past the start of the buffer, is corrupt: the result is
/// the saturated sentinel, and no byte below `p - 4` is ever read.
pub fn decode_backlen(buf: &Vec<u8>, p: usize) -> (r: u64)
    requires
        p < buf@.len(),
    ensures
        forall|l: nat| ends_with_backlen(buf@, p as int, l) ==> r == l,
        (p >= 4 && buf@[p as int] >= 128 && buf@[p - 1] >= 128 && buf@[p - 2] >= 128 && buf@[p
            - 3] >= 128 && buf@[p - 4] >= 128) ==> r == u64::MAX,
{
    let b0 = buf[p];
    if b0 < 128 {
        proof {
            assert forall|l: nat| ends_with_backlen(buf@, p as int, l) implies b0 as nat == l by {
                lemma_backlen_shape(l);
                lemma_field_bytes(buf@, p as int, l);
                let bl = backlen_bytes(l);
                assert(bl[bl.len() - 1] == b0);
                assert(bl.len() == 1);
            }
        }
        return b0 as u64;
    }
    if p < 1 {
        // the field would begin before the buffer: corrupt
        proof {
            assert forall|l: nat| ends_with_backlen(buf@, p as int, l) implies false by {
                lemma_backlen_shape(l);
                lemma_field_bytes(buf@, p as int, l);
                let bl = backlen_bytes(l);
                assert(bl[bl.len() - 1] == b0);
            }
        }
        return u64::MAX;
    }
    let b1 = buf[p - 1];
    if b1 < 128 {
        proof {
            assert forall|l: nat| ends_with_backlen(buf@, p as int, l) implies (b1 as nat) * 128 + (
            b0 as nat - 128) == l by {
                lemma_backlen_shape(l);
                lemma_field_bytes(buf@, p as int, l);
                lemma_chunks(l);
                let bl = backlen_bytes(l);
                assert(bl[bl.len() - 1] == b0);
                assert(bl.len() >= 2);
                assert(bl[bl.len() - 2] == b1);
                assert(bl.len() == 2);
            }
        }
        return (b1 as u64) * 128 + (b0 as u64 - 128);
    }
    if p < 2 {
        proof {
            assert forall|l: nat| ends_with_backlen(buf@, p as int, l) implies false by {
                lemma_backlen_shape(l);
                lemma_field_bytes(buf@, p as int, l);
                let bl = backlen_bytes(l);
                assert(bl[bl.len() - 1] == b0);
                assert(bl.len() >= 2);
                assert(bl[bl.len() - 2] == b1);
            }
        }
        return u64::MAX;
    }
    let b2 = buf[p - 2];
    if b2 < 128 {
        proof {
            assert forall|l: nat| ends_with_backlen(buf@, p as int, l) implies (b2 as nat) * 16384
                + (b1 as nat - 128) * 128 + (b0 as nat - 128) == l by {
                lemma_backlen_shape(l);
                lemma_field_bytes(buf@, p as int, l);
                lemma_chunks(l);
                let bl = backlen_bytes(l);
                assert(bl[bl.len() - 1] == b0);
                assert(bl.len() >= 2);
                assert(bl[bl.len() - 2] == b1);
                assert(bl.len() >= 3);
                assert(bl[bl.len() - 3] == b2);
                assert(bl.len() == 3);
            }
        }
        return (b2 as u64) * 16384 + (b1 as u64 - 128) * 128 + (b0 as u64 - 128);
    }
    if p < 3 {
        proof {
            assert forall|l: nat| ends_with_backlen(buf@, p as int, l) implies false by {
                lemma_backlen_shape(l);
                lemma_field_bytes(buf@, p as int, l);
                let bl = backlen_bytes(l);
                assert(bl[bl.len() - 1] == b0);
                assert(bl.len() >= 2);
                assert(bl[bl.len() - 2] == b1);
                assert(bl.len() >= 3);
                assert(bl[bl.len() - 3] == b2);
            }
        }
        return u64::MAX;
    }
    let b3 = buf[p - 3];
    if b3 < 128 {
        proof {
            assert forall|l: nat| ends_with_backlen(buf@, p as int, l) implies (b3 as nat) * 2097152
                + (b2 as nat - 128) * 16384 + (b1 as nat - 128) * 128 + (b0 as nat - 128) == l by {
                lemma_backlen_shape(l);
                lemma_field_bytes(buf@, p as int, l);
                lemma_chunks(l);
                let bl = backlen_bytes(l);
                assert(bl[bl.len() - 1] == b0);
                assert(bl.len() >= 2);
                assert(bl[bl.len() - 2] == b1);
                assert(bl.len() >= 3);
                assert(bl[bl.len() - 3] == b2);
                assert(bl.len() >= 4);
                assert(bl[bl.len() - 4] == b3);
                assert(bl.len() == 4);
            }
        }
        return (b3 as u64) * 2097152 + (b2 as u64 - 128) * 16384 + (b1 as u64 - 128) * 128 + (
        b0 as u64 - 128);
    }
    if p < 4 {
        proof {
            assert forall|l: nat| ends_with_backlen(buf@, p as int, l) implies false by {
                lemma_backlen_shape(l);
                lemma_field_bytes(buf@, p as int, l);
                let bl = backlen_bytes(l);
                assert(bl[bl.len() - 1] == b0);
                assert(bl.len() >= 2);
                assert(bl[bl.len() - 2] == b1);
                assert(bl.len() >= 3);
                assert(bl[bl.len() - 3] == b2);
                assert(bl.len() >= 4);
                assert(bl[bl.len() - 4] == b3);
            }
        }
        return u64::MAX;
    }
    let b4 = buf[p - 4];
    if b4 < 128 {
        proof {
            assert forall|l: nat| ends_with_backlen(buf@, p as int, l) implies (b4 as nat)
                * 268435456 + (b3 as nat - 128) * 2097152 + (b2 as nat - 128) * 16384 + (b1 as nat
                - 128) * 128 + (b0 as nat - 128) == l by {
                lemma_backlen_shape(l);
                lemma_field_bytes(buf@, p as int, l);
                lemma_chunks(l);
                let bl = backlen_bytes(l);
                assert(bl[bl.len() - 1] == b0);
                assert(bl.len() >= 2);
                assert(bl[bl.len() - 2] == b1);
                assert(bl.len() >= 3);
                assert(bl[bl.len() - 3] == b2);
                assert(bl.len() >= 4);
                assert(bl[bl.len() - 4] == b3);
                assert(bl.len() == 5);
                assert(bl[0] == b4);
            }
        }
        return (b4 as u64) * 268435456 + (b3 as u64 - 128) * 2097152 + (b2 as u64 - 128) * 16384 + (
        b1 as u64 - 128) * 128 + (b0 as u64 - 128);
    }
    // five continuation bytes in a row: the field exceeds the cap
    proof {
        assert forall|l: nat| ends_with_backlen(buf@, p as int, l) implies false by {
            lemma_backlen_shape(l);
            lemma_field_bytes(buf@, p as int, l);
            let bl = backlen_bytes(l);
            assert(bl[bl.len() - 1] == b0);
            assert(bl.len() >= 2);
            assert(bl[bl.len() - 2] == b1);
            assert(bl.len() >= 3);
            assert(bl[bl.len() - 3] == b2);
            assert(bl.len() >= 4);
            assert(bl[bl.len() - 4] == b3);
            assert(bl.len() == 5);
            assert(bl[0] == b4);
        }
    }
    u64::MAX
}

} // verus!
