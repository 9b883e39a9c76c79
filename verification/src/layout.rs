//! The byte layout of a whole listpack: a six-byte header (`total_bytes` as
//! a 32-bit little-endian integer, then `num_elements` as a 16-bit one), the
//! packed entries, and one trailing end marker byte.

use crate::encoding::{entry_bytes, entry_sz, item_wf, le2, le4, lemma_val_enc_facts, Item, EOF};
use vstd::prelude::*;

verus! {

/// Size in bytes of the listpack header.
pub const HDR_SIZE: usize = 6;

/// Header element count meaning "unknown; scan to count".
pub const HDR_NUMELE_UNKNOWN: u16 = 0xFFFF;

/// Every item of the sequence can be encoded.
pub open spec fn items_wf(vs: Seq<Item>) -> bool {
    forall|i: int| 0 <= i < vs.len() ==> item_wf(#[trigger] vs[i])
}

/// The packed encodings of a sequence of items, in order.
pub open spec fn entries_bytes(vs: Seq<Item>) -> Seq<u8>
    decreases vs.len(),
{
    if vs.len() == 0 {
        Seq::empty()
    } else {
        entry_bytes(vs[0]) + entries_bytes(vs.drop_first())
    }
}

/// Packing distributes over concatenation of item sequences.
pub proof fn lemma_entries_app(a: Seq<Item>, b: Seq<Item>)
    ensures
        entries_bytes(a + b) == entries_bytes(a) + entries_bytes(b),
    decreases a.len(),
{
    if a.len() == 0 {
        assert(a + b =~= b);
        assert(entries_bytes(a) + entries_bytes(b) =~= entries_bytes(b));
    } else {
        assert((a + b).drop_first() =~= a.drop_first() + b);
        lemma_entries_app(a.drop_first(), b);
        assert(entry_bytes((a + b)[0]) + (entries_bytes(a.drop_first()) + entries_bytes(b))
            =~= entries_bytes(a) + entries_bytes(b));
    }
}

/// The packed encoding of one item alone.
pub proof fn lemma_entries_single(it: Item)
    ensures
        entries_bytes(seq![it]) == entry_bytes(it),
{
    assert(seq![it].drop_first() =~= Seq::<Item>::empty());
    assert(entries_bytes(Seq::<Item>::empty()) == Seq::<u8>::empty());
    assert(entries_bytes(seq![it]) == entry_bytes(it) + entries_bytes(seq![it].drop_first()));
    assert(entry_bytes(it) + Seq::<u8>::empty() =~= entry_bytes(it));
}

/// Packed entries take at least two bytes per item, so the count of a
/// listpack whose total size fits 32 bits fits comfortably in a `u32`.
pub proof fn lemma_entries_min_len(vs: Seq<Item>)
    requires
        items_wf(vs),
    ensures
        entries_bytes(vs).len() >= 2 * vs.len(),
    decreases vs.len(),
{
    if vs.len() > 0 {
        lemma_val_enc_facts(vs[0]);
        lemma_entries_min_len(vs.drop_first());
    }
}

/// Byte offset of element `i` from the start of the buffer, for
/// `0 <= i <= vs.len()`; at `i == vs.len()` it is the end marker's offset.
pub open spec fn off_of(vs: Seq<Item>, i: int) -> int {
    HDR_SIZE + entries_bytes(vs.take(i)).len()
}

/// Offsets of consecutive elements differ by exactly the entry's size.
pub proof fn lemma_off_step(vs: Seq<Item>, i: int)
    requires
        0 <= i < vs.len(),
    ensures
        off_of(vs, i + 1) == off_of(vs, i) + entry_sz(vs[i]),
{
    assert(vs.take(i + 1) =~= vs.take(i) + seq![vs[i]]);
    lemma_entries_app(vs.take(i), seq![vs[i]]);
    lemma_entries_single(vs[i]);
}

/// The offset of the end marker is the end of the packed entries.
pub proof fn lemma_off_end(vs: Seq<Item>)
    ensures
        off_of(vs, vs.len() as int) == HDR_SIZE + entries_bytes(vs).len(),
        off_of(vs, 0) == HDR_SIZE,
{
    assert(vs.take(vs.len() as int) =~= vs);
    assert(vs.take(0) =~= Seq::<Item>::empty());
}

/// Offsets grow with the index, and every element offset sits strictly
/// between the header and the end marker.
pub proof fn lemma_off_bounds(vs: Seq<Item>, i: int)
    requires
        items_wf(vs),
        0 <= i <= vs.len(),
    ensures
        HDR_SIZE + 2 * i <= off_of(vs, i),
        off_of(vs, i) + 2 * (vs.len() - i) <= HDR_SIZE + entries_bytes(vs).len(),
    decreases vs.len() - i,
{
    if i == vs.len() {
        lemma_off_end(vs);
        lemma_entries_min_len(vs);
        lemma_entries_min_len(vs.take(i));
        assert(vs.take(i) =~= vs);
    } else {
        lemma_off_step(vs, i);
        lemma_off_bounds(vs, i + 1);
        lemma_entries_min_len(vs.take(i));
        lemma_val_enc_facts(vs[i]);
    }
}

/// The whole byte image of a listpack holding `vs`, with `count` in the
/// header's element-count field.
pub open spec fn lp_bytes(count: nat, vs: Seq<Item>) -> Seq<u8> {
    le4((HDR_SIZE + 1 + entries_bytes(vs).len()) as nat) + le2(count) + entries_bytes(vs) + seq![
        EOF,
    ]
}

/// The bytes of element `i`'s entry sit at its offset, and the byte that
/// follows the last entry is the end marker.
pub proof fn lemma_entry_slice(count: nat, vs: Seq<Item>, i: int)
    requires
        0 <= i < vs.len(),
    ensures
        lp_bytes(count, vs).subrange(off_of(vs, i), off_of(vs, i) + entry_sz(vs[i]) as int)
            == entry_bytes(vs[i]),
{
    let s = lp_bytes(count, vs);
    lemma_off_step(vs, i);
    assert(vs =~= vs.take(i) + (seq![vs[i]] + vs.skip(i + 1)));
    lemma_entries_app(vs.take(i), seq![vs[i]] + vs.skip(i + 1));
    lemma_entries_app(seq![vs[i]], vs.skip(i + 1));
    lemma_entries_single(vs[i]);
    assert(s.subrange(off_of(vs, i), off_of(vs, i) + entry_sz(vs[i]) as int) =~= entry_bytes(
        vs[i],
    ));
}

} // verus!
