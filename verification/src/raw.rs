//! The raw listpack engine: one owned, growable byte buffer holding the
//! header, the packed entries and the end marker, together with the
//! mutation and traversal operations.
//!
//! An element reference is a byte offset into the current buffer. Every
//! mutating call may rewrite the whole buffer, so it returns a fresh
//! reference; references obtained before a mutation must be discarded.

use crate::backlen::{backlen_bytes, backlen_size, decode_backlen, ends_with_backlen};
use crate::encoding::{
    entry_bytes, entry_sz, is_12bit_str, is_13bit_int, is_16bit_int, is_24bit_int, is_32bit_int,
    is_32bit_str, is_64bit_int, is_6bit_str, is_7bit_uint, item_wf, le2, le4, lemma_chunks256,
    lemma_val_enc_facts, lemma_value_bytes, starts_with_value, val_enc, Item, Value, EOF,
};
use crate::layout::{
    entries_bytes, items_wf, lemma_entries_app, lemma_entries_min_len, lemma_entries_single,
    lemma_entry_slice, lemma_off_bounds, lemma_off_end, lemma_off_step, lp_bytes, off_of,
    HDR_NUMELE_UNKNOWN, HDR_SIZE,
};
use vstd::arithmetic::div_mod::{lemma_basic_div, lemma_fundamental_div_mod};
use vstd::prelude::*;

verus! {

/// Where an inserted element lands relative to the target reference.
#[derive(Clone, Copy, Debug)]
pub enum Placement {
    /// Insert immediately before the target element.
    Before,
    /// Insert immediately after the target element.
    After,
}

/// A reference to one element: the byte offset of its tag byte in the
/// current buffer. Valid only until the next mutating call.
#[derive(Clone, Copy)]
pub struct Element {
    off: usize,
    index: Ghost<int>,
}

impl Element {
    /// The byte offset this reference points at.
    pub closed spec fn spec_off(&self) -> int {
        self.off as int
    }

    /// The position of the referenced element in the sequence.
    pub closed spec fn idx(&self) -> int {
        self.index@
    }

    /// The byte offset this reference points at.
    pub fn off(&self) -> (r: usize)
        ensures
            r == self.spec_off(),
    {
        self.off
    }
}

/// A listpack: the single backing buffer, and (as a ghost) the sequence of
/// element values it encodes.
pub struct RawListpack {
    buf: Vec<u8>,
    elems: Ghost<Seq<Item>>,
}

impl View for RawListpack {
    type V = Seq<Item>;

    /// The sequence of element values held.
    closed spec fn view(&self) -> Seq<Item> {
        self.elems@
    }
}

impl RawListpack {
    /// Current size of the backing buffer in bytes; always equal to the
    /// header's `total_bytes` field.
    pub closed spec fn size(&self) -> nat {
        self.buf@.len()
    }

    /// The header's `num_elements` field.
    pub closed spec fn count_field(&self) -> nat {
        (self.buf@[4] + 256 * self.buf@[5]) as nat
    }

    /// The buffer is exactly the encoding of the held elements: header,
    /// packed entries, end marker; and the count field is the exact element
    /// count or the unknown sentinel, never a wrong exact value.
    pub closed spec fn wf(&self) -> bool {
        &&& items_wf(self.elems@)
        &&& self.buf@.len() == HDR_SIZE + 1 + entries_bytes(self.elems@).len()
        &&& self.buf@.len() <= 0xFFFF_FFFF
        &&& self.buf@ == lp_bytes(self.count_field(), self.elems@)
        &&& (self.count_field() == self.elems@.len() || self.count_field()
            == HDR_NUMELE_UNKNOWN as nat)
    }

    /// The reference points at an element of this listpack's current buffer.
    pub closed spec fn valid_element(&self, e: Element) -> bool {
        &&& 0 <= e.idx() < self.elems@.len()
        &&& e.spec_off() == off_of(self.elems@, e.idx())
    }
}

/// The header's count field is never a stale exact value: it is the exact
/// element count, or the unknown sentinel.
pub proof fn lemma_count_field_exact(lp: RawListpack)
    requires
        lp.wf(),
    ensures
        lp.count_field() == lp@.len() || lp.count_field() == 65535,
        lp.count_field() != 65535 ==> lp.count_field() == lp@.len(),
{
}

/// A valid element reference points at a real position of the sequence.
pub proof fn lemma_valid_element_index(lp: RawListpack, e: Element)
    requires
        lp.valid_element(e),
    ensures
        0 <= e.idx() < lp@.len(),
{
}

/// A well-formed listpack never holds more elements than half its byte
/// size, so its count fits comfortably below every relevant bound.
pub proof fn lemma_count_bound(lp: RawListpack)
    requires
        lp.wf(),
    ensures
        2 * lp@.len() + 7 <= lp.size(),
        lp@.len() < 0x8000_0000,
{
    lemma_entries_min_len(lp@);
}

/// A valid element reference sits strictly between the header and the end
/// marker, at its element's offset.
pub proof fn lemma_element_bounds(lp: RawListpack, e: Element)
    requires
        lp.wf(),
        lp.valid_element(e),
    ensures
        HDR_SIZE + 2 * e.idx() <= e.spec_off(),
        e.spec_off() + entry_sz(lp@[e.idx()]) <= lp.size() - 1,
        off_of(lp@, e.idx() + 1) == e.spec_off() + entry_sz(lp@[e.idx()]),
{
    lemma_off_step(lp@, e.idx());
    lemma_off_bounds(lp@, e.idx());
    lemma_off_bounds(lp@, e.idx() + 1);
    lemma_val_enc_facts(lp@[e.idx()]);
}

/// When the bytes of a listpack image carry count `c`, its count field
/// reads back as exactly `c`.
proof fn lemma_count_field_roundtrip(lp: RawListpack, c: nat)
    requires
        c < 65536,
        lp.buf@ == lp_bytes(c, lp.elems@),
    ensures
        lp.count_field() == c,
{
    lemma_chunks256(c);
    assert(lp.buf@[4] == c % 256 && lp.buf@[5] == (c / 256) % 256);
    assert((c / 256) % 256 == c / 256);
}

/// Every byte of element `i`'s entry can be read off the buffer at its
/// offset, and the entry's first byte is its tag.
proof fn lemma_entry_bytes_at(lp: RawListpack, i: int)
    requires
        lp.wf(),
        0 <= i < lp@.len(),
    ensures
        forall|j: int|
            0 <= j < entry_sz(lp@[i]) ==> lp.buf@[off_of(lp@, i) + j] == entry_bytes(lp@[i])[j],
        lp.buf@[off_of(lp@, i)] == val_enc(lp@[i])[0],
        lp.buf@[off_of(lp@, i)] != EOF,
{
    lemma_entry_slice(lp.count_field(), lp@, i);
    lemma_off_bounds(lp@, i);
    lemma_off_bounds(lp@, i + 1);
    lemma_off_step(lp@, i);
    lemma_val_enc_facts(lp@[i]);
    let off = off_of(lp@, i);
    let sz = entry_sz(lp@[i]) as int;
    assert forall|j: int| 0 <= j < sz implies lp.buf@[off + j] == entry_bytes(lp@[i])[j] by {
        assert(lp.buf@.subrange(off, off + sz)[j] == lp.buf@[off + j]);
    }
    assert(entry_bytes(lp@[i])[0] == val_enc(lp@[i])[0]);
}

/// The byte just past the last entry is the end marker, at offset
/// `size - 1`.
proof fn lemma_end_marker(lp: RawListpack)
    requires
        lp.wf(),
    ensures
        off_of(lp@, lp@.len() as int) == lp.size() - 1,
        lp.buf@[lp.size() - 1] == EOF,
{
    lemma_off_end(lp@);
}

/// What the tag byte of each encoding class is, by the value encoded.
proof fn lemma_tag_of(it: Item)
    requires
        item_wf(it),
    ensures
        match it {
            Item::Int(i) => {
                &&& (0 <= i <= 127 ==> val_enc(it)[0] == i)
                &&& (!(0 <= i <= 127) && -4096 <= i <= 4095 ==> 192 <= val_enc(it)[0] < 224)
                &&& (!(-4096 <= i <= 4095) && -32768 <= i <= 32767 ==> val_enc(it)[0] == 0xF1)
                &&& (!(-32768 <= i <= 32767) && -8388608 <= i <= 8388607 ==> val_enc(it)[0]
                    == 0xF2)
                &&& (!(-8388608 <= i <= 8388607) && -2147483648 <= i <= 2147483647 ==> val_enc(
                    it,
                )[0] == 0xF3)
                &&& (!(-2147483648 <= i <= 2147483647) ==> val_enc(it)[0] == 0xF4)
            },
            Item::Str(b) => {
                &&& (b.len() < 64 ==> val_enc(it)[0] == 128 + b.len())
                &&& (64 <= b.len() < 4096 ==> 224 <= val_enc(it)[0] < 240 && val_enc(it)[0] == 224
                    + b.len() / 256)
                &&& (b.len() >= 4096 ==> val_enc(it)[0] == 0xF0)
            },
        },
{
    match it {
        Item::Int(i) => {
            if !(0 <= i <= 127) && -4096 <= i <= 4095 {
                lemma_fundamental_div_mod(crate::encoding::bias(i, 8192) as int, 256);
            }
        },
        Item::Str(b) => {
            if 64 <= b.len() < 4096 {
                lemma_fundamental_div_mod(b.len() as int, 256);
            }
        },
    }
}

/// Is the reference inside the bounds of this listpack's buffer, past the
/// header? A stale or foreign reference outside them is surely invalid.
pub fn is_valid_element(lp: &RawListpack, ele: &Element) -> (r: bool)
    ensures
        r <==> HDR_SIZE <= ele.spec_off() < lp.size(),
{
    ele.off >= HDR_SIZE && ele.off < lp.buf.len()
}

/// Size in bytes of the tag+payload of the element at `p` (its backlen
/// field not counted).
pub fn get_encoded_size(lp: &RawListpack, p: Element) -> (n: u32)
    requires
        lp.wf(),
        lp.valid_element(p),
    ensures
        n == val_enc(lp@[p.idx()]).len(),
{
    let ghost it = lp@[p.idx()];
    proof {
        lemma_element_bounds(*lp, p);
        lemma_entry_bytes_at(*lp, p.idx());
        lemma_tag_of(it);
        lemma_val_enc_facts(it);
    }
    let tag = lp.buf[p.off];
    if is_7bit_uint(tag) {
        1
    } else if is_6bit_str(tag) {
        1 + (tag - 128) as u32
    } else if is_13bit_int(tag) {
        2
    } else if is_16bit_int(tag) {
        3
    } else if is_24bit_int(tag) {
        4
    } else if is_32bit_int(tag) {
        5
    } else if is_64bit_int(tag) {
        9
    } else if is_12bit_str(tag) {
        proof {
            assert(it is Str);
            let b = it->Str_0;
            assert(64 <= b.len() < 4096);
            lemma_fundamental_div_mod(b.len() as int, 256);
            assert(val_enc(it).len() == 2 + b.len());
            assert(lp.buf@[off_of(lp@, p.idx()) + 1] == entry_bytes(it)[1]);
            assert(entry_bytes(it)[1] == val_enc(it)[1]);
            assert(val_enc(it)[1] == b.len() % 256);
        }
        let b1 = lp.buf[p.off + 1];
        2 + ((tag - 224) as u32) * 256 + b1 as u32
    } else if is_32bit_str(tag) {
        proof {
            assert(it is Str);
            let b = it->Str_0;
            assert(b.len() >= 4096);
            lemma_le4_value(b.len());
            assert(val_enc(it).len() == 5 + b.len());
            assert(lp.buf@[off_of(lp@, p.idx()) + 1] == entry_bytes(it)[1]);
            assert(lp.buf@[off_of(lp@, p.idx()) + 2] == entry_bytes(it)[2]);
            assert(lp.buf@[off_of(lp@, p.idx()) + 3] == entry_bytes(it)[3]);
            assert(lp.buf@[off_of(lp@, p.idx()) + 4] == entry_bytes(it)[4]);
            assert(entry_bytes(it)[1] == val_enc(it)[1] && val_enc(it)[1] == le4(b.len())[0]);
            assert(entry_bytes(it)[2] == val_enc(it)[2] && val_enc(it)[2] == le4(b.len())[1]);
            assert(entry_bytes(it)[3] == val_enc(it)[3] && val_enc(it)[3] == le4(b.len())[2]);
            assert(entry_bytes(it)[4] == val_enc(it)[4] && val_enc(it)[4] == le4(b.len())[3]);
        }
        let b1 = lp.buf[p.off + 1] as u32;
        let b2 = lp.buf[p.off + 2] as u32;
        let b3 = lp.buf[p.off + 3] as u32;
        let b4 = lp.buf[p.off + 4] as u32;
        5 + (b1 + 256 * b2 + 65536 * b3 + 16777216 * b4)
    } else {
        // under the well-formedness invariant every tag byte belongs to one
        // of the classes above
        proof {
            assert(false);
        }
        0
    }
}

/// Step over the entry at `p`, landing on the next entry's tag byte or on
/// the end marker.
pub fn skip(lp: &RawListpack, p: Element) -> (q: Element)
    requires
        lp.wf(),
        lp.valid_element(p),
    ensures
        q.idx() == p.idx() + 1,
        q.spec_off() == off_of(lp@, p.idx() + 1),
{
    proof {
        lemma_element_bounds(*lp, p);
        lemma_val_enc_facts(lp@[p.idx()]);
    }
    let esz = get_encoded_size(lp, p);
    let bsz = backlen_size(esz as u64);
    Element { off: p.off + esz as usize + bsz as usize, index: Ghost(p.idx() + 1) }
}

/// The first element of the listpack, or nothing if it is empty.
pub fn first(lp: &RawListpack) -> (r: Option<Element>)
    requires
        lp.wf(),
    ensures
        match r {
            Some(q) => lp@.len() > 0 && lp.valid_element(q) && q.idx() == 0,
            None => lp@.len() == 0,
        },
{
    proof {
        lemma_end_marker(*lp);
        lemma_off_end(lp@);
        if lp@.len() > 0 {
            lemma_entry_bytes_at(*lp, 0);
        }
    }
    if lp.buf[HDR_SIZE] == EOF {
        None
    } else {
        Some(Element { off: HDR_SIZE, index: Ghost(0) })
    }
}

/// The element following `p`, or nothing if `p` is the last element.
pub fn next(lp: &RawListpack, p: Element) -> (r: Option<Element>)
    requires
        lp.wf(),
        lp.valid_element(p),
    ensures
        match r {
            Some(q) => p.idx() + 1 < lp@.len() && lp.valid_element(q) && q.idx() == p.idx() + 1,
            None => p.idx() + 1 == lp@.len(),
        },
{
    let q = skip(lp, p);
    proof {
        lemma_end_marker(*lp);
        lemma_off_bounds(lp@, p.idx() + 1);
        if p.idx() + 1 < lp@.len() {
            lemma_entry_bytes_at(*lp, p.idx() + 1);
        }
    }
    if lp.buf[q.off] == EOF {
        None
    } else {
        Some(q)
    }
}

/// The last bytes of the entry ending just before offset `endoff` are its
/// backlen field, decodable backwards from `endoff - 1`.
proof fn lemma_backlen_before(lp: RawListpack, i: int)
    requires
        lp.wf(),
        0 <= i < lp@.len(),
    ensures
        ends_with_backlen(lp.buf@, off_of(lp@, i + 1) - 1, val_enc(lp@[i]).len()),
{
    let it = lp@[i];
    let off = off_of(lp@, i);
    let vlen = val_enc(it).len() as int;
    let bl = backlen_bytes(val_enc(it).len());
    lemma_entry_bytes_at(lp, i);
    lemma_element_bounds_idx(lp, i);
    lemma_val_enc_facts(it);
    assert(off_of(lp@, i + 1) == off + vlen + bl.len());
    assert forall|j: int| 0 <= j < bl.len() implies lp.buf@[off + vlen + j] == bl[j] by {
        assert(entry_bytes(it)[vlen + j] == bl[j]);
    }
    assert(lp.buf@.subrange(off + vlen, off + vlen + bl.len() as int) =~= bl);
}

/// `lemma_element_bounds`, phrased on a bare index.
proof fn lemma_element_bounds_idx(lp: RawListpack, i: int)
    requires
        lp.wf(),
        0 <= i < lp@.len(),
    ensures
        HDR_SIZE + 2 * i <= off_of(lp@, i),
        off_of(lp@, i) + entry_sz(lp@[i]) <= lp.size() - 1,
        off_of(lp@, i + 1) == off_of(lp@, i) + entry_sz(lp@[i]),
{
    lemma_off_step(lp@, i);
    lemma_off_bounds(lp@, i);
    lemma_off_bounds(lp@, i + 1);
    lemma_val_enc_facts(lp@[i]);
}

/// The element preceding `p`, or nothing if `p` is the first element.
pub fn prev(lp: &RawListpack, p: Element) -> (r: Option<Element>)
    requires
        lp.wf(),
        lp.valid_element(p),
    ensures
        match r {
            Some(q) => p.idx() > 0 && lp.valid_element(q) && q.idx() == p.idx() - 1,
            None => p.idx() == 0,
        },
{
    proof {
        lemma_off_end(lp@);
        lemma_off_bounds(lp@, p.idx());
    }
    if p.off <= HDR_SIZE {
        return None;
    }
    let ghost i = p.idx();
    let ghost it0 = lp@[i - 1];
    proof {
        lemma_backlen_before(*lp, i - 1);
        lemma_element_bounds_idx(*lp, i - 1);
        lemma_val_enc_facts(it0);
    }
    let l = decode_backlen(&lp.buf, p.off - 1);
    proof {
        assert(l == val_enc(it0).len());
    }
    let bsz = backlen_size(l);
    Some(Element { off: p.off - (l as usize + bsz as usize), index: Ghost(i - 1) })
}

/// The last element of the listpack, or nothing if it is empty.
pub fn last(lp: &RawListpack) -> (r: Option<Element>)
    requires
        lp.wf(),
    ensures
        match r {
            Some(q) => lp@.len() > 0 && lp.valid_element(q) && q.idx() == lp@.len() - 1,
            None => lp@.len() == 0,
        },
{
    proof {
        lemma_end_marker(*lp);
        lemma_off_end(lp@);
        if lp@.len() > 0 {
            lemma_entry_bytes_at(*lp, 0);
        }
    }
    if lp.buf[HDR_SIZE] == EOF {
        return None;
    }
    let ghost n = lp@.len() as int;
    let ghost it0 = lp@[n - 1];
    proof {
        lemma_backlen_before(*lp, n - 1);
        lemma_element_bounds_idx(*lp, n - 1);
        lemma_val_enc_facts(it0);
    }
    let total = lp.buf.len();
    let l = decode_backlen(&lp.buf, total - 2);
    proof {
        assert(l == val_enc(it0).len());
    }
    let bsz = backlen_size(l);
    Some(Element { off: total - 1 - (l as usize + bsz as usize), index: Ghost(n - 1) })
}

/// Copy `n` bytes of `buf` starting at offset `at` into a fresh vector.
fn copy_bytes(buf: &Vec<u8>, at: usize, n: usize) -> (out: Vec<u8>)
    requires
        at + n <= buf@.len(),
    ensures
        out@ == buf@.subrange(at as int, (at + n) as int),
{
    let blen = buf.len();
    let mut out: Vec<u8> = Vec::new();
    let mut i: usize = 0;
    while i < n
        invariant
            i <= n,
            at + n <= blen == buf@.len(),
            out@ == buf@.subrange(at as int, (at + i) as int),
        decreases n - i,
    {
        out.push(buf[at + i]);
        proof {
            assert(out@ =~= buf@.subrange(at as int, (at + i + 1) as int));
        }
        i += 1;
    }
    out
}

/// Read the value of the element at `p`. Strings are copied out of the
/// buffer; the copy stays usable after later mutations.
pub fn get(lp: &RawListpack, p: Element) -> (v: Value)
    requires
        lp.wf(),
        lp.valid_element(p),
    ensures
        v@ == lp@[p.idx()],
        v.wf(),
{
    let ghost it = lp@[p.idx()];
    proof {
        lemma_element_bounds(*lp, p);
        lemma_entry_bytes_at(*lp, p.idx());
        lemma_tag_of(it);
        lemma_val_enc_facts(it);
    }
    let tag = lp.buf[p.off];
    if is_6bit_str(tag) || is_12bit_str(tag) || is_32bit_str(tag) {
        proof {
            assert(it is Str);
        }
        get_string(lp, p)
    } else {
        proof {
            assert(it is Int);
        }
        get_integer(lp, p)
    }
}

/// Decode the integer entry at `p`, recombining its little-endian payload
/// and undoing the bias of the negative ranges.
#[verifier::rlimit(100)]
fn get_integer(lp: &RawListpack, p: Element) -> (v: Value)
    requires
        lp.wf(),
        lp.valid_element(p),
        lp@[p.idx()] is Int,
    ensures
        v@ == lp@[p.idx()],
        v.wf(),
{
    let ghost it = lp@[p.idx()];
    let ghost off = off_of(lp@, p.idx());
    proof {
        lemma_element_bounds(*lp, p);
        lemma_entry_bytes_at(*lp, p.idx());
        lemma_tag_of(it);
        lemma_val_enc_facts(it);
    }
    let tag = lp.buf[p.off];
    if is_7bit_uint(tag) {
        Value::Int(tag as i64)
    } else if is_6bit_str(tag) {
        // a string tag cannot reach the integer decoder
        proof {
            assert(false);
        }
        Value::Int(0)
    } else if is_13bit_int(tag) {
        proof {
            assert(it is Int);
            assert(lp.buf@[off + 1] == entry_bytes(it)[1]);
            lemma_fundamental_div_mod(crate::encoding::bias(it->Int_0, 8192) as int, 256);
        }
        let b1 = lp.buf[p.off + 1];
        let uval: u64 = ((tag - 192) as u64) * 256 + b1 as u64;
        proof {
            assert(uval == crate::encoding::bias(it->Int_0, 8192));
        }
        if uval >= 4096 {
            Value::Int(-((8191 - uval) as i64) - 1)
        } else {
            Value::Int(uval as i64)
        }
    } else if is_16bit_int(tag) {
        proof {
            assert(it is Int);
            assert(lp.buf@[off + 1] == entry_bytes(it)[1] && entry_bytes(it)[1] == val_enc(it)[1]);
            assert(lp.buf@[off + 2] == entry_bytes(it)[2] && entry_bytes(it)[2] == val_enc(it)[2]);
        }
        let b1 = lp.buf[p.off + 1] as u64;
        let b2 = lp.buf[p.off + 2] as u64;
        let uval: u64 = b1 + 256 * b2;
        proof {
            let u = crate::encoding::bias(it->Int_0, 65536);
            lemma_chunks256(u);
            assert(u / 65536 == 0) by {
                lemma_basic_div(u as int, 65536);
            }
            assert(uval == u);
        }
        if uval >= 32768 {
            Value::Int(-((65535 - uval) as i64) - 1)
        } else {
            Value::Int(uval as i64)
        }
    } else if is_24bit_int(tag) {
        proof {
            assert(it is Int);
            assert(lp.buf@[off + 1] == entry_bytes(it)[1] && entry_bytes(it)[1] == val_enc(it)[1]);
            assert(lp.buf@[off + 2] == entry_bytes(it)[2] && entry_bytes(it)[2] == val_enc(it)[2]);
            assert(lp.buf@[off + 3] == entry_bytes(it)[3] && entry_bytes(it)[3] == val_enc(it)[3]);
        }
        let b1 = lp.buf[p.off + 1] as u64;
        let b2 = lp.buf[p.off + 2] as u64;
        let b3 = lp.buf[p.off + 3] as u64;
        let uval: u64 = b1 + 256 * b2 + 65536 * b3;
        proof {
            let u = crate::encoding::bias(it->Int_0, 16777216);
            lemma_chunks256(u);
            assert(u / 16777216 == 0) by {
                lemma_basic_div(u as int, 16777216);
            }
            assert(uval == u);
        }
        if uval >= 8388608 {
            Value::Int(-((16777215 - uval) as i64) - 1)
        } else {
            Value::Int(uval as i64)
        }
    } else if is_32bit_int(tag) {
        proof {
            assert(it is Int);
            assert(lp.buf@[off + 1] == entry_bytes(it)[1] && entry_bytes(it)[1] == val_enc(it)[1]);
            assert(lp.buf@[off + 2] == entry_bytes(it)[2] && entry_bytes(it)[2] == val_enc(it)[2]);
            assert(lp.buf@[off + 3] == entry_bytes(it)[3] && entry_bytes(it)[3] == val_enc(it)[3]);
            assert(lp.buf@[off + 4] == entry_bytes(it)[4] && entry_bytes(it)[4] == val_enc(it)[4]);
        }
        let b1 = lp.buf[p.off + 1] as u64;
        let b2 = lp.buf[p.off + 2] as u64;
        let b3 = lp.buf[p.off + 3] as u64;
        let b4 = lp.buf[p.off + 4] as u64;
        let uval: u64 = b1 + 256 * b2 + 65536 * b3 + 16777216 * b4;
        proof {
            let u = crate::encoding::bias(it->Int_0, 4294967296);
            lemma_chunks256(u);
            assert(u / 4294967296 == 0) by {
                lemma_basic_div(u as int, 4294967296);
            }
            assert(uval == u);
        }
        if uval >= 2147483648 {
            Value::Int(-((4294967295 - uval) as i64) - 1)
        } else {
            Value::Int(uval as i64)
        }
    } else if is_64bit_int(tag) {
        proof {
            assert(it is Int);
            assert(lp.buf@[off + 1] == entry_bytes(it)[1] && entry_bytes(it)[1] == val_enc(it)[1]);
            assert(lp.buf@[off + 2] == entry_bytes(it)[2] && entry_bytes(it)[2] == val_enc(it)[2]);
            assert(lp.buf@[off + 3] == entry_bytes(it)[3] && entry_bytes(it)[3] == val_enc(it)[3]);
            assert(lp.buf@[off + 4] == entry_bytes(it)[4] && entry_bytes(it)[4] == val_enc(it)[4]);
            assert(lp.buf@[off + 5] == entry_bytes(it)[5] && entry_bytes(it)[5] == val_enc(it)[5]);
            assert(lp.buf@[off + 6] == entry_bytes(it)[6] && entry_bytes(it)[6] == val_enc(it)[6]);
            assert(lp.buf@[off + 7] == entry_bytes(it)[7] && entry_bytes(it)[7] == val_enc(it)[7]);
            assert(lp.buf@[off + 8] == entry_bytes(it)[8] && entry_bytes(it)[8] == val_enc(it)[8]);
        }
        let b1 = lp.buf[p.off + 1] as u64;
        let b2 = lp.buf[p.off + 2] as u64;
        let b3 = lp.buf[p.off + 3] as u64;
        let b4 = lp.buf[p.off + 4] as u64;
        let b5 = lp.buf[p.off + 5] as u64;
        let b6 = lp.buf[p.off + 6] as u64;
        let b7 = lp.buf[p.off + 7] as u64;
        let b8 = lp.buf[p.off + 8] as u64;
        let uval: u64 = b1 + 256 * b2 + 65536 * b3 + 16777216 * b4 + 4294967296 * b5
            + 1099511627776 * b6 + 281474976710656 * b7 + 72057594037927936 * b8;
        proof {
            let u = crate::encoding::bias(it->Int_0, 18446744073709551616);
            lemma_chunks256(u);
            assert(uval == u);
        }
        if uval >= 9223372036854775808 {
            Value::Int(-((18446744073709551615 - uval) as i64) - 1)
        } else {
            Value::Int(uval as i64)
        }
    } else if is_12bit_str(tag) {
        // a string tag cannot reach the integer decoder
        proof {
            assert(false);
        }
        Value::Int(0)
    } else if is_32bit_str(tag) {
        // a string tag cannot reach the integer decoder
        proof {
            assert(false);
        }
        Value::Int(0)
    } else {
        // under the well-formedness invariant every tag byte belongs to a
        // class above; a corrupt tag would decode to a sentinel integer
        proof {
            assert(false);
        }
        Value::Int(12345678900000000 + tag as i64)
    }
}

/// Decode the byte-string entry at `p`, copying its payload out of the
/// buffer.
#[verifier::rlimit(100)]
fn get_string(lp: &RawListpack, p: Element) -> (v: Value)
    requires
        lp.wf(),
        lp.valid_element(p),
        lp@[p.idx()] is Str,
    ensures
        v@ == lp@[p.idx()],
        v.wf(),
{
    let ghost it = lp@[p.idx()];
    let ghost off = off_of(lp@, p.idx());
    let ghost b = it->Str_0;
    proof {
        lemma_element_bounds(*lp, p);
        lemma_entry_bytes_at(*lp, p.idx());
        lemma_tag_of(it);
        lemma_val_enc_facts(it);
    }
    let tag = lp.buf[p.off];
    if is_6bit_str(tag) {
        proof {
            assert(val_enc(it).len() == 1 + b.len());
        }
        let slen = (tag - 128) as usize;
        let s = copy_bytes(&lp.buf, p.off + 1, slen);
        proof {
            assert forall|j: int| 0 <= j < b.len() implies s@[j] == b[j] by {
                assert(lp.buf@[off + 1 + j] == entry_bytes(it)[1 + j]);
                assert(entry_bytes(it)[1 + j] == val_enc(it)[1 + j]);
                assert(val_enc(it)[1 + j] == b[j]);
            }
            assert(s@ =~= b);
        }
        Value::String(s)
    } else if is_12bit_str(tag) {
        proof {
            assert(64 <= b.len() < 4096);
            lemma_fundamental_div_mod(b.len() as int, 256);
            assert(val_enc(it).len() == 2 + b.len());
            assert(lp.buf@[off + 1] == entry_bytes(it)[1] && entry_bytes(it)[1] == val_enc(it)[1]);
        }
        let b1 = lp.buf[p.off + 1];
        let slen = ((tag - 224) as usize) * 256 + b1 as usize;
        let s = copy_bytes(&lp.buf, p.off + 2, slen);
        proof {
            assert forall|j: int| 0 <= j < b.len() implies s@[j] == b[j] by {
                assert(lp.buf@[off + 2 + j] == entry_bytes(it)[2 + j]);
                assert(entry_bytes(it)[2 + j] == val_enc(it)[2 + j]);
                assert(val_enc(it)[2 + j] == b[j]);
            }
            assert(s@ =~= b);
        }
        Value::String(s)
    } else {
        proof {
            assert(tag == 0xF0);
            assert(b.len() >= 4096);
            lemma_le4_value(b.len());
            assert(val_enc(it).len() == 5 + b.len());
            assert(lp.buf@[off + 1] == entry_bytes(it)[1] && entry_bytes(it)[1] == val_enc(it)[1]);
            assert(lp.buf@[off + 2] == entry_bytes(it)[2] && entry_bytes(it)[2] == val_enc(it)[2]);
            assert(lp.buf@[off + 3] == entry_bytes(it)[3] && entry_bytes(it)[3] == val_enc(it)[3]);
            assert(lp.buf@[off + 4] == entry_bytes(it)[4] && entry_bytes(it)[4] == val_enc(it)[4]);
        }
        let b1 = lp.buf[p.off + 1] as usize;
        let b2 = lp.buf[p.off + 2] as usize;
        let b3 = lp.buf[p.off + 3] as usize;
        let b4 = lp.buf[p.off + 4] as usize;
        let slen = b1 + 256 * b2 + 65536 * b3 + 16777216 * b4;
        let s = copy_bytes(&lp.buf, p.off + 5, slen);
        proof {
            assert forall|j: int| 0 <= j < b.len() implies s@[j] == b[j] by {
                assert(lp.buf@[off + 5 + j] == entry_bytes(it)[5 + j]);
                assert(entry_bytes(it)[5 + j] == val_enc(it)[5 + j]);
                assert(val_enc(it)[5 + j] == b[j]);
            }
            assert(s@ =~= b);
        }
        Value::String(s)
    }
}

/// Remove `n` bytes at offset `at` and put the bytes of `src` in their
/// place, shifting the tail of the buffer as needed.
fn splice(buf: &mut Vec<u8>, at: usize, n: usize, src: &Vec<u8>)
    requires
        at + n <= old(buf)@.len(),
        old(buf)@.len() - n + src@.len() <= usize::MAX,
    ensures
        final(buf)@ == old(buf)@.take(at as int) + src@ + old(buf)@.skip((at + n) as int),
{
    let blen = buf.len();
    let mut out: Vec<u8> = Vec::new();
    let mut i: usize = 0;
    while i < at
        invariant
            i <= at,
            at + n <= blen == buf@.len(),
            buf@.len() - n + src@.len() <= usize::MAX,
            out@ == buf@.take(i as int),
            *buf == *old(buf),
        decreases at - i,
    {
        out.push(buf[i]);
        proof {
            assert(out@ =~= buf@.take(i + 1));
        }
        i += 1;
    }
    let mut j: usize = 0;
    while j < src.len()
        invariant
            j <= src@.len(),
            at + n <= blen == buf@.len(),
            buf@.len() - n + src@.len() <= usize::MAX,
            out@ == buf@.take(at as int) + src@.take(j as int),
            *buf == *old(buf),
        decreases src@.len() - j,
    {
        out.push(src[j]);
        proof {
            assert(out@ =~= buf@.take(at as int) + src@.take(j + 1));
        }
        j += 1;
    }
    proof {
        assert(src@.take(src@.len() as int) =~= src@);
    }
    let mut k: usize = at + n;
    while k < blen
        invariant
            at + n <= k <= blen == buf@.len(),
            buf@.len() - n + src@.len() <= usize::MAX,
            out@ == buf@.take(at as int) + src@ + buf@.subrange((at + n) as int, k as int),
            *buf == *old(buf),
        decreases buf@.len() - k,
    {
        out.push(buf[k]);
        proof {
            assert(out@ =~= buf@.take(at as int) + src@ + buf@.subrange(
                (at + n) as int,
                k + 1,
            ));
        }
        k += 1;
    }
    proof {
        assert(buf@.subrange((at + n) as int, buf@.len() as int) =~= buf@.skip((at + n) as int));
    }
    *buf = out;
}

/// Write `v` as two little-endian bytes at offset `at`.
fn write_u16_le(buf: &mut Vec<u8>, at: usize, v: u16)
    requires
        at + 2 <= old(buf)@.len(),
    ensures
        final(buf)@ == old(buf)@.take(at as int) + le2(v as nat) + old(buf)@.skip(at + 2),
{
    let blen = buf.len();
    assert(at + 2 <= blen);
    buf.set(at, (v % 256) as u8);
    buf.set(at + 1, (v / 256) as u8);
    proof {
        lemma_chunks256(v as nat);
        assert(buf@ =~= old(buf)@.take(at as int) + le2(v as nat) + old(buf)@.skip(at + 2));
    }
}

/// Write `v` as four little-endian bytes at offset `at`.
fn write_u32_le(buf: &mut Vec<u8>, at: usize, v: u32)
    requires
        at + 4 <= old(buf)@.len(),
    ensures
        final(buf)@ == old(buf)@.take(at as int) + le4(v as nat) + old(buf)@.skip(at + 4),
{
    let blen = buf.len();
    assert(at + 4 <= blen);
    buf.set(at, (v % 256) as u8);
    buf.set(at + 1, ((v / 256) % 256) as u8);
    buf.set(at + 2, ((v / 65536) % 256) as u8);
    buf.set(at + 3, (v / 16777216) as u8);
    proof {
        lemma_chunks256(v as nat);
        assert(buf@ =~= old(buf)@.take(at as int) + le4(v as nat) + old(buf)@.skip(at + 4));
    }
}

/// The four little-endian digits of a 32-bit value recombine to it.
proof fn lemma_le4_value(t: nat)
    requires
        t <= 0xFFFF_FFFF,
    ensures
        t == le4(t)[0] + 256 * (le4(t)[1] as int) + 65536 * (le4(t)[2] as int) + 16777216 * (le4(
            t,
        )[3] as int),
{
    lemma_chunks256(t);
}

/// Read the header's `total_bytes` field, which always equals the size of
/// the current allocation.
#[verifier::rlimit(100)]
pub fn get_total_bytes(lp: &RawListpack) -> (t: u32)
    requires
        lp.wf(),
    ensures
        t == lp.size(),
{
    let b0 = lp.buf[0] as u32;
    let b1 = lp.buf[1] as u32;
    let b2 = lp.buf[2] as u32;
    let b3 = lp.buf[3] as u32;
    proof {
        lemma_le4_value(lp.size());
        assert(b0 == le4(lp.size())[0]);
        assert(b1 == le4(lp.size())[1]);
        assert(b2 == le4(lp.size())[2]);
        assert(b3 == le4(lp.size())[3]);
    }
    b0 + 256 * b1 + 65536 * b2 + 16777216 * b3
}

/// Read the header's `num_elements` field: the exact element count, or the
/// unknown sentinel once the count has ever exceeded its 16-bit range.
pub fn get_num_elements(lp: &RawListpack) -> (c: u16)
    requires
        lp.wf(),
    ensures
        c == lp.count_field(),
{
    (lp.buf[4] as u16) + 256 * (lp.buf[5] as u16)
}

/// Create an empty listpack: header plus end marker, no entries.
pub fn new() -> (lp: RawListpack)
    ensures
        lp.wf(),
        lp@ == Seq::<Item>::empty(),
        lp.size() == HDR_SIZE + 1,
        lp.count_field() == 0,
{
    let mut buf: Vec<u8> = Vec::new();
    buf.push(7);
    buf.push(0);
    buf.push(0);
    buf.push(0);
    buf.push(0);
    buf.push(0);
    buf.push(EOF);
    let lp = RawListpack { buf, elems: Ghost(Seq::empty()) };
    proof {
        assert(entries_bytes(Seq::<Item>::empty()) == Seq::<u8>::empty());
        assert(lp.buf@ =~= lp_bytes(0, Seq::<Item>::empty()));
        lemma_count_field_roundtrip(lp, 0);
    }
    lp
}

/// The buffer splits at element `i`'s offset into the header plus the
/// first `i` packed entries, and the remaining entries plus end marker.
proof fn lemma_split_at(lp: RawListpack, i: int)
    requires
        lp.wf(),
        0 <= i <= lp@.len(),
    ensures
        lp.buf@.take(off_of(lp@, i)) == le4(lp.size()) + le2(lp.count_field()) + entries_bytes(
            lp@.take(i),
        ),
        lp.buf@.skip(off_of(lp@, i)) == entries_bytes(lp@.skip(i)) + seq![EOF],
{
    lemma_entries_app(lp@.take(i), lp@.skip(i));
    assert(lp@.take(i) + lp@.skip(i) =~= lp@);
    lemma_off_bounds_weak(lp@, i);
    assert(lp.buf@.take(off_of(lp@, i)) =~= le4(lp.size()) + le2(lp.count_field())
        + entries_bytes(lp@.take(i)));
    assert(lp.buf@.skip(off_of(lp@, i)) =~= entries_bytes(lp@.skip(i)) + seq![EOF]);
}

/// An element offset never passes the end marker.
proof fn lemma_off_bounds_weak(vs: Seq<Item>, i: int)
    requires
        0 <= i <= vs.len(),
    ensures
        HDR_SIZE <= off_of(vs, i) <= HDR_SIZE + entries_bytes(vs).len(),
        entries_bytes(vs.take(i)).len() <= entries_bytes(vs).len(),
{
    lemma_entries_app(vs.take(i), vs.skip(i));
    assert(vs.take(i) + vs.skip(i) =~= vs);
}

/// After the bytes and the ghost elements of a listpack have been rebuilt
/// as one image, well-formedness and the header fields follow.
proof fn lemma_establish_wf(lp: RawListpack, c: nat)
    requires
        items_wf(lp.elems@),
        lp.buf@ == lp_bytes(c, lp.elems@),
        lp.buf@.len() <= 0xFFFF_FFFF,
        c < 65536,
        c == lp.elems@.len() || c == 65535,
    ensures
        lp.wf(),
        lp.count_field() == c,
        lp.size() == HDR_SIZE + 1 + entries_bytes(lp.elems@).len(),
{
    lemma_count_field_roundtrip(lp, c);
}

/// Append a value at the tail. Fails, mutating nothing, exactly when the
/// grown buffer would no longer fit the 32-bit `total_bytes` field.
#[verifier::rlimit(100)]
pub fn append(lp: &mut RawListpack, v: &Value) -> (ok: bool)
    requires
        old(lp).wf(),
        v.wf(),
    ensures
        final(lp).wf(),
        ok <==> old(lp).size() + entry_sz(v@) <= 0xFFFF_FFFF,
        ok ==> final(lp)@ == old(lp)@.push(v@),
        ok ==> final(lp).size() == old(lp).size() + entry_sz(v@),
        ok ==> final(lp).count_field() == (if old(lp).count_field() == 65535 {
            65535nat
        } else {
            (old(lp).count_field() + 1) as nat
        }),
        !ok ==> *final(lp) == *old(lp),
{
    let ghost vs = lp@;
    let ghost c0 = lp.count_field();
    proof {
        lemma_val_enc_facts(v@);
        lemma_count_bound(*lp);
    }
    let total = get_total_bytes(lp);
    let esz = v.size_for_write();
    if total as u64 + esz as u64 > 0xFFFF_FFFF {
        return false;
    }
    let numele = get_num_elements(lp);
    let entry = v.encode();
    proof {
        lemma_split_at(*lp, vs.len() as int);
        lemma_off_end(vs);
        assert(vs.skip(vs.len() as int) =~= Seq::<Item>::empty());
    }
    // the new entry overwrites the end marker; a fresh marker follows it
    lp.buf.pop();
    lp.buf.extend_from_slice(entry.as_slice());
    lp.buf.push(EOF);
    proof {
        assert(lp.buf@ =~= old(lp).buf@.take(total - 1) + entry@ + old(lp).buf@.skip(
            total - 1,
        ));
    }
    let c1: u16 = if numele != HDR_NUMELE_UNKNOWN {
        numele + 1
    } else {
        numele
    };
    if numele != HDR_NUMELE_UNKNOWN {
        write_u16_le(&mut lp.buf, 4, c1);
    }
    write_u32_le(&mut lp.buf, 0, total + esz);
    proof {
        lp.elems@ = vs.push(v@);
    }
    proof {
        let vs1 = vs.push(v@);
        assert(vs1 =~= vs + seq![v@]);
        lemma_entries_app(vs, seq![v@]);
        lemma_entries_single(v@);
        assert(vs.take(vs.len() as int) =~= vs);
        assert(lp.buf@ =~= lp_bytes(c1 as nat, vs1));
        assert(items_wf(vs1));
        lemma_establish_wf(*lp, c1 as nat);
    }
    true
}

/// The position a new element lands at: before or after the target, or at
/// the tail when there is no target.
pub open spec fn insertion_index(n: int, place: Placement, target: Option<Element>) -> int {
    match target {
        Option::None => n,
        Option::Some(t) => match place {
            Placement::Before => t.idx(),
            Placement::After => t.idx() + 1,
        },
    }
}

/// Insert a value before or after a target element; with no target the
/// element is appended. Fails, mutating nothing, exactly when the grown
/// buffer would no longer fit the 32-bit `total_bytes` field.
#[verifier::rlimit(100)]
pub fn insert(lp: &mut RawListpack, v: &Value, place: Placement, target: Option<Element>) -> (r:
    Option<Element>)
    requires
        old(lp).wf(),
        v.wf(),
        target matches Option::Some(t) ==> old(lp).valid_element(t),
    ensures
        final(lp).wf(),
        r is Some <==> old(lp).size() + entry_sz(v@) <= 0xFFFF_FFFF,
        match r {
            Option::Some(e) => {
                let i = insertion_index(old(lp)@.len() as int, place, target);
                &&& final(lp)@ == old(lp)@.insert(i, v@)
                &&& e.idx() == i
                &&& final(lp).valid_element(e)
                &&& final(lp).size() == old(lp).size() + entry_sz(v@)
                &&& final(lp).count_field() == (if old(lp).count_field() == 65535 {
                    65535nat
                } else {
                    (old(lp).count_field() + 1) as nat
                })
            },
            Option::None => *final(lp) == *old(lp),
        },
{
    let ghost vs = lp@;
    let ghost c0 = lp.count_field();
    let ghost i = insertion_index(vs.len() as int, place, target);
    proof {
        lemma_val_enc_facts(v@);
        lemma_count_bound(*lp);
    }
    let total = get_total_bytes(lp);
    let esz = v.size_for_write();
    if total as u64 + esz as u64 > 0xFFFF_FFFF {
        return None;
    }
    let at: usize = match target {
        None => total as usize - 1,
        Some(t) => match place {
            Placement::Before => t.off,
            Placement::After => {
                proof {
                    lemma_element_bounds(*lp, t);
                }
                skip(lp, t).off
            },
        },
    };
    proof {
        lemma_off_end(vs);
        assert(at == off_of(vs, i));
        lemma_split_at(*lp, i);
        lemma_off_bounds_weak(vs, i);
    }
    let numele = get_num_elements(lp);
    let entry = v.encode();
    splice(&mut lp.buf, at, 0, &entry);
    let c1: u16 = if numele != HDR_NUMELE_UNKNOWN {
        numele + 1
    } else {
        numele
    };
    if numele != HDR_NUMELE_UNKNOWN {
        write_u16_le(&mut lp.buf, 4, c1);
    }
    write_u32_le(&mut lp.buf, 0, total + esz);
    proof {
        lp.elems@ = vs.insert(i, v@);
    }
    proof {
        let vs1 = vs.insert(i, v@);
        assert(vs1 =~= vs.take(i) + (seq![v@] + vs.skip(i)));
        lemma_entries_app(vs.take(i), seq![v@] + vs.skip(i));
        lemma_entries_app(seq![v@], vs.skip(i));
        lemma_entries_single(v@);
        assert(lp.buf@ =~= lp_bytes(c1 as nat, vs1));
        assert(items_wf(vs1));
        lemma_establish_wf(*lp, c1 as nat);
        assert(vs1.take(i) =~= vs.take(i));
    }
    Some(Element { off: at, index: Ghost(i) })
}

/// Replace the value of the element at `p` in place. Fails, mutating
/// nothing, exactly when the resized buffer would no longer fit the 32-bit
/// `total_bytes` field.
#[verifier::rlimit(100)]
pub fn replace(lp: &mut RawListpack, p: Element, v: &Value) -> (r: Option<Element>)
    requires
        old(lp).wf(),
        old(lp).valid_element(p),
        v.wf(),
    ensures
        final(lp).wf(),
        r is Some <==> old(lp).size() - entry_sz(old(lp)@[p.idx()]) + entry_sz(v@)
            <= 0xFFFF_FFFF,
        match r {
            Option::Some(e) => {
                &&& final(lp)@ == old(lp)@.update(p.idx(), v@)
                &&& e.idx() == p.idx()
                &&& e.spec_off() == p.spec_off()
                &&& final(lp).valid_element(e)
                &&& final(lp).size() == old(lp).size() - entry_sz(old(lp)@[p.idx()]) + entry_sz(
                    v@,
                )
                &&& final(lp).count_field() == old(lp).count_field()
            },
            Option::None => *final(lp) == *old(lp),
        },
{
    let ghost vs = lp@;
    let ghost c0 = lp.count_field();
    let ghost i = p.idx();
    let ghost old_it = vs[i];
    proof {
        lemma_val_enc_facts(v@);
        lemma_val_enc_facts(old_it);
        lemma_element_bounds(*lp, p);
    }
    let total = get_total_bytes(lp);
    let old_esz = get_encoded_size(lp, p);
    let old_bsz = backlen_size(old_esz as u64);
    let n = old_esz as usize + old_bsz as usize;
    let esz = v.size_for_write();
    if (total as u64 - n as u64) + esz as u64 > 0xFFFF_FFFF {
        return None;
    }
    proof {
        lemma_split_at(*lp, i);
        lemma_split_at(*lp, i + 1);
        lemma_off_bounds_weak(vs, i);
        assert(off_of(vs, i + 1) == p.spec_off() + n);
    }
    let entry = v.encode();
    splice(&mut lp.buf, p.off, n, &entry);
    write_u32_le(&mut lp.buf, 0, total - n as u32 + esz);
    proof {
        lp.elems@ = vs.update(i, v@);
    }
    proof {
        let vs1 = vs.update(i, v@);
        assert(vs1 =~= vs.take(i) + (seq![v@] + vs.skip(i + 1)));
        lemma_entries_app(vs.take(i), seq![v@] + vs.skip(i + 1));
        lemma_entries_app(seq![v@], vs.skip(i + 1));
        lemma_entries_single(v@);
        assert(lp.buf@ =~= lp_bytes(c0, vs1));
        assert(items_wf(vs1));
        lemma_establish_wf(*lp, c0);
        assert(vs1.take(i) =~= vs.take(i));
    }
    Some(Element { off: p.off, index: Ghost(i) })
}

/// Delete the element at `p`, returning a reference to its former
/// successor, or nothing if the deleted element was the last.
#[verifier::rlimit(100)]
pub fn delete(lp: &mut RawListpack, p: Element) -> (r: Option<Element>)
    requires
        old(lp).wf(),
        old(lp).valid_element(p),
    ensures
        final(lp).wf(),
        final(lp)@ == old(lp)@.remove(p.idx()),
        final(lp).size() == old(lp).size() - entry_sz(old(lp)@[p.idx()]),
        final(lp).count_field() == (if old(lp).count_field() == 65535 {
            65535nat
        } else {
            (old(lp).count_field() - 1) as nat
        }),
        match r {
            Option::Some(q) => p.idx() < final(lp)@.len() && final(lp).valid_element(q)
                && q.idx() == p.idx(),
            Option::None => p.idx() == final(lp)@.len(),
        },
{
    let ghost vs = lp@;
    let ghost c0 = lp.count_field();
    let ghost i = p.idx();
    proof {
        lemma_val_enc_facts(vs[i]);
        lemma_element_bounds(*lp, p);
        lemma_count_bound(*lp);
    }
    let total = get_total_bytes(lp);
    let esz = get_encoded_size(lp, p);
    let bsz = backlen_size(esz as u64);
    let n = esz as usize + bsz as usize;
    let numele = get_num_elements(lp);
    proof {
        lemma_split_at(*lp, i);
        lemma_split_at(*lp, i + 1);
        lemma_off_bounds_weak(vs, i);
        assert(off_of(vs, i + 1) == p.spec_off() + n);
        if numele != HDR_NUMELE_UNKNOWN {
            assert(vs.len() >= 1);
        }
    }
    let empty: Vec<u8> = Vec::new();
    splice(&mut lp.buf, p.off, n, &empty);
    let c1: u16 = if numele != HDR_NUMELE_UNKNOWN {
        numele - 1
    } else {
        numele
    };
    if numele != HDR_NUMELE_UNKNOWN {
        write_u16_le(&mut lp.buf, 4, c1);
    }
    let new_total = total - n as u32;
    write_u32_le(&mut lp.buf, 0, new_total);
    proof {
        lp.elems@ = vs.remove(i);
    }
    proof {
        let vs1 = vs.remove(i);
        assert(vs1 =~= vs.take(i) + vs.skip(i + 1));
        lemma_entries_app(vs.take(i), vs.skip(i + 1));
        assert(lp.buf@ =~= lp_bytes(c1 as nat, vs1));
        assert(items_wf(vs1));
        lemma_establish_wf(*lp, c1 as nat);
        assert(vs1.take(i) =~= vs.take(i));
        lemma_off_bounds(vs1, i);
        lemma_off_end(vs1);
    }
    if (p.off as u32) < new_total - 1 {
        Some(Element { off: p.off, index: Ghost(i) })
    } else {
        None
    }
}

/// The number of elements held. Answered from the header count when it is
/// known; otherwise by a full scan whose result is cached back into the
/// header if it fits the 16-bit field.
pub fn length(lp: &mut RawListpack) -> (n: u32)
    requires
        old(lp).wf(),
    ensures
        final(lp).wf(),
        final(lp)@ == old(lp)@,
        n == old(lp)@.len(),
        old(lp).count_field() != 65535 ==> n == old(lp).count_field(),
        final(lp).size() == old(lp).size(),
        final(lp).count_field() == (if old(lp)@.len() < 65535 {
            old(lp)@.len()
        } else {
            65535nat
        }),
{
    proof {
        lemma_count_bound(*lp);
    }
    let numele = get_num_elements(lp);
    if numele != HDR_NUMELE_UNKNOWN {
        return numele as u32;
    }
    let mut count: u32 = 0;
    let mut cur = first(&*lp);
    while cur.is_some()
        invariant
            *lp == *old(lp),
            lp.wf(),
            count <= lp@.len() < 0x8000_0000,
            match cur {
                Option::Some(e) => lp.valid_element(e) && e.idx() == count,
                Option::None => count == lp@.len(),
            },
        decreases lp@.len() - count,
    {
        let e = cur.unwrap();
        count = count + 1;
        cur = next(&*lp, e);
    }
    if count < 65535 {
        let ghost vs = lp@;
        write_u16_le(&mut lp.buf, 4, count as u16);
        proof {
            assert(lp.buf@ =~= lp_bytes(count as nat, vs));
            lemma_establish_wf(*lp, count as nat);
        }
    }
    count
}

/// Find the element at `index`: non-negative indices count from the head,
/// negative ones from the tail (`-1` is the last element). Out-of-range
/// indices yield nothing. When the header count is known the cheaper scan
/// direction is chosen; otherwise the sign of `index` picks it.
pub fn seek(lp: &RawListpack, index: i64) -> (r: Option<Element>)
    requires
        lp.wf(),
    ensures
        match r {
            Option::Some(q) => {
                let j = if index < 0 {
                    lp@.len() + index
                } else {
                    index as int
                };
                &&& 0 <= j < lp@.len()
                &&& lp.valid_element(q)
                &&& q.idx() == j
            },
            Option::None => {
                let j = if index < 0 {
                    lp@.len() + index
                } else {
                    index as int
                };
                !(0 <= j < lp@.len())
            },
        },
{
    let ghost n = lp@.len() as int;
    let ghost j = if index < 0 {
        n + index
    } else {
        index as int
    };
    proof {
        lemma_count_bound(*lp);
    }
    let mut idx: i64 = index;
    let mut forward: bool = true;
    let numele = get_num_elements(lp);
    if numele != HDR_NUMELE_UNKNOWN {
        if idx < 0 {
            idx = numele as i64 + idx;
        }
        if idx < 0 {
            return None;
        }
        if idx >= numele as i64 {
            return None;
        }
        if idx > numele as i64 / 2 {
            forward = false;
            idx = idx - numele as i64;
        }
    } else {
        if idx < 0 {
            forward = false;
        }
    }
    if forward {
        let mut ele = match first(lp) {
            Some(e) => e,
            None => {
                return None;
            },
        };
        while idx > 0
            invariant
                lp.wf(),
                lp.valid_element(ele),
                idx >= 0,
                ele.idx() + idx == j,
                n == lp@.len(),
                j == if index < 0 {
                    lp@.len() + index
                } else {
                    index as int
                },
            decreases idx,
        {
            match next(lp, ele) {
                Some(e) => {
                    ele = e;
                    idx = idx - 1;
                },
                None => {
                    return None;
                },
            }
        }
        Some(ele)
    } else {
        let mut ele = match last(lp) {
            Some(e) => e,
            None => {
                return None;
            },
        };
        while idx < -1
            invariant
                lp.wf(),
                lp.valid_element(ele),
                idx <= -1,
                ele.idx() == j - idx - 1,
                n == lp@.len(),
                j == if index < 0 {
                    lp@.len() + index
                } else {
                    index as int
                },
            decreases -1 - idx,
        {
            match prev(lp, ele) {
                Some(e) => {
                    ele = e;
                    idx = idx + 1;
                },
                None => {
                    return None;
                },
            }
        }
        Some(ele)
    }
}

/// The 64-bit integer value an integer-like argument is stored as.
pub open spec fn int_item<I: crate::convert::Int>(v: I) -> Item {
    Item::Int(v.spec_to_int64() as int)
}

/// The zigzag-folded integer value a signed argument is stored as.
pub open spec fn signed_item<I: crate::convert::Int>(v: I) -> Item {
    Item::Int(crate::convert::spec_zigzag_fold(v.spec_to_int64()))
}

/// Reading a signed-stored value back as a signed integer returns exactly
/// the value that was handed in: the fold that the signed appends apply is
/// undone by the unfold that the signed read applies.
pub proof fn lemma_signed_round_trip<I: crate::convert::Int>(v: I)
    requires
        -4611686018427387904 <= v.spec_to_int64() <= 4611686018427387903,
    ensures
        crate::convert::spec_zigzag(crate::convert::to_i64(signed_item(v)))
            == v.spec_to_int64(),
{
    crate::convert::lemma_zigzag_round_trip(v.spec_to_int64());
}

/// The byte-string value a string-like argument is stored as.
pub open spec fn str_item<S: crate::convert::Str>(v: &S) -> Item {
    Item::Str(v.spec_payload())
}

/// Append an integer of any supported width.
pub fn append_int<I: crate::convert::Int>(lp: &mut RawListpack, v: I) -> (ok: bool)
    requires
        old(lp).wf(),
    ensures
        final(lp).wf(),
        ok <==> old(lp).size() + entry_sz(int_item(v)) <= 0xFFFF_FFFF,
        ok ==> final(lp)@ == old(lp)@.push(int_item(v)),
        ok ==> final(lp).size() == old(lp).size() + entry_sz(int_item(v)),
        ok ==> final(lp).count_field() == (if old(lp).count_field() == 65535 {
            65535nat
        } else {
            (old(lp).count_field() + 1) as nat
        }),
        !ok ==> *final(lp) == *old(lp),
{
    append(lp, &Value::Int(v.to_int64()))
}

/// Append an integer of any supported width, zigzag-folded so that small
/// values of either sign take a short encoding; `get_signed_int` undoes
/// the fold. The folded value must fit the stored 64-bit integer.
pub fn append_signed_int<I: crate::convert::Int>(lp: &mut RawListpack, v: I) -> (ok: bool)
    requires
        old(lp).wf(),
        -4611686018427387904 <= v.spec_to_int64() <= 4611686018427387903,
    ensures
        crate::convert::spec_zigzag(crate::convert::to_i64(signed_item(v)))
            == v.spec_to_int64(),
        final(lp).wf(),
        ok <==> old(lp).size() + entry_sz(signed_item(v)) <= 0xFFFF_FFFF,
        ok ==> final(lp)@ == old(lp)@.push(signed_item(v)),
        ok ==> final(lp).size() == old(lp).size() + entry_sz(signed_item(v)),
        ok ==> final(lp).count_field() == (if old(lp).count_field() == 65535 {
            65535nat
        } else {
            (old(lp).count_field() + 1) as nat
        }),
        !ok ==> *final(lp) == *old(lp),
{
    proof {
        lemma_signed_round_trip(v);
    }
    append(lp, &Value::Int(crate::convert::zigzag_fold(v.to_int64())))
}

/// Append a value as a little-endian byte-string payload.
pub fn append_string<S: crate::convert::Str>(lp: &mut RawListpack, v: &S) -> (ok: bool)
    requires
        old(lp).wf(),
        v.spec_payload().len() + 10 <= 0xFFFF_FFFF,
    ensures
        final(lp).wf(),
        ok <==> old(lp).size() + entry_sz(str_item(v)) <= 0xFFFF_FFFF,
        ok ==> final(lp)@ == old(lp)@.push(str_item(v)),
        ok ==> final(lp).size() == old(lp).size() + entry_sz(str_item(v)),
        ok ==> final(lp).count_field() == (if old(lp).count_field() == 65535 {
            65535nat
        } else {
            (old(lp).count_field() + 1) as nat
        }),
        !ok ==> *final(lp) == *old(lp),
{
    append(lp, &v.as_value())
}

/// Insert an integer of any supported width.
pub fn insert_int<I: crate::convert::Int>(
    lp: &mut RawListpack,
    v: I,
    place: Placement,
    target: Option<Element>,
) -> (r: Option<Element>)
    requires
        old(lp).wf(),
        target matches Option::Some(t) ==> old(lp).valid_element(t),
    ensures
        final(lp).wf(),
        r is Some <==> old(lp).size() + entry_sz(int_item(v)) <= 0xFFFF_FFFF,
        match r {
            Option::Some(e) => {
                let i = insertion_index(old(lp)@.len() as int, place, target);
                &&& final(lp)@ == old(lp)@.insert(i, int_item(v))
                &&& e.idx() == i
                &&& final(lp).valid_element(e)
                &&& final(lp).size() == old(lp).size() + entry_sz(int_item(v))
                &&& final(lp).count_field() == (if old(lp).count_field() == 65535 {
                    65535nat
                } else {
                    (old(lp).count_field() + 1) as nat
                })
            },
            Option::None => *final(lp) == *old(lp),
        },
{
    insert(lp, &Value::Int(v.to_int64()), place, target)
}

/// Insert an integer of any supported width, zigzag-folded; the folded
/// value must fit the stored 64-bit integer.
pub fn insert_signed_int<I: crate::convert::Int>(
    lp: &mut RawListpack,
    v: I,
    place: Placement,
    target: Option<Element>,
) -> (r: Option<Element>)
    requires
        old(lp).wf(),
        -4611686018427387904 <= v.spec_to_int64() <= 4611686018427387903,
        target matches Option::Some(t) ==> old(lp).valid_element(t),
    ensures
        crate::convert::spec_zigzag(crate::convert::to_i64(signed_item(v)))
            == v.spec_to_int64(),
        final(lp).wf(),
        r is Some <==> old(lp).size() + entry_sz(signed_item(v)) <= 0xFFFF_FFFF,
        match r {
            Option::Some(e) => {
                let i = insertion_index(old(lp)@.len() as int, place, target);
                &&& final(lp)@ == old(lp)@.insert(i, signed_item(v))
                &&& e.idx() == i
                &&& final(lp).valid_element(e)
                &&& final(lp).size() == old(lp).size() + entry_sz(signed_item(v))
                &&& final(lp).count_field() == (if old(lp).count_field() == 65535 {
                    65535nat
                } else {
                    (old(lp).count_field() + 1) as nat
                })
            },
            Option::None => *final(lp) == *old(lp),
        },
{
    proof {
        lemma_signed_round_trip(v);
    }
    insert(lp, &Value::Int(crate::convert::zigzag_fold(v.to_int64())), place, target)
}

/// Insert a value as a little-endian byte-string payload.
pub fn insert_string<S: crate::convert::Str>(
    lp: &mut RawListpack,
    v: &S,
    place: Placement,
    target: Option<Element>,
) -> (r: Option<Element>)
    requires
        old(lp).wf(),
        v.spec_payload().len() + 10 <= 0xFFFF_FFFF,
        target matches Option::Some(t) ==> old(lp).valid_element(t),
    ensures
        final(lp).wf(),
        r is Some <==> old(lp).size() + entry_sz(str_item(v)) <= 0xFFFF_FFFF,
        match r {
            Option::Some(e) => {
                let i = insertion_index(old(lp)@.len() as int, place, target);
                &&& final(lp)@ == old(lp)@.insert(i, str_item(v))
                &&& e.idx() == i
                &&& final(lp).valid_element(e)
                &&& final(lp).size() == old(lp).size() + entry_sz(str_item(v))
                &&& final(lp).count_field() == (if old(lp).count_field() == 65535 {
                    65535nat
                } else {
                    (old(lp).count_field() + 1) as nat
                })
            },
            Option::None => *final(lp) == *old(lp),
        },
{
    insert(lp, &v.as_value(), place, target)
}

/// Replace the element at `p` with an integer of any supported width.
pub fn replace_int<I: crate::convert::Int>(lp: &mut RawListpack, p: Element, v: I) -> (r: Option<
    Element,
>)
    requires
        old(lp).wf(),
        old(lp).valid_element(p),
    ensures
        final(lp).wf(),
        r is Some <==> old(lp).size() - entry_sz(old(lp)@[p.idx()]) + entry_sz(int_item(v))
            <= 0xFFFF_FFFF,
        match r {
            Option::Some(e) => final(lp)@ == old(lp)@.update(p.idx(), int_item(v)) && e.idx()
                == p.idx() && final(lp).valid_element(e) && final(lp).size() == old(lp).size()
                - entry_sz(old(lp)@[p.idx()]) + entry_sz(int_item(v)) && final(lp).count_field()
                == old(lp).count_field(),
            Option::None => *final(lp) == *old(lp),
        },
{
    replace(lp, p, &Value::Int(v.to_int64()))
}

/// Replace the element at `p` with a zigzag-folded integer; the folded
/// value must fit the stored 64-bit integer.
pub fn replace_signed_int<I: crate::convert::Int>(lp: &mut RawListpack, p: Element, v: I) -> (r:
    Option<Element>)
    requires
        old(lp).wf(),
        old(lp).valid_element(p),
        -4611686018427387904 <= v.spec_to_int64() <= 4611686018427387903,
    ensures
        crate::convert::spec_zigzag(crate::convert::to_i64(signed_item(v)))
            == v.spec_to_int64(),
        final(lp).wf(),
        r is Some <==> old(lp).size() - entry_sz(old(lp)@[p.idx()]) + entry_sz(signed_item(v))
            <= 0xFFFF_FFFF,
        match r {
            Option::Some(e) => final(lp)@ == old(lp)@.update(p.idx(), signed_item(v)) && e.idx()
                == p.idx() && final(lp).valid_element(e) && final(lp).size() == old(lp).size()
                - entry_sz(old(lp)@[p.idx()]) + entry_sz(signed_item(v)) && final(lp).count_field()
                == old(lp).count_field(),
            Option::None => *final(lp) == *old(lp),
        },
{
    proof {
        lemma_signed_round_trip(v);
    }
    replace(lp, p, &Value::Int(crate::convert::zigzag_fold(v.to_int64())))
}

/// Replace the element at `p` with a little-endian byte-string payload.
pub fn replace_string<S: crate::convert::Str>(lp: &mut RawListpack, p: Element, v: &S) -> (r:
    Option<Element>)
    requires
        old(lp).wf(),
        old(lp).valid_element(p),
        v.spec_payload().len() + 10 <= 0xFFFF_FFFF,
    ensures
        final(lp).wf(),
        r is Some <==> old(lp).size() - entry_sz(old(lp)@[p.idx()]) + entry_sz(str_item(v))
            <= 0xFFFF_FFFF,
        match r {
            Option::Some(e) => final(lp)@ == old(lp)@.update(p.idx(), str_item(v)) && e.idx()
                == p.idx() && final(lp).valid_element(e) && final(lp).size() == old(lp).size()
                - entry_sz(old(lp)@[p.idx()]) + entry_sz(str_item(v)) && final(lp).count_field()
                == old(lp).count_field(),
            Option::None => *final(lp) == *old(lp),
        },
{
    replace(lp, p, &v.as_value())
}

/// Collect every element's value, walking forward from the first.
pub fn iter(lp: &RawListpack) -> (out: Vec<Value>)
    requires
        lp.wf(),
    ensures
        out@.len() == lp@.len(),
        forall|i: int| 0 <= i < out@.len() ==> #[trigger] out@[i]@ == lp@[i],
{
    let mut out: Vec<Value> = Vec::new();
    let mut cur = first(lp);
    while cur.is_some()
        invariant
            lp.wf(),
            out@.len() <= lp@.len(),
            match cur {
                Option::Some(e) => lp.valid_element(e) && e.idx() == out@.len(),
                Option::None => out@.len() == lp@.len(),
            },
            forall|i: int| 0 <= i < out@.len() ==> #[trigger] out@[i]@ == lp@[i],
        decreases lp@.len() - out@.len(),
    {
        let e = cur.unwrap();
        out.push(get(lp, e));
        cur = next(lp, e);
    }
    out
}

/// Collect every element's position and value, walking forward.
pub fn iter_index(lp: &RawListpack) -> (out: Vec<(usize, Value)>)
    requires
        lp.wf(),
    ensures
        out@.len() == lp@.len(),
        forall|i: int|
            0 <= i < out@.len() ==> (#[trigger] out@[i]).0 == i && out@[i].1@ == lp@[i],
{
    proof {
        lemma_count_bound(*lp);
    }
    let mut out: Vec<(usize, Value)> = Vec::new();
    let mut index: usize = 0;
    let mut cur = first(lp);
    while cur.is_some()
        invariant
            lp.wf(),
            index == out@.len() <= lp@.len() < 0x8000_0000,
            match cur {
                Option::Some(e) => lp.valid_element(e) && e.idx() == out@.len(),
                Option::None => out@.len() == lp@.len(),
            },
            forall|i: int|
                0 <= i < out@.len() ==> (#[trigger] out@[i]).0 == i && out@[i].1@ == lp@[i],
        decreases lp@.len() - out@.len(),
    {
        let e = cur.unwrap();
        out.push((index, get(lp, e)));
        index += 1;
        cur = next(lp, e);
    }
    out
}

/// Collect every element's value, walking backward from the last.
pub fn iter_rev(lp: &RawListpack) -> (out: Vec<Value>)
    requires
        lp.wf(),
    ensures
        out@.len() == lp@.len(),
        forall|i: int| 0 <= i < out@.len() ==> #[trigger] out@[i]@ == lp@[lp@.len() - 1 - i],
{
    let mut out: Vec<Value> = Vec::new();
    let mut cur = last(lp);
    while cur.is_some()
        invariant
            lp.wf(),
            out@.len() <= lp@.len(),
            match cur {
                Option::Some(e) => lp.valid_element(e) && e.idx() == lp@.len() - 1 - out@.len(),
                Option::None => out@.len() == lp@.len(),
            },
            forall|i: int| 0 <= i < out@.len() ==> #[trigger] out@[i]@ == lp@[lp@.len() - 1 - i],
        decreases lp@.len() - out@.len(),
    {
        let e = cur.unwrap();
        out.push(get(lp, e));
        cur = prev(lp, e);
    }
    out
}

/// The first element when no cursor is given, else the element after the
/// cursor.
pub fn first_or_next(lp: &RawListpack, after: Option<Element>) -> (r: Option<Element>)
    requires
        lp.wf(),
        after matches Option::Some(t) ==> lp.valid_element(t),
    ensures
        match r {
            Option::Some(q) => lp.valid_element(q) && q.idx() == (match after {
                Option::Some(t) => t.idx() + 1,
                Option::None => 0int,
            }),
            Option::None => (match after {
                Option::Some(t) => t.idx() + 1 == lp@.len(),
                Option::None => lp@.len() == 0,
            }),
        },
{
    match after {
        Some(t) => next(lp, t),
        None => first(lp),
    }
}

/// The last element when no cursor is given, else the element before the
/// cursor.
pub fn last_or_prev(lp: &RawListpack, before: Option<Element>) -> (r: Option<Element>)
    requires
        lp.wf(),
        before matches Option::Some(t) ==> lp.valid_element(t),
    ensures
        match r {
            Option::Some(q) => lp.valid_element(q) && q.idx() == (match before {
                Option::Some(t) => t.idx() - 1,
                Option::None => lp@.len() - 1,
            }),
            Option::None => (match before {
                Option::Some(t) => t.idx() == 0,
                Option::None => lp@.len() == 0,
            }),
        },
{
    match before {
        Some(t) => prev(lp, t),
        None => last(lp),
    }
}

/// Inserting at the tail position yields the same sequence as appending:
/// the element lands after every existing one.
pub proof fn lemma_insert_at_end_is_append(vs: Seq<Item>, v: Item)
    ensures
        vs.insert(vs.len() as int, v) == vs.push(v),
{
    assert(vs.insert(vs.len() as int, v) =~= vs.push(v));
}

/// Inserting after the current last element, or with no target under
/// either placement, resolves to the tail position, so either call is
/// equivalent to an append.
pub proof fn lemma_insert_placement_equivalence(n: int, t: Element, place: Placement)
    requires
        t.idx() == n - 1,
    ensures
        insertion_index(n, Placement::After, Option::Some(t)) == n,
        insertion_index(n, place, Option::None) == n,
{
}

/// What a value must be when its encoding starts at position `p` of `s`:
/// the tag byte pins the class, the class pins the shape and size.
proof fn lemma_match_by_tag(s: Seq<u8>, p: int, it: Item)
    requires
        starts_with_value(s, p, it),
    ensures
        s[p] == val_enc(it)[0],
        s[p] < 128 ==> (it matches Item::Int(i) && 0 <= i <= 127 && s[p] == i && val_enc(it).len()
            == 1),
        192 <= s[p] < 224 ==> (it matches Item::Int(i) && -4096 <= i <= 4095 && !(0 <= i <= 127)
            && val_enc(it).len() == 2),
        s[p] == 0xF1 ==> (it matches Item::Int(i) && -32768 <= i <= 32767 && !(-4096 <= i <= 4095)
            && val_enc(it).len() == 3),
        s[p] == 0xF2 ==> (it matches Item::Int(i) && -8388608 <= i <= 8388607 && !(-32768 <= i
            <= 32767) && val_enc(it).len() == 4),
        s[p] == 0xF3 ==> (it matches Item::Int(i) && -2147483648 <= i <= 2147483647 && !(-8388608
            <= i <= 8388607) && val_enc(it).len() == 5),
        s[p] == 0xF4 ==> (it matches Item::Int(i) && !(-2147483648 <= i <= 2147483647) && val_enc(
            it,
        ).len() == 9),
        128 <= s[p] < 192 ==> (it matches Item::Str(b) && b.len() == s[p] - 128 && val_enc(
            it,
        ).len() == 1 + b.len()),
        224 <= s[p] < 240 ==> (it matches Item::Str(b) && 64 <= b.len() < 4096 && s[p] == 224
            + b.len() / 256 && val_enc(it).len() == 2 + b.len()),
        s[p] == 0xF0 ==> (it matches Item::Str(b) && b.len() >= 4096 && val_enc(it).len() == 5
            + b.len()),
        s[p] < 0xF5,
{
    lemma_value_bytes(s, p, it);
    lemma_tag_of(it);
    lemma_val_enc_facts(it);
}

/// The number of bytes the tag byte at position `p` declares its
/// tag+payload to take; when a string's length prefix itself runs past the
/// buffer, the declared size is taken to exceed what is available.
pub open spec fn declared_len(s: Seq<u8>, p: int) -> int {
    let tag = s[p];
    if tag < 128 {
        1
    } else if tag < 192 {
        1 + (tag - 128)
    } else if tag < 224 {
        2
    } else if tag < 240 {
        if p + 2 <= s.len() {
            2 + (tag - 224) * 256 + s[p + 1]
        } else {
            s.len() - p + 1
        }
    } else if tag == 0xF0 {
        if p + 5 <= s.len() {
            5 + s[p + 1] + 256 * (s[p + 2] as int) + 65536 * (s[p + 3] as int) + 16777216 * (s[p
                + 4] as int)
        } else {
            s.len() - p + 1
        }
    } else if tag == 0xF1 {
        3
    } else if tag == 0xF2 {
        4
    } else if tag == 0xF3 {
        5
    } else if tag == 0xF4 {
        9
    } else {
        1
    }
}

/// Decode the tag+payload beginning at offset `p` of a raw byte buffer,
/// returning the value and the number of bytes its tag+payload takes.
/// An unrecognized tag byte does not fail: it decodes to the deterministic
/// corruption sentinel integer, consuming the one byte, so corrupt data is
/// observable on inspection. The result is nothing exactly when the tag
/// declares a payload that runs past the end of the buffer.
#[verifier::rlimit(100)]
pub fn decode_value(buf: &Vec<u8>, p: usize) -> (r: Option<(Value, usize)>)
    requires
        p < buf@.len(),
    ensures
        buf@[p as int] >= 0xF5 ==> (r matches Some(t) && t.0@ == Item::Int(
            12345678900000000 + buf@[p as int],
        ) && t.1 == 1),
        forall|it: Item|
            starts_with_value(buf@, p as int, it) ==> (r matches Some(t) && t.0@ == it && t.1
                == val_enc(it).len()),
        r is None <==> p + declared_len(buf@, p as int) > buf@.len(),
        r matches Some(t) ==> t.1 == declared_len(buf@, p as int),
{
    let blen = buf.len();
    let tag = buf[p];
    if is_7bit_uint(tag) {
        let v = Value::Int(tag as i64);
        proof {
            assert forall|it: Item| starts_with_value(buf@, p as int, it) implies v@ == it && 1
                == val_enc(it).len() by {
                lemma_match_by_tag(buf@, p as int, it);
            }
        }
        Some((v, 1))
    } else if is_6bit_str(tag) {
        let slen = (tag - 128) as usize;
        if blen - p - 1 < slen {
            proof {
                assert forall|it: Item| starts_with_value(buf@, p as int, it) implies false by {
                    lemma_match_by_tag(buf@, p as int, it);
                }
            }
            return None;
        }
        let s = copy_bytes(buf, p + 1, slen);
        proof {
            assert forall|it: Item| starts_with_value(buf@, p as int, it) implies Item::Str(s@)
                == it && 1 + slen == val_enc(it).len() by {
                lemma_match_by_tag(buf@, p as int, it);
                lemma_value_bytes(buf@, p as int, it);
                let b = it->Str_0;
                assert forall|j: int| 0 <= j < b.len() implies s@[j] == b[j] by {
                    assert(buf@[p + 1 + j] == val_enc(it)[1 + j]);
                    assert(val_enc(it)[1 + j] == b[j]);
                }
                assert(s@ =~= b);
            }
        }
        Some((Value::String(s), 1 + slen))
    } else if is_13bit_int(tag) {
        if blen - p < 2 {
            proof {
                assert forall|it: Item| starts_with_value(buf@, p as int, it) implies false by {
                    lemma_match_by_tag(buf@, p as int, it);
                }
            }
            return None;
        }
        let b1 = buf[p + 1];
        let uval: u64 = ((tag - 192) as u64) * 256 + b1 as u64;
        let v: Value = if uval >= 4096 {
            Value::Int(-((8191 - uval) as i64) - 1)
        } else {
            Value::Int(uval as i64)
        };
        proof {
            assert forall|it: Item| starts_with_value(buf@, p as int, it) implies v@ == it && 2
                == val_enc(it).len() by {
                lemma_match_by_tag(buf@, p as int, it);
                lemma_value_bytes(buf@, p as int, it);
                let i = it->Int_0;
                lemma_fundamental_div_mod(crate::encoding::bias(i, 8192) as int, 256);
                assert(buf@[p + 1] == val_enc(it)[1]);
                assert(uval == crate::encoding::bias(i, 8192));
            }
        }
        Some((v, 2))
    } else if is_16bit_int(tag) {
        if blen - p < 3 {
            proof {
                assert forall|it: Item| starts_with_value(buf@, p as int, it) implies false by {
                    lemma_match_by_tag(buf@, p as int, it);
                }
            }
            return None;
        }
        let b1 = buf[p + 1] as u64;
        let b2 = buf[p + 2] as u64;
        let uval: u64 = b1 + 256 * b2;
        let v: Value = if uval >= 32768 {
            Value::Int(-((65535 - uval) as i64) - 1)
        } else {
            Value::Int(uval as i64)
        };
        proof {
            assert forall|it: Item| starts_with_value(buf@, p as int, it) implies v@ == it && 3
                == val_enc(it).len() by {
                lemma_match_by_tag(buf@, p as int, it);
                lemma_value_bytes(buf@, p as int, it);
                let i = it->Int_0;
                let u = crate::encoding::bias(i, 65536);
                lemma_chunks256(u);
                assert(u / 65536 == 0) by {
                    lemma_basic_div(u as int, 65536);
                }
                assert(buf@[p + 1] == val_enc(it)[1] && buf@[p + 2] == val_enc(it)[2]);
                assert(uval == u);
            }
        }
        Some((v, 3))
    } else if is_24bit_int(tag) {
        if blen - p < 4 {
            proof {
                assert forall|it: Item| starts_with_value(buf@, p as int, it) implies false by {
                    lemma_match_by_tag(buf@, p as int, it);
                }
            }
            return None;
        }
        let b1 = buf[p + 1] as u64;
        let b2 = buf[p + 2] as u64;
        let b3 = buf[p + 3] as u64;
        let uval: u64 = b1 + 256 * b2 + 65536 * b3;
        let v: Value = if uval >= 8388608 {
            Value::Int(-((16777215 - uval) as i64) - 1)
        } else {
            Value::Int(uval as i64)
        };
        proof {
            assert forall|it: Item| starts_with_value(buf@, p as int, it) implies v@ == it && 4
                == val_enc(it).len() by {
                lemma_match_by_tag(buf@, p as int, it);
                lemma_value_bytes(buf@, p as int, it);
                let i = it->Int_0;
                let u = crate::encoding::bias(i, 16777216);
                lemma_chunks256(u);
                assert(u / 16777216 == 0) by {
                    lemma_basic_div(u as int, 16777216);
                }
                assert(buf@[p + 1] == val_enc(it)[1] && buf@[p + 2] == val_enc(it)[2] && buf@[p
                    + 3] == val_enc(it)[3]);
                assert(uval == u);
            }
        }
        Some((v, 4))
    } else if is_32bit_int(tag) {
        if blen - p < 5 {
            proof {
                assert forall|it: Item| starts_with_value(buf@, p as int, it) implies false by {
                    lemma_match_by_tag(buf@, p as int, it);
                }
            }
            return None;
        }
        let b1 = buf[p + 1] as u64;
        let b2 = buf[p + 2] as u64;
        let b3 = buf[p + 3] as u64;
        let b4 = buf[p + 4] as u64;
        let uval: u64 = b1 + 256 * b2 + 65536 * b3 + 16777216 * b4;
        let v: Value = if uval >= 2147483648 {
            Value::Int(-((4294967295 - uval) as i64) - 1)
        } else {
            Value::Int(uval as i64)
        };
        proof {
            assert forall|it: Item| starts_with_value(buf@, p as int, it) implies v@ == it && 5
                == val_enc(it).len() by {
                lemma_match_by_tag(buf@, p as int, it);
                lemma_value_bytes(buf@, p as int, it);
                let i = it->Int_0;
                let u = crate::encoding::bias(i, 4294967296);
                lemma_chunks256(u);
                assert(u / 4294967296 == 0) by {
                    lemma_basic_div(u as int, 4294967296);
                }
                assert(buf@[p + 1] == val_enc(it)[1] && buf@[p + 2] == val_enc(it)[2] && buf@[p
                    + 3] == val_enc(it)[3] && buf@[p + 4] == val_enc(it)[4]);
                assert(uval == u);
            }
        }
        Some((v, 5))
    } else if is_64bit_int(tag) {
        if blen - p < 9 {
            proof {
                assert forall|it: Item| starts_with_value(buf@, p as int, it) implies false by {
                    lemma_match_by_tag(buf@, p as int, it);
                }
            }
            return None;
        }
        let b1 = buf[p + 1] as u64;
        let b2 = buf[p + 2] as u64;
        let b3 = buf[p + 3] as u64;
        let b4 = buf[p + 4] as u64;
        let b5 = buf[p + 5] as u64;
        let b6 = buf[p + 6] as u64;
        let b7 = buf[p + 7] as u64;
        let b8 = buf[p + 8] as u64;
        let uval: u64 = b1 + 256 * b2 + 65536 * b3 + 16777216 * b4 + 4294967296 * b5
            + 1099511627776 * b6 + 281474976710656 * b7 + 72057594037927936 * b8;
        let v: Value = if uval >= 9223372036854775808 {
            Value::Int(-((18446744073709551615 - uval) as i64) - 1)
        } else {
            Value::Int(uval as i64)
        };
        proof {
            assert forall|it: Item| starts_with_value(buf@, p as int, it) implies v@ == it && 9
                == val_enc(it).len() by {
                lemma_match_by_tag(buf@, p as int, it);
                lemma_value_bytes(buf@, p as int, it);
                let i = it->Int_0;
                let u = crate::encoding::bias(i, 18446744073709551616);
                lemma_chunks256(u);
                assert(buf@[p + 1] == val_enc(it)[1] && buf@[p + 2] == val_enc(it)[2] && buf@[p
                    + 3] == val_enc(it)[3] && buf@[p + 4] == val_enc(it)[4] && buf@[p + 5]
                    == val_enc(it)[5] && buf@[p + 6] == val_enc(it)[6] && buf@[p + 7] == val_enc(
                    it,
                )[7] && buf@[p + 8] == val_enc(it)[8]);
                assert(uval == u);
            }
        }
        Some((v, 9))
    } else if is_12bit_str(tag) {
        if blen - p < 2 {
            proof {
                assert forall|it: Item| starts_with_value(buf@, p as int, it) implies false by {
                    lemma_match_by_tag(buf@, p as int, it);
                }
            }
            return None;
        }
        let b1 = buf[p + 1];
        let slen = ((tag - 224) as usize) * 256 + b1 as usize;
        if blen - p - 2 < slen {
            proof {
                assert forall|it: Item| starts_with_value(buf@, p as int, it) implies false by {
                    lemma_match_by_tag(buf@, p as int, it);
                    lemma_value_bytes(buf@, p as int, it);
                    let b = it->Str_0;
                    lemma_fundamental_div_mod(b.len() as int, 256);
                    assert(buf@[p + 1] == val_enc(it)[1]);
                    assert(b.len() == slen);
                }
            }
            return None;
        }
        let s = copy_bytes(buf, p + 2, slen);
        proof {
            assert forall|it: Item| starts_with_value(buf@, p as int, it) implies Item::Str(s@)
                == it && 2 + slen == val_enc(it).len() by {
                lemma_match_by_tag(buf@, p as int, it);
                lemma_value_bytes(buf@, p as int, it);
                let b = it->Str_0;
                lemma_fundamental_div_mod(b.len() as int, 256);
                assert(buf@[p + 1] == val_enc(it)[1]);
                assert(b.len() == slen);
                assert forall|j: int| 0 <= j < b.len() implies s@[j] == b[j] by {
                    assert(buf@[p + 2 + j] == val_enc(it)[2 + j]);
                    assert(val_enc(it)[2 + j] == b[j]);
                }
                assert(s@ =~= b);
            }
        }
        Some((Value::String(s), 2 + slen))
    } else if is_32bit_str(tag) {
        if blen - p < 5 {
            proof {
                assert forall|it: Item| starts_with_value(buf@, p as int, it) implies false by {
                    lemma_match_by_tag(buf@, p as int, it);
                }
            }
            return None;
        }
        let b1 = buf[p + 1] as u64;
        let b2 = buf[p + 2] as u64;
        let b3 = buf[p + 3] as u64;
        let b4 = buf[p + 4] as u64;
        let slen64: u64 = b1 + 256 * b2 + 65536 * b3 + 16777216 * b4;
        if ((blen - p - 5) as u64) < slen64 {
            proof {
                assert forall|it: Item| starts_with_value(buf@, p as int, it) implies false by {
                    lemma_match_by_tag(buf@, p as int, it);
                    lemma_value_bytes(buf@, p as int, it);
                    let b = it->Str_0;
                    lemma_le4_value(b.len());
                    assert(buf@[p + 1] == val_enc(it)[1] && buf@[p + 2] == val_enc(it)[2] && buf@[p
                        + 3] == val_enc(it)[3] && buf@[p + 4] == val_enc(it)[4]);
                    assert(b.len() == slen64);
                }
            }
            return None;
        }
        let slen = slen64 as usize;
        let s = copy_bytes(buf, p + 5, slen);
        proof {
            assert forall|it: Item| starts_with_value(buf@, p as int, it) implies Item::Str(s@)
                == it && 5 + slen == val_enc(it).len() by {
                lemma_match_by_tag(buf@, p as int, it);
                lemma_value_bytes(buf@, p as int, it);
                let b = it->Str_0;
                lemma_le4_value(b.len());
                assert(buf@[p + 1] == val_enc(it)[1] && buf@[p + 2] == val_enc(it)[2] && buf@[p
                    + 3] == val_enc(it)[3] && buf@[p + 4] == val_enc(it)[4]);
                assert(b.len() == slen);
                assert forall|j: int| 0 <= j < b.len() implies s@[j] == b[j] by {
                    assert(buf@[p + 5 + j] == val_enc(it)[5 + j]);
                    assert(val_enc(it)[5 + j] == b[j]);
                }
                assert(s@ =~= b);
            }
        }
        Some((Value::String(s), 5 + slen))
    } else {
        // no encoding class owns this tag byte: decode to the deterministic
        // corruption sentinel instead of failing
        proof {
            assert forall|it: Item| starts_with_value(buf@, p as int, it) implies false by {
                lemma_match_by_tag(buf@, p as int, it);
            }
        }
        Some((Value::Int(12345678900000000 + tag as i64), 1))
    }
}

} // verus!
