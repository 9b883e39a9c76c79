//! A listpack: a compact sequence of integers and byte strings encoded into
//! one contiguous byte buffer, with O(1) append and bidirectional traversal.
//!
//! The buffer layout is `[ total_bytes: u32 LE ][ num_elements: u16 LE ]`
//! followed by the encoded entries and a single trailing end-of-buffer byte.
//! Every entry is a tag-dispatched encoding of its value followed by a
//! variable-length, backward-readable length field that lets a reader step
//! to the previous entry.
//!
//! [`Listpack`] is the convenience wrapper: it owns the buffer and offers
//! typed getters and setters over the raw engine in [`raw`].

pub mod backlen;
pub mod convert;
pub mod encoding;
pub mod layout;
pub mod raw;

use crate::convert::{
    spec_zigzag, to_bytes, to_i128, to_i16, to_i32, to_i64, to_i8, to_isize, to_u128, to_u16,
    to_u32, to_u64, to_u8, to_usize, Int, Str,
};
use crate::encoding::{entry_sz, Item, Value};
use crate::raw::{
    insertion_index, int_item, signed_item, str_item, Element, Placement, RawListpack,
};
use vstd::prelude::*;

verus! {

/// Anything that behaves as a listpack.
pub trait ListpackLike {

}

/// An owned listpack with typed accessors; a thin layer over the raw
/// engine, holding the buffer handle for the caller.
pub struct Listpack(RawListpack);

impl ListpackLike for Listpack {

}

impl View for Listpack {
    type V = Seq<Item>;

    /// The sequence of element values held.
    closed spec fn view(&self) -> Seq<Item> {
        self.0@
    }
}

impl Listpack {
    /// The underlying buffer is a well-formed listpack image.
    pub closed spec fn wf(&self) -> bool {
        self.0.wf()
    }

    /// Current buffer size in bytes, as kept in the header.
    pub closed spec fn size(&self) -> nat {
        self.0.size()
    }

    /// The header's element-count field.
    pub closed spec fn count_field(&self) -> nat {
        self.0.count_field()
    }

    /// The reference points at an element of the current buffer.
    pub closed spec fn valid_element(&self, e: Element) -> bool {
        self.0.valid_element(e)
    }

    /// Create an empty listpack.
    pub fn new() -> (lp: Listpack)
        ensures
            lp.wf(),
            lp@ == Seq::<Item>::empty(),
            lp.size() == 7,
            lp.count_field() == 0,
    {
        Listpack(raw::new())
    }

    /// Whole size of the backing buffer in bytes.
    pub fn get_total_bytes(&self) -> (t: u32)
        requires
            self.wf(),
        ensures
            t == self.size(),
    {
        raw::get_total_bytes(&self.0)
    }

    /// The header's element-count field: the exact count, or the unknown
    /// sentinel once the count has ever left the 16-bit range.
    pub fn get_num_elements(&self) -> (c: u16)
        requires
            self.wf(),
        ensures
            c == self.count_field(),
    {
        raw::get_num_elements(&self.0)
    }

    /// Insert a value before or after a target element; with no target the
    /// value is appended. Fails exactly on 32-bit size overflow.
    pub fn insert(&mut self, v: Value, place: Placement, target: Option<Element>) -> (r: Option<
        Element,
    >)
        requires
            old(self).wf(),
            v.wf(),
            target matches Option::Some(t) ==> old(self).valid_element(t),
        ensures
            final(self).wf(),
            r is Some <==> old(self).size() + entry_sz(v@) <= 0xFFFF_FFFF,
            match r {
                Option::Some(e) => {
                    let i = insertion_index(old(self)@.len() as int, place, target);
                    &&& final(self)@ == old(self)@.insert(i, v@)
                    &&& e.idx() == i
                    &&& final(self).valid_element(e)
                    &&& final(self).size() == old(self).size() + entry_sz(v@)
                    &&& final(self).count_field() == (if old(self).count_field() == 65535 {
                    65535nat
                } else {
                    (old(self).count_field() + 1) as nat
                })
                },
                Option::None => *final(self) == *old(self),
            },
    {
        raw::insert(&mut self.0, &v, place, target)
    }

    /// Insert an explicit [`Value`]; the same operation as [`Self::insert`].
    pub fn insert_val(&mut self, v: Value, place: Placement, target: Option<Element>) -> (r: Option<
        Element,
    >)
        requires
            old(self).wf(),
            v.wf(),
            target matches Option::Some(t) ==> old(self).valid_element(t),
        ensures
            final(self).wf(),
            r is Some <==> old(self).size() + entry_sz(v@) <= 0xFFFF_FFFF,
            match r {
                Option::Some(e) => {
                    let i = insertion_index(old(self)@.len() as int, place, target);
                    &&& final(self)@ == old(self)@.insert(i, v@)
                    &&& e.idx() == i
                    &&& final(self).valid_element(e)
                    &&& final(self).size() == old(self).size() + entry_sz(v@)
                    &&& final(self).count_field() == (if old(self).count_field() == 65535 {
                    65535nat
                } else {
                    (old(self).count_field() + 1) as nat
                })
                },
                Option::None => *final(self) == *old(self),
            },
    {
        raw::insert(&mut self.0, &v, place, target)
    }

    /// Insert an integer of any supported width.
    pub fn insert_int<T: Int>(&mut self, v: T, place: Placement, target: Option<Element>) -> (r:
        Option<Element>)
        requires
            old(self).wf(),
            target matches Option::Some(t) ==> old(self).valid_element(t),
        ensures
            final(self).wf(),
            r is Some <==> old(self).size() + entry_sz(int_item(v)) <= 0xFFFF_FFFF,
            match r {
                Option::Some(e) => {
                    let i = insertion_index(old(self)@.len() as int, place, target);
                    &&& final(self)@ == old(self)@.insert(i, int_item(v))
                    &&& e.idx() == i
                    &&& final(self).valid_element(e)
                    &&& final(self).size() == old(self).size() + entry_sz(int_item(v))
                    &&& final(self).count_field() == (if old(self).count_field() == 65535 {
                    65535nat
                } else {
                    (old(self).count_field() + 1) as nat
                })
                },
                Option::None => *final(self) == *old(self),
            },
    {
        raw::insert_int(&mut self.0, v, place, target)
    }

    /// Insert an integer of any supported width, zigzag-folded; the folded
    /// value must fit the stored 64-bit integer.
    pub fn insert_signed_int<T: Int>(&mut self, v: T, place: Placement, target: Option<Element>)
        -> (r: Option<Element>)
        requires
            old(self).wf(),
            -4611686018427387904 <= v.spec_to_int64() <= 4611686018427387903,
            target matches Option::Some(t) ==> old(self).valid_element(t),
        ensures
            final(self).wf(),
            spec_zigzag(to_i64(signed_item(v))) == v.spec_to_int64(),
            r is Some <==> old(self).size() + entry_sz(signed_item(v)) <= 0xFFFF_FFFF,
            match r {
                Option::Some(e) => {
                    let i = insertion_index(old(self)@.len() as int, place, target);
                    &&& final(self)@ == old(self)@.insert(i, signed_item(v))
                    &&& e.idx() == i
                    &&& final(self).valid_element(e)
                    &&& final(self).size() == old(self).size() + entry_sz(signed_item(v))
                    &&& final(self).count_field() == (if old(self).count_field() == 65535 {
                    65535nat
                } else {
                    (old(self).count_field() + 1) as nat
                })
                },
                Option::None => *final(self) == *old(self),
            },
    {
        raw::insert_signed_int(&mut self.0, v, place, target)
    }

    /// Insert a value stored as a little-endian byte-string payload.
    pub fn insert_string<T: Str>(&mut self, v: T, place: Placement, target: Option<Element>) -> (r:
        Option<Element>)
        requires
            old(self).wf(),
            v.spec_payload().len() + 10 <= 0xFFFF_FFFF,
            target matches Option::Some(t) ==> old(self).valid_element(t),
        ensures
            final(self).wf(),
            r is Some <==> old(self).size() + entry_sz(str_item(&v)) <= 0xFFFF_FFFF,
            match r {
                Option::Some(e) => {
                    let i = insertion_index(old(self)@.len() as int, place, target);
                    &&& final(self)@ == old(self)@.insert(i, str_item(&v))
                    &&& e.idx() == i
                    &&& final(self).valid_element(e)
                    &&& final(self).size() == old(self).size() + entry_sz(str_item(&v))
                    &&& final(self).count_field() == (if old(self).count_field() == 65535 {
                    65535nat
                } else {
                    (old(self).count_field() + 1) as nat
                })
                },
                Option::None => *final(self) == *old(self),
            },
    {
        raw::insert_string(&mut self.0, &v, place, target)
    }

    /// Replace the element at `p` with a new value.
    pub fn replace(&mut self, p: Element, v: Value) -> (r: Option<Element>)
        requires
            old(self).wf(),
            old(self).valid_element(p),
            v.wf(),
        ensures
            final(self).wf(),
            r is Some <==> old(self).size() - entry_sz(old(self)@[p.idx()]) + entry_sz(v@)
                <= 0xFFFF_FFFF,
            match r {
                Option::Some(e) => final(self)@ == old(self)@.update(p.idx(), v@) && e.idx()
                    == p.idx() && final(self).valid_element(e) && final(self).size()
                    == old(self).size() - entry_sz(old(self)@[p.idx()]) + entry_sz(v@)
                    && final(self).count_field() == old(self).count_field(),
                Option::None => *final(self) == *old(self),
            },
    {
        raw::replace(&mut self.0, p, &v)
    }

    /// Replace with an explicit [`Value`]; the same operation as
    /// [`Self::replace`].
    pub fn replace_val(&mut self, p: Element, v: Value) -> (r: Option<Element>)
        requires
            old(self).wf(),
            old(self).valid_element(p),
            v.wf(),
        ensures
            final(self).wf(),
            r is Some <==> old(self).size() - entry_sz(old(self)@[p.idx()]) + entry_sz(v@)
                <= 0xFFFF_FFFF,
            match r {
                Option::Some(e) => final(self)@ == old(self)@.update(p.idx(), v@) && e.idx()
                    == p.idx() && final(self).valid_element(e) && final(self).size()
                    == old(self).size() - entry_sz(old(self)@[p.idx()]) + entry_sz(v@)
                    && final(self).count_field() == old(self).count_field(),
                Option::None => *final(self) == *old(self),
            },
    {
        raw::replace(&mut self.0, p, &v)
    }

    /// Replace the element at `p` with an integer of any supported width.
    pub fn replace_int<T: Int>(&mut self, p: Element, v: T) -> (r: Option<Element>)
        requires
            old(self).wf(),
            old(self).valid_element(p),
        ensures
            final(self).wf(),
            r is Some <==> old(self).size() - entry_sz(old(self)@[p.idx()]) + entry_sz(int_item(v))
                <= 0xFFFF_FFFF,
            match r {
                Option::Some(e) => final(self)@ == old(self)@.update(p.idx(), int_item(v))
                    && e.idx() == p.idx() && final(self).valid_element(e) && final(self).size()
                    == old(self).size() - entry_sz(old(self)@[p.idx()]) + entry_sz(int_item(v))
                    && final(self).count_field() == old(self).count_field(),
                Option::None => *final(self) == *old(self),
            },
    {
        raw::replace_int(&mut self.0, p, v)
    }

    /// Replace the element at `p` with a zigzag-folded integer; the folded
    /// value must fit the stored 64-bit integer.
    pub fn replace_signed_int<T: Int>(&mut self, p: Element, v: T) -> (r: Option<Element>)
        requires
            old(self).wf(),
            old(self).valid_element(p),
            -4611686018427387904 <= v.spec_to_int64() <= 4611686018427387903,
        ensures
            final(self).wf(),
            spec_zigzag(to_i64(signed_item(v))) == v.spec_to_int64(),
            r is Some <==> old(self).size() - entry_sz(old(self)@[p.idx()]) + entry_sz(signed_item(v))
                <= 0xFFFF_FFFF,
            match r {
                Option::Some(e) => final(self)@ == old(self)@.update(p.idx(), signed_item(v))
                    && e.idx() == p.idx() && final(self).valid_element(e) && final(self).size()
                    == old(self).size() - entry_sz(old(self)@[p.idx()]) + entry_sz(signed_item(v))
                    && final(self).count_field() == old(self).count_field(),
                Option::None => *final(self) == *old(self),
            },
    {
        raw::replace_signed_int(&mut self.0, p, v)
    }

    /// Replace the element at `p` with a little-endian byte-string payload.
    pub fn replace_string<T: Str>(&mut self, p: Element, v: T) -> (r: Option<Element>)
        requires
            old(self).wf(),
            old(self).valid_element(p),
            v.spec_payload().len() + 10 <= 0xFFFF_FFFF,
        ensures
            final(self).wf(),
            r is Some <==> old(self).size() - entry_sz(old(self)@[p.idx()]) + entry_sz(str_item(&v))
                <= 0xFFFF_FFFF,
            match r {
                Option::Some(e) => final(self)@ == old(self)@.update(p.idx(), str_item(&v))
                    && e.idx() == p.idx() && final(self).valid_element(e) && final(self).size()
                    == old(self).size() - entry_sz(old(self)@[p.idx()]) + entry_sz(str_item(&v))
                    && final(self).count_field() == old(self).count_field(),
                Option::None => *final(self) == *old(self),
            },
    {
        raw::replace_string(&mut self.0, p, &v)
    }

    /// Append an explicit [`Value`] at the tail.
    pub fn append_val(&mut self, v: Value) -> (ok: bool)
        requires
            old(self).wf(),
            v.wf(),
        ensures
            final(self).wf(),
            ok <==> old(self).size() + entry_sz(v@) <= 0xFFFF_FFFF,
            ok ==> final(self)@ == old(self)@.push(v@),
            ok ==> final(self).size() == old(self).size() + entry_sz(v@),
            ok ==> final(self).count_field() == (if old(self).count_field() == 65535 {
                65535nat
            } else {
                (old(self).count_field() + 1) as nat
            }),
            !ok ==> *final(self) == *old(self),
    {
        raw::append(&mut self.0, &v)
    }

    /// Append a value at the tail.
    pub fn append(&mut self, v: Value) -> (ok: bool)
        requires
            old(self).wf(),
            v.wf(),
        ensures
            final(self).wf(),
            ok <==> old(self).size() + entry_sz(v@) <= 0xFFFF_FFFF,
            ok ==> final(self)@ == old(self)@.push(v@),
            ok ==> final(self).size() == old(self).size() + entry_sz(v@),
            ok ==> final(self).count_field() == (if old(self).count_field() == 65535 {
                65535nat
            } else {
                (old(self).count_field() + 1) as nat
            }),
            !ok ==> *final(self) == *old(self),
    {
        raw::append(&mut self.0, &v)
    }

    /// Append an integer of any supported width.
    pub fn append_int<T: Int>(&mut self, v: T) -> (ok: bool)
        requires
            old(self).wf(),
        ensures
            final(self).wf(),
            ok <==> old(self).size() + entry_sz(int_item(v)) <= 0xFFFF_FFFF,
            ok ==> final(self)@ == old(self)@.push(int_item(v)),
            ok ==> final(self).size() == old(self).size() + entry_sz(int_item(v)),
            ok ==> final(self).count_field() == (if old(self).count_field() == 65535 {
                65535nat
            } else {
                (old(self).count_field() + 1) as nat
            }),
            !ok ==> *final(self) == *old(self),
    {
        raw::append_int(&mut self.0, v)
    }

    /// Append an integer of any supported width, zigzag-folded so that
    /// small values of either sign take a short encoding; `get_signed_int`
    /// undoes the fold. The folded value must fit the stored 64-bit
    /// integer.
    pub fn append_signed_int<T: Int>(&mut self, v: T) -> (ok: bool)
        requires
            old(self).wf(),
            -4611686018427387904 <= v.spec_to_int64() <= 4611686018427387903,
        ensures
            final(self).wf(),
            spec_zigzag(to_i64(signed_item(v))) == v.spec_to_int64(),
            ok <==> old(self).size() + entry_sz(signed_item(v)) <= 0xFFFF_FFFF,
            ok ==> final(self)@ == old(self)@.push(signed_item(v)),
            ok ==> final(self).size() == old(self).size() + entry_sz(signed_item(v)),
            ok ==> final(self).count_field() == (if old(self).count_field() == 65535 {
                65535nat
            } else {
                (old(self).count_field() + 1) as nat
            }),
            !ok ==> *final(self) == *old(self),
    {
        raw::append_signed_int(&mut self.0, v)
    }

    /// Append a value stored as a little-endian byte-string payload.
    pub fn append_string<T: Str>(&mut self, v: T) -> (ok: bool)
        requires
            old(self).wf(),
            v.spec_payload().len() + 10 <= 0xFFFF_FFFF,
        ensures
            final(self).wf(),
            ok <==> old(self).size() + entry_sz(str_item(&v)) <= 0xFFFF_FFFF,
            ok ==> final(self)@ == old(self)@.push(str_item(&v)),
            ok ==> final(self).size() == old(self).size() + entry_sz(str_item(&v)),
            ok ==> final(self).count_field() == (if old(self).count_field() == 65535 {
                65535nat
            } else {
                (old(self).count_field() + 1) as nat
            }),
            !ok ==> *final(self) == *old(self),
    {
        raw::append_string(&mut self.0, &v)
    }

    /// Delete the element at `p`, returning its former successor, or
    /// nothing if the deleted element was the last.
    pub fn delete(&mut self, p: Element) -> (r: Option<Element>)
        requires
            old(self).wf(),
            old(self).valid_element(p),
        ensures
            final(self).wf(),
            final(self)@ == old(self)@.remove(p.idx()),
            final(self).size() == old(self).size() - entry_sz(old(self)@[p.idx()]),
            final(self).count_field() == (if old(self).count_field() == 65535 {
                65535nat
            } else {
                (old(self).count_field() - 1) as nat
            }),
            match r {
                Option::Some(q) => p.idx() < final(self)@.len() && final(self).valid_element(q)
                    && q.idx() == p.idx(),
                Option::None => p.idx() == final(self)@.len(),
            },
    {
        raw::delete(&mut self.0, p)
    }

    /// Read the value of the element at `ele`.
    pub fn get(&self, ele: Element) -> (r: Option<Value>)
        requires
            self.wf(),
            self.valid_element(ele),
        ensures
            match r {
                Option::Some(v) => v@ == self@[ele.idx()] && v.wf(),
                Option::None => false,
            },
    {
        Some(raw::get(&self.0, ele))
    }

    /// Read the element at `ele` as `i8`.
    pub fn get_i8(&self, ele: Element) -> (r: i8)
        requires
            self.wf(),
            self.valid_element(ele),
        ensures
            r == to_i8(self@[ele.idx()]),
    {
        convert::get_i8(&self.0, ele)
    }

    /// Read the element at `ele` as `u8`.
    pub fn get_u8(&self, ele: Element) -> (r: u8)
        requires
            self.wf(),
            self.valid_element(ele),
        ensures
            r == to_u8(self@[ele.idx()]),
    {
        convert::get_u8(&self.0, ele)
    }

    /// Read the element at `ele` as `i16`.
    pub fn get_i16(&self, ele: Element) -> (r: i16)
        requires
            self.wf(),
            self.valid_element(ele),
        ensures
            r == to_i16(self@[ele.idx()]),
    {
        convert::get_i16(&self.0, ele)
    }

    /// Read the element at `ele` as `u16`.
    pub fn get_u16(&self, ele: Element) -> (r: u16)
        requires
            self.wf(),
            self.valid_element(ele),
        ensures
            r == to_u16(self@[ele.idx()]),
    {
        convert::get_u16(&self.0, ele)
    }

    /// Read the element at `ele` as `i32`.
    pub fn get_i32(&self, ele: Element) -> (r: i32)
        requires
            self.wf(),
            self.valid_element(ele),
        ensures
            r == to_i32(self@[ele.idx()]),
    {
        convert::get_i32(&self.0, ele)
    }

    /// Read the element at `ele` as `u32`.
    pub fn get_u32(&self, ele: Element) -> (r: u32)
        requires
            self.wf(),
            self.valid_element(ele),
        ensures
            r == to_u32(self@[ele.idx()]),
    {
        convert::get_u32(&self.0, ele)
    }

    /// Read the element at `ele` as `i64`.
    pub fn get_i64(&self, ele: Element) -> (r: i64)
        requires
            self.wf(),
            self.valid_element(ele),
        ensures
            r == to_i64(self@[ele.idx()]),
    {
        convert::get_i64(&self.0, ele)
    }

    /// Read the element at `ele` as `u64`.
    pub fn get_u64(&self, ele: Element) -> (r: u64)
        requires
            self.wf(),
            self.valid_element(ele),
        ensures
            r == to_u64(self@[ele.idx()]),
    {
        convert::get_u64(&self.0, ele)
    }

    /// Read the element at `ele` as `i128`.
    pub fn get_i128(&self, ele: Element) -> (r: i128)
        requires
            self.wf(),
            self.valid_element(ele),
        ensures
            r == to_i128(self@[ele.idx()]),
    {
        convert::get_i128(&self.0, ele)
    }

    /// Read the element at `ele` as `u128`.
    pub fn get_u128(&self, ele: Element) -> (r: u128)
        requires
            self.wf(),
            self.valid_element(ele),
        ensures
            r == to_u128(self@[ele.idx()]),
    {
        convert::get_u128(&self.0, ele)
    }

    /// Read the element at `ele` as `isize`.
    pub fn get_isize(&self, ele: Element) -> (r: isize)
        requires
            self.wf(),
            self.valid_element(ele),
        ensures
            r == to_isize(self@[ele.idx()]),
    {
        convert::get_isize(&self.0, ele)
    }

    /// Read the element at `ele` as `usize`.
    pub fn get_usize(&self, ele: Element) -> (r: usize)
        requires
            self.wf(),
            self.valid_element(ele),
        ensures
            r == to_usize(self@[ele.idx()]),
    {
        convert::get_usize(&self.0, ele)
    }

    /// Read the element at `ele` as a 64-bit integer.
    pub fn get_int(&self, ele: Element) -> (r: i64)
        requires
            self.wf(),
            self.valid_element(ele),
        ensures
            r == to_i64(self@[ele.idx()]),
    {
        convert::get_int(&self.0, ele)
    }

    /// Read the element at `ele` as a 64-bit integer, or `default` when
    /// the element holds a byte string.
    pub fn get_int_or(&self, ele: Element, default: i64) -> (r: i64)
        requires
            self.wf(),
            self.valid_element(ele),
        ensures
            self@[ele.idx()] is Int ==> r == to_i64(self@[ele.idx()]),
            self@[ele.idx()] is Str ==> r == default,
    {
        match raw::get(&self.0, ele) {
            Value::Int(v) => v,
            Value::String(_) => default,
        }
    }

    /// Read the element at `ele` unfolded by the zigzag transform,
    /// recovering the signed value that a signed append or insert stored.
    pub fn get_signed_int(&self, ele: Element) -> (r: i64)
        requires
            self.wf(),
            self.valid_element(ele),
        ensures
            r == spec_zigzag(to_i64(self@[ele.idx()])),
    {
        convert::get_signed_int(&self.0, ele)
    }

    /// Read the element at `ele` as text, or the empty string when its
    /// bytes are not valid UTF-8.
    pub fn get_str(&self, ele: Element) -> (r: String)
        requires
            self.wf(),
            self.valid_element(ele),
        ensures
            vstd::utf8::valid_utf8(to_bytes(self@[ele.idx()])) ==> vstd::utf8::encode_utf8(r@)
                == to_bytes(self@[ele.idx()]),
            !vstd::utf8::valid_utf8(to_bytes(self@[ele.idx()])) ==> r@ == Seq::<char>::empty(),
    {
        convert::get_str(&self.0, ele)
    }

    /// Read the element at `ele` as raw bytes.
    pub fn get_bytes(&self, ele: Element) -> (r: Vec<u8>)
        requires
            self.wf(),
            self.valid_element(ele),
        ensures
            r@ == to_bytes(self@[ele.idx()]),
    {
        convert::get_bytes(&self.0, ele)
    }

    /// The first element, or nothing if the listpack is empty.
    pub fn first(&self) -> (r: Option<Element>)
        requires
            self.wf(),
        ensures
            match r {
                Option::Some(q) => self@.len() > 0 && self.valid_element(q) && q.idx() == 0,
                Option::None => self@.len() == 0,
            },
    {
        raw::first(&self.0)
    }

    /// The last element, or nothing if the listpack is empty.
    pub fn last(&self) -> (r: Option<Element>)
        requires
            self.wf(),
        ensures
            match r {
                Option::Some(q) => self@.len() > 0 && self.valid_element(q) && q.idx()
                    == self@.len() - 1,
                Option::None => self@.len() == 0,
            },
    {
        raw::last(&self.0)
    }

    /// The element after `p`, or nothing if `p` is the last element.
    pub fn next(&self, p: Element) -> (r: Option<Element>)
        requires
            self.wf(),
            self.valid_element(p),
        ensures
            match r {
                Option::Some(q) => p.idx() + 1 < self@.len() && self.valid_element(q) && q.idx()
                    == p.idx() + 1,
                Option::None => p.idx() + 1 == self@.len(),
            },
    {
        raw::next(&self.0, p)
    }

    /// The element before `p`, or nothing if `p` is the first element.
    pub fn prev(&self, p: Element) -> (r: Option<Element>)
        requires
            self.wf(),
            self.valid_element(p),
        ensures
            match r {
                Option::Some(q) => p.idx() > 0 && self.valid_element(q) && q.idx() == p.idx() - 1,
                Option::None => p.idx() == 0,
            },
    {
        raw::prev(&self.0, p)
    }

    /// The first element when no cursor is given, else the element after
    /// the cursor.
    pub fn first_or_next(&self, after: Option<Element>) -> (r: Option<Element>)
        requires
            self.wf(),
            after matches Option::Some(t) ==> self.valid_element(t),
        ensures
            match r {
                Option::Some(q) => self.valid_element(q) && q.idx() == (match after {
                    Option::Some(t) => t.idx() + 1,
                    Option::None => 0int,
                }),
                Option::None => (match after {
                    Option::Some(t) => t.idx() + 1 == self@.len(),
                    Option::None => self@.len() == 0,
                }),
            },
    {
        raw::first_or_next(&self.0, after)
    }

    /// The last element when no cursor is given, else the element before
    /// the cursor.
    pub fn last_or_prev(&self, before: Option<Element>) -> (r: Option<Element>)
        requires
            self.wf(),
            before matches Option::Some(t) ==> self.valid_element(t),
        ensures
            match r {
                Option::Some(q) => self.valid_element(q) && q.idx() == (match before {
                    Option::Some(t) => t.idx() - 1,
                    Option::None => self@.len() - 1,
                }),
                Option::None => (match before {
                    Option::Some(t) => t.idx() == 0,
                    Option::None => self@.len() == 0,
                }),
            },
    {
        raw::last_or_prev(&self.0, before)
    }

    /// Find the element at `index`; negative indices count from the tail.
    pub fn seek(&self, index: i64) -> (r: Option<Element>)
        requires
            self.wf(),
        ensures
            match r {
                Option::Some(q) => {
                    let j = if index < 0 {
                        self@.len() + index
                    } else {
                        index as int
                    };
                    &&& 0 <= j < self@.len()
                    &&& self.valid_element(q)
                    &&& q.idx() == j
                },
                Option::None => {
                    let j = if index < 0 {
                        self@.len() + index
                    } else {
                        index as int
                    };
                    !(0 <= j < self@.len())
                },
            },
    {
        raw::seek(&self.0, index)
    }

    /// The number of elements held; may cache a freshly counted value back
    /// into the header.
    pub fn length(&mut self) -> (n: u32)
        requires
            old(self).wf(),
        ensures
            final(self).wf(),
            final(self)@ == old(self)@,
            n == old(self)@.len(),
            old(self).count_field() != 65535 ==> n == old(self).count_field(),
            final(self).size() == old(self).size(),
            final(self).count_field() == (if old(self)@.len() < 65535 {
                old(self)@.len()
            } else {
                65535nat
            }),
    {
        raw::length(&mut self.0)
    }

    /// The header's count field is never a stale exact value: it is the
    /// exact element count, or the unknown sentinel.
    pub proof fn lemma_count_field_exact(self)
        requires
            self.wf(),
        ensures
            self.count_field() == self@.len() || self.count_field() == 65535,
            self.count_field() != 65535 ==> self.count_field() == self@.len(),
    {
        raw::lemma_count_field_exact(self.0);
    }

    /// A valid element reference points at a real position of the sequence.
    pub proof fn lemma_valid_element_index(self, e: Element)
        requires
            self.valid_element(e),
        ensures
            0 <= e.idx() < self@.len(),
    {
        raw::lemma_valid_element_index(self.0, e);
    }

    /// Collect every element's value, in order.
    pub fn iter(&self) -> (out: Vec<Value>)
        requires
            self.wf(),
        ensures
            out@.len() == self@.len(),
            forall|i: int| 0 <= i < out@.len() ==> #[trigger] out@[i]@ == self@[i],
    {
        raw::iter(&self.0)
    }
}

} // verus!
