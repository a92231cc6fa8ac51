//! Bit-level layout of the binary coalgebra encoding.
//!
//! Everything is little-endian.  A node word is either a 1-byte
//! dictionary-compressed token (low bit 0) or a 4-byte inline word (low bit
//! 1).  After stripping the compression bit, the low bit of the payload
//! distinguishes a state reference (0) from a header (1).  A header packs
//! `(typ, tag, len)` as `typ << 24 | tag << 16 | len`.

use vstd::prelude::*;

verus! {

pub const LIST_TYP: u8 = 0;

pub const SET_TYP: u8 = 1;

pub const ADD_TYP: u8 = 2;

pub const MAX_TYP: u8 = 3;

pub const OR_TYP: u8 = 4;

pub const TAG_TYP: u8 = 5;

/// Compression tag: a word read from the stream is dictionary-compressed
/// when its low bit is clear.
pub open spec fn spec_is_compressed32(w: u32) -> bool {
    w & 1 == 0
}

pub fn is_compressed32(w: u32) -> (r: bool)
    ensures
        r == spec_is_compressed32(w),
{
    w & 1 == 0
}

pub fn get_compressed32(w: u32) -> (r: u8)
    ensures
        r == (w as u8) >> 1,
        r < 128,
{
    proof {
        assert((w as u8) >> 1 < 128) by (bit_vector);
    }
    (w as u8) >> 1
}

pub fn get_noncompressed32(w: u32) -> (r: u32)
    ensures
        r == w >> 1,
{
    w >> 1
}

pub fn put_noncompressed32(w: u32) -> (r: u32)
    requires
        w < 0x8000_0000,
    ensures
        r == (w << 1) | 1,
        r & 1 == 1,
        r >> 1 == w,
{
    proof {
        assert(w < 0x8000_0000 ==> (((w << 1) | 1) & 1 == 1 && ((w << 1) | 1) >> 1 == w))
            by (bit_vector);
    }
    (w << 1) | 1
}

pub open spec fn spec_is_compressed64(w: u64) -> bool {
    w & 1 == 0
}

pub fn is_compressed64(w: u64) -> (r: bool)
    ensures
        r == spec_is_compressed64(w),
{
    w & 1 == 0
}

pub fn get_compressed64(w: u64) -> (r: u8)
    ensures
        r == (w as u8) >> 1,
        r < 128,
{
    proof {
        assert((w as u8) >> 1 < 128) by (bit_vector);
    }
    (w as u8) >> 1
}

pub fn get_noncompressed64(w: u64) -> (r: u64)
    ensures
        r == w >> 1,
{
    w >> 1
}

pub fn put_noncompressed64(w: u64) -> (r: u64)
    requires
        w < 0x8000_0000_0000_0000,
    ensures
        r == (w << 1) | 1,
        r & 1 == 1,
        r >> 1 == w,
{
    proof {
        assert(w < 0x8000_0000_0000_0000 ==> (((w << 1) | 1) & 1 == 1 && ((w << 1) | 1) >> 1
            == w)) by (bit_vector);
    }
    (w << 1) | 1
}

pub fn put_compressed8(w: u8) -> (r: u8)
    requires
        w < 128,
    ensures
        r == w << 1,
        r & 1 == 0,
        r >> 1 == w,
{
    proof {
        assert(w < 128 ==> ((w << 1) & 1 == 0 && (w << 1) >> 1 == w)) by (bit_vector);
    }
    w << 1
}

/// A payload (compression bit already stripped) is a state reference when
/// its low bit is clear, and a header when it is set.
pub open spec fn spec_is_state(w: u32) -> bool {
    w & 1 == 0
}

pub fn is_state(w: u32) -> (r: bool)
    ensures
        r == spec_is_state(w),
{
    w & 1 == 0
}

pub open spec fn spec_get_state(w: u32) -> u32 {
    w >> 1
}

pub fn get_state(w: u32) -> (r: u32)
    ensures
        r == spec_get_state(w),
{
    w >> 1
}

pub open spec fn spec_get_header(w: u32) -> u32 {
    w >> 1
}

pub fn get_header(w: u32) -> (r: u32)
    ensures
        r == spec_get_header(w),
{
    w >> 1
}

pub fn put_state(w: u32) -> (r: u32)
    requires
        w < 0x8000_0000,
    ensures
        r == w << 1,
        spec_is_state(r),
        spec_get_state(r) == w,
        w < 0x4000_0000 ==> r < 0x8000_0000,
{
    proof {
        assert(w < 0x8000_0000 ==> ((w << 1) & 1 == 0 && (w << 1) >> 1 == w)) by (bit_vector);
        assert(w < 0x4000_0000 ==> (w << 1) < 0x8000_0000) by (bit_vector);
    }
    w << 1
}

pub fn put_header(w: u32) -> (r: u32)
    requires
        w < 0x8000_0000,
    ensures
        r == (w << 1) | 1,
        !spec_is_state(r),
        spec_get_header(r) == w,
        w < 0x4000_0000 ==> r < 0x8000_0000,
{
    proof {
        assert(w < 0x8000_0000 ==> (((w << 1) | 1) & 1 == 1 && ((w << 1) | 1) >> 1 == w))
            by (bit_vector);
        assert(w < 0x4000_0000 ==> ((w << 1) | 1) < 0x8000_0000) by (bit_vector);
    }
    (w << 1) | 1
}

/// The `typ` byte of a packed header.
pub open spec fn spec_typ(h: u32) -> u8 {
    (h >> 24) as u8
}

/// The `tag` byte of a packed header.
pub open spec fn spec_tag(h: u32) -> u8 {
    (h >> 16) as u8
}

/// The `len` field of a packed header.
pub open spec fn spec_hlen(h: u32) -> u16 {
    h as u16
}

pub fn decode_header(w: u32) -> (r: (u8, u8, u16))
    ensures
        r.0 == spec_typ(w),
        r.1 == spec_tag(w),
        r.2 == spec_hlen(w),
{
    ((w >> 24) as u8, (w >> 16) as u8, w as u16)
}

pub open spec fn spec_encode_header(typ: u8, tag: u8, len: u16) -> u32 {
    ((typ as u32) << 24) | ((tag as u32) << 16) | (len as u32)
}

pub fn encode_header(typ: u8, tag: u8, len: u16) -> (r: u32)
    ensures
        r == spec_encode_header(typ, tag, len),
        spec_typ(r) == typ,
        spec_tag(r) == tag,
        spec_hlen(r) == len,
        typ < 64 ==> r < 0x4000_0000,
{
    proof {
        lemma_header_fields(typ, tag, len);
    }
    ((typ as u32) << 24) | ((tag as u32) << 16) | (len as u32)
}

/// Packing `(typ, tag, len)` and reading the fields back is the identity.
pub proof fn lemma_header_fields(typ: u8, tag: u8, len: u16)
    ensures
        spec_typ(spec_encode_header(typ, tag, len)) == typ,
        spec_tag(spec_encode_header(typ, tag, len)) == tag,
        spec_hlen(spec_encode_header(typ, tag, len)) == len,
        typ < 64 ==> spec_encode_header(typ, tag, len) < 0x4000_0000,
{
    let t = typ as u32;
    let g = tag as u32;
    let l = len as u32;
    assert(t < 256 && g < 256 && l < 0x10000 ==> {
        let h = (t << 24) | (g << 16) | l;
        &&& (h >> 24) as u8 == t as u8
        &&& (h >> 16) as u8 == g as u8
        &&& h as u16 == l as u16
        &&& (t < 64 ==> h < 0x4000_0000)
    }) by (bit_vector);
}

} // verus!
