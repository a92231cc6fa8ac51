//! Dictionary-compressed readers and writers for the binary encoding.
//!
//! A reader holds the two per-file dictionaries (128 headers, 128 values)
//! and decodes one word at a time from a byte buffer.  A writer interns the
//! first 128 distinct headers and values; later distinct ones are written
//! inline.

use vstd::prelude::*;
use crate::PartError;
use crate::model::{parse_word, parse_value, le32_at, le64_at};

verus! {

/// Decoder state: the header and value dictionaries.
pub struct CReader {
    pub headers: Vec<u32>,
    pub values: Vec<u64>,
}

impl CReader {
    /// Both dictionaries hold exactly 128 entries.
    pub open spec fn wf(&self) -> bool {
        self.headers@.len() == 128 && self.values@.len() == 128
    }

    pub fn new(headers: Vec<u32>, values: Vec<u64>) -> (r: CReader)
        requires
            headers@.len() == 128,
            values@.len() == 128,
        ensures
            r.wf(),
            r.headers@ == headers@,
            r.values@ == values@,
    {
        CReader { headers, values }
    }

    /// Read one node word at `off`; the payload and the next offset.
    pub fn read_node(&self, data: &[u8], off: usize) -> (r: Result<(u32, usize), PartError>)
        requires
            self.wf(),
        ensures
            match r {
                Ok((w, end)) => parse_word(data@, self.headers@, off as int) == Some(
                    (w, end as int),
                ) && off < end <= data@.len(),
                Err(e) => parse_word(data@, self.headers@, off as int) is None && e
                    == PartError::MalformedInput,
            },
    {
        if off >= data.len() {
            return Err(PartError::MalformedInput);
        }
        let b = data[off];
        if b & 1 == 0 {
            let i = b >> 1;
            proof {
                assert(b & 1 == 0 ==> (b >> 1) < 128) by (bit_vector);
            }
            Ok((self.headers[i as usize], off + 1))
        } else if data.len() - off >= 4 {
            let w = (data[off] as u32) | ((data[off + 1] as u32) << 8) | ((data[off + 2] as u32)
                << 16) | ((data[off + 3] as u32) << 24);
            Ok((w >> 1, off + 4))
        } else {
            Err(PartError::MalformedInput)
        }
    }

    /// Read one value word at `off`; the value and the next offset.
    pub fn read_value(&self, data: &[u8], off: usize) -> (r: Result<(u64, usize), PartError>)
        requires
            self.wf(),
        ensures
            match r {
                Ok((v, end)) => parse_value(data@, self.values@, off as int) == Some(
                    (v, end as int),
                ) && off < end <= data@.len(),
                Err(e) => parse_value(data@, self.values@, off as int) is None && e
                    == PartError::MalformedInput,
            },
    {
        if off >= data.len() {
            return Err(PartError::MalformedInput);
        }
        let b = data[off];
        if b & 1 == 0 {
            let i = b >> 1;
            proof {
                assert(b & 1 == 0 ==> (b >> 1) < 128) by (bit_vector);
            }
            Ok((self.values[i as usize], off + 1))
        } else if data.len() - off >= 8 {
            let v = (data[off] as u64) | ((data[off + 1] as u64) << 8) | ((data[off + 2] as u64)
                << 16) | ((data[off + 3] as u64) << 24) | ((data[off + 4] as u64) << 32) | ((data[off
                + 5] as u64) << 40) | ((data[off + 6] as u64) << 48) | ((data[off + 7] as u64)
                << 56);
            Ok((v >> 1, off + 8))
        } else {
            Err(PartError::MalformedInput)
        }
    }

    /// The cursor sits exactly at the logical end of the buffer.
    pub fn is_at_end(data: &[u8], off: usize) -> (r: bool)
        ensures
            r == (off == data@.len()),
    {
        off == data.len()
    }
}

/// `d2` begins with `d`.
pub open spec fn bytes_extend(d2: Seq<u8>, d: Seq<u8>) -> bool {
    d2.len() >= d.len() && d2.subrange(0, d.len() as int) == d
}

/// `hd2` is a 128-entry dictionary that agrees with `hd` on the first `n`
/// slots (the interned ones, which are never overwritten later).
pub open spec fn dict32_extends(hd2: Seq<u32>, hd: Seq<u32>, n: int) -> bool {
    hd2.len() == 128 && forall|i: int| 0 <= i < n ==> hd2[i] == hd[i]
}

pub open spec fn dict64_extends(vd2: Seq<u64>, vd: Seq<u64>, n: int) -> bool {
    vd2.len() == 128 && forall|i: int| 0 <= i < n ==> vd2[i] == vd[i]
}

/// The word already sits in one of the used dictionary slots.
pub open spec fn interned32(hd: Seq<u32>, n: int, w: u32) -> bool {
    exists|i: int| 0 <= i < n && hd[i] == w
}

pub open spec fn interned64(vd: Seq<u64>, n: int, v: u64) -> bool {
    exists|i: int| 0 <= i < n && vd[i] == v
}

/// Encoder state: the dictionaries built so far (the first `n_headers` /
/// `n_values` slots are in use) and the bytes written.
pub struct CWriter {
    pub headers: Vec<u32>,
    pub values: Vec<u64>,
    pub n_headers: usize,
    pub n_values: usize,
    pub data: Vec<u8>,
}

impl CWriter {
    pub open spec fn wf(&self) -> bool {
        self.headers@.len() == 128 && self.values@.len() == 128 && self.n_headers <= 128
            && self.n_values <= 128
    }

    pub fn new() -> (w: CWriter)
        ensures
            w.wf(),
            w.n_headers == 0,
            w.n_values == 0,
            w.data@.len() == 0,
    {
        let mut headers: Vec<u32> = Vec::new();
        let mut values: Vec<u64> = Vec::new();
        let mut i: usize = 0;
        while i < 128
            invariant
                headers@.len() == i,
                values@.len() == i,
                i <= 128,
            decreases 128 - i,
        {
            headers.push(0);
            values.push(0);
            i = i + 1;
        }
        CWriter { headers, values, n_headers: 0, n_values: 0, data: Vec::new() }
    }

    /// Hand the bytes and the finished dictionaries over for decoding.
    pub fn finish(self) -> (r: (Vec<u8>, CReader))
        requires
            self.wf(),
        ensures
            r.1.wf(),
            r.0@ == self.data@,
            dict32_extends(r.1.headers@, self.headers@, self.n_headers as int),
            dict64_extends(r.1.values@, self.values@, self.n_values as int),
    {
        (self.data, CReader { headers: self.headers, values: self.values })
    }

    /// Write one node word.  The word must fit 31 bits (state references and
    /// well-formed headers always do); an interned word costs one byte, an
    /// inline one four.
    pub fn write_node(&mut self, node: u32)
        requires
            old(self).wf(),
            node < 0x8000_0000,
        ensures
            final(self).wf(),
            final(self).values@ == old(self).values@,
            final(self).n_values == old(self).n_values,
            final(self).n_headers >= old(self).n_headers,
            forall|i: int|
                0 <= i < old(self).n_headers ==> final(self).headers@[i] == old(self).headers@[i],
            bytes_extend(final(self).data@, old(self).data@),
            old(self).data@.len() < final(self).data@.len() <= old(self).data@.len() + 4,
            forall|d2: Seq<u8>, hd2: Seq<u32>|
                bytes_extend(d2, final(self).data@) && dict32_extends(
                    hd2,
                    final(self).headers@,
                    final(self).n_headers as int,
                ) ==> #[trigger] parse_word(d2, hd2, old(self).data@.len() as int) == Some(
                    (node, final(self).data@.len() as int),
                ),
            // the dictionary policy: an interned word costs one byte, its
            // slot's token; a fresh word is interned while room remains and
            // costs one byte; afterwards it goes inline for four
            interned32(old(self).headers@, old(self).n_headers as int, node)
                ==> final(self).data@.len() == old(self).data@.len() + 1 && final(self).data@.last()
                & 1 == 0 && old(self).headers@[(final(self).data@.last() >> 1) as int] == node
                && final(self).headers@ == old(self).headers@ && final(self).n_headers == old(self).n_headers,
            !interned32(old(self).headers@, old(self).n_headers as int, node) && old(self).n_headers
                < 128 ==> final(self).data@.len() == old(self).data@.len() + 1 && final(self).data@.last()
                & 1 == 0 && (final(self).data@.last() >> 1) as int == old(self).n_headers
                && final(self).headers@ == old(self).headers@.update(
                old(self).n_headers as int,
                node,
            ) && final(self).n_headers == old(self).n_headers + 1,
            !interned32(old(self).headers@, old(self).n_headers as int, node) && old(self).n_headers
                == 128 ==> final(self).data@.len() == old(self).data@.len() + 4
                && final(self).headers@ == old(self).headers@ && final(self).n_headers == old(self).n_headers,
    {
        let ghost off = self.data@.len() as int;
        let mut found: bool = false;
        let mut idx: usize = 0;
        let mut i: usize = 0;
        while i < self.n_headers && !found
            invariant
                self.n_headers <= 128,
                self.headers@.len() == 128,
                i <= self.n_headers,
                found ==> idx < self.n_headers && self.headers@[idx as int] == node && (forall|
                    j: int,
                |
                    0 <= j < idx ==> self.headers@[j] != node),
                !found ==> forall|j: int| 0 <= j < i ==> self.headers@[j] != node,
            decreases self.n_headers - i, if found { 0int } else { 1int },
        {
            if self.headers[i] == node {
                found = true;
                idx = i;
            } else {
                i = i + 1;
            }
        }
        proof {
            if found {
                assert(interned32(self.headers@, self.n_headers as int, node));
            } else {
                assert(!interned32(self.headers@, self.n_headers as int, node)) by {
                    if interned32(self.headers@, self.n_headers as int, node) {
                        let q = choose|q: int|
                            0 <= q < self.n_headers && self.headers@[q] == node;
                        assert(self.headers@[q] != node);
                    }
                }
            }
        }
        if found {
            let tok = crate::bits::put_compressed8(idx as u8);
            self.data.push(tok);
            proof {
                assert(self.data@.subrange(0, old(self).data@.len() as int) =~= old(self).data@);
                lemma_parse_word_token(self.data@, off, tok, node, self.headers@, self.n_headers as int, idx as int);
            }
        } else if self.n_headers < 128 {
            let n = self.n_headers;
            self.headers.set(n, node);
            self.n_headers = n + 1;
            let tok = crate::bits::put_compressed8(n as u8);
            self.data.push(tok);
            proof {
                assert(self.data@.subrange(0, old(self).data@.len() as int) =~= old(self).data@);
                lemma_parse_word_token(self.data@, off, tok, node, self.headers@, self.n_headers as int, n as int);
            }
        } else {
            self.push_inline32(node);
        }
    }

    /// Write one node word without consulting the dictionary (4 bytes).
    pub fn write_node_noncompressed(&mut self, node: u32)
        requires
            old(self).wf(),
            node < 0x8000_0000,
        ensures
            final(self).wf(),
            final(self).values@ == old(self).values@,
            final(self).n_values == old(self).n_values,
            final(self).headers@ == old(self).headers@,
            final(self).n_headers == old(self).n_headers,
            bytes_extend(final(self).data@, old(self).data@),
            final(self).data@.len() == old(self).data@.len() + 4,
            forall|d2: Seq<u8>, hd2: Seq<u32>|
                bytes_extend(d2, final(self).data@) && dict32_extends(
                    hd2,
                    final(self).headers@,
                    final(self).n_headers as int,
                ) ==> #[trigger] parse_word(d2, hd2, old(self).data@.len() as int) == Some(
                    (node, final(self).data@.len() as int),
                ),
    {
        self.push_inline32(node);
    }

    /// Write the four little-endian bytes of the inline form of `node`.
    fn push_inline32(&mut self, node: u32)
        requires
            old(self).wf(),
            node < 0x8000_0000,
        ensures
            final(self).wf(),
            final(self).values@ == old(self).values@,
            final(self).n_values == old(self).n_values,
            final(self).headers@ == old(self).headers@,
            final(self).n_headers == old(self).n_headers,
            bytes_extend(final(self).data@, old(self).data@),
            final(self).data@.len() == old(self).data@.len() + 4,
            forall|d2: Seq<u8>, hd2: Seq<u32>|
                bytes_extend(d2, final(self).data@) && dict32_extends(
                    hd2,
                    final(self).headers@,
                    final(self).n_headers as int,
                ) ==> #[trigger] parse_word(d2, hd2, old(self).data@.len() as int) == Some(
                    (node, final(self).data@.len() as int),
                ),
    {
        let ghost off = self.data@.len() as int;
        let x = crate::bits::put_noncompressed32(node);
        self.data.push(#[verifier::truncate] (x as u8));
        self.data.push(#[verifier::truncate] ((x >> 8) as u8));
        self.data.push(#[verifier::truncate] ((x >> 16) as u8));
        self.data.push(#[verifier::truncate] ((x >> 24) as u8));
        proof {
            assert(self.data@.subrange(0, old(self).data@.len() as int) =~= old(self).data@);
            lemma_parse_word_inline(self.data@, off, x, node);
        }
    }
}

impl CWriter {
    /// Write one value word.  Values are 63-bit (the encoding spends the low
    /// bit); an interned value costs one byte, an inline one eight.
    pub fn write_value(&mut self, value: u64)
        requires
            old(self).wf(),
            value < 0x8000_0000_0000_0000,
        ensures
            final(self).wf(),
            final(self).headers@ == old(self).headers@,
            final(self).n_headers == old(self).n_headers,
            final(self).n_values >= old(self).n_values,
            forall|i: int|
                0 <= i < old(self).n_values ==> final(self).values@[i] == old(self).values@[i],
            bytes_extend(final(self).data@, old(self).data@),
            old(self).data@.len() < final(self).data@.len() <= old(self).data@.len() + 8,
            forall|d2: Seq<u8>, vd2: Seq<u64>|
                bytes_extend(d2, final(self).data@) && dict64_extends(
                    vd2,
                    final(self).values@,
                    final(self).n_values as int,
                ) ==> #[trigger] parse_value(d2, vd2, old(self).data@.len() as int) == Some(
                    (value, final(self).data@.len() as int),
                ),
            // the dictionary policy, as for node words, with eight inline
            // bytes once the dictionary is full
            interned64(old(self).values@, old(self).n_values as int, value)
                ==> final(self).data@.len() == old(self).data@.len() + 1 && final(self).data@.last()
                & 1 == 0 && old(self).values@[(final(self).data@.last() >> 1) as int] == value
                && final(self).values@ == old(self).values@ && final(self).n_values == old(self).n_values,
            !interned64(old(self).values@, old(self).n_values as int, value) && old(self).n_values
                < 128 ==> final(self).data@.len() == old(self).data@.len() + 1 && final(self).data@.last()
                & 1 == 0 && (final(self).data@.last() >> 1) as int == old(self).n_values
                && final(self).values@ == old(self).values@.update(
                old(self).n_values as int,
                value,
            ) && final(self).n_values == old(self).n_values + 1,
            !interned64(old(self).values@, old(self).n_values as int, value) && old(self).n_values
                == 128 ==> final(self).data@.len() == old(self).data@.len() + 8
                && final(self).values@ == old(self).values@ && final(self).n_values == old(self).n_values,
    {
        let ghost off = self.data@.len() as int;
        let mut found: bool = false;
        let mut idx: usize = 0;
        let mut i: usize = 0;
        while i < self.n_values && !found
            invariant
                self.n_values <= 128,
                self.values@.len() == 128,
                i <= self.n_values,
                found ==> idx < self.n_values && self.values@[idx as int] == value,
                !found ==> forall|j: int| 0 <= j < i ==> self.values@[j] != value,
            decreases self.n_values - i, if found { 0int } else { 1int },
        {
            if self.values[i] == value {
                found = true;
                idx = i;
            } else {
                i = i + 1;
            }
        }
        proof {
            if found {
                assert(interned64(self.values@, self.n_values as int, value));
            } else {
                assert(!interned64(self.values@, self.n_values as int, value)) by {
                    if interned64(self.values@, self.n_values as int, value) {
                        let q = choose|q: int|
                            0 <= q < self.n_values && self.values@[q] == value;
                        assert(self.values@[q] != value);
                    }
                }
            }
        }
        if found {
            let tok = crate::bits::put_compressed8(idx as u8);
            self.data.push(tok);
            proof {
                assert(self.data@.subrange(0, old(self).data@.len() as int) =~= old(self).data@);
                lemma_parse_value_token(self.data@, off, tok, value, self.values@, self.n_values as int, idx as int);
            }
        } else if self.n_values < 128 {
            let n = self.n_values;
            self.values.set(n, value);
            self.n_values = n + 1;
            let tok = crate::bits::put_compressed8(n as u8);
            self.data.push(tok);
            proof {
                assert(self.data@.subrange(0, old(self).data@.len() as int) =~= old(self).data@);
                lemma_parse_value_token(self.data@, off, tok, value, self.values@, self.n_values as int, n as int);
            }
        } else {
            let x = crate::bits::put_noncompressed64(value);
            self.data.push(#[verifier::truncate] (x as u8));
            self.data.push(#[verifier::truncate] ((x >> 8) as u8));
            self.data.push(#[verifier::truncate] ((x >> 16) as u8));
            self.data.push(#[verifier::truncate] ((x >> 24) as u8));
            self.data.push(#[verifier::truncate] ((x >> 32) as u8));
            self.data.push(#[verifier::truncate] ((x >> 40) as u8));
            self.data.push(#[verifier::truncate] ((x >> 48) as u8));
            self.data.push(#[verifier::truncate] ((x >> 56) as u8));
            proof {
                assert(self.data@.subrange(0, old(self).data@.len() as int) =~= old(self).data@);
                lemma_parse_value_inline(self.data@, off, x, value);
            }
        }
    }
}

/// A compressed value token at `off` parses to the interned value, under any
/// later state of the buffer and dictionary.
proof fn lemma_parse_value_token(
    d: Seq<u8>,
    off: int,
    tok: u8,
    value: u64,
    vd: Seq<u64>,
    n: int,
    idx: int,
)
    requires
        0 <= off,
        d.len() == off + 1,
        d[off] == tok,
        tok & 1 == 0,
        0 <= idx < n <= 128,
        tok >> 1 == idx as u8,
        vd.len() == 128,
        vd[idx] == value,
    ensures
        forall|d2: Seq<u8>, vd2: Seq<u64>|
            bytes_extend(d2, d) && dict64_extends(vd2, vd, n) ==> #[trigger] parse_value(
                d2,
                vd2,
                off,
            ) == Some((value, off + 1)),
{
    assert forall|d2: Seq<u8>, vd2: Seq<u64>|
        bytes_extend(d2, d) && dict64_extends(vd2, vd, n) implies #[trigger] parse_value(
        d2,
        vd2,
        off,
    ) == Some((value, off + 1)) by {
        assert(d2[off] == d.subrange(0, d.len() as int)[off]);
        assert(d2[off] == tok);
        assert((tok >> 1) < 128) by (bit_vector);
        assert(vd2[(tok >> 1) as int] == value);
    }
}

/// The eight inline bytes of `x` at `off` parse back to `x >> 1`, under any
/// later state of the buffer and dictionary.
proof fn lemma_parse_value_inline(d: Seq<u8>, off: int, x: u64, value: u64)
    requires
        0 <= off,
        d.len() == off + 8,
        d[off] == x as u8,
        d[off + 1] == (x >> 8) as u8,
        d[off + 2] == (x >> 16) as u8,
        d[off + 3] == (x >> 24) as u8,
        d[off + 4] == (x >> 32) as u8,
        d[off + 5] == (x >> 40) as u8,
        d[off + 6] == (x >> 48) as u8,
        d[off + 7] == (x >> 56) as u8,
        x & 1 == 1,
        x >> 1 == value,
    ensures
        forall|d2: Seq<u8>, vd2: Seq<u64>|
            bytes_extend(d2, d) && vd2.len() == 128 ==> #[trigger] parse_value(d2, vd2, off)
                == Some((value, off + 8)),
{
    assert forall|d2: Seq<u8>, vd2: Seq<u64>|
        bytes_extend(d2, d) && vd2.len() == 128 implies #[trigger] parse_value(d2, vd2, off)
        == Some((value, off + 8)) by {
        assert(forall|k: int| 0 <= k < 8 ==> #[trigger] d2[off + k] == d.subrange(
            0,
            d.len() as int,
        )[off + k]);
        assert(d2[off] == x as u8 && d2[off + 1] == (x >> 8) as u8 && d2[off + 2] == (x >> 16) as u8
            && d2[off + 3] == (x >> 24) as u8 && d2[off + 4] == (x >> 32) as u8 && d2[off + 5] == (x
            >> 40) as u8 && d2[off + 6] == (x >> 48) as u8 && d2[off + 7] == (x >> 56) as u8);
        assert(x & 1 == 1 ==> (x as u8) & 1 != 0) by (bit_vector);
        assert(((x as u8) as u64) | (((x >> 8) as u8 as u64) << 8) | (((x >> 16) as u8 as u64)
            << 16) | (((x >> 24) as u8 as u64) << 24) | (((x >> 32) as u8 as u64) << 32) | (((x
            >> 40) as u8 as u64) << 40) | (((x >> 48) as u8 as u64) << 48) | (((x >> 56) as u8
            as u64) << 56) == x) by (bit_vector);
        assert(le64_at(d2, off) == x);
    }
}

/// A compressed token byte at `off` parses to the interned word, under any
/// later state of the buffer and dictionary.
proof fn lemma_parse_word_token(
    d: Seq<u8>,
    off: int,
    tok: u8,
    node: u32,
    hd: Seq<u32>,
    n: int,
    idx: int,
)
    requires
        0 <= off,
        d.len() == off + 1,
        d[off] == tok,
        tok & 1 == 0,
        0 <= idx < n <= 128,
        tok >> 1 == idx as u8,
        hd.len() == 128,
        hd[idx] == node,
    ensures
        forall|d2: Seq<u8>, hd2: Seq<u32>|
            bytes_extend(d2, d) && dict32_extends(hd2, hd, n) ==> #[trigger] parse_word(
                d2,
                hd2,
                off,
            ) == Some((node, off + 1)),
{
    assert forall|d2: Seq<u8>, hd2: Seq<u32>|
        bytes_extend(d2, d) && dict32_extends(hd2, hd, n) implies #[trigger] parse_word(
        d2,
        hd2,
        off,
    ) == Some((node, off + 1)) by {
        assert(d2[off] == d.subrange(0, d.len() as int)[off]);
        assert(d2[off] == tok);
        assert((tok >> 1) < 128) by (bit_vector);
        assert(hd2[(tok >> 1) as int] == node);
    }
}

/// The four inline bytes of `x` at `off` parse back to `x >> 1`, under any
/// later state of the buffer and dictionary.
proof fn lemma_parse_word_inline(d: Seq<u8>, off: int, x: u32, node: u32)
    requires
        0 <= off,
        d.len() == off + 4,
        d[off] == x as u8,
        d[off + 1] == (x >> 8) as u8,
        d[off + 2] == (x >> 16) as u8,
        d[off + 3] == (x >> 24) as u8,
        x & 1 == 1,
        x >> 1 == node,
    ensures
        forall|d2: Seq<u8>, hd2: Seq<u32>|
            bytes_extend(d2, d) && dict32_extends(hd2, Seq::<u32>::empty(), 0) ==> #[trigger]
                parse_word(d2, hd2, off) == Some((node, off + 4)),
{
    assert forall|d2: Seq<u8>, hd2: Seq<u32>|
        bytes_extend(d2, d) && dict32_extends(hd2, Seq::<u32>::empty(), 0) implies #[trigger]
        parse_word(d2, hd2, off) == Some((node, off + 4)) by {
        assert(forall|k: int| 0 <= k < 4 ==> #[trigger] d2[off + k] == d.subrange(
            0,
            d.len() as int,
        )[off + k]);
        assert(d2[off] == x as u8 && d2[off + 1] == (x >> 8) as u8 && d2[off + 2] == (x >> 16) as u8
            && d2[off + 3] == (x >> 24) as u8);
        assert(x & 1 == 1 ==> (x as u8) & 1 != 0) by (bit_vector);
        assert(((x as u8) as u32) | (((x >> 8) as u8 as u32) << 8) | (((x >> 16) as u8 as u32)
            << 16) | (((x >> 24) as u8 as u32) << 24) == x) by (bit_vector);
        assert(le32_at(d2, off) == x);
    }
}


/// Extension of byte buffers is transitive.
pub proof fn lemma_bytes_extend_trans(d3: Seq<u8>, d2: Seq<u8>, d1: Seq<u8>)
    requires
        bytes_extend(d3, d2),
        bytes_extend(d2, d1),
    ensures
        bytes_extend(d3, d1),
{
    assert(d3.subrange(0, d1.len() as int) =~= d2.subrange(0, d1.len() as int));
}

/// Dictionary extension is transitive along a growing intern count.
pub proof fn lemma_dict32_extends_trans(h3: Seq<u32>, h2: Seq<u32>, h1: Seq<u32>, n2: int, n1: int)
    requires
        dict32_extends(h3, h2, n2),
        dict32_extends(h2, h1, n1),
        n1 <= n2,
    ensures
        dict32_extends(h3, h1, n1),
{
}

pub proof fn lemma_dict64_extends_trans(v3: Seq<u64>, v2: Seq<u64>, v1: Seq<u64>, n2: int, n1: int)
    requires
        dict64_extends(v3, v2, n2),
        dict64_extends(v2, v1, n1),
        n1 <= n2,
    ensures
        dict64_extends(v3, v1, n1),
{
}

} // verus!
