//! The nested container ("CDT") format of list and map particles: a
//! MessagePack-compatible encoding, its decoder, its skipping walker and
//! its encoder.

use vstd::prelude::*;
use vstd::slice::{slice_subrange, slice_to_vec};
use vstd::utf8::{decode_utf8, encode_utf8, valid_utf8};

use crate::errors::{Error, ErrorKind, Result};
use crate::value::{lemma_list_view, lemma_map_view, pair_views, views, FloatValue, Value, ValueView};
use crate::wire::{be_bytes, be_int, be_uint, lemma_be_bytes_len, lemma_be_bytes_round_trip, lemma_be_uint_bound, lemma_pow256_values, pow256, read_be_int, read_be_uint, string_from_utf8, write_be_uint};

verus! {

/// Particle tags that may lead the body of a string or binary item.
pub const TAG_STRING: u8 = 3;
pub const TAG_BLOB: u8 = 4;
pub const TAG_HLL: u8 = 18;
pub const TAG_GEOJSON: u8 = 23;

/// What one lead byte, with the length or count field after it, announces.
pub enum CdtHead {
    /// A complete scalar.
    Scalar(ValueView),
    /// An unsigned 64-bit integer above `i64::MAX`.
    Unrepresentable(nat),
    /// An array of this many items.
    Array(nat),
    /// A map of this many key/value pairs.
    Pairs(nat),
    /// A byte string of this many bytes: a particle tag, then the body.
    Bytes(nat),
}

/// The number of bytes after the lead byte `b` that hold its number, length
/// or count.
pub open spec fn extra_len(b: u8) -> int {
    if b == 0xc4 || b == 0xd9 || b == 0xcc || b == 0xd0 {
        1
    } else if b == 0xc5 || b == 0xda || b == 0xcd || b == 0xd1 || b == 0xdc || b == 0xde {
        2
    } else if b == 0xc6 || b == 0xdb || b == 0xce || b == 0xd2 || b == 0xdd || b == 0xdf || b == 0xca {
        4
    } else if b == 0xcb || b == 0xcf || b == 0xd3 {
        8
    } else {
        0
    }
}

/// What the lead byte `b` announces, given the `extra_len(b)` bytes `f`
/// after it; `None` for a lead byte that this format does not use.
pub open spec fn head_of(b: u8, f: Seq<u8>) -> Option<CdtHead> {
    if b <= 0x7f {
        Some(CdtHead::Scalar(ValueView::Int(b as i64)))
    } else if b <= 0x8f {
        Some(CdtHead::Pairs((b - 0x80) as nat))
    } else if b <= 0x9f {
        Some(CdtHead::Array((b - 0x90) as nat))
    } else if b <= 0xbf {
        Some(CdtHead::Bytes((b - 0xa0) as nat))
    } else if b == 0xc0 {
        Some(CdtHead::Scalar(ValueView::Nil))
    } else if b == 0xc2 {
        Some(CdtHead::Scalar(ValueView::Bool(false)))
    } else if b == 0xc3 {
        Some(CdtHead::Scalar(ValueView::Bool(true)))
    } else if b == 0xc4 || b == 0xc5 || b == 0xc6 || b == 0xd9 || b == 0xda || b == 0xdb {
        Some(CdtHead::Bytes(be_uint(f)))
    } else if b == 0xca {
        Some(CdtHead::Scalar(ValueView::Float(FloatValue::F32(be_uint(f) as u32))))
    } else if b == 0xcb {
        Some(CdtHead::Scalar(ValueView::Float(FloatValue::F64(be_uint(f) as u64))))
    } else if b == 0xcc || b == 0xcd || b == 0xce {
        Some(CdtHead::Scalar(ValueView::Int(be_uint(f) as i64)))
    } else if b == 0xcf {
        if be_uint(f) <= i64::MAX {
            Some(CdtHead::Scalar(ValueView::Int(be_uint(f) as i64)))
        } else {
            Some(CdtHead::Unrepresentable(be_uint(f)))
        }
    } else if b == 0xd0 || b == 0xd1 || b == 0xd2 || b == 0xd3 {
        Some(CdtHead::Scalar(ValueView::Int(be_int(f) as i64)))
    } else if b == 0xdc || b == 0xdd {
        Some(CdtHead::Array(be_uint(f)))
    } else if b == 0xde || b == 0xdf {
        Some(CdtHead::Pairs(be_uint(f)))
    } else if b >= 0xe0 {
        Some(CdtHead::Scalar(ValueView::Int((b - 256) as i64)))
    } else {
        None
    }
}

/// The head of the item at `p`, and where its payload begins.
pub open spec fn cdt_head(d: Seq<u8>, p: int) -> Option<(CdtHead, int)> {
    if 0 <= p < d.len() && p + 1 + extra_len(d[p]) <= d.len() {
        let e = p + 1 + extra_len(d[p]);
        match head_of(d[p], d.subrange(p + 1, e)) {
            Some(h) => Some((h, e)),
            None => None,
        }
    } else {
        None
    }
}

/// The value held by a byte string of `n` bytes at `p`: its first byte tags
/// the body that follows.
pub open spec fn cdt_bytes(d: Seq<u8>, p: int, n: nat) -> Option<ValueView> {
    if n == 0 || p < 0 || p + n > d.len() {
        None
    } else {
        let tag = d[p];
        let body = d.subrange(p + 1, p + n);
        if tag == TAG_STRING {
            if valid_utf8(body) {
                Some(ValueView::Str(decode_utf8(body)))
            } else {
                None
            }
        } else if tag == TAG_GEOJSON {
            if valid_utf8(body) {
                Some(ValueView::GeoJson(decode_utf8(body)))
            } else {
                None
            }
        } else if tag == TAG_BLOB {
            Some(ValueView::Blob(body))
        } else if tag == TAG_HLL {
            Some(ValueView::Hll(body))
        } else {
            None
        }
    }
}

/// The value encoded at `p` in `d`, and the position just after it; `None`
/// where the bytes there do not hold a complete, readable value.
pub open spec fn cdt_value(d: Seq<u8>, p: int) -> Option<(ValueView, int)>
    decreases d.len() - p, 0int, 0int,
{
    match cdt_head(d, p) {
        None => None,
        Some((h, e)) => match h {
            CdtHead::Scalar(v) => Some((v, e)),
            CdtHead::Unrepresentable(_) => None,
            CdtHead::Array(n) => match cdt_items(d, e, n) {
                Some((vs, q)) => Some((ValueView::List(vs), q)),
                None => None,
            },
            CdtHead::Pairs(n) => match cdt_pairs(d, e, n) {
                Some((ps, q)) => Some((ValueView::Dict(ps), q)),
                None => None,
            },
            CdtHead::Bytes(n) => match cdt_bytes(d, e, n) {
                Some(v) => Some((v, e + n)),
                None => None,
            },
        },
    }
}

/// `n` values one after another from `p`.
pub open spec fn cdt_items(d: Seq<u8>, p: int, n: nat) -> Option<(Seq<ValueView>, int)>
    decreases d.len() - p, 1int, n,
{
    if n == 0 {
        Some((Seq::empty(), p))
    } else if !(0 <= p < d.len()) {
        None
    } else {
        match cdt_value(d, p) {
            None => None,
            Some((v, e)) => if e <= p || e > d.len() {
                None
            } else {
                match cdt_items(d, e, (n - 1) as nat) {
                    None => None,
                    Some((vs, q)) => Some((seq![v] + vs, q)),
                }
            },
        }
    }
}

/// `n` key/value pairs one after another from `p`.
pub open spec fn cdt_pairs(d: Seq<u8>, p: int, n: nat) -> Option<(Seq<(ValueView, ValueView)>, int)>
    decreases d.len() - p, 1int, n,
{
    if n == 0 {
        Some((Seq::empty(), p))
    } else if !(0 <= p < d.len()) {
        None
    } else {
        match cdt_value(d, p) {
            None => None,
            Some((k, e1)) => if e1 <= p || e1 > d.len() {
                None
            } else {
                match cdt_value(d, e1) {
                    None => None,
                    Some((v, e2)) => if e2 <= e1 || e2 > d.len() {
                        None
                    } else {
                        match cdt_pairs(d, e2, (n - 1) as nat) {
                            None => None,
                            Some((ps, q)) => Some((seq![(k, v)] + ps, q)),
                        }
                    },
                }
            },
        }
    }
}

/// Where the item at `p` ends, found without reading what it holds.
pub open spec fn cdt_skip(d: Seq<u8>, p: int) -> Option<int>
    decreases d.len() - p, 0int, 0int,
{
    match cdt_head(d, p) {
        None => None,
        Some((h, e)) => match h {
            CdtHead::Scalar(_) => Some(e),
            CdtHead::Unrepresentable(_) => Some(e),
            CdtHead::Array(n) => cdt_skip_n(d, e, n),
            CdtHead::Pairs(n) => cdt_skip_n(d, e, 2 * n),
            CdtHead::Bytes(n) => if e + n <= d.len() {
                Some(e + n)
            } else {
                None
            },
        },
    }
}

/// Where `n` items from `p` end.
pub open spec fn cdt_skip_n(d: Seq<u8>, p: int, n: nat) -> Option<int>
    decreases d.len() - p, 1int, n,
{
    if n == 0 {
        Some(p)
    } else if !(0 <= p < d.len()) {
        None
    } else {
        match cdt_skip(d, p) {
            None => None,
            Some(e) => if e <= p || e > d.len() {
                None
            } else {
                cdt_skip_n(d, e, (n - 1) as nat)
            },
        }
    }
}

/// A cursor over the bytes of a list or map particle.
pub struct CDTDecoder {
    pub data: Vec<u8>,
    pub pos: usize,
}

impl CDTDecoder {
    /// A cursor at the start of `data`.
    pub fn new(data: Vec<u8>) -> (r: CDTDecoder)
        ensures
            r.data@ == data@,
            r.pos == 0,
    {
        CDTDecoder { data, pos: 0 }
    }

    /// Takes the next byte.
    pub fn take_byte(&mut self) -> (r: Result<u8>)
        ensures
            final(self).data@ == old(self).data@,
            old(self).pos < old(self).data@.len() ==> r == Ok::<u8, Error>(old(self).data@[old(self).pos as int])
                && final(self).pos == old(self).pos + 1,
            old(self).pos >= old(self).data@.len() ==> (r matches Err(e) && e.0 is Derive) && final(self).pos == old(
                self,
            ).pos,
    {
        if self.pos >= self.data.len() {
            return Err(derive_error("Ran out of data"));
        }
        let out = self.data[self.pos];
        self.pos = self.pos + 1;
        Ok(out)
    }

    /// Takes the next `n` bytes.
    pub fn take_nbyte(&mut self, n: usize) -> (r: Result<Vec<u8>>)
        ensures
            final(self).data@ == old(self).data@,
            old(self).pos + n <= old(self).data@.len() ==> (r matches Ok(v) && v@ == old(self).data@.subrange(
                old(self).pos as int,
                old(self).pos + n,
            )) && final(self).pos == old(self).pos + n,
            old(self).pos + n > old(self).data@.len() ==> (r matches Err(e) && e.0 is Derive) && final(self).pos == old(
                self,
            ).pos,
    {
        if self.pos > self.data.len() || n > self.data.len() - self.pos {
            return Err(derive_error("Ran out of data"));
        }
        let v = slice_to_vec(slice_subrange(self.data.as_slice(), self.pos, self.pos + n));
        self.pos = self.pos + n;
        Ok(v)
    }

    /// Decodes the value at the cursor and moves past it.
    pub fn deserialize_any(&mut self) -> (r: Result<Value>)
        ensures
            final(self).data@ == old(self).data@,
            match cdt_value(old(self).data@, old(self).pos as int) {
                None => r is Err && final(self).pos == old(self).pos,
                Some((v, e)) => (r matches Ok(val) && val@ == v) && final(self).pos == e,
            },
            r matches Err(e) ==> e.0 is Derive || e.0 is InvalidUtf8,
            cdt_head(old(self).data@, old(self).pos as int) is None ==> (r matches Err(e) && e.0 is Derive),
    {
        let (v, e) = decode_value(self.data.as_slice(), self.pos)?;
        self.pos = e;
        Ok(v)
    }

    /// Reads the integer at the cursor, for a typed field of `lo ..= hi`.
    /// Anything else, or an integer out of that range, is a `Derive`
    /// error and leaves the cursor where it was.
    pub fn deserialize_int_in(&mut self, lo: i64, hi: i64) -> (r: Result<i64>)
        ensures
            final(self).data@ == old(self).data@,
            match cdt_head(old(self).data@, old(self).pos as int) {
                Some((CdtHead::Scalar(ValueView::Int(i)), e)) => if lo <= i <= hi {
                    r == Ok::<i64, Error>(i) && final(self).pos == e
                } else {
                    (r matches Err(er) && er.0 is Derive) && final(self).pos == old(self).pos
                },
                _ => (r matches Err(er) && er.0 is Derive) && final(self).pos == old(self).pos,
            },
    {
        let (h, e) = match decode_head(self.data.as_slice(), self.pos) {
            Ok(x) => x,
            Err(_) => {
                return Err(derive_error("Ran out of data"));
            },
        };
        match h {
            Head::Scalar(Value::Int(i)) => {
                if i < lo || i > hi {
                    return Err(derive_error("Integer out of range for the requested type"));
                }
                self.pos = e;
                Ok(i)
            },
            _ => Err(derive_error("Expected an integer")),
        }
    }

    /// Reads an `i64` at the cursor.
    pub fn deserialize_i64(&mut self) -> (r: Result<i64>)
        ensures
            final(self).data@ == old(self).data@,
            match cdt_head(old(self).data@, old(self).pos as int) {
                Some((CdtHead::Scalar(ValueView::Int(i)), e)) => r == Ok::<i64, Error>(i) && final(self).pos == e,
                _ => (r matches Err(er) && er.0 is Derive) && final(self).pos == old(self).pos,
            },
    {
        self.deserialize_int_in(i64::MIN, i64::MAX)
    }

    /// Reads an `i32` at the cursor; out of range is a `Derive` error.
    pub fn deserialize_i32(&mut self) -> (r: Result<i32>)
        ensures
            final(self).data@ == old(self).data@,
            match cdt_head(old(self).data@, old(self).pos as int) {
                Some((CdtHead::Scalar(ValueView::Int(i)), e)) => if i32::MIN <= i <= i32::MAX {
                    (r matches Ok(x) && x as int == i) && final(self).pos == e
                } else {
                    (r matches Err(er) && er.0 is Derive) && final(self).pos == old(self).pos
                },
                _ => (r matches Err(er) && er.0 is Derive) && final(self).pos == old(self).pos,
            },
    {
        let i = self.deserialize_int_in(i32::MIN as i64, i32::MAX as i64)?;
        Ok(i as i32)
    }

    /// Reads a `u32` at the cursor; out of range is a `Derive` error.
    pub fn deserialize_u32(&mut self) -> (r: Result<u32>)
        ensures
            final(self).data@ == old(self).data@,
            match cdt_head(old(self).data@, old(self).pos as int) {
                Some((CdtHead::Scalar(ValueView::Int(i)), e)) => if 0 <= i <= u32::MAX {
                    (r matches Ok(x) && x as int == i) && final(self).pos == e
                } else {
                    (r matches Err(er) && er.0 is Derive) && final(self).pos == old(self).pos
                },
                _ => (r matches Err(er) && er.0 is Derive) && final(self).pos == old(self).pos,
            },
    {
        let i = self.deserialize_int_in(0, u32::MAX as i64)?;
        Ok(i as u32)
    }

    /// Reads an `i8` at the cursor; out of range is a `Derive` error.
    pub fn deserialize_i8(&mut self) -> (r: Result<i8>)
        ensures
            final(self).data@ == old(self).data@,
            match cdt_head(old(self).data@, old(self).pos as int) {
                Some((CdtHead::Scalar(ValueView::Int(i)), e)) => if i8::MIN <= i <= i8::MAX {
                    (r matches Ok(x) && x as int == i) && final(self).pos == e
                } else {
                    (r matches Err(er) && er.0 is Derive) && final(self).pos == old(self).pos
                },
                _ => (r matches Err(er) && er.0 is Derive) && final(self).pos == old(self).pos,
            },
    {
        let i = self.deserialize_int_in(i8::MIN as i64, i8::MAX as i64)?;
        Ok(i as i8)
    }

    /// Reads an `i16` at the cursor; out of range is a `Derive` error.
    pub fn deserialize_i16(&mut self) -> (r: Result<i16>)
        ensures
            final(self).data@ == old(self).data@,
            match cdt_head(old(self).data@, old(self).pos as int) {
                Some((CdtHead::Scalar(ValueView::Int(i)), e)) => if i16::MIN <= i <= i16::MAX {
                    (r matches Ok(x) && x as int == i) && final(self).pos == e
                } else {
                    (r matches Err(er) && er.0 is Derive) && final(self).pos == old(self).pos
                },
                _ => (r matches Err(er) && er.0 is Derive) && final(self).pos == old(self).pos,
            },
    {
        let i = self.deserialize_int_in(i16::MIN as i64, i16::MAX as i64)?;
        Ok(i as i16)
    }

    /// Reads an `u8` at the cursor; out of range is a `Derive` error.
    pub fn deserialize_u8(&mut self) -> (r: Result<u8>)
        ensures
            final(self).data@ == old(self).data@,
            match cdt_head(old(self).data@, old(self).pos as int) {
                Some((CdtHead::Scalar(ValueView::Int(i)), e)) => if 0 <= i <= u8::MAX {
                    (r matches Ok(x) && x as int == i) && final(self).pos == e
                } else {
                    (r matches Err(er) && er.0 is Derive) && final(self).pos == old(self).pos
                },
                _ => (r matches Err(er) && er.0 is Derive) && final(self).pos == old(self).pos,
            },
    {
        let i = self.deserialize_int_in(0, u8::MAX as i64)?;
        Ok(i as u8)
    }

    /// Reads an `u16` at the cursor; out of range is a `Derive` error.
    pub fn deserialize_u16(&mut self) -> (r: Result<u16>)
        ensures
            final(self).data@ == old(self).data@,
            match cdt_head(old(self).data@, old(self).pos as int) {
                Some((CdtHead::Scalar(ValueView::Int(i)), e)) => if 0 <= i <= u16::MAX {
                    (r matches Ok(x) && x as int == i) && final(self).pos == e
                } else {
                    (r matches Err(er) && er.0 is Derive) && final(self).pos == old(self).pos
                },
                _ => (r matches Err(er) && er.0 is Derive) && final(self).pos == old(self).pos,
            },
    {
        let i = self.deserialize_int_in(0, u16::MAX as i64)?;
        Ok(i as u16)
    }

    /// Reads a `u64` at the cursor: a negative integer is a `Derive` error;
    /// an unsigned 64-bit integer above `i64::MAX` is read whole.
    pub fn deserialize_u64(&mut self) -> (r: Result<u64>)
        ensures
            final(self).data@ == old(self).data@,
            match cdt_head(old(self).data@, old(self).pos as int) {
                Some((CdtHead::Scalar(ValueView::Int(i)), e)) => if 0 <= i {
                    (r matches Ok(x) && x as int == i) && final(self).pos == e
                } else {
                    (r matches Err(er) && er.0 is Derive) && final(self).pos == old(self).pos
                },
                Some((CdtHead::Unrepresentable(n), e)) => (r matches Ok(x) && x as nat == n) && final(self).pos == e,
                _ => (r matches Err(er) && er.0 is Derive) && final(self).pos == old(self).pos,
            },
    {
        let (h, e) = match decode_head(self.data.as_slice(), self.pos) {
            Ok(x) => x,
            Err(_) => {
                return Err(derive_error("Ran out of data"));
            },
        };
        match h {
            Head::Scalar(Value::Int(i)) => {
                if i < 0 {
                    return Err(derive_error("Negative integer for an unsigned type"));
                }
                self.pos = e;
                Ok(i as u64)
            },
            Head::Unrepresentable(n) => {
                self.pos = e;
                Ok(n)
            },
            _ => Err(derive_error("Expected an integer")),
        }
    }

    /// Reads the bytes at the cursor for pass-through: a byte string gives
    /// its body after the particle tag; any other item gives all of its
    /// bytes, lead byte included. The cursor moves past the item.
    pub fn deserialize_bytes(&mut self) -> (r: Result<Vec<u8>>)
        ensures
            final(self).data@ == old(self).data@,
            ({
                let d = old(self).data@;
                let p = old(self).pos as int;
                match cdt_head(d, p) {
                    Some((CdtHead::Bytes(n), e)) => if 1 <= n && e + n <= d.len() {
                        (r matches Ok(v) && v@ == d.subrange(e + 1, e + n)) && final(self).pos == e + n
                    } else {
                        (r matches Err(er) && er.0 is Derive) && final(self).pos == p
                    },
                    _ => match cdt_skip(d, p) {
                        Some(end) => (r matches Ok(v) && v@ == d.subrange(p, end)) && final(self).pos == end,
                        None => (r matches Err(er) && er.0 is Derive) && final(self).pos == p,
                    },
                }
            }),
    {
        let p = self.pos;
        if let Ok((Head::Bytes(n), e)) = decode_head(self.data.as_slice(), p) {
            if n < 1 || n > (self.data.len() - e) as u64 {
                return Err(derive_error("Ran out of data"));
            }
            let end = e + n as usize;
            let v = slice_to_vec(slice_subrange(self.data.as_slice(), e + 1, end));
            self.pos = end;
            return Ok(v);
        }
        let end = skip_value(self.data.as_slice(), p)?;
        proof {
            lemma_skip_within(self.data@, p as int);
        }
        let v = slice_to_vec(slice_subrange(self.data.as_slice(), p, end));
        self.pos = end;
        Ok(v)
    }

    /// Reads a `bool` at the cursor.
    pub fn deserialize_bool(&mut self) -> (r: Result<bool>)
        ensures
            final(self).data@ == old(self).data@,
            match cdt_head(old(self).data@, old(self).pos as int) {
                Some((CdtHead::Scalar(ValueView::Bool(b)), e)) => r == Ok::<bool, Error>(b) && final(self).pos == e,
                _ => (r matches Err(er) && er.0 is Derive) && final(self).pos == old(self).pos,
            },
    {
        let (h, e) = match decode_head(self.data.as_slice(), self.pos) {
            Ok(x) => x,
            Err(_) => {
                return Err(derive_error("Ran out of data"));
            },
        };
        match h {
            Head::Scalar(Value::Bool(b)) => {
                self.pos = e;
                Ok(b)
            },
            _ => Err(derive_error("Expected a boolean")),
        }
    }

    /// Moves past the value at the cursor without building it.
    pub fn deserialize_ignored_any(&mut self) -> (r: Result<()>)
        ensures
            final(self).data@ == old(self).data@,
            match cdt_skip(old(self).data@, old(self).pos as int) {
                None => r is Err && final(self).pos == old(self).pos,
                Some(e) => r is Ok && final(self).pos == e,
            },
    {
        let e = skip_value(self.data.as_slice(), self.pos)?;
        self.pos = e;
        Ok(())
    }
}

/// The head of an item as the decoder holds it.
pub enum Head {
    Scalar(Value),
    Unrepresentable(u64),
    Array(u64),
    Pairs(u64),
    Bytes(u64),
}

pub open spec fn head_view(h: Head) -> CdtHead {
    match h {
        Head::Scalar(v) => CdtHead::Scalar(v@),
        Head::Unrepresentable(n) => CdtHead::Unrepresentable(n as nat),
        Head::Array(n) => CdtHead::Array(n as nat),
        Head::Pairs(n) => CdtHead::Pairs(n as nat),
        Head::Bytes(n) => CdtHead::Bytes(n as nat),
    }
}

fn derive_error(msg: &str) -> (r: Error)
    ensures
        r.0 is Derive,
{
    Error::from_kind(ErrorKind::Derive(msg.to_owned()))
}

fn extra_len_of(b: u8) -> (k: usize)
    ensures
        k == extra_len(b),
        k <= 8,
{
    if b == 0xc4 || b == 0xd9 || b == 0xcc || b == 0xd0 {
        1
    } else if b == 0xc5 || b == 0xda || b == 0xcd || b == 0xd1 || b == 0xdc || b == 0xde {
        2
    } else if b == 0xc6 || b == 0xdb || b == 0xce || b == 0xd2 || b == 0xdd || b == 0xdf || b == 0xca {
        4
    } else if b == 0xcb || b == 0xcf || b == 0xd3 {
        8
    } else {
        0
    }
}

/// Reads the head of the item at `p`.
pub fn decode_head(d: &[u8], p: usize) -> (r: Result<(Head, usize)>)
    ensures
        match cdt_head(d@, p as int) {
            None => r is Err,
            Some((h, e)) => r matches Ok((hh, q)) && head_view(hh) == h && q == e,
        },
        r matches Ok((Head::Pairs(n), _)) ==> n <= 0xffff_ffff,
        r matches Err(e) ==> e.0 is Derive,
{
    if p >= d.len() {
        return Err(derive_error("Ran out of data"));
    }
    let b = d[p];
    let k = extra_len_of(b);
    if k > d.len() - p - 1 {
        return Err(derive_error("Ran out of data"));
    }
    let e = p + 1 + k;
    let ghost f = d@.subrange(p + 1, e as int);
    let n = read_be_uint(d, p + 1, k);
    proof {
        lemma_be_uint_bound(f);
        lemma_pow256_values();
        reveal_with_fuel(crate::wire::pow256, 9);
    }
    let h = if b <= 0x7f {
        Head::Scalar(Value::Int(b as i64))
    } else if b <= 0x8f {
        Head::Pairs((b - 0x80) as u64)
    } else if b <= 0x9f {
        Head::Array((b - 0x90) as u64)
    } else if b <= 0xbf {
        Head::Bytes((b - 0xa0) as u64)
    } else if b == 0xc0 {
        Head::Scalar(Value::Nil)
    } else if b == 0xc2 {
        Head::Scalar(Value::Bool(false))
    } else if b == 0xc3 {
        Head::Scalar(Value::Bool(true))
    } else if b == 0xc4 || b == 0xc5 || b == 0xc6 || b == 0xd9 || b == 0xda || b == 0xdb {
        Head::Bytes(n)
    } else if b == 0xca {
        Head::Scalar(Value::Float(FloatValue::F32(n as u32)))
    } else if b == 0xcb {
        Head::Scalar(Value::Float(FloatValue::F64(n)))
    } else if b == 0xcc || b == 0xcd || b == 0xce {
        Head::Scalar(Value::Int(n as i64))
    } else if b == 0xcf {
        if n <= 0x7fff_ffff_ffff_ffff {
            Head::Scalar(Value::Int(n as i64))
        } else {
            Head::Unrepresentable(n)
        }
    } else if b == 0xd0 || b == 0xd1 || b == 0xd2 || b == 0xd3 {
        let i = read_be_int(d, p + 1, k);
        Head::Scalar(Value::Int(i))
    } else if b == 0xdc || b == 0xdd {
        Head::Array(n)
    } else if b == 0xde || b == 0xdf {
        Head::Pairs(n)
    } else if b >= 0xe0 {
        Head::Scalar(Value::Int(b as i64 - 256))
    } else {
        return Err(derive_error("Unsupported lead byte"));
    };
    Ok((h, e))
}

/// Reads the byte string of `n` bytes at `p`: a particle tag and a body.
pub fn decode_bytes(d: &[u8], p: usize, n: u64) -> (r: Result<Value>)
    ensures
        match cdt_bytes(d@, p as int, n as nat) {
            None => r is Err,
            Some(v) => r matches Ok(val) && val@ == v,
        },
        r matches Err(e) ==> e.0 is Derive || e.0 is InvalidUtf8,
{
    if n == 0 || p > d.len() || n > (d.len() - p) as u64 {
        return Err(derive_error("Ran out of data"));
    }
    let end = p + n as usize;
    let tag = d[p];
    let body = slice_subrange(d, p + 1, end);
    if tag == TAG_STRING || tag == TAG_GEOJSON {
        match string_from_utf8(body) {
            Some(s) => if tag == TAG_STRING {
                Ok(Value::String(s))
            } else {
                Ok(Value::GeoJSON(s))
            },
            None => Err(Error::from_kind(ErrorKind::InvalidUtf8)),
        }
    } else if tag == TAG_BLOB {
        Ok(Value::Blob(slice_to_vec(body)))
    } else if tag == TAG_HLL {
        Ok(Value::HLL(slice_to_vec(body)))
    } else {
        Err(derive_error("Unexpected particle type in byte string"))
    }
}

/// Decodes the value at `p`, returning it with the position just after it.
pub fn decode_value(d: &[u8], p: usize) -> (r: Result<(Value, usize)>)
    ensures
        match cdt_value(d@, p as int) {
            None => r is Err,
            Some((v, e)) => r matches Ok((val, q)) && val@ == v && q == e,
        },
        r matches Err(e) ==> e.0 is Derive || e.0 is InvalidUtf8,
        cdt_head(d@, p as int) is None ==> (r matches Err(e) && e.0 is Derive),
    decreases d@.len() - p, 0int,
{
    if p >= d.len() {
        return Err(derive_error("Ran out of data"));
    }
    let (h, e) = decode_head(d, p)?;
    match h {
        Head::Scalar(v) => Ok((v, e)),
        Head::Unrepresentable(_) => Err(derive_error("Integer does not fit in i64")),
        Head::Array(n) => {
            let (items, q) = decode_items(d, e, n)?;
            proof {
                lemma_list_view(items);
            }
            Ok((Value::List(items), q))
        },
        Head::Pairs(n) => {
            let (pairs, q) = decode_pairs(d, e, n)?;
            proof {
                lemma_map_view(pairs);
            }
            Ok((Value::HashMap(pairs), q))
        },
        Head::Bytes(n) => {
            let v = decode_bytes(d, e, n)?;
            Ok((v, e + n as usize))
        },
    }
}

/// Decodes `n` values one after another from `p`.
pub fn decode_items(d: &[u8], p: usize, n: u64) -> (r: Result<(Vec<Value>, usize)>)
    requires
        p <= d@.len(),
    ensures
        match cdt_items(d@, p as int, n as nat) {
            None => r is Err,
            Some((vs, e)) => r matches Ok((vals, q)) && views(vals@) == vs && q == e,
        },
        r matches Err(e) ==> e.0 is Derive || e.0 is InvalidUtf8,
    decreases d@.len() - p, 1int,
{
    let mut vals: Vec<Value> = Vec::new();
    let mut q = p;
    let mut i: u64 = 0;
    while i < n
        invariant
            p <= q <= d@.len(),
            i <= n,
            cdt_items(d@, p as int, n as nat) == match cdt_items(d@, q as int, (n - i) as nat) {
                Some((vs, e)) => Some((views(vals@) + vs, e)),
                None => None,
            },
        decreases n - i,
    {
        if q >= d.len() {
            return Err(derive_error("Ran out of data"));
        }
        let (v, e) = decode_value(d, q)?;
        if e <= q || e > d.len() {
            return Err(derive_error("Malformed container"));
        }
        let ghost before = views(vals@);
        vals.push(v);
        assert(views(vals@) =~= before.push(v@));
        proof {
            match cdt_items(d@, e as int, (n - i - 1) as nat) {
                Some((vs, f)) => {
                    assert(before + (seq![v@] + vs) =~= before.push(v@) + vs);
                },
                None => {},
            }
        }
        q = e;
        i = i + 1;
    }
    assert(views(vals@) + Seq::<ValueView>::empty() =~= views(vals@));
    Ok((vals, q))
}

/// Decodes `n` key/value pairs one after another from `p`.
pub fn decode_pairs(d: &[u8], p: usize, n: u64) -> (r: Result<(Vec<(Value, Value)>, usize)>)
    requires
        p <= d@.len(),
    ensures
        match cdt_pairs(d@, p as int, n as nat) {
            None => r is Err,
            Some((ps, e)) => r matches Ok((pairs, q)) && pair_views(pairs@) == ps && q == e,
        },
        r matches Err(e) ==> e.0 is Derive || e.0 is InvalidUtf8,
    decreases d@.len() - p, 1int,
{
    let mut pairs: Vec<(Value, Value)> = Vec::new();
    let mut q = p;
    let mut i: u64 = 0;
    while i < n
        invariant
            p <= q <= d@.len(),
            i <= n,
            cdt_pairs(d@, p as int, n as nat) == match cdt_pairs(d@, q as int, (n - i) as nat) {
                Some((ps, e)) => Some((pair_views(pairs@) + ps, e)),
                None => None,
            },
        decreases n - i,
    {
        if q >= d.len() {
            return Err(derive_error("Ran out of data"));
        }
        let (k, e1) = decode_value(d, q)?;
        if e1 <= q || e1 > d.len() {
            return Err(derive_error("Malformed container"));
        }
        let (v, e2) = decode_value(d, e1)?;
        if e2 <= e1 || e2 > d.len() {
            return Err(derive_error("Malformed container"));
        }
        let ghost before = pair_views(pairs@);
        let ghost kv = (k@, v@);
        pairs.push((k, v));
        assert(pair_views(pairs@) =~= before.push(kv));
        proof {
            match cdt_pairs(d@, e2 as int, (n - i - 1) as nat) {
                Some((ps, f)) => {
                    assert(before + (seq![kv] + ps) =~= before.push(kv) + ps);
                },
                None => {},
            }
        }
        q = e2;
        i = i + 1;
    }
    assert(pair_views(pairs@) + Seq::<(ValueView, ValueView)>::empty() =~= pair_views(pairs@));
    Ok((pairs, q))
}

/// Finds where the item at `p` ends, without building what it holds.
pub fn skip_value(d: &[u8], p: usize) -> (r: Result<usize>)
    ensures
        match cdt_skip(d@, p as int) {
            None => r is Err,
            Some(e) => r matches Ok(q) && q == e,
        },
        r matches Err(e) ==> e.0 is Derive,
    decreases d@.len() - p, 0int,
{
    if p >= d.len() {
        return Err(derive_error("Ran out of data"));
    }
    let (h, e) = decode_head(d, p)?;
    match h {
        Head::Scalar(_) => Ok(e),
        Head::Unrepresentable(_) => Ok(e),
        Head::Array(n) => skip_n(d, e, n),
        Head::Pairs(n) => skip_n(d, e, 2 * n),
        Head::Bytes(n) => {
            if n <= (d.len() - e) as u64 {
                Ok(e + n as usize)
            } else {
                Err(derive_error("Ran out of data"))
            }
        },
    }
}

/// Finds where `n` items from `p` end.
pub fn skip_n(d: &[u8], p: usize, n: u64) -> (r: Result<usize>)
    requires
        p <= d@.len(),
    ensures
        match cdt_skip_n(d@, p as int, n as nat) {
            None => r is Err,
            Some(e) => r matches Ok(q) && q == e,
        },
        r matches Err(e) ==> e.0 is Derive,
    decreases d@.len() - p, 1int,
{
    let mut q = p;
    let mut i: u64 = 0;
    while i < n
        invariant
            p <= q <= d@.len(),
            i <= n,
            cdt_skip_n(d@, p as int, n as nat) == cdt_skip_n(d@, q as int, (n - i) as nat),
        decreases n - i,
    {
        if q >= d.len() {
            return Err(derive_error("Ran out of data"));
        }
        let e = skip_value(d, q)?;
        if e <= q || e > d.len() {
            return Err(derive_error("Malformed container"));
        }
        q = e;
        i = i + 1;
    }
    Ok(q)
}

/// A skipped item ends after where it starts, within the data.
pub proof fn lemma_skip_within(d: Seq<u8>, p: int)
    ensures
        cdt_skip(d, p) matches Some(e) ==> p < e <= d.len(),
    decreases d.len() - p, 0int, 0int,
{
    match cdt_head(d, p) {
        Some((h, e)) => match h {
            CdtHead::Array(n) => lemma_skip_n_within(d, e, n),
            CdtHead::Pairs(n) => lemma_skip_n_within(d, e, 2 * n),
            _ => {},
        },
        None => {},
    }
}

proof fn lemma_skip_n_within(d: Seq<u8>, p: int, n: nat)
    requires
        0 <= p <= d.len(),
    ensures
        cdt_skip_n(d, p, n) matches Some(e) ==> p <= e <= d.len(),
    decreases d.len() - p, 1int, n,
{
    if n > 0 && 0 <= p < d.len() {
        match cdt_skip(d, p) {
            Some(e) => {
                if e > p && e <= d.len() {
                    lemma_skip_n_within(d, e, (n - 1) as nat);
                }
            },
            None => {},
        }
    }
}

/// Skipping an item ends exactly where decoding it ends: wherever the
/// decoder reads a value at `p`, the walker that skips values moves the
/// cursor to the same position.
pub proof fn lemma_skip_agrees_with_decode(d: Seq<u8>, p: int)
    ensures
        cdt_value(d, p) matches Some((v, e)) ==> cdt_skip(d, p) == Some(e),
    decreases d.len() - p, 0int, 0int,
{
    match cdt_head(d, p) {
        Some((h, e)) => match h {
            CdtHead::Array(n) => lemma_skip_agrees_items(d, e, n),
            CdtHead::Pairs(n) => lemma_skip_agrees_pairs(d, e, n),
            _ => {},
        },
        None => {},
    }
}

proof fn lemma_skip_agrees_items(d: Seq<u8>, p: int, n: nat)
    ensures
        cdt_items(d, p, n) matches Some((vs, e)) ==> cdt_skip_n(d, p, n) == Some(e),
    decreases d.len() - p, 1int, n,
{
    if n > 0 && 0 <= p < d.len() {
        lemma_skip_agrees_with_decode(d, p);
        match cdt_value(d, p) {
            Some((v, e)) => {
                if e > p && e <= d.len() {
                    lemma_skip_agrees_items(d, e, (n - 1) as nat);
                }
            },
            None => {},
        }
    }
}

proof fn lemma_skip_agrees_pairs(d: Seq<u8>, p: int, n: nat)
    ensures
        cdt_pairs(d, p, n) matches Some((ps, e)) ==> cdt_skip_n(d, p, 2 * n) == Some(e),
    decreases d.len() - p, 1int, n,
{
    if n > 0 && 0 <= p < d.len() {
        lemma_skip_agrees_with_decode(d, p);
        match cdt_value(d, p) {
            Some((k, e1)) => {
                if e1 > p && e1 <= d.len() {
                    lemma_skip_agrees_with_decode(d, e1);
                    match cdt_value(d, e1) {
                        Some((v, e2)) => {
                            if e2 > e1 && e2 <= d.len() {
                                lemma_skip_agrees_pairs(d, e2, (n - 1) as nat);
                                assert(cdt_skip_n(d, e1, (2 * n - 1) as nat) == cdt_skip_n(d, e2, (2 * n - 2) as nat));
                            }
                        },
                        None => {},
                    }
                }
            },
            None => {},
        }
    }
}

/// The bytes of the integer `i`, in the shortest form.
pub open spec fn int_bytes(i: i64) -> Seq<u8> {
    if 0 <= i < 0x80 {
        seq![i as u8]
    } else if i >= 0 {
        if i < 0x100 {
            seq![0xccu8] + be_bytes(i as nat, 1)
        } else if i < 0x1_0000 {
            seq![0xcdu8] + be_bytes(i as nat, 2)
        } else if i < 0x1_0000_0000 {
            seq![0xceu8] + be_bytes(i as nat, 4)
        } else {
            seq![0xcfu8] + be_bytes(i as nat, 8)
        }
    } else if i >= -32 {
        seq![(i + 0x100) as u8]
    } else if i >= -0x80 {
        seq![0xd0u8] + be_bytes((i + 0x100) as nat, 1)
    } else if i >= -0x8000 {
        seq![0xd1u8] + be_bytes((i + 0x1_0000) as nat, 2)
    } else if i >= -0x8000_0000 {
        seq![0xd2u8] + be_bytes((i + 0x1_0000_0000) as nat, 4)
    } else {
        seq![0xd3u8] + be_bytes((i + 0x1_0000_0000_0000_0000) as nat, 8)
    }
}

/// The head of a byte string of `n` bytes (tag and body).
pub open spec fn bytes_head(n: nat) -> Seq<u8> {
    if n < 32 {
        seq![(0xa0 + n) as u8]
    } else if n < 0x100 {
        seq![0xd9u8] + be_bytes(n, 1)
    } else if n < 0x1_0000 {
        seq![0xdau8] + be_bytes(n, 2)
    } else {
        seq![0xdbu8] + be_bytes(n, 4)
    }
}

/// The head of an array of `n` items.
pub open spec fn array_head(n: nat) -> Seq<u8> {
    if n < 16 {
        seq![(0x90 + n) as u8]
    } else if n < 0x1_0000 {
        seq![0xdcu8] + be_bytes(n, 2)
    } else {
        seq![0xddu8] + be_bytes(n, 4)
    }
}

/// The head of a map of `n` pairs.
pub open spec fn map_head(n: nat) -> Seq<u8> {
    if n < 16 {
        seq![(0x80 + n) as u8]
    } else if n < 0x1_0000 {
        seq![0xdeu8] + be_bytes(n, 2)
    } else {
        seq![0xdfu8] + be_bytes(n, 4)
    }
}

/// A tagged byte string.
pub open spec fn tagged_bytes(tag: u8, body: Seq<u8>) -> Seq<u8> {
    bytes_head(body.len() + 1) + seq![tag] + body
}

/// Whether `v` fits the format: each byte string and container is short
/// enough that its length or count fits in 32 bits.
pub open spec fn encodable(v: ValueView) -> bool
    decreases v,
{
    match v {
        ValueView::Str(s) => encode_utf8(s).len() + 1 <= 0xffff_ffff,
        ValueView::GeoJson(s) => encode_utf8(s).len() + 1 <= 0xffff_ffff,
        ValueView::Blob(b) => b.len() + 1 <= 0xffff_ffff,
        ValueView::Hll(b) => b.len() + 1 <= 0xffff_ffff,
        ValueView::List(vs) => vs.len() <= 0xffff_ffff && encodable_seq(vs),
        ValueView::Dict(ps) => ps.len() <= 0xffff_ffff && encodable_pairs(ps),
        _ => true,
    }
}

/// Whether every value of `vs` is encodable.
pub open spec fn encodable_seq(vs: Seq<ValueView>) -> bool
    decreases vs,
{
    vs.len() == 0 || (encodable(vs[0]) && encodable_seq(vs.subrange(1, vs.len() as int)))
}

/// Whether every key and value of `ps` is encodable.
pub open spec fn encodable_pairs(ps: Seq<(ValueView, ValueView)>) -> bool
    decreases ps,
{
    ps.len() == 0 || (encodable(ps[0].0) && encodable(ps[0].1) && encodable_pairs(
        ps.subrange(1, ps.len() as int),
    ))
}

/// The encoding of `v`.
pub open spec fn cdt_encode(v: ValueView) -> Seq<u8>
    decreases v,
{
    match v {
        ValueView::Nil => seq![0xc0u8],
        ValueView::Bool(b) => seq![if b { 0xc3u8 } else { 0xc2u8 }],
        ValueView::Int(i) => int_bytes(i),
        ValueView::Float(FloatValue::F32(b)) => seq![0xcau8] + be_bytes(b as nat, 4),
        ValueView::Float(FloatValue::F64(b)) => seq![0xcbu8] + be_bytes(b as nat, 8),
        ValueView::Str(s) => tagged_bytes(TAG_STRING, encode_utf8(s)),
        ValueView::GeoJson(s) => tagged_bytes(TAG_GEOJSON, encode_utf8(s)),
        ValueView::Blob(b) => tagged_bytes(TAG_BLOB, b),
        ValueView::Hll(b) => tagged_bytes(TAG_HLL, b),
        ValueView::List(vs) => array_head(vs.len()) + cdt_encode_seq(vs),
        ValueView::Dict(ps) => map_head(ps.len()) + cdt_encode_pairs(ps),
    }
}

/// The encodings of `vs`, one after another.
pub open spec fn cdt_encode_seq(vs: Seq<ValueView>) -> Seq<u8>
    decreases vs,
{
    if vs.len() == 0 {
        Seq::empty()
    } else {
        cdt_encode(vs[0]) + cdt_encode_seq(vs.subrange(1, vs.len() as int))
    }
}

/// The encodings of the pairs `ps`, key before value, one after another.
pub open spec fn cdt_encode_pairs(ps: Seq<(ValueView, ValueView)>) -> Seq<u8>
    decreases ps,
{
    if ps.len() == 0 {
        Seq::empty()
    } else {
        cdt_encode(ps[0].0) + cdt_encode(ps[0].1) + cdt_encode_pairs(ps.subrange(1, ps.len() as int))
    }
}

/// `d` holds the bytes `x` from position `p`.
pub open spec fn holds(d: Seq<u8>, p: int, x: Seq<u8>) -> bool {
    0 <= p && p + x.len() <= d.len() && d.subrange(p, p + x.len()) == x
}

proof fn lemma_holds_split(d: Seq<u8>, p: int, a: Seq<u8>, b: Seq<u8>)
    requires
        holds(d, p, a + b),
    ensures
        holds(d, p, a),
        holds(d, p + a.len(), b),
{
    let ab = a + b;
    let w = d.subrange(p, p + ab.len());
    assert(w == ab);
    assert(d.subrange(p, p + a.len()) =~= w.subrange(0, a.len() as int));
    assert(ab.subrange(0, a.len() as int) =~= a);
    assert(d.subrange(p + a.len(), p + a.len() + b.len()) =~= w.subrange(a.len() as int, ab.len() as int));
    assert(ab.subrange(a.len() as int, ab.len() as int) =~= b);
}

proof fn lemma_head_at(d: Seq<u8>, p: int, b: u8, n: nat, k: nat)
    requires
        k == extra_len(b),
        n < pow256(k),
        holds(d, p, seq![b] + be_bytes(n, k)),
    ensures
        be_uint(be_bytes(n, k)) == n,
        be_bytes(n, k).len() == k,
        cdt_head(d, p) == match head_of(b, be_bytes(n, k)) {
            Some(h) => Some((h, p + 1 + k)),
            None => None,
        },
{
    lemma_be_bytes_round_trip(n, k);
    let x = seq![b] + be_bytes(n, k);
    assert(d[p] == x[0]);
    assert(d.subrange(p + 1, p + 1 + k) =~= x.subrange(1, 1 + k as int));
    assert(x.subrange(1, 1 + k as int) =~= be_bytes(n, k));
}

proof fn lemma_encode_nonempty(v: ValueView)
    ensures
        cdt_encode(v).len() >= 1,
{
    match v {
        ValueView::Int(i) => {},
        ValueView::List(vs) => {},
        ValueView::Dict(ps) => {},
        _ => {},
    }
}

proof fn lemma_bytes_head_at(d: Seq<u8>, p: int, n: nat, rest: Seq<u8>)
    requires
        1 <= n <= 0xffff_ffff,
        holds(d, p, bytes_head(n) + rest),
    ensures
        cdt_head(d, p) == Some((CdtHead::Bytes(n), p + bytes_head(n).len())),
{
    lemma_pow256_values();
    lemma_holds_split(d, p, bytes_head(n), rest);
    if n < 32 {
        assert(seq![(0xa0 + n) as u8] + be_bytes(0, 0) =~= bytes_head(n));
        lemma_head_at(d, p, (0xa0 + n) as u8, 0, 0);
        assert(head_of((0xa0 + n) as u8, be_bytes(0, 0)) == Some(CdtHead::Bytes(n)));
        assert(bytes_head(n).len() == 1);
    } else if n < 0x100 {
        lemma_head_at(d, p, 0xd9, n, 1);
        assert(head_of(0xd9, be_bytes(n, 1)) == Some(CdtHead::Bytes(n)));
        assert(bytes_head(n).len() == 2);
    } else if n < 0x1_0000 {
        lemma_head_at(d, p, 0xda, n, 2);
        assert(head_of(0xda, be_bytes(n, 2)) == Some(CdtHead::Bytes(n)));
        assert(bytes_head(n).len() == 3);
    } else {
        lemma_head_at(d, p, 0xdb, n, 4);
        assert(head_of(0xdb, be_bytes(n, 4)) == Some(CdtHead::Bytes(n)));
        assert(bytes_head(n).len() == 5);
    }
}

proof fn lemma_tagged_at(d: Seq<u8>, p: int, tag: u8, body: Seq<u8>)
    requires
        body.len() + 1 <= 0xffff_ffff,
        holds(d, p, tagged_bytes(tag, body)),
    ensures
        cdt_head(d, p) == Some((CdtHead::Bytes(body.len() + 1), p + bytes_head(body.len() + 1).len())),
        ({
            let e = p + bytes_head(body.len() + 1).len();
            e + body.len() + 1 == p + tagged_bytes(tag, body).len() && d[e] == tag && d.subrange(e + 1, e + body.len() + 1) == body
        }),
{
    let n = body.len() + 1;
    let h = bytes_head(n);
    assert(tagged_bytes(tag, body) =~= h + (seq![tag] + body));
    lemma_bytes_head_at(d, p, n, seq![tag] + body);
    lemma_holds_split(d, p, h, seq![tag] + body);
    let e = p + h.len();
    assert(d.subrange(e, e + n)[0] == tag);
    assert(d.subrange(e + 1, e + n) =~= d.subrange(e, e + n).subrange(1, n as int));
    assert((seq![tag] + body).subrange(1, n as int) =~= body);
}

proof fn lemma_int_at(d: Seq<u8>, p: int, i: i64)
    requires
        holds(d, p, int_bytes(i)),
    ensures
        cdt_value(d, p) == Some((ValueView::Int(i), p + int_bytes(i).len())),
{
    lemma_pow256_values();
    if 0 <= i < 0x80 {
        assert(seq![i as u8] + be_bytes(0, 0) =~= int_bytes(i));
        lemma_head_at(d, p, i as u8, 0, 0);
        assert(head_of(i as u8, be_bytes(0, 0)) == Some(CdtHead::Scalar(ValueView::Int(i))));
    } else if i >= 0 {
        if i < 0x100 {
            lemma_head_at(d, p, 0xcc, i as nat, 1);
            assert(head_of(0xcc, be_bytes(i as nat, 1)) == Some(CdtHead::Scalar(ValueView::Int(i))));
        } else if i < 0x1_0000 {
            lemma_head_at(d, p, 0xcd, i as nat, 2);
            assert(head_of(0xcd, be_bytes(i as nat, 2)) == Some(CdtHead::Scalar(ValueView::Int(i))));
        } else if i < 0x1_0000_0000 {
            lemma_head_at(d, p, 0xce, i as nat, 4);
            assert(head_of(0xce, be_bytes(i as nat, 4)) == Some(CdtHead::Scalar(ValueView::Int(i))));
        } else {
            lemma_head_at(d, p, 0xcf, i as nat, 8);
            assert(head_of(0xcf, be_bytes(i as nat, 8)) == Some(CdtHead::Scalar(ValueView::Int(i))));
        }
    } else if i >= -32 {
        assert(seq![(i + 0x100) as u8] + be_bytes(0, 0) =~= int_bytes(i));
        lemma_head_at(d, p, (i + 0x100) as u8, 0, 0);
        assert(head_of((i + 0x100) as u8, be_bytes(0, 0)) == Some(CdtHead::Scalar(ValueView::Int(i))));
    } else if i >= -0x80 {
        lemma_head_at(d, p, 0xd0, (i + 0x100) as nat, 1);
        assert(head_of(0xd0, be_bytes((i + 0x100) as nat, 1)) == Some(CdtHead::Scalar(ValueView::Int(i))));
    } else if i >= -0x8000 {
        lemma_head_at(d, p, 0xd1, (i + 0x1_0000) as nat, 2);
        assert(be_int(be_bytes((i + 0x1_0000) as nat, 2)) == i);
        assert(head_of(0xd1, be_bytes((i + 0x1_0000) as nat, 2)) == Some(CdtHead::Scalar(ValueView::Int(i))));
    } else if i >= -0x8000_0000 {
        lemma_head_at(d, p, 0xd2, (i + 0x1_0000_0000) as nat, 4);
        assert(head_of(0xd2, be_bytes((i + 0x1_0000_0000) as nat, 4)) == Some(CdtHead::Scalar(ValueView::Int(i))));
    } else {
        lemma_head_at(d, p, 0xd3, (i + 0x1_0000_0000_0000_0000) as nat, 8);
        assert(be_int(be_bytes((i + 0x1_0000_0000_0000_0000) as nat, 8)) == i);
        assert(head_of(0xd3, be_bytes((i + 0x1_0000_0000_0000_0000) as nat, 8)) == Some(CdtHead::Scalar(ValueView::Int(i))));
    }
}

/// Decoding what the encoder wrote gives back the value, and consumes
/// exactly the bytes written: wherever `d` holds the encoding of an
/// encodable `v` from `p`, the decoder reads `v` there and stops just after
/// the encoding.
pub proof fn lemma_decode_encode(v: ValueView, d: Seq<u8>, p: int)
    requires
        encodable(v),
        holds(d, p, cdt_encode(v)),
    ensures
        cdt_value(d, p) == Some((v, p + cdt_encode(v).len())),
    decreases v,
{
    lemma_pow256_values();
    match v {
        ValueView::Nil => {
            assert(seq![0xc0u8] + be_bytes(0, 0) =~= cdt_encode(v));
            lemma_head_at(d, p, 0xc0, 0, 0);
            assert(head_of(0xc0, be_bytes(0, 0)) == Some(CdtHead::Scalar(ValueView::Nil)));
            assert(cdt_head(d, p) == Some((CdtHead::Scalar(ValueView::Nil), p + 1)));
            assert(cdt_encode(v).len() == 1);
            assert(cdt_value(d, p) == Some((v, p + 1)));
        },
        ValueView::Bool(b) => {
            let lead: u8 = if b { 0xc3 } else { 0xc2 };
            assert(seq![lead] + be_bytes(0, 0) =~= cdt_encode(v));
            lemma_head_at(d, p, lead, 0, 0);
        },
        ValueView::Int(i) => {
            lemma_int_at(d, p, i);
        },
        ValueView::Float(FloatValue::F32(b)) => {
            lemma_head_at(d, p, 0xca, b as nat, 4);
        },
        ValueView::Float(FloatValue::F64(b)) => {
            lemma_head_at(d, p, 0xcb, b as nat, 8);
        },
        ValueView::Str(s) => {
            let u = encode_utf8(s);
            lemma_tagged_at(d, p, TAG_STRING, u);
            vstd::utf8::encode_utf8_valid_utf8(s);
            vstd::utf8::encode_utf8_decode_utf8(s);
        },
        ValueView::GeoJson(s) => {
            let u = encode_utf8(s);
            lemma_tagged_at(d, p, TAG_GEOJSON, u);
            vstd::utf8::encode_utf8_valid_utf8(s);
            vstd::utf8::encode_utf8_decode_utf8(s);
        },
        ValueView::Blob(b) => {
            lemma_tagged_at(d, p, TAG_BLOB, b);
        },
        ValueView::Hll(b) => {
            lemma_tagged_at(d, p, TAG_HLL, b);
        },
        ValueView::List(vs) => {
            let n = vs.len();
            let h = array_head(n);
            lemma_holds_split(d, p, h, cdt_encode_seq(vs));
            if n < 16 {
                assert(seq![(0x90 + n) as u8] + be_bytes(0, 0) =~= h);
                lemma_head_at(d, p, (0x90 + n) as u8, 0, 0);
            } else if n < 0x1_0000 {
                lemma_head_at(d, p, 0xdc, n, 2);
            } else {
                lemma_head_at(d, p, 0xdd, n, 4);
            }
            lemma_decode_encode_seq(vs, d, p + h.len());
        },
        ValueView::Dict(ps) => {
            let n = ps.len();
            let h = map_head(n);
            lemma_holds_split(d, p, h, cdt_encode_pairs(ps));
            if n < 16 {
                assert(seq![(0x80 + n) as u8] + be_bytes(0, 0) =~= h);
                lemma_head_at(d, p, (0x80 + n) as u8, 0, 0);
            } else if n < 0x1_0000 {
                lemma_head_at(d, p, 0xde, n, 2);
            } else {
                lemma_head_at(d, p, 0xdf, n, 4);
            }
            lemma_decode_encode_pairs(ps, d, p + h.len());
        },
    }
}

proof fn lemma_decode_encode_seq(vs: Seq<ValueView>, d: Seq<u8>, p: int)
    requires
        encodable_seq(vs),
        holds(d, p, cdt_encode_seq(vs)),
    ensures
        cdt_items(d, p, vs.len()) == Some((vs, p + cdt_encode_seq(vs).len())),
    decreases vs,
{
    if vs.len() == 0 {
        assert(vs =~= Seq::<ValueView>::empty());
    } else {
        let rest = vs.subrange(1, vs.len() as int);
        let a = cdt_encode(vs[0]);
        lemma_holds_split(d, p, a, cdt_encode_seq(rest));
        lemma_encode_nonempty(vs[0]);
        lemma_decode_encode(vs[0], d, p);
        lemma_decode_encode_seq(rest, d, p + a.len());
        assert(seq![vs[0]] + rest =~= vs);
    }
}

proof fn lemma_decode_encode_pairs(ps: Seq<(ValueView, ValueView)>, d: Seq<u8>, p: int)
    requires
        encodable_pairs(ps),
        holds(d, p, cdt_encode_pairs(ps)),
    ensures
        cdt_pairs(d, p, ps.len()) == Some((ps, p + cdt_encode_pairs(ps).len())),
    decreases ps,
{
    if ps.len() == 0 {
        assert(ps =~= Seq::<(ValueView, ValueView)>::empty());
    } else {
        let rest = ps.subrange(1, ps.len() as int);
        let a = cdt_encode(ps[0].0);
        let b = cdt_encode(ps[0].1);
        lemma_holds_split(d, p, a + b, cdt_encode_pairs(rest));
        lemma_holds_split(d, p, a, b);
        lemma_encode_nonempty(ps[0].0);
        lemma_encode_nonempty(ps[0].1);
        lemma_decode_encode(ps[0].0, d, p);
        lemma_decode_encode(ps[0].1, d, p + a.len());
        lemma_decode_encode_pairs(rest, d, p + a.len() + b.len());
        assert(seq![(ps[0].0, ps[0].1)] + rest =~= ps);
    }
}

proof fn lemma_encode_seq_push(s: Seq<ValueView>, x: ValueView)
    ensures
        cdt_encode_seq(s.push(x)) == cdt_encode_seq(s) + cdt_encode(x),
    decreases s.len(),
{
    if s.len() == 0 {
        assert(s.push(x)[0] == x);
        assert(s.push(x).subrange(1, 1) =~= Seq::<ValueView>::empty());
        assert(cdt_encode_seq(s.push(x)) == cdt_encode(x) + cdt_encode_seq(Seq::<ValueView>::empty()));
        assert(cdt_encode(x) + Seq::<u8>::empty() =~= cdt_encode(x));
        assert(Seq::<u8>::empty() + cdt_encode(x) =~= cdt_encode(x));
    } else {
        let rest = s.subrange(1, s.len() as int);
        assert(s.push(x).subrange(1, s.len() + 1 as int) =~= rest.push(x));
        assert(s.push(x)[0] == s[0]);
        lemma_encode_seq_push(rest, x);
        assert(cdt_encode(s[0]) + (cdt_encode_seq(rest) + cdt_encode(x)) =~= (cdt_encode(s[0]) + cdt_encode_seq(rest)) + cdt_encode(x));
    }
}

proof fn lemma_encode_pairs_push(s: Seq<(ValueView, ValueView)>, x: (ValueView, ValueView))
    ensures
        cdt_encode_pairs(s.push(x)) == cdt_encode_pairs(s) + cdt_encode(x.0) + cdt_encode(x.1),
    decreases s.len(),
{
    if s.len() == 0 {
        assert(s.push(x)[0] == x);
        assert(s.push(x).subrange(1, 1) =~= Seq::<(ValueView, ValueView)>::empty());
        assert(cdt_encode_pairs(s.push(x)) == cdt_encode(x.0) + cdt_encode(x.1) + cdt_encode_pairs(Seq::<(ValueView, ValueView)>::empty()));
        assert(cdt_encode(x.0) + cdt_encode(x.1) + Seq::<u8>::empty() =~= Seq::<u8>::empty() + cdt_encode(x.0) + cdt_encode(x.1));
    } else {
        let rest = s.subrange(1, s.len() as int);
        assert(s.push(x).subrange(1, s.len() + 1 as int) =~= rest.push(x));
        assert(s.push(x)[0] == s[0]);
        lemma_encode_pairs_push(rest, x);
        let h = cdt_encode(s[0].0) + cdt_encode(s[0].1);
        assert(h + (cdt_encode_pairs(rest) + cdt_encode(x.0) + cdt_encode(x.1)) =~= (h + cdt_encode_pairs(rest)) + cdt_encode(x.0) + cdt_encode(x.1));
    }
}

proof fn lemma_encodable_seq_index(s: Seq<ValueView>, i: int)
    requires
        encodable_seq(s),
        0 <= i < s.len(),
    ensures
        encodable(s[i]),
    decreases s.len(),
{
    if i > 0 {
        let rest = s.subrange(1, s.len() as int);
        lemma_encodable_seq_index(rest, i - 1);
    }
}

proof fn lemma_encodable_pairs_index(s: Seq<(ValueView, ValueView)>, i: int)
    requires
        encodable_pairs(s),
        0 <= i < s.len(),
    ensures
        encodable(s[i].0),
        encodable(s[i].1),
    decreases s.len(),
{
    if i > 0 {
        let rest = s.subrange(1, s.len() as int);
        lemma_encodable_pairs_index(rest, i - 1);
    }
}

/// Appends the shortest encoding of the integer `i`.
pub fn write_int(out: &mut Vec<u8>, i: i64)
    ensures
        final(out)@ == old(out)@ + int_bytes(i),
{
    let ghost start = out@;
    if 0 <= i && i < 0x80 {
        out.push(i as u8);
        assert(out@ =~= start + int_bytes(i));
    } else if i >= 0 {
        let (lead, k): (u8, usize) = if i < 0x100 {
            (0xcc, 1)
        } else if i < 0x1_0000 {
            (0xcd, 2)
        } else if i < 0x1_0000_0000 {
            (0xce, 4)
        } else {
            (0xcf, 8)
        };
        out.push(lead);
        write_be_uint(out, i as u64, k);
        assert(out@ =~= start + int_bytes(i));
    } else if i >= -32 {
        out.push((i + 0x100) as u8);
        assert(out@ =~= start + int_bytes(i));
    } else {
        let (lead, k, bits): (u8, usize, u64) = if i >= -0x80 {
            (0xd0, 1, (i + 0x100) as u64)
        } else if i >= -0x8000 {
            (0xd1, 2, (i + 0x1_0000) as u64)
        } else if i >= -0x8000_0000 {
            (0xd2, 4, (i + 0x1_0000_0000) as u64)
        } else {
            (0xd3, 8, (0xffff_ffff_ffff_ffffu64 - ((-(i + 1)) as u64)) + 0)
        };
        assert(i < -0x8000_0000 ==> bits as int == i + 0x1_0000_0000_0000_0000);
        out.push(lead);
        write_be_uint(out, bits, k);
        assert(out@ =~= start + int_bytes(i));
    }
}

fn write_head(out: &mut Vec<u8>, lead: u8, n: u64, k: usize)
    ensures
        final(out)@ == old(out)@ + (seq![lead] + be_bytes(n as nat, k as nat)),
{
    let ghost start = out@;
    out.push(lead);
    write_be_uint(out, n, k);
    assert(out@ =~= start + (seq![lead] + be_bytes(n as nat, k as nat)));
}

/// Appends the head of a byte string of `n` bytes.
pub fn write_bytes_head(out: &mut Vec<u8>, n: u64)
    requires
        n <= 0xffff_ffff,
    ensures
        final(out)@ == old(out)@ + bytes_head(n as nat),
{
    let ghost start = out@;
    if n < 32 {
        out.push((0xa0 + n) as u8);
        assert(out@ =~= start + bytes_head(n as nat));
    } else if n < 0x100 {
        write_head(out, 0xd9, n, 1);
    } else if n < 0x1_0000 {
        write_head(out, 0xda, n, 2);
    } else {
        write_head(out, 0xdb, n, 4);
    }
}

/// Appends the head of an array of `n` items.
pub fn write_array_head(out: &mut Vec<u8>, n: u64)
    requires
        n <= 0xffff_ffff,
    ensures
        final(out)@ == old(out)@ + array_head(n as nat),
{
    let ghost start = out@;
    if n < 16 {
        out.push((0x90 + n) as u8);
        assert(out@ =~= start + array_head(n as nat));
    } else if n < 0x1_0000 {
        write_head(out, 0xdc, n, 2);
    } else {
        write_head(out, 0xdd, n, 4);
    }
}

/// Appends the head of a map of `n` pairs.
pub fn write_map_head(out: &mut Vec<u8>, n: u64)
    requires
        n <= 0xffff_ffff,
    ensures
        final(out)@ == old(out)@ + map_head(n as nat),
{
    let ghost start = out@;
    if n < 16 {
        out.push((0x80 + n) as u8);
        assert(out@ =~= start + map_head(n as nat));
    } else if n < 0x1_0000 {
        write_head(out, 0xde, n, 2);
    } else {
        write_head(out, 0xdf, n, 4);
    }
}

fn write_tagged(out: &mut Vec<u8>, tag: u8, body: &[u8])
    requires
        body@.len() + 1 <= 0xffff_ffff,
    ensures
        final(out)@ == old(out)@ + tagged_bytes(tag, body@),
{
    let ghost start = out@;
    write_bytes_head(out, body.len() as u64 + 1);
    out.push(tag);
    assert(body@.subrange(0, 0) =~= Seq::<u8>::empty());
    assert(out@ =~= start + bytes_head(body@.len() + 1) + seq![tag] + body@.subrange(0, 0));
    let mut i: usize = 0;
    while i < body.len()
        invariant
            i <= body@.len(),
            out@ == start + bytes_head(body@.len() + 1) + seq![tag] + body@.subrange(0, i as int),
        decreases body@.len() - i,
    {
        out.push(body[i]);
        i = i + 1;
        assert(body@.subrange(0, i as int) =~= body@.subrange(0, i - 1).push(body@[i - 1]));
    }
    assert(body@.subrange(0, i as int) =~= body@);
    assert(out@ =~= start + tagged_bytes(tag, body@));
}

/// Appends the encoding of `v`.
#[verifier::loop_isolation(false)]
pub fn encode_value(v: &Value, out: &mut Vec<u8>)
    requires
        encodable(v@),
    ensures
        final(out)@ == old(out)@ + cdt_encode(v@),
    decreases v,
{
    let ghost start = out@;
    match v {
        Value::Nil => {
            out.push(0xc0);
            assert(out@ =~= start + cdt_encode(v@));
        },
        Value::Bool(b) => {
            out.push(if *b { 0xc3 } else { 0xc2 });
            assert(out@ =~= start + cdt_encode(v@));
        },
        Value::Int(i) => write_int(out, *i),
        Value::Float(FloatValue::F32(b)) => write_head(out, 0xca, *b as u64, 4),
        Value::Float(FloatValue::F64(b)) => write_head(out, 0xcb, *b, 8),
        Value::String(s) => write_tagged(out, TAG_STRING, s.as_str().as_bytes()),
        Value::GeoJSON(s) => write_tagged(out, TAG_GEOJSON, s.as_str().as_bytes()),
        Value::Blob(b) => write_tagged(out, TAG_BLOB, b.as_slice()),
        Value::HLL(b) => write_tagged(out, TAG_HLL, b.as_slice()),
        Value::List(items) => {
            proof {
                lemma_list_view(*items);
            }
            let ghost vs = views(items@);
            write_array_head(out, items.len() as u64);
            assert(vs.subrange(0, 0) =~= Seq::<ValueView>::empty());
            let mut i: usize = 0;
            while i < items.len()
                invariant
                    vs == views(items@),
                    encodable_seq(vs),
                    i <= items@.len(),
                    out@ == start + array_head(vs.len()) + cdt_encode_seq(vs.subrange(0, i as int)),
                decreases items@.len() - i,
            {
                proof {
                    lemma_encodable_seq_index(vs, i as int);
                    lemma_encode_seq_push(vs.subrange(0, i as int), vs[i as int]);
                    assert(vs.subrange(0, i as int).push(vs[i as int]) =~= vs.subrange(0, i + 1));
                }
                assert(decreases_to!(items => items[i as int]));
                encode_value(&items[i], out);
                i = i + 1;
            }
            assert(vs.subrange(0, i as int) =~= vs);
        },
        Value::HashMap(pairs) => {
            proof {
                lemma_map_view(*pairs);
            }
            let ghost ps = pair_views(pairs@);
            write_map_head(out, pairs.len() as u64);
            assert(ps.subrange(0, 0) =~= Seq::<(ValueView, ValueView)>::empty());
            let mut i: usize = 0;
            while i < pairs.len()
                invariant
                    ps == pair_views(pairs@),
                    encodable_pairs(ps),
                    i <= pairs@.len(),
                    out@ == start + map_head(ps.len()) + cdt_encode_pairs(ps.subrange(0, i as int)),
                decreases pairs@.len() - i,
            {
                proof {
                    lemma_encodable_pairs_index(ps, i as int);
                    lemma_encode_pairs_push(ps.subrange(0, i as int), ps[i as int]);
                    assert(ps.subrange(0, i as int).push(ps[i as int]) =~= ps.subrange(0, i + 1));
                }
                assert(decreases_to!(pairs => pairs[i as int]));
                let (k, x) = &pairs[i];
                encode_value(k, out);
                encode_value(x, out);
                i = i + 1;
            }
            assert(ps.subrange(0, i as int) =~= ps);
        },
    }
}

} // verus!
