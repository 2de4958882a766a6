//! Bin particles: a one-byte particle type and the bytes of one value.

use vstd::prelude::*;
use vstd::slice::slice_subrange;
use vstd::utf8::{decode_utf8, encode_utf8, valid_utf8};

use crate::cdt::{cdt_encode, cdt_value, decode_value, encodable, encode_value, lemma_decode_encode};
use crate::errors::{Error, ErrorKind, Result};
use crate::value::{particle_code, particle_of_code, FloatValue, ParticleType, Value, ValueView};
use crate::wire::{
    be_bytes, be_int, be_uint, lemma_be_bytes_len, lemma_be_bytes_round_trip, lemma_be_uint_bound,
    lemma_pow256_values, pow256, read_be_int, read_be_uint, string_from_utf8, write_be_uint,
};

verus! {

/// The most bytes a bin name may have.
pub const MAX_BIN_NAME_LEN: usize = 15;

/// The value that a particle of type `t` with bytes `b` holds, if it is
/// readable.
pub open spec fn particle_value(t: u8, b: Seq<u8>) -> Option<ValueView> {
    match particle_of_code(t) {
        None => None,
        Some(pt) => match pt {
            ParticleType::NULL => Some(ValueView::Nil),
            ParticleType::INTEGER => if b.len() == 8 {
                Some(ValueView::Int(be_int(b) as i64))
            } else {
                None
            },
            ParticleType::FLOAT => if b.len() == 8 {
                Some(ValueView::Float(FloatValue::F64(be_uint(b) as u64)))
            } else {
                None
            },
            ParticleType::STRING => if valid_utf8(b) {
                Some(ValueView::Str(decode_utf8(b)))
            } else {
                None
            },
            ParticleType::GEOJSON => if valid_utf8(b) {
                Some(ValueView::GeoJson(decode_utf8(b)))
            } else {
                None
            },
            ParticleType::BLOB => Some(ValueView::Blob(b)),
            ParticleType::HLL => Some(ValueView::Hll(b)),
            ParticleType::BOOL => if b.len() == 1 {
                Some(ValueView::Bool(b[0] != 0))
            } else {
                None
            },
            ParticleType::LIST => match cdt_value(b, 0) {
                Some((ValueView::List(vs), _)) => Some(ValueView::List(vs)),
                _ => None,
            },
            ParticleType::MAP => match cdt_value(b, 0) {
                Some((ValueView::Dict(ps), _)) => Some(ValueView::Dict(ps)),
                _ => None,
            },
            _ => None,
        },
    }
}

/// The two's-complement bit pattern of `i` as an unsigned number.
pub open spec fn i64_bits(i: i64) -> nat {
    if i >= 0 {
        i as nat
    } else {
        (i + 0x1_0000_0000_0000_0000) as nat
    }
}

/// Shifts the mantissa `m` left until its bit 23 is set, counting the shifts.
pub open spec fn normalize_f32_mantissa(m: nat, s: nat) -> (nat, nat)
    decreases 0x100_0000 - m,
{
    if m == 0 || m >= 0x80_0000 || s >= 23 {
        (m, s)
    } else {
        normalize_f32_mantissa(2 * m, s + 1)
    }
}

/// The bit pattern of the double that has the same value as the single
/// with bit pattern `b`.
pub open spec fn widen_f32_bits(b: u32) -> u64 {
    let sign = (b as nat / 0x8000_0000) * 0x8000_0000_0000_0000;
    let exp = (b as nat / 0x80_0000) % 0x100;
    let man = b as nat % 0x80_0000;
    let rest: nat = if exp == 0xff {
        0x7ff * 0x10_0000_0000_0000 + man * 0x2000_0000
    } else if exp != 0 {
        (exp + 896) * 0x10_0000_0000_0000 + man * 0x2000_0000
    } else if man == 0 {
        0
    } else {
        let (m, s) = normalize_f32_mantissa(man, 0);
        let frac: nat = if m >= 0x80_0000 {
            (m - 0x80_0000) as nat
        } else {
            0
        };
        ((897 - s) as nat) * 0x10_0000_0000_0000 + frac * 0x2000_0000
    };
    (sign + rest) as u64
}

/// The particle type under which `v` is stored in a bin.
pub open spec fn particle_type_of(v: ValueView) -> ParticleType {
    match v {
        ValueView::Nil => ParticleType::NULL,
        ValueView::Bool(_) => ParticleType::BOOL,
        ValueView::Int(_) => ParticleType::INTEGER,
        ValueView::Float(_) => ParticleType::FLOAT,
        ValueView::Str(_) => ParticleType::STRING,
        ValueView::Blob(_) => ParticleType::BLOB,
        ValueView::GeoJson(_) => ParticleType::GEOJSON,
        ValueView::Hll(_) => ParticleType::HLL,
        ValueView::List(_) => ParticleType::LIST,
        ValueView::Dict(_) => ParticleType::MAP,
    }
}

/// The particle bytes under which `v` is stored in a bin.
pub open spec fn particle_bytes_of(v: ValueView) -> Seq<u8> {
    match v {
        ValueView::Nil => Seq::empty(),
        ValueView::Bool(b) => seq![if b { 1u8 } else { 0u8 }],
        ValueView::Int(i) => be_bytes(i64_bits(i), 8),
        ValueView::Float(FloatValue::F64(bits)) => be_bytes(bits as nat, 8),
        ValueView::Float(FloatValue::F32(bits)) => be_bytes(widen_f32_bits(bits) as nat, 8),
        ValueView::Str(s) => encode_utf8(s),
        ValueView::Blob(b) => b,
        ValueView::GeoJson(s) => encode_utf8(s),
        ValueView::Hll(b) => b,
        ValueView::List(_) => cdt_encode(v),
        ValueView::Dict(_) => cdt_encode(v),
    }
}

/// What a value becomes after a trip through a bin: a single-precision
/// float is stored, and read back, as the double of the same value.
pub open spec fn stored_form(v: ValueView) -> ValueView {
    match v {
        ValueView::Float(FloatValue::F32(bits)) => ValueView::Float(FloatValue::F64(widen_f32_bits(bits))),
        _ => v,
    }
}

/// A bin as it came off the wire: its particle type, its name and its bytes.
#[derive(Debug, Clone)]
pub struct PreParsedValue {
    pub particle_type: u8,
    pub name_len: u8,
    pub name: [u8; 15],
    pub particle: Vec<u8>,
}

impl PreParsedValue {
    /// The particle type, or an error for a byte that names none.
    pub fn particle_type(&self) -> (r: Result<ParticleType>)
        ensures
            match particle_of_code(self.particle_type) {
                Some(t) => r == Ok::<ParticleType, Error>(t),
                None => r matches Err(e) && e.0 is BadResponse,
            },
    {
        match ParticleType::from_u8(self.particle_type) {
            Some(t) => Ok(t),
            None => Err(Error::from_kind(ErrorKind::BadResponse("Unknown particle type".to_owned()))),
        }
    }

    /// The bin name.
    pub fn name(&self) -> (r: Result<String>)
        ensures
            self.name_len <= 15 && valid_utf8(self.name@.subrange(0, self.name_len as int)) ==> (r matches Ok(s)
                && s@ == decode_utf8(self.name@.subrange(0, self.name_len as int))),
            self.name_len > 15 ==> (r matches Err(e) && e.0 is BadResponse),
            self.name_len <= 15 && !valid_utf8(self.name@.subrange(0, self.name_len as int)) ==> (r matches Err(e)
                && e.0 is InvalidUtf8),
    {
        let len = self.name_len as usize;
        if len > MAX_BIN_NAME_LEN {
            return Err(Error::from_kind(ErrorKind::BadResponse("Bin name too long".to_owned())));
        }
        match string_from_utf8(slice_subrange(self.name.as_slice(), 0, len)) {
            Some(s) => Ok(s),
            None => Err(Error::from_kind(ErrorKind::InvalidUtf8)),
        }
    }

    /// The particle bytes.
    pub fn particle(&self) -> (r: &[u8])
        ensures
            r@ == self.particle@,
    {
        self.particle.as_slice()
    }

    /// The particle read as a boolean: one byte, true when not zero.
    pub fn as_bool(&self) -> (r: Result<bool>)
        ensures
            self.particle@.len() == 1 ==> r == Ok::<bool, Error>(self.particle@[0] != 0),
            self.particle@.len() != 1 ==> (r matches Err(e) && e.0 is Derive),
    {
        if self.particle.len() != 1 {
            return Err(Error::from_kind(ErrorKind::Derive("Boolean particle must be one byte".to_owned())));
        }
        Ok(self.particle[0] != 0)
    }

    /// The particle read as a signed 64-bit big-endian integer.
    pub fn as_int(&self) -> (r: Result<i64>)
        ensures
            self.particle@.len() == 8 ==> (r matches Ok(i) && i as int == be_int(self.particle@)),
            self.particle@.len() != 8 ==> (r matches Err(e) && e.0 is Derive),
    {
        if self.particle.len() != 8 {
            return Err(Error::from_kind(ErrorKind::Derive("Integer particle must be eight bytes".to_owned())));
        }
        let r = read_be_int(self.particle.as_slice(), 0, 8);
        assert(self.particle@.subrange(0, 8) =~= self.particle@);
        Ok(r)
    }

    /// The particle read as a double, held as its bit pattern.
    pub fn as_float(&self) -> (r: Result<FloatValue>)
        ensures
            self.particle@.len() == 8 ==> (r matches Ok(f) && f == FloatValue::F64(be_uint(self.particle@) as u64)),
            self.particle@.len() != 8 ==> (r matches Err(e) && e.0 is Derive),
    {
        if self.particle.len() != 8 {
            return Err(Error::from_kind(ErrorKind::Derive("Float particle must be eight bytes".to_owned())));
        }
        let r = read_be_uint(self.particle.as_slice(), 0, 8);
        assert(self.particle@.subrange(0, 8) =~= self.particle@);
        Ok(FloatValue::F64(r))
    }

    /// The particle read as an integer that must lie in `lo ..= hi`.
    fn as_int_in(&self, lo: i64, hi: i64) -> (r: Result<i64>)
        ensures
            self.particle@.len() == 8 && lo <= be_int(self.particle@) <= hi ==> (r matches Ok(i) && i as int == be_int(
                self.particle@,
            )),
            !(self.particle@.len() == 8 && lo <= be_int(self.particle@) <= hi) ==> (r matches Err(e) && e.0 is Derive),
    {
        let i = self.as_int()?;
        if i < lo || i > hi {
            return Err(Error::from_kind(ErrorKind::Derive("Integer out of range for the requested type".to_owned())));
        }
        Ok(i)
    }

    /// The particle read as an `i8`; out of range is a `Derive` error.
    pub fn as_i8(&self) -> (r: Result<i8>)
        ensures
            self.particle@.len() == 8 && i8::MIN <= be_int(self.particle@) <= i8::MAX ==> (r matches Ok(i) && i as int
                == be_int(self.particle@)),
            !(self.particle@.len() == 8 && i8::MIN <= be_int(self.particle@) <= i8::MAX) ==> (r matches Err(e)
                && e.0 is Derive),
    {
        let i = self.as_int_in(i8::MIN as i64, i8::MAX as i64)?;
        Ok(i as i8)
    }

    /// The particle read as an `i16`; out of range is a `Derive` error.
    pub fn as_i16(&self) -> (r: Result<i16>)
        ensures
            self.particle@.len() == 8 && i16::MIN <= be_int(self.particle@) <= i16::MAX ==> (r matches Ok(i) && i as int
                == be_int(self.particle@)),
            !(self.particle@.len() == 8 && i16::MIN <= be_int(self.particle@) <= i16::MAX) ==> (r matches Err(e)
                && e.0 is Derive),
    {
        let i = self.as_int_in(i16::MIN as i64, i16::MAX as i64)?;
        Ok(i as i16)
    }

    /// The particle read as an `i32`; out of range is a `Derive` error.
    pub fn as_i32(&self) -> (r: Result<i32>)
        ensures
            self.particle@.len() == 8 && i32::MIN <= be_int(self.particle@) <= i32::MAX ==> (r matches Ok(i) && i as int
                == be_int(self.particle@)),
            !(self.particle@.len() == 8 && i32::MIN <= be_int(self.particle@) <= i32::MAX) ==> (r matches Err(e)
                && e.0 is Derive),
    {
        let i = self.as_int_in(i32::MIN as i64, i32::MAX as i64)?;
        Ok(i as i32)
    }

    /// The particle read as a `u8`; out of range is a `Derive` error.
    pub fn as_u8(&self) -> (r: Result<u8>)
        ensures
            self.particle@.len() == 8 && 0 <= be_int(self.particle@) <= u8::MAX ==> (r matches Ok(i) && i as int
                == be_int(self.particle@)),
            !(self.particle@.len() == 8 && 0 <= be_int(self.particle@) <= u8::MAX) ==> (r matches Err(e) && e.0 is Derive),
    {
        let i = self.as_int_in(0, u8::MAX as i64)?;
        Ok(i as u8)
    }

    /// The particle read as a `u16`; out of range is a `Derive` error.
    pub fn as_u16(&self) -> (r: Result<u16>)
        ensures
            self.particle@.len() == 8 && 0 <= be_int(self.particle@) <= u16::MAX ==> (r matches Ok(i) && i as int
                == be_int(self.particle@)),
            !(self.particle@.len() == 8 && 0 <= be_int(self.particle@) <= u16::MAX) ==> (r matches Err(e)
                && e.0 is Derive),
    {
        let i = self.as_int_in(0, u16::MAX as i64)?;
        Ok(i as u16)
    }

    /// The particle read as a `u32`; out of range is a `Derive` error.
    pub fn as_u32(&self) -> (r: Result<u32>)
        ensures
            self.particle@.len() == 8 && 0 <= be_int(self.particle@) <= u32::MAX ==> (r matches Ok(i) && i as int
                == be_int(self.particle@)),
            !(self.particle@.len() == 8 && 0 <= be_int(self.particle@) <= u32::MAX) ==> (r matches Err(e)
                && e.0 is Derive),
    {
        let i = self.as_int_in(0, u32::MAX as i64)?;
        Ok(i as u32)
    }

    /// The particle read as a `u64`: a negative integer is a `Derive`
    /// error.
    pub fn as_u64(&self) -> (r: Result<u64>)
        ensures
            self.particle@.len() == 8 && 0 <= be_int(self.particle@) ==> (r matches Ok(i) && i as int == be_int(
                self.particle@,
            )),
            !(self.particle@.len() == 8 && 0 <= be_int(self.particle@)) ==> (r matches Err(e) && e.0 is Derive),
    {
        proof {
            lemma_be_uint_bound(self.particle@);
            lemma_pow256_values();
        }
        let i = self.as_int_in(0, i64::MAX)?;
        Ok(i as u64)
    }

    /// The particle bytes, taken out.
    pub fn into_blob(self) -> (r: Vec<u8>)
        ensures
            r@ == self.particle@,
    {
        self.particle
    }

    /// The particle read as UTF-8 text.
    pub fn into_string(self) -> (r: Result<String>)
        ensures
            valid_utf8(self.particle@) ==> (r matches Ok(s) && s@ == decode_utf8(self.particle@)),
            !valid_utf8(self.particle@) ==> (r matches Err(e) && e.0 is InvalidUtf8),
    {
        match string_from_utf8(self.particle.as_slice()) {
            Some(s) => Ok(s),
            None => Err(Error::from_kind(ErrorKind::InvalidUtf8)),
        }
    }

    /// The value that the particle holds.
    pub fn to_value(&self) -> (r: Result<Value>)
        ensures
            match particle_value(self.particle_type, self.particle@) {
                Some(v) => r matches Ok(val) && val@ == v,
                None => r is Err,
            },
    {
        let t = self.particle_type()?;
        match t {
            ParticleType::NULL => Ok(Value::Nil),
            ParticleType::INTEGER => Ok(Value::Int(self.as_int()?)),
            ParticleType::FLOAT => Ok(Value::Float(self.as_float()?)),
            ParticleType::STRING => match string_from_utf8(self.particle.as_slice()) {
                Some(s) => Ok(Value::String(s)),
                None => Err(Error::from_kind(ErrorKind::InvalidUtf8)),
            },
            ParticleType::GEOJSON => match string_from_utf8(self.particle.as_slice()) {
                Some(s) => Ok(Value::GeoJSON(s)),
                None => Err(Error::from_kind(ErrorKind::InvalidUtf8)),
            },
            ParticleType::BLOB => Ok(Value::Blob(vstd::slice::slice_to_vec(self.particle.as_slice()))),
            ParticleType::HLL => Ok(Value::HLL(vstd::slice::slice_to_vec(self.particle.as_slice()))),
            ParticleType::BOOL => Ok(Value::Bool(self.as_bool()?)),
            ParticleType::LIST | ParticleType::MAP => {
                let (v, _) = decode_value(self.particle.as_slice(), 0)?;
                match v {
                    Value::List(items) => if t == ParticleType::LIST {
                        Ok(Value::List(items))
                    } else {
                        Err(Error::from_kind(ErrorKind::Derive("Expected a map".to_owned())))
                    },
                    Value::HashMap(pairs) => if t == ParticleType::MAP {
                        Ok(Value::HashMap(pairs))
                    } else {
                        Err(Error::from_kind(ErrorKind::Derive("Expected a list".to_owned())))
                    },
                    _ => Err(Error::from_kind(ErrorKind::Derive("Expected a container".to_owned()))),
                }
            },
            _ => Err(Error::from_kind(ErrorKind::Derive("Particle type not supported".to_owned()))),
        }
    }
}

/// The bit pattern of the double equal to the single with bit pattern `b`.
pub fn widen_f32(b: u32) -> (r: u64)
    ensures
        r == widen_f32_bits(b),
{
    let sign: u64 = (b / 0x8000_0000) as u64 * 0x8000_0000_0000_0000;
    let exp: u64 = ((b / 0x80_0000) % 0x100) as u64;
    let man: u64 = (b % 0x80_0000) as u64;
    let rest: u64 = if exp == 0xff {
        0x7ff * 0x10_0000_0000_0000 + man * 0x2000_0000
    } else if exp != 0 {
        (exp + 896) * 0x10_0000_0000_0000 + man * 0x2000_0000
    } else if man == 0 {
        0
    } else {
        let mut m: u64 = man;
        let mut s: u64 = 0;
        while m < 0x80_0000 && s < 23
            invariant
                1 <= m < 0x100_0000,
                s <= 23,
                normalize_f32_mantissa(m as nat, s as nat) == normalize_f32_mantissa(man as nat, 0),
            decreases 0x100_0000 - m,
        {
            m = 2 * m;
            s = s + 1;
        }
        let frac: u64 = if m >= 0x80_0000 {
            m - 0x80_0000
        } else {
            0
        };
        (897 - s) * 0x10_0000_0000_0000 + frac * 0x2000_0000
    };
    sign + rest
}

impl Value {
    /// The particle type under which this value is stored in a bin.
    pub fn particle_type(&self) -> (r: ParticleType)
        ensures
            r == particle_type_of(self@),
    {
        proof {
            reveal_with_fuel(<Value as View>::view, 2);
        }
        match self {
            Value::Nil => ParticleType::NULL,
            Value::Bool(_) => ParticleType::BOOL,
            Value::Int(_) => ParticleType::INTEGER,
            Value::Float(_) => ParticleType::FLOAT,
            Value::String(_) => ParticleType::STRING,
            Value::Blob(_) => ParticleType::BLOB,
            Value::GeoJSON(_) => ParticleType::GEOJSON,
            Value::HLL(_) => ParticleType::HLL,
            Value::List(_) => ParticleType::LIST,
            Value::HashMap(_) => ParticleType::MAP,
        }
    }

    /// Appends the particle bytes under which this value is stored in a bin.
    pub fn write_to(&self, out: &mut Vec<u8>)
        requires
            encodable(self@),
        ensures
            final(out)@ == old(out)@ + particle_bytes_of(self@),
    {
        let ghost start = out@;
        proof {
            reveal_with_fuel(<Value as View>::view, 2);
        }
        match self {
            Value::Nil => {
                assert(out@ =~= start + particle_bytes_of(self@));
            },
            Value::Bool(b) => {
                out.push(if *b { 1 } else { 0 });
                assert(out@ =~= start + particle_bytes_of(self@));
            },
            Value::Int(i) => {
                let bits: u64 = if *i >= 0 {
                    *i as u64
                } else {
                    0xffff_ffff_ffff_ffffu64 - ((-(*i + 1)) as u64)
                };
                write_be_uint(out, bits, 8);
            },
            Value::Float(FloatValue::F64(bits)) => write_be_uint(out, *bits, 8),
            Value::Float(FloatValue::F32(bits)) => write_be_uint(out, widen_f32(*bits), 8),
            Value::String(s) | Value::GeoJSON(s) => {
                let b = s.as_str().as_bytes();
                let mut i: usize = 0;
                while i < b.len()
                    invariant
                        i <= b@.len(),
                        out@ == start + b@.subrange(0, i as int),
                    decreases b@.len() - i,
                {
                    out.push(b[i]);
                    i = i + 1;
                    assert(b@.subrange(0, i as int) =~= b@.subrange(0, i - 1).push(b@[i - 1]));
                }
                assert(b@.subrange(0, i as int) =~= b@);
            },
            Value::Blob(b) | Value::HLL(b) => {
                let mut i: usize = 0;
                while i < b.len()
                    invariant
                        i <= b@.len(),
                        out@ == start + b@.subrange(0, i as int),
                    decreases b@.len() - i,
                {
                    out.push(b[i]);
                    i = i + 1;
                    assert(b@.subrange(0, i as int) =~= b@.subrange(0, i - 1).push(b@[i - 1]));
                }
                assert(b@.subrange(0, i as int) =~= b@);
            },
            Value::List(_) | Value::HashMap(_) => encode_value(self, out),
        }
    }
}

/// Storing a value in a bin and reading the bin back gives the value again
/// (a single-precision float comes back as the double of the same value):
/// for every encodable `v`, the particle that `write_to` and
/// `particle_type` produce reads back, through `to_value`, as
/// `stored_form(v)`.
pub proof fn lemma_particle_round_trip(v: ValueView)
    requires
        encodable(v),
    ensures
        particle_value(particle_code(particle_type_of(v)), particle_bytes_of(v)) == Some(stored_form(v)),
{
    lemma_pow256_values();
    let b = particle_bytes_of(v);
    match v {
        ValueView::Int(i) => {
            lemma_be_bytes_round_trip(i64_bits(i), 8);
        },
        ValueView::Float(FloatValue::F64(bits)) => {
            lemma_be_bytes_round_trip(bits as nat, 8);
        },
        ValueView::Float(FloatValue::F32(bits)) => {
            lemma_be_bytes_round_trip(widen_f32_bits(bits) as nat, 8);
        },
        ValueView::Str(s) => {
            vstd::utf8::encode_utf8_valid_utf8(s);
            vstd::utf8::encode_utf8_decode_utf8(s);
        },
        ValueView::GeoJson(s) => {
            vstd::utf8::encode_utf8_valid_utf8(s);
            vstd::utf8::encode_utf8_decode_utf8(s);
        },
        ValueView::List(_) => {
            assert(b.subrange(0, b.len() as int) =~= b);
            lemma_decode_encode(v, b, 0);
        },
        ValueView::Dict(_) => {
            assert(b.subrange(0, b.len() as int) =~= b);
            lemma_decode_encode(v, b, 0);
        },
        _ => {},
    }
}

} // verus!
