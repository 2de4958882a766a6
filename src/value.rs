//! Values carried in bins, and the one-byte particle types that tag them on
//! the wire.

use vstd::prelude::*;

verus! {

/// The one-byte tag that says how a bin's bytes are to be read.
#[allow(non_camel_case_types)]
#[derive(Debug, Clone, Copy, PartialEq, Eq, Structural)]
pub enum ParticleType {
    NULL,
    INTEGER,
    FLOAT,
    STRING,
    BLOB,
    DIGEST,
    BOOL,
    HLL,
    MAP,
    LIST,
    LDT,
    GEOJSON,
}

/// The wire byte of each particle type.
pub open spec fn particle_code(t: ParticleType) -> u8 {
    match t {
        ParticleType::NULL => 0,
        ParticleType::INTEGER => 1,
        ParticleType::FLOAT => 2,
        ParticleType::STRING => 3,
        ParticleType::BLOB => 4,
        ParticleType::DIGEST => 6,
        ParticleType::BOOL => 17,
        ParticleType::HLL => 18,
        ParticleType::MAP => 19,
        ParticleType::LIST => 20,
        ParticleType::LDT => 21,
        ParticleType::GEOJSON => 23,
    }
}

/// The particle type that a wire byte names, if any.
pub open spec fn particle_of_code(b: u8) -> Option<ParticleType> {
    if b == 0 {
        Some(ParticleType::NULL)
    } else if b == 1 {
        Some(ParticleType::INTEGER)
    } else if b == 2 {
        Some(ParticleType::FLOAT)
    } else if b == 3 {
        Some(ParticleType::STRING)
    } else if b == 4 {
        Some(ParticleType::BLOB)
    } else if b == 6 {
        Some(ParticleType::DIGEST)
    } else if b == 17 {
        Some(ParticleType::BOOL)
    } else if b == 18 {
        Some(ParticleType::HLL)
    } else if b == 19 {
        Some(ParticleType::MAP)
    } else if b == 20 {
        Some(ParticleType::LIST)
    } else if b == 21 {
        Some(ParticleType::LDT)
    } else if b == 23 {
        Some(ParticleType::GEOJSON)
    } else {
        None
    }
}

impl ParticleType {
    /// The particle type named by the wire byte `b`, or `None` for a byte
    /// that names none.
    pub fn from_u8(b: u8) -> (r: Option<ParticleType>)
        ensures
            r == particle_of_code(b),
            r matches Some(t) ==> particle_code(t) == b,
    {
        match b {
            0 => Some(ParticleType::NULL),
            1 => Some(ParticleType::INTEGER),
            2 => Some(ParticleType::FLOAT),
            3 => Some(ParticleType::STRING),
            4 => Some(ParticleType::BLOB),
            6 => Some(ParticleType::DIGEST),
            17 => Some(ParticleType::BOOL),
            18 => Some(ParticleType::HLL),
            19 => Some(ParticleType::MAP),
            20 => Some(ParticleType::LIST),
            21 => Some(ParticleType::LDT),
            23 => Some(ParticleType::GEOJSON),
            _ => None,
        }
    }

    /// The wire byte of this particle type.
    pub fn to_u8(&self) -> (r: u8)
        ensures
            r == particle_code(*self),
            particle_of_code(r) == Some(*self),
    {
        match self {
            ParticleType::NULL => 0,
            ParticleType::INTEGER => 1,
            ParticleType::FLOAT => 2,
            ParticleType::STRING => 3,
            ParticleType::BLOB => 4,
            ParticleType::DIGEST => 6,
            ParticleType::BOOL => 17,
            ParticleType::HLL => 18,
            ParticleType::MAP => 19,
            ParticleType::LIST => 20,
            ParticleType::LDT => 21,
            ParticleType::GEOJSON => 23,
        }
    }
}

/// A floating-point value held as its IEEE-754 bit pattern, in the width in
/// which it was written.
#[derive(Debug, Clone, Copy, PartialEq, Eq, Hash, Structural)]
pub enum FloatValue {
    F32(u32),
    F64(u64),
}

/// A value stored in a bin, or nested in a list or map.
///
/// A map keeps its entries in the order in which they were read or given.
#[derive(Debug, PartialEq)]
pub enum Value {
    Nil,
    Bool(bool),
    Int(i64),
    Float(FloatValue),
    String(String),
    Blob(Vec<u8>),
    GeoJSON(String),
    HLL(Vec<u8>),
    List(Vec<Value>),
    HashMap(Vec<(Value, Value)>),
}

/// The mathematical content of a [`Value`].
pub enum ValueView {
    Nil,
    Bool(bool),
    Int(i64),
    Float(FloatValue),
    Str(Seq<char>),
    Blob(Seq<u8>),
    GeoJson(Seq<char>),
    Hll(Seq<u8>),
    List(Seq<ValueView>),
    Dict(Seq<(ValueView, ValueView)>),
}

impl View for Value {
    type V = ValueView;

    open spec fn view(&self) -> ValueView
        decreases self,
    {
        match self {
            Value::Nil => ValueView::Nil,
            Value::Bool(b) => ValueView::Bool(*b),
            Value::Int(i) => ValueView::Int(*i),
            Value::Float(f) => ValueView::Float(*f),
            Value::String(s) => ValueView::Str(s@),
            Value::Blob(b) => ValueView::Blob(b@),
            Value::GeoJSON(s) => ValueView::GeoJson(s@),
            Value::HLL(b) => ValueView::Hll(b@),
            Value::List(v) => ValueView::List(
                Seq::new(v.len() as nat, |i: int| if 0 <= i < v.len() { v[i].view() } else { ValueView::Nil }),
            ),
            Value::HashMap(v) => ValueView::Dict(
                Seq::new(
                    v.len() as nat,
                    |i: int|
                        if 0 <= i < v.len() {
                            (v[i].0.view(), v[i].1.view())
                        } else {
                            (ValueView::Nil, ValueView::Nil)
                        },
                ),
            ),
        }
    }
}

/// The views of a sequence of values.
pub open spec fn views(s: Seq<Value>) -> Seq<ValueView> {
    Seq::new(s.len(), |i: int| s[i]@)
}

/// The views of a sequence of entries.
pub open spec fn pair_views(s: Seq<(Value, Value)>) -> Seq<(ValueView, ValueView)> {
    Seq::new(s.len(), |i: int| (s[i].0@, s[i].1@))
}

pub proof fn lemma_list_view(v: Vec<Value>)
    ensures
        Value::List(v)@ == ValueView::List(views(v@)),
{
    reveal_with_fuel(<Value as View>::view, 2);
    let x = Value::List(v)@;
    assert(x->List_0 =~= views(v@));
}

pub proof fn lemma_map_view(v: Vec<(Value, Value)>)
    ensures
        Value::HashMap(v)@ == ValueView::Dict(pair_views(v@)),
{
    reveal_with_fuel(<Value as View>::view, 2);
    let x = Value::HashMap(v)@;
    assert(x->Dict_0 =~= pair_views(v@));
}

} // verus!
