use aerospike_core::cdt::{decode_value, encode_value, skip_value, CDTDecoder};
use aerospike_core::errors::ErrorKind;
use aerospike_core::key::Key;
use aerospike_core::particle::PreParsedValue;
use aerospike_core::value::{FloatValue, Value};

fn encode(v: &Value) -> Vec<u8> {
    let mut out = Vec::new();
    encode_value(v, &mut out);
    out
}

fn bin(particle_type: u8, particle: Vec<u8>) -> PreParsedValue {
    PreParsedValue { particle_type, name_len: 0, name: [0; 15], particle }
}

fn sample_values() -> Vec<Value> {
    vec![
        Value::Nil,
        Value::Bool(true),
        Value::Bool(false),
        Value::Int(0),
        Value::Int(127),
        Value::Int(128),
        Value::Int(-1),
        Value::Int(-32),
        Value::Int(-33),
        Value::Int(300),
        Value::Int(-300),
        Value::Int(70000),
        Value::Int(-70000),
        Value::Int(5_000_000_000),
        Value::Int(-5_000_000_000),
        Value::Int(i64::MAX),
        Value::Int(i64::MIN),
        Value::Float(FloatValue::F64(1.25_f64.to_bits())),
        Value::Float(FloatValue::F32(1.25_f32.to_bits())),
        Value::String(String::new()),
        Value::String("x".repeat(31)),
        Value::String("y".repeat(300)),
        Value::String("z".repeat(70000)),
        Value::String("héllo wörld".to_string()),
        Value::GeoJSON("{\"type\":\"Point\"}".to_string()),
        Value::Blob(vec![1, 2, 3]),
        Value::HLL(vec![9; 40]),
        Value::List((0..20).map(Value::Int).collect()),
        Value::HashMap(vec![
            (Value::String("one".to_string()), Value::Int(1)),
            (Value::String("two".to_string()), Value::List(vec![Value::Nil, Value::Bool(true)])),
        ]),
        Value::HashMap((0..17).map(|i| (Value::Int(i), Value::Int(-i))).collect()),
    ]
}

#[test]
fn cdt_round_trip_list_of_int_and_string() {
    let v = Value::List(vec![Value::Int(2), Value::String("Hello world".to_string())]);
    let bytes = encode(&v);
    assert_eq!(bytes[0], 0x92);
    let (back, used) = decode_value(&bytes, 0).unwrap();
    assert_eq!(back, v);
    assert_eq!(used, bytes.len());
}

#[test]
fn cdt_round_trip_every_variant() {
    for v in sample_values() {
        let bytes = encode(&v);
        let (back, used) = decode_value(&bytes, 0).unwrap();
        assert_eq!(back, v);
        assert_eq!(used, bytes.len());
    }
}

#[test]
fn skipping_ends_where_decoding_ends() {
    for v in sample_values() {
        let mut bytes = vec![0xc0];
        bytes.extend(encode(&v));
        bytes.push(0x05);
        let (_, used) = decode_value(&bytes, 1).unwrap();
        assert_eq!(skip_value(&bytes, 1).unwrap(), used);
    }
}

#[test]
fn particle_round_trip_every_variant() {
    for v in sample_values() {
        let mut particle = Vec::new();
        v.write_to(&mut particle);
        let back = bin(v.particle_type().to_u8(), particle).to_value().unwrap();
        match v {
            Value::Float(FloatValue::F32(b)) => {
                assert_eq!(back, Value::Float(FloatValue::F64((f32::from_bits(b) as f64).to_bits())))
            }
            other => assert_eq!(back, other),
        }
    }
}

#[test]
fn integers_at_the_extremes_and_narrowing() {
    let max = bin(1, i64::MAX.to_be_bytes().to_vec());
    let min = bin(1, i64::MIN.to_be_bytes().to_vec());
    assert_eq!(max.as_int().unwrap(), i64::MAX);
    assert_eq!(min.as_int().unwrap(), i64::MIN);
    assert!(matches!(max.as_i32().unwrap_err().0, ErrorKind::Derive(_)));
    assert!(matches!(min.as_i8().unwrap_err().0, ErrorKind::Derive(_)));
    assert!(matches!(min.as_u64().unwrap_err().0, ErrorKind::Derive(_)));
    assert_eq!(max.as_u64().unwrap(), i64::MAX as u64);
    let b300 = bin(1, 300i64.to_be_bytes().to_vec());
    assert!(matches!(b300.as_u8().unwrap_err().0, ErrorKind::Derive(_)));
    assert!(matches!(b300.as_i8().unwrap_err().0, ErrorKind::Derive(_)));
    assert_eq!(b300.as_u16().unwrap(), 300);
    assert_eq!(b300.as_i16().unwrap(), 300);
    assert_eq!(b300.as_u32().unwrap(), 300);
    let neg = bin(1, (-1i64).to_be_bytes().to_vec());
    assert!(matches!(neg.as_u32().unwrap_err().0, ErrorKind::Derive(_)));
    assert_eq!(neg.as_i8().unwrap(), -1);
    let short = bin(1, vec![1, 2, 3]);
    assert!(matches!(short.as_int().unwrap_err().0, ErrorKind::Derive(_)));
}

#[test]
fn uint64_above_i64_is_a_derive_error() {
    let bytes = vec![0xcf, 0xff, 0xff, 0xff, 0xff, 0xff, 0xff, 0xff, 0xff];
    let err = decode_value(&bytes, 0).unwrap_err();
    assert!(matches!(err.0, ErrorKind::Derive(_)));
    assert_eq!(skip_value(&bytes, 0).unwrap(), 9);
}

#[test]
fn decoder_reads_every_integer_form() {
    let cases: Vec<(Vec<u8>, i64)> = vec![
        (vec![0x05], 5),
        (vec![0xe0], -32),
        (vec![0xff], -1),
        (vec![0xcc, 0xff], 255),
        (vec![0xcd, 0x01, 0x00], 256),
        (vec![0xce, 0x00, 0x01, 0x00, 0x00], 65536),
        (vec![0xd0, 0x80], -128),
        (vec![0xd1, 0xff, 0x00], -256),
        (vec![0xd2, 0xff, 0xff, 0xff, 0xff], -1),
        (vec![0xd3, 0x80, 0, 0, 0, 0, 0, 0, 0], i64::MIN),
    ];
    for (bytes, want) in cases {
        let (v, used) = decode_value(&bytes, 0).unwrap();
        assert_eq!(v, Value::Int(want));
        assert_eq!(used, bytes.len());
    }
}

#[test]
fn truncated_and_unknown_input_is_rejected() {
    assert!(decode_value(&[0x92, 0x01], 0).is_err());
    assert!(decode_value(&[0xc1], 0).is_err());
    assert!(decode_value(&[0xa3, 0x03, b'a'], 0).is_err());
    assert!(decode_value(&[], 0).is_err());
    assert!(matches!(decode_value(&[0xa3, 0x03, 0xff, 0xfe], 0).unwrap_err().0, ErrorKind::InvalidUtf8));
    assert!(skip_value(&[0x93, 0x01], 0).is_err());
}

#[test]
fn decoder_cursor_takes_bytes() {
    let mut d = CDTDecoder::new(vec![1, 2, 3]);
    assert_eq!(d.take_byte().unwrap(), 1);
    assert_eq!(d.take_nbyte(2).unwrap(), vec![2, 3]);
    assert!(d.take_byte().is_err());
    assert!(d.take_nbyte(1).is_err());
    let mut d = CDTDecoder::new(encode(&Value::List(vec![Value::Int(2)])));
    assert_eq!(d.deserialize_any().unwrap(), Value::List(vec![Value::Int(2)]));
    let mut d = CDTDecoder::new(vec![0x92, 0x01, 0xc0, 0x07]);
    d.deserialize_ignored_any().unwrap();
    assert_eq!(d.take_byte().unwrap(), 7);
}

#[test]
fn key_digest_is_stable() {
    let k1 = Key::new("test".to_string(), "set".to_string(), Value::String("key".to_string())).unwrap();
    let k2 = Key::new("other".to_string(), "set".to_string(), Value::String("key".to_string())).unwrap();
    let k3 = Key::new("test".to_string(), "set".to_string(), Value::Int(1)).unwrap();
    assert_eq!(k1.digest, k2.digest);
    assert_ne!(k1.digest, k3.digest);
    assert!(k1.partition_id() < 4096);
    assert!(matches!(
        Key::new("test".to_string(), "set".to_string(), Value::Nil).unwrap_err().0,
        ErrorKind::InvalidArgument(_)
    ));
}

#[test]
fn typed_reads_narrow_with_overflow_detection() {
    let mut d = CDTDecoder::new(encode(&Value::Int(i32::MAX as i64 + 1)));
    assert!(matches!(d.deserialize_i32().unwrap_err().0, ErrorKind::Derive(_)));
    assert_eq!(d.pos, 0);
    assert_eq!(d.deserialize_i64().unwrap(), i32::MAX as i64 + 1);
    let mut d = CDTDecoder::new(encode(&Value::Int(-1)));
    assert!(matches!(d.deserialize_u32().unwrap_err().0, ErrorKind::Derive(_)));
    assert_eq!(d.deserialize_i32().unwrap(), -1);
    let mut d = CDTDecoder::new(encode(&Value::Int(i64::MIN)));
    assert_eq!(d.deserialize_i64().unwrap(), i64::MIN);
    let mut d = CDTDecoder::new(encode(&Value::Int(4_000_000_000)));
    assert_eq!(d.deserialize_u32().unwrap(), 4_000_000_000);
    let mut d = CDTDecoder::new(vec![0xc3, 0x01]);
    assert!(d.deserialize_bool().unwrap());
    assert!(d.deserialize_bool().is_err());
    assert_eq!(d.deserialize_i64().unwrap(), 1);
}

#[test]
fn narrow_typed_reads_for_every_width() {
    let mut d = CDTDecoder::new(encode(&Value::Int(200)));
    assert!(matches!(d.deserialize_i8().unwrap_err().0, ErrorKind::Derive(_)));
    assert_eq!(d.deserialize_u8().unwrap(), 200);
    let mut d = CDTDecoder::new(encode(&Value::Int(-40000)));
    assert!(matches!(d.deserialize_i16().unwrap_err().0, ErrorKind::Derive(_)));
    assert!(matches!(d.deserialize_u16().unwrap_err().0, ErrorKind::Derive(_)));
    assert!(matches!(d.deserialize_u64().unwrap_err().0, ErrorKind::Derive(_)));
    let mut d = CDTDecoder::new(encode(&Value::Int(65535)));
    assert_eq!(d.deserialize_u16().unwrap(), 65535);
    let mut d = CDTDecoder::new(vec![0xcf, 0xff, 0xff, 0xff, 0xff, 0xff, 0xff, 0xff, 0xfe]);
    assert_eq!(d.deserialize_u64().unwrap(), u64::MAX - 1);
    assert_eq!(d.pos, 9);
    let mut d = CDTDecoder::new(vec![0xc1]);
    assert!(matches!(d.deserialize_any().unwrap_err().0, ErrorKind::Derive(_)));
}

#[test]
fn bytes_for_pass_through() {
    let mut data = encode(&Value::Blob(vec![7, 8, 9]));
    let list = encode(&Value::List(vec![Value::Int(1), Value::Nil]));
    data.extend(&list);
    let mut d = CDTDecoder::new(data);
    assert_eq!(d.deserialize_bytes().unwrap(), vec![7, 8, 9]);
    assert_eq!(d.deserialize_bytes().unwrap(), list);
    assert!(d.deserialize_bytes().is_err());
    let mut d = CDTDecoder::new(vec![0xa0]);
    assert!(matches!(d.deserialize_bytes().unwrap_err().0, ErrorKind::Derive(_)));
    assert_eq!(d.pos, 0);
}
