use aerospike_core::particle::PreParsedValue;
use aerospike_core::value::{FloatValue, Value};

fn new_preparsed(particle_type: u8, name: &str, particle: Vec<u8>) -> PreParsedValue {
    let mut namebuf = [0_u8; 15];
    let name_len = name.as_bytes().len();
    namebuf[..name_len].copy_from_slice(name.as_bytes());
    PreParsedValue {
        particle_type,
        name_len: name_len as u8,
        name: namebuf,
        particle,
    }
}

fn write(v: &Value) -> Vec<u8> {
    let mut buffer = Vec::with_capacity(1024);
    v.write_to(&mut buffer);
    buffer
}

#[test]
fn destream_value() {
    let myval = Value::String("Hello world".to_string());
    let as_bin = new_preparsed(myval.particle_type().to_u8(), "binname", write(&myval));
    let deserialized = as_bin.to_value().unwrap();
    assert_eq!(deserialized, Value::String("Hello world".to_string()));

    let myval = Value::List(vec![Value::Int(2), Value::String("Hello world".to_string())]);
    let as_bin = new_preparsed(20, "binname", write(&myval));
    let deserialized = as_bin.to_value().unwrap();
    assert_eq!(
        deserialized,
        Value::List(vec![Value::Int(2), Value::String("Hello world".to_string())])
    );
}

#[test]
fn destream_f64_value() {
    let myval = Value::Float(FloatValue::F64(0.0023_f64.to_bits()));
    let as_bin = new_preparsed(myval.particle_type().to_u8(), "binname", write(&myval));
    let deserialized = as_bin.to_value().unwrap();
    assert_eq!(deserialized, myval);

    let myval = Value::List(vec![Value::Float(FloatValue::F64(0.0023_f64.to_bits()))]);
    let as_bin = new_preparsed(20, "binname", write(&myval));
    let deserialized = as_bin.to_value().unwrap();
    assert_eq!(deserialized, myval);
}

#[test]
fn destream_f32_value() {
    let myval = Value::List(vec![Value::Float(FloatValue::F32(0.0023_f32.to_bits()))]);
    let as_bin = new_preparsed(20, "binname", write(&myval));
    let deserialized = as_bin.to_value().unwrap();
    assert_eq!(deserialized, myval);
}

#[test]
fn bin_name_is_read() {
    let as_bin = new_preparsed(1, "binname", vec![0, 0, 0, 0, 0, 0, 0, 7]);
    assert_eq!(as_bin.name().unwrap(), "binname");
    assert_eq!(as_bin.as_int().unwrap(), 7);
}

#[test]
fn top_level_f32_reads_back_as_the_same_double() {
    let myval = Value::Float(FloatValue::F32(0.5_f32.to_bits()));
    let as_bin = new_preparsed(myval.particle_type().to_u8(), "b", write(&myval));
    assert_eq!(as_bin.to_value().unwrap(), Value::Float(FloatValue::F64(0.5_f64.to_bits())));
    for x in [0.0023_f32, -1.5, 1.0e-40, f32::MAX, f32::MIN_POSITIVE, 0.0, -0.0, f32::INFINITY] {
        let v = Value::Float(FloatValue::F32(x.to_bits()));
        let as_bin = new_preparsed(2, "b", write(&v));
        assert_eq!(as_bin.to_value().unwrap(), Value::Float(FloatValue::F64((x as f64).to_bits())));
    }
}
