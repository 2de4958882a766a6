use aerospike_core::command::{
    parse_header, parse_key, parse_result_internal, parse_stream, parse_stream_record, read_msg_size, StreamItem,
};
use aerospike_core::errors::{ErrorKind, ResultCode};
use aerospike_core::value::Value;

fn header(info3: u8, rc: u8, generation: u32, expiration: u32, fields: u16, ops: u16) -> Vec<u8> {
    let mut h = vec![22, 0, 0, info3, 0, rc];
    h.extend(generation.to_be_bytes());
    h.extend(expiration.to_be_bytes());
    h.extend(0u32.to_be_bytes());
    h.extend(fields.to_be_bytes());
    h.extend(ops.to_be_bytes());
    h
}

fn bin(particle_type: u8, name: &str, particle: &[u8]) -> Vec<u8> {
    let size = (4 + name.len() + particle.len()) as u32;
    let mut b = size.to_be_bytes().to_vec();
    b.extend([1, particle_type, 0, name.len() as u8]);
    b.extend(name.as_bytes());
    b.extend(particle);
    b
}

fn field(kind: u8, payload: &[u8]) -> Vec<u8> {
    let mut f = ((payload.len() + 1) as u32).to_be_bytes().to_vec();
    f.push(kind);
    f.extend(payload);
    f
}

fn reply(rc: u8, fields: &[Vec<u8>], bins: &[Vec<u8>]) -> Vec<u8> {
    let mut body = header(0, rc, 7, 99, fields.len() as u16, bins.len() as u16);
    for f in fields {
        body.extend(f);
    }
    for b in bins {
        body.extend(b);
    }
    let size = (2u64 << 56) | (3u64 << 48) | body.len() as u64;
    let mut msg = size.to_be_bytes().to_vec();
    msg.extend(body);
    msg
}

#[test]
fn udf_failure() {
    let msg = reply(100, &[], &[bin(3, "FAILURE", b"divide by zero")]);
    let err = parse_result_internal(&msg, false).unwrap_err();
    assert_eq!(err.0, ErrorKind::UdfBadResponse("divide by zero".to_string()));
    let msg = reply(100, &[], &[bin(3, "other", b"x")]);
    assert_eq!(parse_result_internal(&msg, false).unwrap_err().0, ErrorKind::UdfBadResponse("UDF Error".to_string()));
}

#[test]
fn record_reply_is_read() {
    let msg = reply(
        0,
        &[field(1, b"myset")],
        &[bin(1, "count", &42i64.to_be_bytes()), bin(3, "name", b"bob")],
    );
    let rec = parse_result_internal(&msg, false).unwrap();
    assert_eq!(rec.generation, 7);
    assert_eq!(rec.expiration, 99);
    assert!(rec.key.is_none());
    assert_eq!(rec.bins, vec![
        ("count".to_string(), Value::Int(42)),
        ("name".to_string(), Value::String("bob".to_string())),
    ]);
    let rec = parse_result_internal(&msg, true).unwrap();
    assert!(rec.bins.is_empty());
}

#[test]
fn server_error_and_truncation() {
    let msg = reply(2, &[], &[]);
    assert_eq!(
        parse_result_internal(&msg, false).unwrap_err().0,
        ErrorKind::ServerError(ResultCode::KeyNotFoundError)
    );
    let msg = reply(0, &[], &[bin(1, "count", &42i64.to_be_bytes())]);
    assert!(parse_result_internal(&msg[..msg.len() - 1], false).is_err());
    assert!(matches!(parse_result_internal(&msg[..20], false).unwrap_err().0, ErrorKind::BadResponse(_)));
}

#[test]
fn header_fields_and_size() {
    let msg = reply(0, &[], &[]);
    assert_eq!(read_msg_size(&msg, 0).unwrap(), 22);
    let h = parse_header(&msg, 8).unwrap();
    assert_eq!(h.result_code, 0);
    assert_eq!(h.generation, 7);
    assert_eq!(h.expiration, 99);
    assert_eq!(h.field_count, 0);
    assert!(parse_header(&msg, 9).is_err());
}

#[test]
fn key_fields_are_read() {
    let digest = [7u8; 20];
    let mut d = field(0, b"test");
    d.extend(field(1, b"people"));
    d.extend(field(4, &digest));
    let mut key_payload = vec![1u8];
    key_payload.extend(5i64.to_be_bytes());
    d.extend(field(2, &key_payload));
    let (key, end) = parse_key(&d, 0, 4).unwrap();
    assert_eq!(end, d.len());
    assert_eq!(key.namespace, "test");
    assert_eq!(key.set_name, "people");
    assert_eq!(key.digest, digest);
    assert_eq!(key.user_key, Some(Value::Int(5)));
    assert!(parse_key(&field(9, b"x"), 0, 1).is_err());
    assert!(parse_key(&field(4, &[1, 2]), 0, 1).is_err());
}

#[test]
fn stream_records() {
    let mut d = header(0, 0, 3, 4, 1, 1);
    d.extend(field(4, &[1u8; 20]));
    d.extend(bin(3, "b", b"v"));
    let (item, end) = parse_stream_record(&d, 0).unwrap();
    assert_eq!(end, d.len());
    match item {
        StreamItem::Record(rec) => {
            assert_eq!(rec.key.unwrap().digest, [1u8; 20]);
            assert_eq!(rec.bins, vec![("b".to_string(), Value::String("v".to_string()))]);
            assert_eq!(rec.generation, 3);
        }
        other => panic!("unexpected {:?}", other),
    }
    let last = header(1, 0, 0, 0, 0, 0);
    assert!(matches!(parse_stream_record(&last, 0).unwrap().0, StreamItem::End));
    let not_found = header(0, 2, 0, 0, 0, 0);
    assert!(matches!(parse_stream_record(&not_found, 0).unwrap().0, StreamItem::End));
    let mut done = header(4, 0, 0, 0, 1, 0);
    done.extend(field(4, &[2u8; 20]));
    assert!(matches!(parse_stream_record(&done, 0).unwrap().0, StreamItem::PartitionDone));
    let failed = header(0, 4, 0, 0, 0, 0);
    assert_eq!(
        parse_stream_record(&failed, 0).unwrap_err().0,
        ErrorKind::ServerError(ResultCode::ParameterError)
    );
}

#[test]
fn stream_chunks() {
    let mut d = Vec::new();
    for i in 0..3u8 {
        d.extend(header(0, 0, i as u32, 0, 1, 1));
        d.extend(field(4, &[i; 20]));
        d.extend(bin(1, "n", &(i as i64).to_be_bytes()));
    }
    let mut done = header(4, 0, 0, 0, 1, 0);
    done.extend(field(4, &[9u8; 20]));
    d.extend(done);
    let (recs, more) = parse_stream(&d);
    assert!(more.unwrap());
    assert_eq!(recs.len(), 3);
    assert_eq!(recs[2].bins, vec![("n".to_string(), Value::Int(2))]);
    assert_eq!(recs[1].key.as_ref().unwrap().digest, [1u8; 20]);
    d.extend(header(1, 0, 0, 0, 0, 0));
    d.extend(header(0, 0, 0, 0, 0, 0));
    let (recs, more) = parse_stream(&d);
    assert!(!more.unwrap());
    assert_eq!(recs.len(), 3);
    let mut bad = header(0, 0, 0, 0, 1, 1);
    bad.extend(field(4, &[1u8; 20]));
    assert!(parse_stream(&bad).1.is_err());
    assert_eq!(parse_stream(&[]).0.len(), 0);
    // a failing message keeps the records read before it
    let mut partial = d[..d.len() - 44].to_vec();
    partial.extend(header(0, 4, 0, 0, 0, 0));
    let (recs, outcome) = parse_stream(&partial);
    assert_eq!(recs.len(), 3);
    assert_eq!(outcome.unwrap_err().0, ErrorKind::ServerError(ResultCode::ParameterError));
}
