use mpack::byte::desc;
use mpack::decode::{decode, Reader};
use mpack::encode::write_value;
use mpack::errors::ReadError;
use mpack::rpc::{keep_reading, readable, request, response};
use mpack::value::{IntoValue, Value, ValueMap};

fn bytes_of(v: Value) -> Vec<u8> {
    let mut buf: Vec<u8> = Vec::new();
    write_value(&mut buf, v).unwrap();
    buf
}

fn read_one(bytes: Vec<u8>) -> Value {
    Reader::new(bytes).read_value().unwrap()
}

#[test]
fn desc_names_formats() {
    assert_eq!(desc(0x00), "POS FIXINT");
    assert_eq!(desc(0x7f), "POS FIXINT");
    assert_eq!(desc(0x85), "FIXMAP");
    assert_eq!(desc(0x9f), "FIXARRAY");
    assert_eq!(desc(0xa3), "FIXSTR");
    assert_eq!(desc(0xc0), "NIL");
    assert_eq!(desc(0xc1), "<unknown>");
    assert_eq!(desc(0xc3), "TRUE");
    assert_eq!(desc(0xcb), "F64");
    assert_eq!(desc(0xd8), "FIXEXT16");
    assert_eq!(desc(0xdf), "MAP32");
    assert_eq!(desc(0xe0), "NEG FIXINT");
}

#[test]
fn scalars_on_the_wire() {
    assert_eq!(bytes_of(Value::Nil), vec![0xc0]);
    assert_eq!(bytes_of(Value::Boolean(false)), vec![0xc2]);
    assert_eq!(bytes_of(Value::Boolean(true)), vec![0xc3]);
    assert_eq!(bytes_of(Value::Uint8(7)), vec![0xcc, 7]);
    assert_eq!(bytes_of(Value::Uint16(0x1234)), vec![0xcd, 0x12, 0x34]);
    assert_eq!(bytes_of(Value::Uint32(0x0102_0304)), vec![0xce, 1, 2, 3, 4]);
    assert_eq!(bytes_of(Value::Uint64(1)), vec![0xcf, 0, 0, 0, 0, 0, 0, 0, 1]);
    assert_eq!(bytes_of(Value::Int8(-1)), vec![0xd0, 0xff]);
    assert_eq!(bytes_of(Value::Int16(-2)), vec![0xd1, 0xff, 0xfe]);
    assert_eq!(bytes_of(Value::Int32(-32768)), vec![0xd2, 0xff, 0xff, 0x80, 0x00]);
    assert_eq!(bytes_of(Value::Int64(i64::MIN)), vec![0xd3, 0x80, 0, 0, 0, 0, 0, 0, 0]);
    assert_eq!(bytes_of(Value::Float32((1.0f32).to_bits())), vec![0xca, 0x3f, 0x80, 0, 0]);
}

#[test]
fn lengths_pick_their_prefix() {
    assert_eq!(bytes_of(Value::String("hi".to_string())), vec![0xa2, b'h', b'i']);
    let s31 = "x".repeat(31);
    assert_eq!(bytes_of(Value::String(s31))[0], 0xbf);
    let s32 = "x".repeat(32);
    assert_eq!(bytes_of(Value::String(s32))[..2], [0xd9, 32]);
    let s256 = "x".repeat(256);
    assert_eq!(bytes_of(Value::String(s256))[..3], [0xda, 0x01, 0x00]);
    assert_eq!(bytes_of(Value::Binary(vec![9, 8])), vec![0xc4, 2, 9, 8]);
    assert_eq!(bytes_of(Value::Binary(vec![0; 300]))[..3], [0xc5, 0x01, 0x2c]);
    assert_eq!(
        bytes_of(Value::Array(vec![Value::Nil, Value::Boolean(true)])),
        vec![0x92, 0xc0, 0xc3]
    );
    let long: Vec<Value> = (0..16).map(|_| Value::Nil).collect();
    assert_eq!(bytes_of(Value::Array(long))[..3], [0xdc, 0x00, 0x10]);
    assert_eq!(
        bytes_of(Value::Mapping(ValueMap(vec![(Value::Uint8(1), Value::Nil)]))),
        vec![0x81, 0xcc, 1, 0xc0]
    );
}

#[test]
fn extended_prefixes() {
    assert_eq!(bytes_of(Value::Extended(5, vec![1])), vec![0xd4, 5, 1]);
    assert_eq!(bytes_of(Value::Extended(-1, vec![1, 2])), vec![0xd5, 0xff, 1, 2]);
    assert_eq!(bytes_of(Value::Extended(5, vec![0; 16]))[..2], [0xd8, 5]);
    assert_eq!(bytes_of(Value::Extended(5, vec![7, 7, 7])), vec![0xc7, 3, 5, 7, 7, 7]);
    assert_eq!(bytes_of(Value::Extended(5, vec![])), vec![0xc7, 0, 5]);
    let wide = bytes_of(Value::Extended(5, vec![0; 256]));
    assert_eq!(wide.len(), 260);
    assert_eq!(wide[..4], [0xc8, 0x01, 0x00, 5]);
    assert_eq!(bytes_of(Value::Extended(5, vec![0; 70000]))[..6], [0xc9, 0, 1, 0x11, 0x70, 5]);
}

#[test]
fn wide_extended_reads_back() {
    let v = Value::Extended(5, vec![0; 256]);
    let w = Value::Extended(-3, vec![1; 70000]);
    let mut buf = bytes_of(v.clone());
    buf.extend_from_slice(&bytes_of(w.clone()));
    let mut r = Reader::new(buf);
    assert_eq!(r.read_value().unwrap(), v);
    assert_eq!(r.read_value().unwrap(), w);
    assert!(matches!(r.read_value(), Err(ReadError::NoData)));
}

#[test]
fn containers_read_back() {
    let inner = Value::Array(vec![Value::Int16(-300), Value::String("é".to_string())]);
    let map = ValueMap(vec![
        (Value::String("k".to_string()), inner.clone()),
        (Value::Uint64(u64::MAX), Value::Binary(vec![1, 2, 3])),
    ]);
    let v = Value::Array(vec![Value::Mapping(map), Value::Extended(-7, vec![1, 2, 3, 4]), inner]);
    assert_eq!(read_one(bytes_of(v.clone())), v);
    let big: Vec<Value> = (0..70000u32).map(Value::Uint32).collect();
    let big = Value::Array(big);
    assert_eq!(read_one(bytes_of(big.clone())), big);
}

#[test]
fn values_follow_each_other() {
    let mut buf: Vec<u8> = Vec::new();
    mpack::encode::write(&mut buf, 1u8).unwrap();
    mpack::encode::write(&mut buf, "two").unwrap();
    mpack::encode::write(&mut buf, vec![3i32, 4]).unwrap();
    let mut r = Reader::new(buf);
    assert_eq!(r.read_value().unwrap(), Value::Uint8(1));
    assert_eq!(r.read_value().unwrap(), Value::String("two".to_string()));
    assert_eq!(r.read_value().unwrap(), Value::Array(vec![Value::Int32(3), Value::Int32(4)]));
    assert!(matches!(r.read_value(), Err(ReadError::NoData)));
}

#[test]
fn fixints_read_as_int8() {
    assert_eq!(read_one(vec![0x05]), Value::Int8(5));
    assert_eq!(read_one(vec![0x7f]), Value::Int8(127));
    assert_eq!(read_one(vec![0xff]), Value::Int8(-1));
    assert_eq!(read_one(vec![0xe0]), Value::Int8(-32));
    assert_eq!(read_one(vec![0xf0]), Value::Int8(-16));
}

#[test]
fn unrecognized_byte_stays_unread() {
    let mut r = Reader::new(vec![0xc1, 0xc0]);
    assert!(matches!(r.read_value(), Err(ReadError::Unrecognized(0xc1))));
    assert!(matches!(r.read_value(), Err(ReadError::Unrecognized(0xc1))));
    let mut r = Reader::new(vec![0x92, 0xc0, 0xc1]);
    assert!(matches!(r.read_value(), Err(ReadError::Unrecognized(0xc1))));
    assert!(matches!(r.read_value(), Err(ReadError::Unrecognized(0xc1))));
}

#[test]
fn empty_input_has_no_data() {
    assert!(matches!(Reader::new(vec![]).read_value(), Err(ReadError::NoData)));
    let d = decode(&[]);
    assert!(matches!(d.value, Some(Err(ReadError::NoData))));
    assert_eq!(d.used, 0);
    assert!(d.starved);
}

#[test]
fn truncated_reads_take_what_is_there() {
    let d = decode(&[0xcd, 0x12]);
    assert_eq!(d.value.unwrap().unwrap(), Value::Uint16(0x1200));
    assert_eq!(d.used, 2);
    assert!(d.starved);
    let d = decode(&[0xa3, b'a', b'b']);
    assert_eq!(d.value.unwrap().unwrap(), Value::String("ab".to_string()));
    assert!(d.starved);
    let d = decode(&[0x92, 0xc0]);
    assert!(matches!(d.value, Some(Err(ReadError::NoData))));
    assert_eq!(d.used, 2);
    let d = decode(&[0xcd, 0x12, 0x34, 0xc0]);
    assert_eq!(d.value.unwrap().unwrap(), Value::Uint16(0x1234));
    assert_eq!(d.used, 3);
    assert!(!d.starved);
}

#[test]
fn invalid_utf8_gives_no_value() {
    let bad = decode(&[0xa1, 0xff]);
    assert!(bad.value.is_none());
    assert!(!bad.starved);
    assert!(decode(&[0x91, 0xa2, 0xc3, 0x28]).value.is_none());
    assert!(decode(&[0xa2, 0xc3, 0xa9]).value.is_some());
    // A character cut short by the end of the input: more bytes may complete it.
    let cut = decode(&[0xa2, 0xc3]);
    assert!(cut.value.is_none());
    assert!(cut.starved);
}

#[test]
fn floats_compare_as_numbers() {
    let nan = Value::Float32(f32::NAN.to_bits());
    assert_ne!(nan, nan.clone());
    assert_eq!(Value::Float64((0.0f64).to_bits()), Value::Float64((-0.0f64).to_bits()));
    assert_ne!(Value::Float64((1.0f64).to_bits()), Value::Float32((1.0f32).to_bits()));
    assert_eq!(
        Value::Array(vec![Value::Float32((0.0f32).to_bits())]),
        Value::Array(vec![Value::Float32((-0.0f32).to_bits())])
    );
}

#[test]
fn accessors_take_values_apart() {
    assert_eq!(Value::Int16(-5).sint().unwrap(), -5);
    assert_eq!(Value::Uint32(5).uint().unwrap(), 5);
    assert!(Value::Uint32(5).sint().is_err());
    assert!(Value::Nil.is_nil());
    assert!(!Value::Boolean(false).is_nil());
    assert_eq!(Value::String("s".to_string()).string().unwrap(), "s");
    assert_eq!(Value::Binary(vec![1]).binary().unwrap(), vec![1]);
    assert_eq!(Value::Array(vec![Value::Nil]).array().unwrap().len(), 1);
    assert_eq!(Value::Mapping(ValueMap(vec![])).map().unwrap().len(), 0);
    assert_eq!(Value::Extended(3, vec![]).extended_type(), Some(3));
    assert_eq!(Value::Nil.extended_type(), None);
    assert_eq!(Value::Nil.extended_data(), None);
    let err = Value::Uint8(1).string().unwrap_err();
    assert_eq!(err.description(), "Uint8(1) does not contain a string value");
    assert_eq!(err.value(), Value::Uint8(1));
    let err = Value::Boolean(true).sint().unwrap_err();
    assert_eq!(err.description(), "Boolean(true) does not contain an int value");
}

#[test]
fn map_lookups_take_the_first_match() {
    let m = ValueMap(vec![
        (Value::String("a".to_string()), Value::Boolean(true)),
        (Value::String("a".to_string()), Value::Boolean(false)),
        (Value::String("list".to_string()), Value::Array(vec![Value::Nil])),
        (Value::String("name".to_string()), Value::String("n".to_string())),
    ]);
    assert_eq!(m.len(), 4);
    assert_eq!(m.get("a"), Some(&Value::Boolean(true)));
    assert_eq!(m.get_bool("a"), Some(true));
    assert_eq!(m.get_array("list"), Some(vec![Value::Nil]));
    assert_eq!(m.get_string("name"), Some("n".to_string()));
    assert_eq!(m.get("missing"), None);
    assert_eq!(m.get_bool("missing"), None);
}

#[test]
fn conversions_into_values() {
    assert_eq!(().into_value(), Value::Nil);
    assert_eq!(true.into_value(), Value::Boolean(true));
    assert_eq!((-3i64).into_value(), Value::Int64(-3));
    assert_eq!("x".into_value(), Value::String("x".to_string()));
    assert_eq!(
        vec![vec![1u8], vec![]].into_value(),
        Value::Array(vec![Value::Array(vec![Value::Uint8(1)]), Value::Array(vec![])])
    );
}

#[test]
fn rpc_messages() {
    let req = request(7, "ping".to_string(), vec![Value::Nil]);
    assert_eq!(
        req,
        Value::Array(vec![
            Value::Int8(0),
            Value::Uint32(7),
            Value::String("ping".to_string()),
            Value::Array(vec![Value::Nil]),
        ])
    );
    let ok = Value::Array(vec![
        Value::Int8(1),
        Value::Uint32(7),
        Value::Nil,
        Value::String("pong".to_string()),
    ]);
    match response(ok) {
        Some((7, Ok(v))) => assert_eq!(v, Value::String("pong".to_string())),
        _ => panic!("not a response"),
    }
    let failed = Value::Array(vec![
        Value::Int8(1),
        Value::Int8(-1),
        Value::String("bad".to_string()),
        Value::Nil,
    ]);
    match response(failed) {
        Some((id, Err(e))) => {
            assert_eq!(id, u32::MAX);
            assert_eq!(e, Value::String("bad".to_string()));
        },
        _ => panic!("not an error response"),
    }
    let short_error = Value::Array(vec![
        Value::Int8(1),
        Value::Uint8(3),
        Value::String("oops".to_string()),
    ]);
    match response(short_error) {
        Some((3, Err(e))) => assert_eq!(e, Value::String("oops".to_string())),
        _ => panic!("not an error response"),
    }
    assert!(readable(&Value::Array(vec![Value::Int8(1), Value::Uint8(3), Value::Boolean(true)])));
    assert!(!readable(&Value::Array(vec![Value::Int8(1), Value::Uint8(3), Value::Nil])));
    assert!(!readable(&Value::Array(vec![])));
    assert!(response(Value::Array(vec![Value::Int8(2)])).is_none());
    assert!(response(Value::Nil).is_none());
    assert!(keep_reading(&Ok(Value::Nil)));
    assert!(!keep_reading(&Err(ReadError::NoData)));
    // The byte 0 where a message begins is the stop signal.
    let stop = Reader::new(vec![0x00]).read_value();
    assert!(!keep_reading(&stop));
}

#[test]
fn complete_reads_ignore_what_follows() {
    let alone = decode(&[0x92, 0x01, 0xa1, b'z']);
    assert!(!alone.starved);
    let followed = decode(&[0x92, 0x01, 0xa1, b'z', 0xc1, 0xff, 0x00]);
    assert!(!followed.starved);
    assert_eq!(alone.used, followed.used);
    assert_eq!(alone.value.unwrap().unwrap(), followed.value.unwrap().unwrap());
}

#[test]
fn a_write_reads_back_before_what_follows() {
    let v = Value::Array(vec![Value::Int64(-9), Value::Binary(vec![0xc1])]);
    let mut buf = bytes_of(v.clone());
    let n = buf.len();
    buf.extend_from_slice(&[0xc3, 0xc1]);
    let d = decode(&buf);
    assert_eq!(d.value.unwrap().unwrap(), v);
    assert_eq!(d.used, n);
    assert!(!d.starved);
}

#[test]
fn type_error_descriptions_show_the_whole_value() {
    let v = Value::Mapping(ValueMap(vec![(
        Value::String("k".to_string()),
        Value::Array(vec![Value::Int8(-1), Value::Binary(vec![1, 2]), Value::Nil]),
    )]));
    let err = v.clone().bool().unwrap_err();
    assert_eq!(
        err.description(),
        "Map(ValueMap([(String(\"k\"), Array([Int8(-1), Binary([1, 2]), Nil]))])) does not contain a boolean value"
    );
    assert_eq!(err.value(), v);
    let err = Value::String("a\"b\n".to_string()).uint().unwrap_err();
    assert_eq!(err.description(), "String(\"a\\\"b\\n\") does not contain a uint value");
    let err = Value::Extended(-5, vec![0, 255]).array().unwrap_err();
    assert_eq!(err.description(), "Extended(-5, [0, 255]) does not contain an array value");
    let err = Value::Int64(i64::MIN).map().unwrap_err();
    assert_eq!(err.description(), "Int64(-9223372036854775808) does not contain a map value");
    let err = Value::Uint64(u64::MAX).binary().unwrap_err();
    assert_eq!(err.description(), "Uint64(18446744073709551615) does not contain a binary value");
    let err = Value::Mapping(ValueMap(vec![])).string().unwrap_err();
    assert_eq!(err.description(), "Map(ValueMap([])) does not contain a string value");
}

#[test]
fn a_string_that_is_not_utf8_is_not_read() {
    let mut r = Reader::new(vec![0xa1, 0xff, 0xc0]);
    assert!(r.try_read_value().is_none());
    assert!(r.try_read_value().is_none());
    let mut r = Reader::new(vec![0xa1, 0x61, 0xc0]);
    assert_eq!(r.try_read_value().unwrap().unwrap(), Value::String("a".to_string()));
    assert_eq!(r.try_read_value().unwrap().unwrap(), Value::Nil);
    assert!(matches!(r.try_read_value(), Some(Err(ReadError::NoData))));
}

#[test]
fn write_converts_then_writes_after_what_was_there() {
    let mut a = vec![0x01, 0x02];
    let mut b = vec![0x01, 0x02];
    mpack::encode::write(&mut a, "pong".to_string()).unwrap();
    write_value(&mut b, "pong".to_string().into_value()).unwrap();
    assert_eq!(a, b);
    assert_eq!(a, vec![0x01, 0x02, 0xa4, 0x70, 0x6f, 0x6e, 0x67]);
    let mut c = vec![0xff];
    mpack::encode::write(&mut c, 1i8).unwrap();
    mpack::encode::write(&mut c, ()).unwrap();
    assert_eq!(c, vec![0xff, 0xd0, 0x01, 0xc0]);
}
