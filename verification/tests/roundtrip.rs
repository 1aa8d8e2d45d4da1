use mpack::decode::Reader;
use mpack::encode::{write_ext, write_value};
use mpack::value::{IntoValue, Value};

const LETTERS: &[char] = &[
    'a', 'b', 'c', 'd', 'e', 'f', 'g', 'h', 'i', 'j', 'k', 'l', 'm', 'n', 'o', 'p', 'q', 'r', 's',
    't', 'u', 'v', 'w', 'x', 'y', 'z',
];

/// Writes the value, reads it back, and compares.
fn test<T: IntoValue>(arg: T) {
    let val = arg.into_value();
    let mut buf: Vec<u8> = Vec::new();
    write_value(&mut buf, val.clone()).unwrap();
    assert_eq!(Reader::new(buf).read_value().unwrap(), val);
}

/// A string of `n` letters drawn from a simple generator.
fn random_string(n: usize) -> String {
    let mut state: u64 = 0x2545_f491_4f6c_dd1d ^ (n as u64);
    let mut s = String::with_capacity(n);
    for _ in 0..n {
        state ^= state << 13;
        state ^= state >> 7;
        state ^= state << 17;
        s.push(LETTERS[(state % LETTERS.len() as u64) as usize]);
    }
    s
}

#[test]
fn test_nil() {
    test(());
}

#[test]
fn test_u8() {
    test(3 as u8);
}

#[test]
fn test_u16() {
    test(36 as u16);
}

#[test]
fn test_u32() {
    test(360 as u32);
}

#[test]
fn test_u64() {
    test(3600 as u64);
}

#[test]
fn test_i8() {
    test(3 as i8);
}

#[test]
fn test_i16() {
    test(36 as i16);
}

#[test]
fn test_i32() {
    test(360 as i32);
}

#[test]
fn test_i64() {
    test(3600 as i64);
}

#[test]
fn test_f32() {
    let val = Value::Float32((1234.56 as f32).to_bits());
    let mut buf: Vec<u8> = Vec::new();
    write_value(&mut buf, val.clone()).unwrap();
    let back = Reader::new(buf).read_value().unwrap();
    assert_eq!(back, val);
    match back {
        Value::Float32(bits) => assert_eq!(f32::from_bits(bits), 1234.56 as f32),
        _ => panic!("not a float"),
    }
}

#[test]
fn test_f64() {
    let val = Value::Float64((123456.78 as f64).to_bits());
    let mut buf: Vec<u8> = Vec::new();
    write_value(&mut buf, val.clone()).unwrap();
    let back = Reader::new(buf).read_value().unwrap();
    assert_eq!(back, val);
    match back {
        Value::Float64(bits) => assert_eq!(f64::from_bits(bits), 123456.78 as f64),
        _ => panic!("not a float"),
    }
}

#[test]
fn write_tiny_string() {
    test(random_string(8));
}

#[test]
fn write_short_string() {
    test(random_string(32));
}

#[test]
fn write_medium_string() {
    test(random_string(256));
}

/// The bytes of a packed `{ a: i8, b: i16 }` with a = 13 and b = 42, as a
/// little-endian machine lays them out.
fn custom_struct_bytes(a: i8, b: i16) -> Vec<u8> {
    let mut v = vec![a as u8];
    v.extend_from_slice(&b.to_le_bytes());
    v
}

#[test]
fn test_extended() {
    let mut buf: Vec<u8> = Vec::new();
    let written = write_ext(&mut buf, 13, &custom_struct_bytes(13, 42)).unwrap();
    assert_eq!(written, 3);

    let value = Reader::new(buf).read_value().unwrap();
    assert_eq!(value.extended_type().unwrap(), 13);

    let data = value.extended_data().unwrap();
    assert_eq!(data[0] as i8, 13);
    assert_eq!(i16::from_le_bytes([data[1], data[2]]), 42);
}

/// Verify that the value is made available in case of a type error.
#[test]
fn ownership_test() {
    let mut v = Value::Boolean(true);

    v = match v.sint() {
        Ok(_) => unreachable!(),
        Err(err) => err.value(),
    };

    match v.bool() {
        Ok(b) => assert_eq!(b, true),
        Err(_) => unreachable!(),
    };
}
