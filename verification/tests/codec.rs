use bebop::Bebop;
use bebop::Date;
use bebop::Error;
use bebop::Guid;
use bebop::Reader;
use bebop::Writer;

#[test]
fn string() {
    let s = String::from("hello world");
    let msg = s.encode();
    assert_eq!(msg, b"\x0b\0\0\0hello world");
    let s2 = String::decode(&msg).unwrap();
    assert_eq!(s, s2);
}

#[test]
fn empty_string_encodes_to_four_zero_bytes() {
    let s = String::new();
    assert_eq!(s.encode(), vec![0u8, 0, 0, 0]);
}

#[test]
fn two_byte_string_encoding() {
    let s = String::from("AB");
    assert_eq!(s.encode(), vec![2u8, 0, 0, 0, 0x41, 0x42]);
}

#[test]
fn invalid_utf8_fails() {
    let bytes = vec![2u8, 0, 0, 0, 0xff, 0xfe];
    assert_eq!(String::decode(&bytes), Err(Error::InvalidUtf8));
}

#[test]
fn truncated_string_fails_with_unexpected_end() {
    let bytes = vec![5u8, 0, 0, 0, 0x41];
    assert_eq!(String::decode(&bytes), Err(Error::UnexpectedEnd));
    let short = vec![1u8, 0];
    assert_eq!(String::decode(&short), Err(Error::UnexpectedEnd));
}

#[test]
fn integers_are_little_endian() {
    assert_eq!(0x01020304u32.encode(), vec![4u8, 3, 2, 1]);
    assert_eq!(0x0102u16.encode(), vec![2u8, 1]);
    assert_eq!(7u8.encode(), vec![7u8]);
    assert_eq!(u32::decode(&[4, 3, 2, 1]).unwrap(), 0x01020304);
    assert_eq!((-2i32).encode(), vec![0xfe, 0xff, 0xff, 0xff]);
    assert_eq!(i32::decode(&[0xfe, 0xff, 0xff, 0xff]).unwrap(), -2);
    assert_eq!((-1i64).encode(), vec![0xff; 8]);
    assert_eq!(i64::decode(&[0xff; 8]).unwrap(), -1);
    assert_eq!((-3i8).encode(), vec![0xfd]);
    assert_eq!(i8::decode(&[0xfd]).unwrap(), -3);
    assert_eq!((-4i16).encode(), vec![0xfc, 0xff]);
    assert_eq!(i16::decode(&[0xfc, 0xff]).unwrap(), -4);
    assert_eq!(0x0102030405060708u64.encode(), vec![8, 7, 6, 5, 4, 3, 2, 1]);
}

#[test]
fn truncated_integers_fail() {
    assert_eq!(u32::decode(&[1, 2]), Err(Error::UnexpectedEnd));
    assert_eq!(u64::decode(&[1, 2, 3, 4, 5, 6, 7]), Err(Error::UnexpectedEnd));
    assert_eq!(u8::decode(&[]), Err(Error::UnexpectedEnd));
}

#[test]
fn bool_wire_rules() {
    assert_eq!(true.encode(), vec![1u8]);
    assert_eq!(false.encode(), vec![0u8]);
    assert!(bool::decode(&[1]).unwrap());
    assert!(!bool::decode(&[0]).unwrap());
    // the decoder treats any non-zero byte as true
    assert!(bool::decode(&[0x7f]).unwrap());
}

#[test]
fn vec_round_trip() {
    let v: Vec<u32> = vec![1, 2, 3];
    let bytes = v.encode();
    assert_eq!(bytes, vec![3u8, 0, 0, 0, 1, 0, 0, 0, 2, 0, 0, 0, 3, 0, 0, 0]);
    assert_eq!(Vec::<u32>::decode(&bytes).unwrap(), v);
}

#[test]
fn nested_vec_round_trip() {
    let v: Vec<Vec<u8>> = vec![vec![1, 2], vec![], vec![3]];
    let bytes = v.encode();
    let back = Vec::<Vec<u8>>::decode(&bytes).unwrap();
    assert_eq!(back, v);
}

#[test]
fn vec_of_strings_round_trip() {
    let v = vec![String::from("a"), String::from(""), String::from("xyz")];
    let back = Vec::<String>::decode(&v.encode()).unwrap();
    assert_eq!(back, v);
}

#[test]
fn truncated_vec_fails() {
    let v: Vec<u32> = vec![1, 2];
    let mut bytes = v.encode();
    bytes.pop();
    assert_eq!(Vec::<u32>::decode(&bytes), Err(Error::UnexpectedEnd));
}

#[test]
fn guid_mixed_endian_layout() {
    let raw: [u8; 16] = [
        0x33, 0x22, 0x11, 0x00, 0x55, 0x44, 0x77, 0x66, 0x88, 0x99, 0xaa, 0xbb, 0xcc, 0xdd, 0xee,
        0xff,
    ];
    let g = Guid::from_bytes(&raw);
    assert_eq!(g.0, 0x00112233);
    assert_eq!(g.1, 0x4455);
    assert_eq!(g.2, 0x6677);
    assert_eq!(g.3, 0x88);
    assert_eq!(g.10, 0xff);
    assert_eq!(g.to_bytes(), raw.to_vec());
    let bytes = g.encode();
    assert_eq!(bytes, raw.to_vec());
    assert_eq!(Guid::decode(&bytes).unwrap(), g);
}

#[test]
fn date_round_trip() {
    let d = Date(-123456789);
    let bytes = d.encode();
    assert_eq!(bytes.len(), 8);
    assert_eq!(Date::decode(&bytes).unwrap(), d);
    let zero = Date(0);
    assert_eq!(zero.encode(), vec![0u8; 8]);
}

#[test]
fn decode_ignores_trailing_bytes() {
    let bytes = vec![5u8, 0, 0, 0, 9, 9, 9];
    assert_eq!(u32::decode(&bytes).unwrap(), 5);
}

#[test]
fn reader_and_writer_raw_bytes() {
    let mut w = Writer::new();
    w.write_raw(&[1, 2, 3]);
    w.push_byte(4);
    assert_eq!(w.bytes(), &[1, 2, 3, 4]);
    let out = w.finish();
    let mut r = Reader::new(&out);
    let first = r.read_raw(2).unwrap();
    assert_eq!(first, &[1, 2]);
    assert_eq!(r.bytes_left(), &[3, 4]);
    assert_eq!(r.read_raw(3), Err(Error::UnexpectedEnd));
    assert_eq!(r.bytes_left(), &[3, 4]);
}

#[test]
fn error_descriptions() {
    assert_eq!(Error::UnexpectedEnd.describe(), "unexpected end of message");
    assert_eq!(Error::InvalidUtf8.describe(), "invalid UTF-8 in string");
    assert_eq!(Error::UnknownEnumValue.describe(), "unknown enum value");
    assert_eq!(Error::UnknownUnionTag.describe(), "unknown union tag");
}

#[test]
fn guid_canonical_text() {
    let g = Guid(
        0x00112233, 0x4455, 0x6677, 0x88, 0x99, 0xaa, 0xbb, 0xcc, 0xdd, 0xee, 0xff,
    );
    assert_eq!(g.to_text(), "00112233-4455-6677-8899-aabbccddeeff");
}
