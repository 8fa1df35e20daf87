use bebop::codec::decode_value;
use bebop::codec::encode_value;
use bebop::mapper::WireType;
use bebop::value::Value;
use bebop::Error;

fn message_two_u32() -> WireType {
    WireType::Message(vec![(1u8, WireType::UInt32), (2u8, WireType::UInt32)])
}

#[test]
fn message_with_one_field_encodes_with_frame_tag_and_terminator() {
    let t = WireType::Message(vec![(1u8, WireType::UInt32)]);
    let v = Value::MessageVal(vec![Some(Value::UInt32(5))]);
    let bytes = encode_value(&t, &v).unwrap();
    assert_eq!(bytes, vec![6u8, 0, 0, 0, 1, 5, 0, 0, 0, 0]);
}

#[test]
fn union_frame_counts_tag_and_payload() {
    let t = WireType::Choice(vec![(3u8, WireType::UInt32)]);
    let v = Value::ChoiceVal(3, Box::new(Value::UInt32(7)));
    let bytes = encode_value(&t, &v).unwrap();
    assert_eq!(bytes, vec![5u8, 0, 0, 0, 3, 7, 0, 0, 0]);
    match decode_value(&t, &bytes).unwrap() {
        Value::ChoiceVal(tag, payload) => {
            assert_eq!(tag, 3);
            match *payload {
                Value::UInt32(x) => assert_eq!(x, 7),
                _ => panic!("wrong payload shape"),
            }
        },
        _ => panic!("wrong value shape"),
    }
}

#[test]
fn unknown_tag_stops_message_parsing_entirely() {
    // body: tag 9 (undeclared), a u32, then tag 2 (declared), a u32, terminator
    let body = vec![9u8, 5, 0, 0, 0, 2, 7, 0, 0, 0, 0];
    let mut bytes = vec![body.len() as u8, 0, 0, 0];
    bytes.extend_from_slice(&body);
    match decode_value(&message_two_u32(), &bytes).unwrap() {
        Value::MessageVal(fields) => {
            // field 2 is absent even though it is declared and physically
            // present, because parsing stopped at the unrecognized tag 9
            assert_eq!(fields.len(), 2);
            assert!(fields[0].is_none());
            assert!(fields[1].is_none());
        },
        _ => panic!("wrong value shape"),
    }
}

#[test]
fn message_forward_compatibility_drops_trailing_unknown_field() {
    // encode with a schema declaring tags 1, 2 and 5, all present
    let wide = WireType::Message(vec![
        (1u8, WireType::UInt32),
        (2u8, WireType::UInt32),
        (5u8, WireType::UInt32),
    ]);
    let v = Value::MessageVal(vec![
        Some(Value::UInt32(11)),
        Some(Value::UInt32(22)),
        Some(Value::UInt32(55)),
    ]);
    let bytes = encode_value(&wide, &v).unwrap();
    // decode with a schema declaring only tags 1 and 2
    match decode_value(&message_two_u32(), &bytes).unwrap() {
        Value::MessageVal(fields) => {
            assert_eq!(fields.len(), 2);
            match fields[0] {
                Some(Value::UInt32(x)) => assert_eq!(x, 11),
                _ => panic!("field 1 missing"),
            }
            match fields[1] {
                Some(Value::UInt32(x)) => assert_eq!(x, 22),
                _ => panic!("field 2 missing"),
            }
        },
        _ => panic!("wrong value shape"),
    }
}

#[test]
fn interleaved_unknown_tag_drops_later_declared_field() {
    // body: tag 1, then unknown tag 5 before declared tag 2
    let body = vec![
        1u8, 11, 0, 0, 0, 5, 55, 0, 0, 0, 2, 22, 0, 0, 0, 0,
    ];
    let mut bytes = vec![body.len() as u8, 0, 0, 0];
    bytes.extend_from_slice(&body);
    match decode_value(&message_two_u32(), &bytes).unwrap() {
        Value::MessageVal(fields) => {
            match fields[0] {
                Some(Value::UInt32(x)) => assert_eq!(x, 11),
                _ => panic!("field 1 missing"),
            }
            assert!(fields[1].is_none());
        },
        _ => panic!("wrong value shape"),
    }
}

#[test]
fn unknown_enum_value_fails() {
    let t = WireType::Discrim(vec![1, 2, 5]);
    assert_eq!(
        decode_value(&t, &[3, 0, 0, 0]).unwrap_err(),
        Error::UnknownEnumValue
    );
    match decode_value(&t, &[5, 0, 0, 0]).unwrap() {
        Value::EnumVal(x) => assert_eq!(x, 5),
        _ => panic!("wrong value shape"),
    }
}

#[test]
fn unknown_union_tag_fails() {
    let t = WireType::Choice(vec![(1u8, WireType::UInt32)]);
    let bytes = vec![5u8, 0, 0, 0, 9, 7, 0, 0, 0];
    assert_eq!(decode_value(&t, &bytes).unwrap_err(), Error::UnknownUnionTag);
}

#[test]
fn struct_fields_are_bare_and_ordered() {
    let t = WireType::Record(vec![WireType::UInt16, WireType::Boolean]);
    let v = Value::Record(vec![Value::UInt16(0x0102), Value::Boolean(true)]);
    let bytes = encode_value(&t, &v).unwrap();
    assert_eq!(bytes, vec![2u8, 1, 1]);
}

#[test]
fn truncated_struct_fails_at_first_short_field() {
    let t = WireType::Record(vec![WireType::UInt32, WireType::UInt32]);
    // first field complete, second truncated
    assert_eq!(
        decode_value(&t, &[1, 0, 0, 0, 2, 0, 0]).unwrap_err(),
        Error::UnexpectedEnd
    );
    // even the first field cannot be read
    assert_eq!(decode_value(&t, &[1, 0]).unwrap_err(), Error::UnexpectedEnd);
}

#[test]
fn enum_tagged_sample_round_trips_to_documented_bytes() {
    // a struct of an enum discriminant, a u16, and a byte array
    let t = WireType::Record(vec![
        WireType::Discrim(vec![1, 4]),
        WireType::UInt16,
        WireType::List(Box::new(WireType::UInt8)),
    ]);
    let v = Value::Record(vec![
        Value::EnumVal(4),
        Value::UInt16(0x2211),
        Value::List(vec![Value::UInt8(0xaa), Value::UInt8(0xbb)]),
    ]);
    let bytes = encode_value(&t, &v).unwrap();
    let documented = vec![4u8, 0, 0, 0, 0x11, 0x22, 2, 0, 0, 0, 0xaa, 0xbb];
    assert_eq!(bytes, documented);
    let back = decode_value(&t, &documented).unwrap();
    assert_eq!(encode_value(&t, &back).unwrap(), documented);
    match back {
        Value::Record(fields) => {
            match fields[0] {
                Value::EnumVal(x) => assert_eq!(x, 4),
                _ => panic!("wrong discriminant shape"),
            }
        },
        _ => panic!("wrong value shape"),
    }
}

#[test]
fn map_entries_keep_wire_order() {
    let t = WireType::Assoc(Box::new(WireType::UInt8), Box::new(WireType::UInt16));
    let v = Value::Assoc(vec![
        (Value::UInt8(1), Value::UInt16(10)),
        (Value::UInt8(2), Value::UInt16(20)),
    ]);
    let bytes = encode_value(&t, &v).unwrap();
    assert_eq!(bytes, vec![2u8, 0, 0, 0, 1, 10, 0, 2, 20, 0]);
    match decode_value(&t, &bytes).unwrap() {
        Value::Assoc(pairs) => {
            assert_eq!(pairs.len(), 2);
            match (&pairs[1].0, &pairs[1].1) {
                (Value::UInt8(k), Value::UInt16(val)) => {
                    assert_eq!(*k, 2);
                    assert_eq!(*val, 20);
                },
                _ => panic!("wrong pair shape"),
            }
        },
        _ => panic!("wrong value shape"),
    }
}

#[test]
fn float_bits_pass_through_unchanged() {
    let t = WireType::Record(vec![WireType::Float32, WireType::Float64]);
    let f32bits = 1.5f32.to_bits();
    let f64bits = (-2.25f64).to_bits();
    let v = Value::Record(vec![
        Value::Float32Bits(f32bits),
        Value::Float64Bits(f64bits),
    ]);
    let bytes = encode_value(&t, &v).unwrap();
    assert_eq!(&bytes[0..4], &1.5f32.to_le_bytes());
    assert_eq!(&bytes[4..12], &(-2.25f64).to_le_bytes());
    match decode_value(&t, &bytes).unwrap() {
        Value::Record(fields) => match (&fields[0], &fields[1]) {
            (Value::Float32Bits(a), Value::Float64Bits(b)) => {
                assert_eq!(f32::from_bits(*a), 1.5f32);
                assert_eq!(f64::from_bits(*b), -2.25f64);
            },
            _ => panic!("wrong field shapes"),
        },
        _ => panic!("wrong value shape"),
    }
}

#[test]
fn message_round_trip_with_nested_string() {
    let t = WireType::Message(vec![(1u8, WireType::Text), (2u8, WireType::Boolean)]);
    let v = Value::MessageVal(vec![Some(Value::Text(String::from("hi"))), None]);
    let bytes = encode_value(&t, &v).unwrap();
    // length 8: tag 1, u32 length 2, "hi", terminator
    assert_eq!(bytes, vec![8u8, 0, 0, 0, 1, 2, 0, 0, 0, b'h', b'i', 0]);
    match decode_value(&t, &bytes).unwrap() {
        Value::MessageVal(fields) => {
            match &fields[0] {
                Some(Value::Text(s)) => assert_eq!(s, "hi"),
                _ => panic!("field 1 missing"),
            }
            assert!(fields[1].is_none());
        },
        _ => panic!("wrong value shape"),
    }
}

#[test]
fn message_body_without_terminator_fails() {
    // frame says 5 bytes: tag 1 and a u32, but no terminator byte inside
    let t = WireType::Message(vec![(1u8, WireType::UInt32)]);
    let bytes = vec![5u8, 0, 0, 0, 1, 7, 0, 0, 0];
    assert_eq!(decode_value(&t, &bytes).unwrap_err(), Error::UnexpectedEnd);
}

#[test]
fn message_frame_longer_than_buffer_fails() {
    let t = WireType::Message(vec![(1u8, WireType::UInt32)]);
    let bytes = vec![10u8, 0, 0, 0, 0];
    assert_eq!(decode_value(&t, &bytes).unwrap_err(), Error::UnexpectedEnd);
}
