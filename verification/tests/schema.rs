use bebop::codec::decode_value;
use bebop::codec::encode_value;
use bebop::mapper::compile_definition;
use bebop::mapper::MapError;
use bebop::mapper::WireType;
use bebop::parse::ParseErrorKind;
use bebop::parse::Parser;
use bebop::schema::DefKind;
use bebop::schema::Definition;
use bebop::schema::SchemaItem;
use bebop::schema::TypeExpr;
use bebop::value::Value;

fn defs_of(src: &str) -> Vec<Definition> {
    let mut parser = Parser::new(src);
    let items = parser.parse_file().unwrap();
    let mut defs = Vec::new();
    for item in items {
        match item {
            SchemaItem::DefItem(d) => defs.push(d),
            SchemaItem::ImportItem(_) => {},
        }
    }
    defs
}

#[test]
fn tokenizer_skips_blanks_and_comments() {
    let mut p = Parser::new("  // line comment\n /* block\ncomment */ enum");
    assert_eq!(p.next_token().unwrap(), "enum");
    assert!(p.next_token().is_none());
}

#[test]
fn unterminated_block_comment_consumes_to_end() {
    let mut p = Parser::new("a /* never closed");
    assert_eq!(p.next_token().unwrap(), "a");
    assert!(p.next_token().is_none());
}

#[test]
fn numbers_decimal_and_hex() {
    let mut p = Parser::new("26 0x1A 4294967295");
    assert_eq!(p.parse_number().unwrap(), 26);
    assert_eq!(p.parse_number().unwrap(), 26);
    assert_eq!(p.parse_number().unwrap(), 4294967295);
}

#[test]
fn invalid_numbers_are_fatal() {
    let mut p = Parser::new("12z4");
    assert_eq!(p.parse_number().unwrap_err().kind, ParseErrorKind::InvalidNumber);
    let mut q = Parser::new("4294967296");
    assert_eq!(q.parse_number().unwrap_err().kind, ParseErrorKind::InvalidNumber);
    let mut h = Parser::new("0x");
    assert_eq!(h.parse_number().unwrap_err().kind, ParseErrorKind::InvalidNumber);
}

#[test]
fn string_literals_single_and_double_quoted() {
    let mut p = Parser::new(" 'abc' \"d e\" ");
    assert_eq!(p.parse_string_literal().unwrap(), "abc");
    assert_eq!(p.parse_string_literal().unwrap(), "d e");
}

#[test]
fn unterminated_string_literal_is_fatal() {
    let mut p = Parser::new("'oops");
    assert_eq!(
        p.parse_string_literal().unwrap_err().kind,
        ParseErrorKind::UnterminatedString
    );
}

#[test]
fn parses_enum_struct_message_union() {
    let src = "
        enum Kind {
            A = 1;
            [deprecated('old')] B = 2;
        }
        [opcode(0x12)]
        struct Point {
            int32 x;
            int32 y;
            byte[] blob;
            map[string, uint32] counts;
        }
        message Song {
            1 -> string title;
            2 -> uint16 year;
        }
        union Payload {
            1 -> struct Ping { }
            2 -> message Pong { 1 -> bool ok; }
        }
    ";
    let defs = defs_of(src);
    assert_eq!(defs.len(), 4);
    assert_eq!(defs[0].name, "Kind");
    match &defs[0].kind {
        DefKind::Enum(ms) => {
            assert_eq!(ms.len(), 2);
            assert_eq!(ms[0].name, "A");
            assert_eq!(ms[0].value, 1);
            assert_eq!(ms[1].value, 2);
            assert!(ms[1].deprecated.is_some());
        },
        _ => panic!("Kind should be an enum"),
    }
    assert_eq!(defs[1].opcode, Some(0x12));
    match &defs[1].kind {
        DefKind::Struct(fs) => {
            assert_eq!(fs.len(), 4);
            assert!(matches!(fs[0].ty, TypeExpr::Int32));
            assert!(matches!(fs[2].ty, TypeExpr::Array(_)));
            assert!(matches!(fs[3].ty, TypeExpr::Mapping(_, _)));
        },
        _ => panic!("Point should be a struct"),
    }
    match &defs[2].kind {
        DefKind::Message(fs) => {
            assert_eq!(fs[0].index, 1);
            assert_eq!(fs[0].name, "title");
            assert_eq!(fs[1].index, 2);
        },
        _ => panic!("Song should be a message"),
    }
    match &defs[3].kind {
        DefKind::Union(vs) => {
            assert_eq!(vs.len(), 2);
            assert_eq!(vs[0].index, 1);
            assert_eq!(vs[0].def.name, "Ping");
        },
        _ => panic!("Payload should be a union"),
    }
}

#[test]
fn fourcc_opcode_reads_little_endian() {
    let defs = defs_of("[opcode('ABCD')] struct S { }");
    assert_eq!(defs[0].opcode, Some(0x44434241));
}

#[test]
fn opcode_literal_must_be_four_bytes() {
    let mut p = Parser::new("[opcode('ABC')] struct S { }");
    assert_eq!(
        p.parse_file().unwrap_err().kind,
        ParseErrorKind::OpcodeNotFourBytes
    );
}

#[test]
fn enums_cannot_have_an_opcode() {
    let mut p = Parser::new("[opcode(1)] enum E { A = 1; }");
    assert_eq!(p.parse_file().unwrap_err().kind, ParseErrorKind::EnumWithOpcode);
}

#[test]
fn message_index_zero_is_rejected() {
    let mut p = Parser::new("message M { 0 -> bool a; }");
    assert_eq!(p.parse_file().unwrap_err().kind, ParseErrorKind::IndexZero);
}

#[test]
fn indices_above_255_are_rejected() {
    let mut p = Parser::new("message M { 256 -> bool a; }");
    assert_eq!(p.parse_file().unwrap_err().kind, ParseErrorKind::IndexTooLarge);
    let mut q = Parser::new("union U { 300 -> struct S { } }");
    assert_eq!(q.parse_file().unwrap_err().kind, ParseErrorKind::IndexTooLarge);
}

#[test]
fn duplicate_indices_and_discriminants_are_rejected() {
    let mut p = Parser::new("message M { 1 -> bool a; 1 -> bool b; }");
    assert_eq!(p.parse_file().unwrap_err().kind, ParseErrorKind::DuplicateIndex);
    let mut q = Parser::new("enum E { A = 1; B = 1; }");
    assert_eq!(
        q.parse_file().unwrap_err().kind,
        ParseErrorKind::DuplicateEnumValue
    );
}

#[test]
fn readonly_marker_is_accepted() {
    let defs = defs_of("readonly struct S { bool a; }");
    assert!(defs[0].readonly);
}

#[test]
fn imports_surface_as_items() {
    let mut p = Parser::new("import 'common/types.bop' struct S { }");
    let items = p.parse_file().unwrap();
    assert_eq!(items.len(), 2);
    match &items[0] {
        SchemaItem::ImportItem(path) => assert_eq!(path, "common/types.bop"),
        _ => panic!("first item should be the import"),
    }
}

#[test]
fn array_suffixes_nest() {
    let defs = defs_of("struct S { uint8[][] grid; }");
    match &defs[0].kind {
        DefKind::Struct(fs) => match &fs[0].ty {
            TypeExpr::Array(inner) => assert!(matches!(**inner, TypeExpr::Array(_))),
            _ => panic!("expected nested arrays"),
        },
        _ => panic!("expected a struct"),
    }
}

#[test]
fn forward_references_resolve() {
    let defs = defs_of("struct Outer { Inner one; } struct Inner { uint8 x; }");
    let t = compile_definition(&defs, &defs[0]).unwrap();
    match t {
        WireType::Record(fields) => match &fields[0] {
            WireType::Record(inner) => assert!(matches!(inner[0], WireType::UInt8)),
            _ => panic!("named reference should inline the struct"),
        },
        _ => panic!("expected a record"),
    }
}

#[test]
fn unknown_type_name_is_a_mapper_error() {
    let defs = defs_of("struct S { Missing x; }");
    assert_eq!(
        compile_definition(&defs, &defs[0]).unwrap_err(),
        MapError::UnknownTypeName
    );
}

#[test]
fn cyclic_references_are_a_mapper_error() {
    let defs = defs_of("struct A { B b; } struct B { A a; }");
    assert_eq!(
        compile_definition(&defs, &defs[0]).unwrap_err(),
        MapError::CyclicReference
    );
}

#[test]
fn schema_to_codec_end_to_end() {
    let defs = defs_of(
        "enum Color { Red = 1; Blue = 2; }
         struct Pixel { Color color; uint16 x; }",
    );
    let t = compile_definition(&defs, &defs[1]).unwrap();
    let v = Value::Record(vec![Value::EnumVal(2), Value::UInt16(7)]);
    let bytes = encode_value(&t, &v).unwrap();
    assert_eq!(bytes, vec![2u8, 0, 0, 0, 7, 0]);
    let back = decode_value(&t, &bytes).unwrap();
    assert_eq!(encode_value(&t, &back).unwrap(), bytes);
}
