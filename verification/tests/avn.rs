use asn1_notation::avn::{decode, encode};
use asn1_notation::avn::de::bytes_from_hex;
use asn1_notation::avn::enc::parse_signed_exec;
use asn1_notation::gser;
use asn1_notation::model::{
    Alternative, AsnType, DecodeErrorKind, Expected, Field, FieldType, Found, RealValue,
    SetComponent, StringKind, Tag, TagClass, Value,
};

fn s(x: &str) -> String {
    String::from(x)
}

fn int_ty(min: i128, max: i128) -> AsnType {
    AsnType::Integer { min, max }
}

fn u8_ty() -> AsnType {
    int_ty(0, 255)
}

fn big_ty() -> AsnType {
    int_ty(i128::MIN, i128::MAX)
}

fn utf8() -> AsnType {
    AsnType::Text(StringKind::Utf8)
}

fn ft(name: &str, ty: AsnType, optional: bool) -> FieldType {
    FieldType { name: s(name), ty, optional }
}

fn alt(name: &str, ty: AsnType) -> Alternative {
    Alternative { name: s(name), ty }
}

fn field(name: &str, v: Value) -> Field {
    Field { name: s(name), value: Some(v) }
}

fn absent(name: &str) -> Field {
    Field { name: s(name), value: None }
}

fn bits(b: &[bool]) -> Value {
    Value::BitString(b.to_vec())
}

fn text(x: &str) -> Value {
    Value::Text(StringKind::Utf8, s(x))
}

fn chosen(id: &str, v: Value) -> Value {
    Value::Choice(s(id), Box::new(v))
}

fn oid(arcs: &[u32]) -> Value {
    Value::ObjectIdentifier(arcs.to_vec())
}

/// Encodes, checks the text, decodes as the type and checks the value.
fn round_trip(ty: &AsnType, value: Value, expected: &str) {
    let encoded = encode(&value).unwrap();
    assert_eq!(expected, encoded);
    let decoded = decode(&encoded, ty).unwrap();
    assert_eq!(value, decoded);
}

/// Encodes and decodes, returning the decoded value.
fn through(ty: &AsnType, value: &Value) -> Value {
    let encoded = encode(value).unwrap();
    decode(&encoded, ty).unwrap()
}

fn test_type_a() -> AsnType {
    AsnType::Sequence(vec![
        ft("juice", big_ty(), false),
        ft("wine", AsnType::Choice(vec![alt("Wine", u8_ty())]), false),
        ft("grappa", AsnType::BitString, false),
    ])
}

fn struct_ty() -> AsnType {
    AsnType::Sequence(vec![ft("strct", u8_ty(), true)])
}

fn nested_ty() -> AsnType {
    AsnType::Sequence(vec![ft("very", struct_ty(), true), ft("nested", AsnType::Bool, true)])
}

fn very_ty() -> AsnType {
    AsnType::Sequence(vec![ft("a", nested_ty(), true)])
}

fn simple_enum() -> AsnType {
    AsnType::Enumerated(vec![s("Test1"), s("Test2")])
}

fn ext_enum() -> AsnType {
    AsnType::Enumerated(vec![s("Test1"), s("Test2"), s("Test3")])
}

fn simple_choice() -> AsnType {
    AsnType::Choice(vec![alt("Test1", u8_ty()), alt("Test2", utf8())])
}

fn ext_choice() -> AsnType {
    AsnType::Choice(vec![alt("Test1", u8_ty()), alt("Test2", utf8()), alt("Test3", AsnType::Bool)])
}

fn real_of_f64(x: f64) -> RealValue {
    if x == 0.0 {
        RealValue::Zero
    } else if x == f64::INFINITY {
        RealValue::PlusInfinity
    } else if x == f64::NEG_INFINITY {
        RealValue::MinusInfinity
    } else {
        RealValue::Numeral(format!("{:E}", x))
    }
}

fn real_of_f32(x: f32) -> RealValue {
    if x == 0.0 {
        RealValue::Zero
    } else if x == f32::INFINITY {
        RealValue::PlusInfinity
    } else if x == f32::NEG_INFINITY {
        RealValue::MinusInfinity
    } else {
        RealValue::Numeral(format!("{:E}", x))
    }
}

fn f64_of(v: &Value) -> f64 {
    match v {
        Value::Real(RealValue::Zero) => 0.0,
        Value::Real(RealValue::PlusInfinity) => f64::INFINITY,
        Value::Real(RealValue::MinusInfinity) => f64::NEG_INFINITY,
        Value::Real(RealValue::Numeral(t)) => t.parse().unwrap(),
        Value::Real(RealValue::Tuple { mantissa, base, exponent }) => {
            (*mantissa as f64) * (*base as f64).powi(*exponent)
        }
        _ => panic!("not a REAL value"),
    }
}

fn real_round_trip(x: f64, expected: &str) {
    let value = Value::Real(real_of_f64(x));
    let encoded = encode(&value).unwrap();
    assert_eq!(expected, encoded);
    let decoded = decode(&encoded, &AsnType::Real).unwrap();
    assert_eq!(x, f64_of(&decoded));
}

fn real_round_trip_f32(x: f32, expected: &str) {
    let value = Value::Real(real_of_f32(x));
    let encoded = encode(&value).unwrap();
    assert_eq!(expected, encoded);
    let decoded = decode(&encoded, &AsnType::Real).unwrap();
    assert_eq!(x, f64_of(&decoded) as f32);
}

#[test]
fn bool() {
    round_trip(&AsnType::Bool, Value::Bool(true), "TRUE");
    round_trip(&AsnType::Bool, Value::Bool(false), "FALSE");
}

#[test]
fn integer() {
    round_trip(&u8_ty(), Value::Integer(1), "1");
    round_trip(&int_ty(-128, 127), Value::Integer(-1), "-1");
    round_trip(&int_ty(0, 65535), Value::Integer(0), "0");
    round_trip(&int_ty(-32768, 32767), Value::Integer(-14321), "-14321");
    round_trip(
        &int_ty(i64::MIN as i128, i64::MAX as i128),
        Value::Integer(-1_213_428_598_524_996_264),
        "-1213428598524996264",
    );
    round_trip(&big_ty(), Value::Integer(1), "1");
    round_trip(&big_ty(), Value::Integer(-1_235_352), "-1235352");
    round_trip(&big_ty(), Value::Integer(1), "1");
}

#[test]
fn null() {
    round_trip(&AsnType::Null, Value::Null, "NULL");
}

#[test]
fn real_f32() {
    real_round_trip_f32(0.0, "0");
    real_round_trip_f32(f32::INFINITY, "PLUS-INFINITY");
    real_round_trip_f32(f32::NEG_INFINITY, "MINUS-INFINITY");
    let encoded = encode(&Value::Real(real_of_f32(1.0))).unwrap();
    assert!(encoded.starts_with("{ ") && encoded.ends_with(" }"));
    let decoded = decode(&encoded, &AsnType::Real).unwrap();
    assert!((f64_of(&decoded) as f32 - 1.0f32).abs() < f32::EPSILON);
}

#[test]
fn real_f64() {
    real_round_trip(0.0, "0");
    real_round_trip(f64::INFINITY, "PLUS-INFINITY");
    real_round_trip(f64::NEG_INFINITY, "MINUS-INFINITY");
    let encoded = encode(&Value::Real(real_of_f64(3.14))).unwrap();
    assert!(encoded.starts_with("{ ") && encoded.ends_with(" }"));
    let decoded = decode(&encoded, &AsnType::Real).unwrap();
    assert!((f64_of(&decoded) - 3.14f64).abs() < 0.001);
}

#[test]
fn bit_string() {
    round_trip(
        &AsnType::BitString,
        bits(&[true, false, false, false, false, false, false, false]),
        "'80'H",
    );
    round_trip(
        &AsnType::BitString,
        bits(&[true, false, true, false, false, false, false, false]),
        "'A0'H",
    );
    round_trip(&AsnType::BitString, bits(&[true, false, true, false, true]), "'10101'B");
    round_trip(&AsnType::BitString, bits(&[true, true, false]), "'110'B");
}

#[test]
fn octet_string() {
    round_trip(&AsnType::OctetString, Value::OctetString(vec![1, 255]), "'01FF'H");
    round_trip(&AsnType::OctetString, Value::OctetString(vec![1, 255, 0, 254]), "'01FF00FE'H");
}

#[test]
fn object_identifier() {
    round_trip(&AsnType::ObjectIdentifier, oid(&[2, 5, 15]), "{ 2 5 15 }");
}

#[test]
fn string_types() {
    for kind in [
        StringKind::Numeric,
        StringKind::General,
        StringKind::Visible,
        StringKind::Printable,
        StringKind::Ia5,
        StringKind::Utf8,
    ] {
        let value = Value::Text(kind, s(" 1234567890"));
        let encoded = encode(&value).unwrap();
        assert_eq!("\" 1234567890\"", encoded);
        let decoded = decode(&encoded, &AsnType::Text(kind)).unwrap();
        assert_eq!(value, decoded);
    }
}

#[test]
fn string_escaping() {
    let value = text("Hello \"World\"");
    let encoded = encode(&value).unwrap();
    assert_eq!(encoded, "\"Hello \"\"World\"\"\"");
    let decoded = decode(&encoded, &utf8()).unwrap();
    assert_eq!(value, decoded);
}

#[test]
fn enumerated() {
    round_trip(&simple_enum(), Value::Enumerated(s("Test1")), "Test1");
    round_trip(&simple_enum(), Value::Enumerated(s("Test2")), "Test2");
    round_trip(&ext_enum(), Value::Enumerated(s("Test1")), "Test1");
    round_trip(&ext_enum(), Value::Enumerated(s("Test2")), "Test2");
    round_trip(&ext_enum(), Value::Enumerated(s("Test3")), "Test3");
}

#[test]
fn choice() {
    round_trip(&simple_choice(), chosen("Test1", Value::Integer(3)), "Test1: 3");
    round_trip(&simple_choice(), chosen("Test2", text("foo")), "Test2: \"foo\"");
    round_trip(&ext_choice(), chosen("Test1", Value::Integer(255)), "Test1: 255");
    round_trip(&ext_choice(), chosen("Test2", text("bar")), "Test2: \"bar\"");
    round_trip(&ext_choice(), chosen("Test3", Value::Bool(true)), "Test3: TRUE");
}

#[test]
fn sequence_of() {
    round_trip(
        &AsnType::SequenceOf(Box::new(simple_choice())),
        Value::SequenceOf(vec![chosen("Test1", Value::Integer(3))]),
        "{ Test1: 3 }",
    );
    round_trip(
        &AsnType::SequenceOf(Box::new(u8_ty())),
        Value::SequenceOf([1, 2, 3, 4, 5, 5, 3].iter().map(|n| Value::Integer(*n)).collect()),
        "{ 1, 2, 3, 4, 5, 5, 3 }",
    );
    round_trip(&AsnType::SequenceOf(Box::new(AsnType::Bool)), Value::SequenceOf(vec![]), "{ }");
}

#[test]
fn set_of() {
    round_trip(
        &AsnType::SetOf(Box::new(simple_choice())),
        Value::SetOf(vec![chosen("Test1", Value::Integer(3))]),
        "{ Test1: 3 }",
    );
    round_trip(&AsnType::SetOf(Box::new(AsnType::Bool)), Value::SetOf(vec![]), "{ }");
}

#[test]
fn sequence() {
    round_trip(
        &test_type_a(),
        Value::Sequence(vec![
            field("juice", Value::Integer(0)),
            field("wine", chosen("Wine", Value::Integer(4))),
            field("grappa", bits(&[true, false, false, false, false, false, false, false])),
        ]),
        "{ juice 0, wine Wine: 4, grappa '80'H }",
    );
    round_trip(
        &very_ty(),
        Value::Sequence(vec![field(
            "a",
            Value::Sequence(vec![
                field("very", Value::Sequence(vec![absent("strct")])),
                field("nested", Value::Bool(false)),
            ]),
        )]),
        "{ a { very { }, nested FALSE } }",
    );
}

#[test]
fn with_identifier_annotation() {
    round_trip(
        &AsnType::Sequence(vec![ft("so-very", big_ty(), false), ft("re_named", AsnType::Bool, true)]),
        Value::Sequence(vec![field("so-very", Value::Integer(1)), field("re_named", Value::Bool(true))]),
        "{ so-very 1, re_named TRUE }",
    );
    round_trip(
        &AsnType::Choice(vec![alt("test-1", utf8())]),
        chosen("test-1", text("hel")),
        "test-1: \"hel\"",
    );
}

#[test]
fn avn_oid_format_differs_from_gser() {
    let value = oid(&[2, 5, 15]);
    let avn_encoded = encode(&value).unwrap();
    assert_eq!(avn_encoded, "{ 2 5 15 }");
    let gser_encoded = gser::encode(&value).unwrap();
    assert_eq!(gser_encoded, "2.5.15");
    let avn_decoded = decode(&avn_encoded, &AsnType::ObjectIdentifier).unwrap();
    let gser_decoded = gser::decode(&gser_encoded, &AsnType::ObjectIdentifier).unwrap();
    assert_eq!(avn_decoded, gser_decoded);
}

fn profile_header_ty() -> AsnType {
    AsnType::Sequence(vec![
        ft("major-version", u8_ty(), false),
        ft("minor-version", u8_ty(), false),
        ft("profileType", utf8(), false),
        ft("iccid", AsnType::OctetString, false),
    ])
}

fn key_info_ty() -> AsnType {
    AsnType::Sequence(vec![
        ft("keyIdentifier", u8_ty(), false),
        ft("keyData", AsnType::OctetString, false),
    ])
}

fn security_domain_ty() -> AsnType {
    AsnType::Sequence(vec![
        ft("sd-aid", AsnType::OctetString, false),
        ft("key-list", AsnType::SequenceOf(Box::new(key_info_ty())), false),
    ])
}

fn profile_element_ty() -> AsnType {
    AsnType::Choice(vec![alt("Header", profile_header_ty()), alt("SecurityDomain", security_domain_ty())])
}

#[test]
fn tca_profile_header() {
    let header = chosen(
        "Header",
        Value::Sequence(vec![
            field("major-version", Value::Integer(3)),
            field("minor-version", Value::Integer(4)),
            field("profileType", text("TCA Sample")),
            field("iccid", Value::OctetString(vec![0x89, 0x01, 0x99, 0x90, 0x00])),
        ]),
    );
    assert_eq!(header, through(&profile_element_ty(), &header));
}

#[test]
fn tca_security_domain() {
    let key = |id: i128, data: Vec<u8>| {
        Value::Sequence(vec![field("keyIdentifier", Value::Integer(id)), field("keyData", Value::OctetString(data))])
    };
    let sd = chosen(
        "SecurityDomain",
        Value::Sequence(vec![
            field("sd-aid", Value::OctetString(vec![0xA0, 0x00, 0x00, 0x01, 0x51])),
            field(
                "key-list",
                Value::SequenceOf(vec![
                    key(1, vec![0x11, 0x22, 0x33, 0x44]),
                    key(2, vec![0xAA, 0xBB, 0xCC, 0xDD]),
                ]),
            ),
        ]),
    );
    assert_eq!(sd, through(&profile_element_ty(), &sd));
}

#[test]
fn sequence_of_oids() {
    let oids = Value::SequenceOf(vec![oid(&[2, 23, 143, 1, 2, 1]), oid(&[2, 23, 143, 1, 2, 4, 2])]);
    let encoded = encode(&oids).unwrap();
    assert!(encoded.contains("{ 2 23 143 1 2 1 }"));
    assert!(encoded.contains("{ 2 23 143 1 2 4 2 }"));
    let decoded = decode(&encoded, &AsnType::SequenceOf(Box::new(AsnType::ObjectIdentifier))).unwrap();
    assert_eq!(oids, decoded);
}

#[test]
fn avn_invalid_enum_discriminant() {
    let result = decode("InvalidVariant", &simple_enum());
    assert!(result.is_err());
    let err = result.unwrap_err();
    assert!(format!("{err:?}").contains("InvalidEnumDiscriminant") || format!("{err:?}").contains("InvalidVariant"));
}

#[test]
fn avn_invalid_choice_variant() {
    let result = decode("UnknownVariant: 42", &simple_choice());
    assert!(result.is_err());
    let err = result.unwrap_err();
    assert!(format!("{err:?}").contains("InvalidChoiceVariant") || format!("{err:?}").contains("UnknownVariant"));
}

#[test]
fn avn_type_mismatch_boolean() {
    assert!(decode("MAYBE", &AsnType::Bool).is_err());
}

#[test]
fn avn_type_mismatch_integer() {
    assert!(decode("not_a_number", &int_ty(i32::MIN as i128, i32::MAX as i128)).is_err());
}

#[test]
fn avn_invalid_hex_string() {
    assert!(decode("'GHIJ'H", &AsnType::OctetString).is_err());
}

#[test]
fn avn_invalid_hex_string_odd_length() {
    assert!(decode("'ABC'H", &AsnType::OctetString).is_err());
}

#[test]
fn avn_invalid_bit_string_binary() {
    assert!(decode("'1012'B", &AsnType::BitString).is_err());
}

#[test]
fn avn_malformed_sequence() {
    assert!(decode("{ juice 0, wine", &test_type_a()).is_err());
}

#[test]
fn avn_invalid_null() {
    assert!(decode("NOTHING", &AsnType::Null).is_err());
}

#[test]
fn avn_invalid_oid_format() {
    assert!(decode("1.2.3.4", &AsnType::ObjectIdentifier).is_err());
}

#[test]
fn avn_invalid_oid_content() {
    assert!(decode("{ not arcs }", &AsnType::ObjectIdentifier).is_err());
}

#[test]
fn avn_invalid_real_tuple() {
    assert!(decode("{ 314, 10 }", &AsnType::Real).is_err());
}

#[test]
fn avn_invalid_real() {
    assert!(decode("not-a-real-number", &AsnType::Real).is_err());
}

#[test]
fn avn_bit_string_empty() {
    round_trip(&AsnType::BitString, bits(&[]), "''H");
}

#[test]
fn avn_bit_string_uicc_capability_pattern() {
    round_trip(
        &AsnType::BitString,
        bits(&[true, true, true, true, false, false, false, false]),
        "'F0'H",
    );
}

#[test]
fn avn_bit_string_non_aligned_lengths() {
    for len in [1, 2, 3, 5, 6, 7, 9, 10, 11, 13, 14, 15] {
        let b: Vec<bool> = (0..len).map(|i| i % 2 == 0).collect();
        let value = Value::BitString(b);
        let encoded = encode(&value).unwrap();
        assert!(encoded.ends_with("'B"), "Length {len} should use binary format, got: {encoded}");
        let decoded = decode(&encoded, &AsnType::BitString).unwrap();
        assert_eq!(value, decoded, "Round-trip failed for length {len}");
    }
}

#[test]
fn avn_bit_string_aligned_lengths() {
    for len in [8, 16, 24, 32] {
        let b: Vec<bool> = (0..len).map(|i| i % 2 == 0).collect();
        let value = Value::BitString(b);
        let encoded = encode(&value).unwrap();
        assert!(encoded.ends_with("'H"), "Length {len} should use hex format, got: {encoded}");
        let decoded = decode(&encoded, &AsnType::BitString).unwrap();
        assert_eq!(value, decoded, "Round-trip failed for length {len}");
    }
}

#[test]
fn avn_bit_string_long() {
    let value = Value::BitString((0..64).map(|i| i % 3 == 0).collect());
    assert_eq!(value, through(&AsnType::BitString, &value));
}

#[test]
fn avn_oid_tca_profile() {
    round_trip(&AsnType::ObjectIdentifier, oid(&[2, 23, 143, 1, 2, 1]), "{ 2 23 143 1 2 1 }");
}

#[test]
fn avn_oid_itu_arc() {
    round_trip(&AsnType::ObjectIdentifier, oid(&[0, 4, 0, 127, 0, 7]), "{ 0 4 0 127 0 7 }");
}

#[test]
fn avn_oid_large_arcs() {
    round_trip(
        &AsnType::ObjectIdentifier,
        oid(&[2, 16, 840, 1, 101, 3, 4, 2, 1]),
        "{ 2 16 840 1 101 3 4 2 1 }",
    );
}

#[test]
fn avn_oid_iso_arc() {
    round_trip(
        &AsnType::ObjectIdentifier,
        oid(&[1, 2, 840, 113549, 1, 1, 11]),
        "{ 1 2 840 113549 1 1 11 }",
    );
}

#[test]
fn avn_octet_string_empty() {
    round_trip(&AsnType::OctetString, Value::OctetString(vec![]), "''H");
}

#[test]
fn avn_octet_string_iccid() {
    round_trip(
        &AsnType::OctetString,
        Value::OctetString(vec![0x89, 0x01, 0x99, 0x90, 0x00, 0x00, 0x00, 0x12, 0x34, 0x5F]),
        "'8901999000000012345F'H",
    );
}

#[test]
fn avn_octet_string_aid() {
    round_trip(
        &AsnType::OctetString,
        Value::OctetString(vec![
            0xA0, 0x00, 0x00, 0x05, 0x59, 0x10, 0x10, 0xFF, 0xFF, 0xFF, 0xFF, 0x89, 0x00, 0x00, 0x01,
            0x00,
        ]),
        "'A0000005591010FFFFFFFF8900000100'H",
    );
}

#[test]
fn avn_octet_string_key_sizes() {
    for size in [16, 24, 32] {
        let data: Vec<u8> = (0..size).map(|i| (i * 17) as u8).collect();
        let value = Value::OctetString(data);
        assert_eq!(value, through(&AsnType::OctetString, &value), "Round-trip failed for size {size}");
    }
}

fn full_profile_header_ty() -> AsnType {
    AsnType::Sequence(vec![
        ft("major-version", u8_ty(), false),
        ft("minor-version", u8_ty(), false),
        ft("profileType", utf8(), true),
        ft("iccid", AsnType::OctetString, false),
        ft(
            "eUICC-Mandatory-GFSTEList",
            AsnType::SequenceOf(Box::new(AsnType::ObjectIdentifier)),
            false,
        ),
    ])
}

fn full_key_info_ty() -> AsnType {
    let key_component = AsnType::Sequence(vec![
        ft("keyType", u8_ty(), false),
        ft("keyData", AsnType::OctetString, false),
    ]);
    AsnType::Sequence(vec![
        ft("keyIdentifier", u8_ty(), false),
        ft("keyVersionNumber", u8_ty(), false),
        ft("keyComponents", AsnType::SequenceOf(Box::new(key_component)), false),
    ])
}

fn key_component(byte: u8) -> Value {
    Value::Sequence(vec![
        field("keyType", Value::Integer(0x88)),
        field("keyData", Value::OctetString(vec![byte; 16])),
    ])
}

fn full_key_info(id: i128, components: Vec<Value>) -> Value {
    Value::Sequence(vec![
        field("keyIdentifier", Value::Integer(id)),
        field("keyVersionNumber", Value::Integer(1)),
        field("keyComponents", Value::SequenceOf(components)),
    ])
}

#[test]
fn avn_full_profile_header_round_trip() {
    let header = Value::Sequence(vec![
        field("major-version", Value::Integer(2)),
        field("minor-version", Value::Integer(3)),
        field("profileType", text("telecom")),
        field(
            "iccid",
            Value::OctetString(vec![0x89, 0x01, 0x99, 0x90, 0x00, 0x00, 0x00, 0x12, 0x34, 0x5F]),
        ),
        field("eUICC-Mandatory-GFSTEList", Value::SequenceOf(vec![oid(&[2, 23, 143, 1, 2, 1])])),
    ]);
    assert_eq!(header, through(&full_profile_header_ty(), &header));
}

#[test]
fn avn_full_profile_header_no_optional() {
    let header = Value::Sequence(vec![
        field("major-version", Value::Integer(1)),
        field("minor-version", Value::Integer(0)),
        absent("profileType"),
        field("iccid", Value::OctetString(vec![0x89, 0x00, 0x00, 0x00, 0x00])),
        field("eUICC-Mandatory-GFSTEList", Value::SequenceOf(vec![])),
    ]);
    assert_eq!(header, through(&full_profile_header_ty(), &header));
}

#[test]
fn avn_security_domain_multiple_keys() {
    let keys = Value::SequenceOf(vec![
        full_key_info(1, vec![key_component(0x11), key_component(0x22)]),
        full_key_info(2, vec![key_component(0xAA)]),
    ]);
    assert_eq!(keys, through(&AsnType::SequenceOf(Box::new(full_key_info_ty())), &keys));
}

#[test]
fn avn_deeply_nested_optional() {
    let nested = Value::Sequence(vec![field(
        "a",
        Value::Sequence(vec![
            field("very", Value::Sequence(vec![field("strct", Value::Integer(42))])),
            absent("nested"),
        ]),
    )]);
    assert_eq!(nested, through(&very_ty(), &nested));
}

#[test]
fn avn_empty_nested() {
    let nested = Value::Sequence(vec![absent("a")]);
    assert_eq!(nested, through(&very_ty(), &nested));
}

// ----------------------------------------------------------------------------
// Beyond the scenarios above: errors, laws on concrete values, edge cases
// ----------------------------------------------------------------------------

fn kind_of(input: &str, ty: &AsnType) -> DecodeErrorKind {
    decode(input, ty).unwrap_err().kind
}

#[test]
fn avn_error_kinds() {
    assert_eq!(kind_of("", &AsnType::Bool), DecodeErrorKind::ParserFail);
    assert_eq!(kind_of("300", &u8_ty()), DecodeErrorKind::IntegerOverflow);
    assert_eq!(kind_of("{ 3 5 }", &AsnType::ObjectIdentifier), DecodeErrorKind::InvalidOid);
    assert_eq!(
        kind_of("\"12a\"", &AsnType::Text(StringKind::Numeric)),
        DecodeErrorKind::StringConversionFailed { kind: StringKind::Numeric }
    );
    assert_eq!(
        kind_of("Test9", &simple_enum()),
        DecodeErrorKind::InvalidEnumDiscriminant { discriminant: s("Test9") }
    );
    assert_eq!(
        kind_of("Other: 1", &simple_choice()),
        DecodeErrorKind::InvalidChoiceVariant { variant: s("Other") }
    );
    assert!(matches!(kind_of("TRUE", &u8_ty()), DecodeErrorKind::TypeMismatch { .. }));
    assert!(matches!(
        kind_of("{ juice 0 }", &test_type_a()),
        DecodeErrorKind::TypeMismatch { .. }
    ));
}

#[test]
fn avn_decoder_runs_out() {
    let mut decoder = asn1_notation::avn::de::Decoder::new("TRUE").unwrap();
    assert_eq!(decoder.decode_value(&AsnType::Bool).unwrap(), Value::Bool(true));
    assert_eq!(decoder.decode_value(&AsnType::Bool).unwrap_err().kind, DecodeErrorKind::EndOfInput);
}

#[test]
fn avn_encoder_builds_text() {
    let mut encoder = asn1_notation::avn::enc::Encoder::new();
    encoder.encode_value(&Value::SequenceOf(vec![Value::Integer(-7), Value::Null])).unwrap();
    assert_eq!(encoder.to_string(), "{ -7, NULL }");
}

#[test]
fn avn_real_tuple_text() {
    let encoded = encode(&Value::Real(RealValue::Numeral(s("3.14E0")))).unwrap();
    assert_eq!(encoded, "{ 314, 10, -2 }");
    assert_eq!(
        decode(&encoded, &AsnType::Real).unwrap(),
        Value::Real(RealValue::Tuple { mantissa: 314, base: 10, exponent: -2 })
    );
    let zero = encode(&Value::Real(RealValue::Zero)).unwrap();
    assert_eq!(zero, "0");
    assert_eq!(decode(&zero, &AsnType::Real).unwrap(), Value::Real(RealValue::Numeral(s("0"))));
    let value = Value::Real(RealValue::Tuple { mantissa: -5, base: 2, exponent: 3 });
    round_trip(&AsnType::Real, value, "{ -5, 2, 3 }");
}

#[test]
fn avn_string_round_trip_law() {
    for x in ["", "\"", "\"\"", "a\"b\"c", "{ , }", "tab\there"] {
        round_trip(&utf8(), text(x), &format!("\"{}\"", x.replace('"', "\"\"")));
    }
}

#[test]
fn avn_hex_and_bits_laws() {
    round_trip(&AsnType::OctetString, Value::OctetString(vec![0, 0x0F, 0xF0, 0xFF]), "'000FF0FF'H");
    // twelve bits are written as three hex digits' worth of packed bytes and come back padded
    let twelve = bits(&[true; 12]);
    assert_eq!(encode(&twelve).unwrap(), "'FFF0'H");
    let padded: Vec<bool> = (0..16).map(|i| i < 12).collect();
    assert_eq!(decode("'FFF0'H", &AsnType::BitString).unwrap(), Value::BitString(padded));
}

#[test]
fn avn_lists_that_also_read_as_other_values() {
    let list = |ty: AsnType| AsnType::SequenceOf(Box::new(ty));
    // `{ 7 }` also reads as an OBJECT IDENTIFIER, `{ 1, 2, 3 }` as a REAL tuple
    let one = Value::SequenceOf(vec![Value::Integer(7)]);
    assert_eq!(encode(&one).unwrap(), "{ 7 }");
    assert_eq!(decode("{ 7 }", &list(u8_ty())).unwrap(), one);
    // as an OBJECT IDENTIFIER it is read as one (with a single arc it is no valid one)
    assert_eq!(decode("{ 7 }", &AsnType::ObjectIdentifier).unwrap_err().kind, DecodeErrorKind::InvalidOid);
    assert_eq!(decode("{ 1 3 }", &AsnType::ObjectIdentifier).unwrap(), oid(&[1, 3]));
    let three = Value::SequenceOf(vec![Value::Integer(1), Value::Integer(2), Value::Integer(3)]);
    assert_eq!(decode("{ 1, 2, 3 }", &list(u8_ty())).unwrap(), three);
    assert_eq!(
        decode("{ 1, 2, 3 }", &AsnType::Real).unwrap(),
        Value::Real(RealValue::Tuple { mantissa: 1, base: 2, exponent: 3 })
    );
    // a first item that is a bare word
    let flags = Value::SequenceOf(vec![Value::Bool(true), Value::Bool(false)]);
    assert_eq!(decode("{ TRUE, FALSE }", &list(AsnType::Bool)).unwrap(), flags);
    assert_eq!(through(&list(AsnType::Bool), &flags), flags);
    let set = Value::SetOf(vec![Value::Enumerated(s("Test1"))]);
    assert_eq!(through(&AsnType::SetOf(Box::new(simple_enum())), &set), set);
    // the same braces as another type still read by the general rules
    assert!(decode("{ TRUE, FALSE }", &AsnType::Bool).is_err());
    // two integers read back as a list
    let two = Value::SequenceOf(vec![Value::Integer(5), Value::Integer(6)]);
    assert_eq!(two, through(&list(u8_ty()), &two));
}

#[test]
fn avn_choice_identifier_case() {
    // alternatives are found up to ASCII case; the type's spelling comes back
    let decoded = decode("test1: 7", &simple_choice()).unwrap();
    assert_eq!(decoded, chosen("Test1", Value::Integer(7)));
}

#[test]
fn avn_sequence_last_component_wins() {
    let ty = AsnType::Sequence(vec![ft("x", u8_ty(), false)]);
    let decoded = decode("{ x 1, x 2 }", &ty).unwrap();
    assert_eq!(decoded, Value::Sequence(vec![field("x", Value::Integer(2))]));
}

#[test]
fn avn_value_assignment_prefix_is_stripped() {
    let bare = decode("Test1: 3", &simple_choice()).unwrap();
    let assigned = decode("myValue SimpleChoice ::= Test1: 3", &simple_choice()).unwrap();
    assert_eq!(bare, assigned);
    assert_eq!(assigned, chosen("Test1", Value::Integer(3)));
    let seq = decode(
        "value1 Juice-Type ::=\n{ juice 1, wine Wine: 4, grappa '0101'B }",
        &test_type_a(),
    )
    .unwrap();
    assert_eq!(
        seq,
        Value::Sequence(vec![
            field("juice", Value::Integer(1)),
            field("wine", chosen("Wine", Value::Integer(4))),
            field("grappa", bits(&[false, true, false, true])),
        ])
    );
    // bare values still decode
    assert_eq!(decode("TRUE", &AsnType::Bool).unwrap(), Value::Bool(true));
    // an upper-case name is no value assignment
    assert!(decode("MyValue SimpleChoice ::= Test1: 3", &simple_choice()).is_err());
}

#[test]
fn avn_bytes_from_hex() {
    let c = |x: &str| x.chars().collect::<Vec<char>>();
    assert_eq!(bytes_from_hex(&c("")), Some(vec![]));
    assert_eq!(bytes_from_hex(&c("01FF")), Some(vec![1, 255]));
    assert_eq!(bytes_from_hex(&c("a0b1")), Some(vec![0xa0, 0xb1]));
    assert_eq!(bytes_from_hex(&c("ABC")), None);
    assert_eq!(bytes_from_hex(&c("GH")), None);
}

#[test]
fn avn_parse_signed_with_any_bounds() {
    let c = |x: &str| x.chars().collect::<Vec<char>>();
    assert_eq!(parse_signed_exec(&c("2"), 1, 3), Some(2));
    assert_eq!(parse_signed_exec(&c("5"), 1, 3), None);
    assert_eq!(parse_signed_exec(&c("0"), 1, 3), None);
    assert_eq!(parse_signed_exec(&c("-3"), -5, -1), Some(-3));
    assert_eq!(parse_signed_exec(&c("+7"), 0, 0), None);
    assert_eq!(parse_signed_exec(&c("-170141183460469231731687303715884105728"), i128::MIN, i128::MAX), Some(i128::MIN));
    assert_eq!(parse_signed_exec(&c("170141183460469231731687303715884105728"), i128::MIN, i128::MAX), None);
}

fn set_ty() -> AsnType {
    let ctx = |n: u32| Tag { class: TagClass::Context, number: n };
    AsnType::SetType(vec![
        SetComponent { field: ft("a", u8_ty(), false), tag: ctx(1), extension: false },
        SetComponent { field: ft("b", AsnType::Bool, false), tag: ctx(0), extension: false },
        SetComponent { field: ft("c", AsnType::Null, true), tag: ctx(2), extension: false },
    ])
}

#[test]
fn avn_set_decodes_components_in_tag_order() {
    let value = Value::Sequence(vec![
        field("a", Value::Integer(5)),
        field("b", Value::Bool(true)),
        absent("c"),
    ]);
    // written like a SEQUENCE, in any order
    assert_eq!(decode("{ b TRUE, a 5 }", &set_ty()).unwrap(), value);
    assert_eq!(through(&set_ty(), &value), value);
    // both components fail: the one with the smaller tag (b) is reported
    let err = decode("{ a TRUE, b 5 }", &set_ty()).unwrap_err();
    assert_eq!(err.kind, DecodeErrorKind::TypeMismatch { expected: Expected::Boolean, found: Found::Integer });
    // braces that are no components
    let err = decode("TRUE", &set_ty()).unwrap_err();
    assert_eq!(err.kind, DecodeErrorKind::TypeMismatch { expected: Expected::SetType, found: Found::Bool });
}

fn extended_set_ty() -> AsnType {
    let ctx = |n: u32| Tag { class: TagClass::Context, number: n };
    AsnType::SetType(vec![
        SetComponent { field: ft("a", u8_ty(), false), tag: ctx(5), extension: false },
        SetComponent { field: ft("e1", AsnType::Bool, true), tag: ctx(3), extension: true },
        SetComponent { field: ft("e2", u8_ty(), true), tag: ctx(0), extension: true },
    ])
}

#[test]
fn avn_set_decodes_extension_additions_after_root_components() {
    let value = Value::Sequence(vec![
        field("a", Value::Integer(1)),
        field("e1", Value::Bool(false)),
        absent("e2"),
    ]);
    assert_eq!(decode("{ e1 FALSE, a 1 }", &extended_set_ty()).unwrap(), value);
    assert_eq!(through(&extended_set_ty(), &value), value);
    // a failed root component is reported before a failed extension with a lower tag
    let err = decode("{ a TRUE, e2 FALSE }", &extended_set_ty()).unwrap_err();
    assert_eq!(err.kind, DecodeErrorKind::TypeMismatch { expected: Expected::Integer, found: Found::Bool });
    // extensions in the order of the type, whatever their tags
    let err = decode("{ a 1, e1 5, e2 TRUE }", &extended_set_ty()).unwrap_err();
    assert_eq!(err.kind, DecodeErrorKind::TypeMismatch { expected: Expected::Boolean, found: Found::Integer });
}

#[test]
fn avn_oid_followed_by_more_text() {
    let ty = AsnType::Sequence(vec![ft("id", AsnType::ObjectIdentifier, false), ft("n", u8_ty(), false)]);
    let value = Value::Sequence(vec![field("id", oid(&[1, 2, 840])), field("n", Value::Integer(3))]);
    assert_eq!(encode(&value).unwrap(), "{ id { 1 2 840 }, n 3 }");
    assert_eq!(decode("{ id { 1 2 840 }, n 3 }", &ty).unwrap(), value);
}

#[test]
fn avn_integer_range_law() {
    assert_eq!(decode("255", &u8_ty()).unwrap(), Value::Integer(255));
    assert_eq!(decode("256", &u8_ty()).unwrap_err().kind, DecodeErrorKind::IntegerOverflow);
    assert_eq!(decode("-1", &u8_ty()).unwrap_err().kind, DecodeErrorKind::IntegerOverflow);
    assert_eq!(decode("-128", &int_ty(-128, 127)).unwrap(), Value::Integer(-128));
    assert_eq!(decode("-129", &int_ty(-128, 127)).unwrap_err().kind, DecodeErrorKind::IntegerOverflow);
}

#[test]
fn avn_written_shapes() {
    assert_eq!(encode(&text("Hello \"World\"")).unwrap(), "\"Hello \"\"World\"\"\"");
    assert_eq!(encode(&Value::OctetString(vec![1, 255])).unwrap(), "'01FF'H");
    assert_eq!(encode(&Value::OctetString(vec![])).unwrap(), "''H");
    assert_eq!(encode(&bits(&[true, false, true, false, true])).unwrap(), "'10101'B");
    assert_eq!(encode(&oid(&[2, 5, 15])).unwrap(), "{ 2 5 15 }");
    assert_eq!(encode(&Value::SequenceOf(vec![])).unwrap(), "{ }");
}
