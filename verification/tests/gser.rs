use asn1_notation::avn;
use asn1_notation::gser::{decode, encode};
use asn1_notation::model::{
    Alternative, AsnType, DecodeErrorKind, Field, FieldType, RealValue, SetComponent, StringKind,
    Tag, TagClass, Value,
};

fn s(x: &str) -> String {
    String::from(x)
}

fn int_ty(min: i128, max: i128) -> AsnType {
    AsnType::Integer { min, max }
}

fn u8_ty() -> AsnType {
    int_ty(0, 255)
}

fn big_ty() -> AsnType {
    int_ty(i128::MIN, i128::MAX)
}

fn utf8() -> AsnType {
    AsnType::Text(StringKind::Utf8)
}

fn ft(name: &str, ty: AsnType, optional: bool) -> FieldType {
    FieldType { name: s(name), ty, optional }
}

fn alt(name: &str, ty: AsnType) -> Alternative {
    Alternative { name: s(name), ty }
}

fn field(name: &str, v: Value) -> Field {
    Field { name: s(name), value: Some(v) }
}

fn absent(name: &str) -> Field {
    Field { name: s(name), value: None }
}

fn bits(b: &[bool]) -> Value {
    Value::BitString(b.to_vec())
}

fn text(x: &str) -> Value {
    Value::Text(StringKind::Utf8, s(x))
}

fn chosen(id: &str, v: Value) -> Value {
    Value::Choice(s(id), Box::new(v))
}

fn oid(arcs: &[u32]) -> Value {
    Value::ObjectIdentifier(arcs.to_vec())
}

/// Encodes, checks the text, decodes as the type and checks the value.
fn round_trip(ty: &AsnType, value: Value, expected: &str) {
    let encoded = encode(&value).unwrap();
    assert_eq!(expected, encoded);
    let decoded = decode(&encoded, ty).unwrap();
    assert_eq!(value, decoded);
}

/// Encodes and decodes, returning the decoded value.
fn through(ty: &AsnType, value: &Value) -> Value {
    let encoded = encode(value).unwrap();
    decode(&encoded, ty).unwrap()
}

fn test_type_a() -> AsnType {
    AsnType::Sequence(vec![
        ft("juice", big_ty(), false),
        ft("wine", AsnType::Choice(vec![alt("Wine", u8_ty())]), false),
        ft("grappa", AsnType::BitString, false),
    ])
}

fn struct_ty() -> AsnType {
    AsnType::Sequence(vec![ft("strct", u8_ty(), true)])
}

fn nested_ty() -> AsnType {
    AsnType::Sequence(vec![ft("very", struct_ty(), true), ft("nested", AsnType::Bool, true)])
}

fn very_ty() -> AsnType {
    AsnType::Sequence(vec![ft("a", nested_ty(), true)])
}

fn simple_enum() -> AsnType {
    AsnType::Enumerated(vec![s("Test1"), s("Test2")])
}

fn ext_enum() -> AsnType {
    AsnType::Enumerated(vec![s("Test1"), s("Test2"), s("Test3")])
}

fn simple_choice() -> AsnType {
    AsnType::Choice(vec![alt("Test1", u8_ty()), alt("Test2", utf8())])
}

fn ext_choice() -> AsnType {
    AsnType::Choice(vec![alt("Test1", u8_ty()), alt("Test2", utf8()), alt("Test3", AsnType::Bool)])
}

fn real_of_f64(x: f64) -> RealValue {
    if x == 0.0 {
        RealValue::Zero
    } else if x == f64::INFINITY {
        RealValue::PlusInfinity
    } else if x == f64::NEG_INFINITY {
        RealValue::MinusInfinity
    } else {
        RealValue::Numeral(format!("{:E}", x))
    }
}

fn real_of_f32(x: f32) -> RealValue {
    if x == 0.0 {
        RealValue::Zero
    } else if x == f32::INFINITY {
        RealValue::PlusInfinity
    } else if x == f32::NEG_INFINITY {
        RealValue::MinusInfinity
    } else {
        RealValue::Numeral(format!("{:E}", x))
    }
}

fn f64_of(v: &Value) -> f64 {
    match v {
        Value::Real(RealValue::Zero) => 0.0,
        Value::Real(RealValue::PlusInfinity) => f64::INFINITY,
        Value::Real(RealValue::MinusInfinity) => f64::NEG_INFINITY,
        Value::Real(RealValue::Numeral(t)) => t.parse().unwrap(),
        Value::Real(RealValue::Tuple { mantissa, base, exponent }) => {
            (*mantissa as f64) * (*base as f64).powi(*exponent)
        }
        _ => panic!("not a REAL value"),
    }
}

fn real_round_trip(x: f64, expected: &str) {
    let value = Value::Real(real_of_f64(x));
    let encoded = encode(&value).unwrap();
    assert_eq!(expected, encoded);
    let decoded = decode(&encoded, &AsnType::Real).unwrap();
    assert_eq!(x, f64_of(&decoded));
}

fn real_round_trip_f32(x: f32, expected: &str) {
    let value = Value::Real(real_of_f32(x));
    let encoded = encode(&value).unwrap();
    assert_eq!(expected, encoded);
    let decoded = decode(&encoded, &AsnType::Real).unwrap();
    assert_eq!(x, f64_of(&decoded) as f32);
}

#[test]
fn mod_bool() {
    round_trip(&AsnType::Bool, Value::Bool(true), "TRUE");
    round_trip(&AsnType::Bool, Value::Bool(false), "FALSE");
}

#[test]
fn mod_integer() {
    round_trip(&u8_ty(), Value::Integer(1), "1");
    round_trip(&int_ty(-128, 127), Value::Integer(-1), "-1");
    round_trip(&int_ty(0, 65535), Value::Integer(0), "0");
    round_trip(&int_ty(-32768, 32767), Value::Integer(-14321), "-14321");
    round_trip(
        &int_ty(i64::MIN as i128, i64::MAX as i128),
        Value::Integer(-1_213_428_598_524_996_264),
        "-1213428598524996264",
    );
    round_trip(&big_ty(), Value::Integer(1), "1");
    round_trip(&big_ty(), Value::Integer(-1_235_352), "-1235352");
    round_trip(&big_ty(), Value::Integer(1), "1");
}

#[test]
fn mod_null() {
    round_trip(&AsnType::Null, Value::Null, "NULL");
}

#[test]
fn mod_real_f32() {
    real_round_trip_f32(0.0, "0");
    real_round_trip_f32(f32::INFINITY, "PLUS-INFINITY");
    real_round_trip_f32(f32::NEG_INFINITY, "MINUS-INFINITY");
    real_round_trip_f32(1.0, "1E0");
    real_round_trip_f32(-1.0, "-1E0");
}

#[test]
fn mod_real_f64() {
    real_round_trip(0.0, "0");
    real_round_trip(f64::INFINITY, "PLUS-INFINITY");
    real_round_trip(f64::NEG_INFINITY, "MINUS-INFINITY");
    real_round_trip(1.0, "1E0");
    real_round_trip(-1.0, "-1E0");
}

#[test]
fn mod_bit_string() {
    round_trip(
        &AsnType::BitString,
        bits(&[true, false, false, false, false, false, false, false]),
        "'80'H",
    );
    round_trip(
        &AsnType::BitString,
        bits(&[true, false, true, false, false, false, false, false]),
        "'A0'H",
    );
    round_trip(&AsnType::BitString, bits(&[true, false, true, false, true]), "'10101'B");
    round_trip(&AsnType::BitString, bits(&[true, true, false]), "'110'B");
}

#[test]
fn mod_octet_string() {
    round_trip(&AsnType::OctetString, Value::OctetString(vec![1, 255]), "'01FF'H");
    round_trip(&AsnType::OctetString, Value::OctetString(vec![1, 255, 0, 254]), "'01FF00FE'H");
}

#[test]
fn mod_object_identifier() {
    round_trip(&AsnType::ObjectIdentifier, oid(&[2, 5, 15]), "2.5.15");
}

#[test]
fn mod_string_types() {
    for kind in [
        StringKind::Numeric,
        StringKind::General,
        StringKind::Visible,
        StringKind::Printable,
        StringKind::Ia5,
        StringKind::Utf8,
    ] {
        let value = Value::Text(kind, s(" 1234567890"));
        let encoded = encode(&value).unwrap();
        assert_eq!("\" 1234567890\"", encoded);
        let decoded = decode(&encoded, &AsnType::Text(kind)).unwrap();
        assert_eq!(value, decoded);
    }
}

#[test]
fn mod_string_escaping() {
    let value = text("Hello \"World\"");
    let encoded = encode(&value).unwrap();
    assert_eq!(encoded, "\"Hello \"\"World\"\"\"");
    let decoded = decode(&encoded, &utf8()).unwrap();
    assert_eq!(value, decoded);
}

#[test]
fn mod_enumerated() {
    round_trip(&simple_enum(), Value::Enumerated(s("Test1")), "Test1");
    round_trip(&simple_enum(), Value::Enumerated(s("Test2")), "Test2");
    round_trip(&ext_enum(), Value::Enumerated(s("Test1")), "Test1");
    round_trip(&ext_enum(), Value::Enumerated(s("Test2")), "Test2");
    round_trip(&ext_enum(), Value::Enumerated(s("Test3")), "Test3");
}

#[test]
fn mod_choice() {
    round_trip(&simple_choice(), chosen("Test1", Value::Integer(3)), "Test1: 3");
    round_trip(&simple_choice(), chosen("Test2", text("foo")), "Test2: \"foo\"");
    round_trip(&ext_choice(), chosen("Test1", Value::Integer(255)), "Test1: 255");
    round_trip(&ext_choice(), chosen("Test2", text("bar")), "Test2: \"bar\"");
    round_trip(&ext_choice(), chosen("Test3", Value::Bool(true)), "Test3: TRUE");
}

#[test]
fn mod_sequence_of() {
    round_trip(
        &AsnType::SequenceOf(Box::new(simple_choice())),
        Value::SequenceOf(vec![chosen("Test1", Value::Integer(3))]),
        "{ Test1: 3 }",
    );
    round_trip(
        &AsnType::SequenceOf(Box::new(u8_ty())),
        Value::SequenceOf([1, 2, 3, 4, 5, 5, 3].iter().map(|n| Value::Integer(*n)).collect()),
        "{ 1, 2, 3, 4, 5, 5, 3 }",
    );
    round_trip(&AsnType::SequenceOf(Box::new(AsnType::Bool)), Value::SequenceOf(vec![]), "{ }");
}

#[test]
fn mod_set_of() {
    round_trip(
        &AsnType::SetOf(Box::new(simple_choice())),
        Value::SetOf(vec![chosen("Test1", Value::Integer(3))]),
        "{ Test1: 3 }",
    );
    round_trip(&AsnType::SetOf(Box::new(AsnType::Bool)), Value::SetOf(vec![]), "{ }");
}

#[test]
fn mod_sequence() {
    round_trip(
        &test_type_a(),
        Value::Sequence(vec![
            field("juice", Value::Integer(0)),
            field("wine", chosen("Wine", Value::Integer(4))),
            field("grappa", bits(&[true, false, false, false, false, false, false, false])),
        ]),
        "{ juice 0, wine Wine: 4, grappa '80'H }",
    );
    round_trip(
        &very_ty(),
        Value::Sequence(vec![field(
            "a",
            Value::Sequence(vec![
                field("very", Value::Sequence(vec![absent("strct")])),
                field("nested", Value::Bool(false)),
            ]),
        )]),
        "{ a { very { }, nested FALSE } }",
    );
}

#[test]
fn mod_with_identifier_annotation() {
    round_trip(
        &AsnType::Sequence(vec![ft("so-very", big_ty(), false), ft("re_named", AsnType::Bool, true)]),
        Value::Sequence(vec![field("so-very", Value::Integer(1)), field("re_named", Value::Bool(true))]),
        "{ so-very 1, re_named TRUE }",
    );
    round_trip(
        &AsnType::Choice(vec![alt("test-1", utf8())]),
        chosen("test-1", text("hel")),
        "test-1: \"hel\"",
    );
}

#[test]
fn gser_invalid_enum_discriminant() {
    let result = decode("InvalidVariant", &simple_enum());
    assert!(result.is_err());
    let err = result.unwrap_err();
    assert!(format!("{err:?}").contains("InvalidEnumDiscriminant") || format!("{err:?}").contains("InvalidVariant"));
}

#[test]
fn gser_invalid_choice_variant() {
    let result = decode("UnknownVariant: 42", &simple_choice());
    assert!(result.is_err());
    let err = result.unwrap_err();
    assert!(format!("{err:?}").contains("InvalidChoiceVariant") || format!("{err:?}").contains("UnknownVariant"));
}

#[test]
fn gser_type_mismatch_boolean() {
    assert!(decode("MAYBE", &AsnType::Bool).is_err());
}

#[test]
fn gser_type_mismatch_integer() {
    assert!(decode("not_a_number", &int_ty(i32::MIN as i128, i32::MAX as i128)).is_err());
}

#[test]
fn gser_invalid_hex_string() {
    assert!(decode("'GHIJ'H", &AsnType::OctetString).is_err());
}

#[test]
fn gser_invalid_hex_string_odd_length() {
    assert!(decode("'ABC'H", &AsnType::OctetString).is_err());
}

#[test]
fn gser_invalid_bit_string_binary() {
    assert!(decode("'1012'B", &AsnType::BitString).is_err());
}

#[test]
fn gser_malformed_sequence() {
    assert!(decode("{ juice 0, wine", &test_type_a()).is_err());
}

#[test]
fn gser_invalid_null() {
    assert!(decode("NOTHING", &AsnType::Null).is_err());
}

#[test]
fn gser_invalid_oid() {
    assert!(decode("not.an.oid.at.all", &AsnType::ObjectIdentifier).is_err());
}

#[test]
fn gser_invalid_real() {
    assert!(decode("not-a-real-number", &AsnType::Real).is_err());
}

#[test]
fn gser_bit_string_empty() {
    round_trip(&AsnType::BitString, bits(&[]), "''H");
}

#[test]
fn gser_bit_string_uicc_capability_pattern() {
    round_trip(
        &AsnType::BitString,
        bits(&[true, true, true, true, false, false, false, false]),
        "'F0'H",
    );
}

#[test]
fn gser_bit_string_non_aligned_lengths() {
    for len in [1, 2, 3, 5, 6, 7, 9, 10, 11, 13, 14, 15] {
        let b: Vec<bool> = (0..len).map(|i| i % 2 == 0).collect();
        let value = Value::BitString(b);
        let encoded = encode(&value).unwrap();
        assert!(encoded.ends_with("'B"), "Length {len} should use binary format, got: {encoded}");
        let decoded = decode(&encoded, &AsnType::BitString).unwrap();
        assert_eq!(value, decoded, "Round-trip failed for length {len}");
    }
}

#[test]
fn gser_bit_string_aligned_lengths() {
    for len in [8, 16, 24, 32] {
        let b: Vec<bool> = (0..len).map(|i| i % 2 == 0).collect();
        let value = Value::BitString(b);
        let encoded = encode(&value).unwrap();
        assert!(encoded.ends_with("'H"), "Length {len} should use hex format, got: {encoded}");
        let decoded = decode(&encoded, &AsnType::BitString).unwrap();
        assert_eq!(value, decoded, "Round-trip failed for length {len}");
    }
}

#[test]
fn gser_bit_string_long() {
    let value = Value::BitString((0..64).map(|i| i % 3 == 0).collect());
    assert_eq!(value, through(&AsnType::BitString, &value));
}

#[test]
fn gser_oid_tca_profile() {
    round_trip(&AsnType::ObjectIdentifier, oid(&[2, 23, 143, 1, 2, 1]), "2.23.143.1.2.1");
}

#[test]
fn gser_oid_itu_arc() {
    round_trip(&AsnType::ObjectIdentifier, oid(&[0, 4, 0, 127, 0, 7]), "0.4.0.127.0.7");
}

#[test]
fn gser_oid_large_arcs() {
    round_trip(
        &AsnType::ObjectIdentifier,
        oid(&[2, 16, 840, 1, 101, 3, 4, 2, 1]),
        "2.16.840.1.101.3.4.2.1",
    );
}

#[test]
fn gser_oid_iso_arc() {
    round_trip(
        &AsnType::ObjectIdentifier,
        oid(&[1, 2, 840, 113549, 1, 1, 11]),
        "1.2.840.113549.1.1.11",
    );
}

#[test]
fn gser_octet_string_empty() {
    round_trip(&AsnType::OctetString, Value::OctetString(vec![]), "''H");
}

#[test]
fn gser_octet_string_iccid() {
    round_trip(
        &AsnType::OctetString,
        Value::OctetString(vec![0x89, 0x01, 0x99, 0x90, 0x00, 0x00, 0x00, 0x12, 0x34, 0x5F]),
        "'8901999000000012345F'H",
    );
}

#[test]
fn gser_octet_string_aid() {
    round_trip(
        &AsnType::OctetString,
        Value::OctetString(vec![
            0xA0, 0x00, 0x00, 0x05, 0x59, 0x10, 0x10, 0xFF, 0xFF, 0xFF, 0xFF, 0x89, 0x00, 0x00, 0x01,
            0x00,
        ]),
        "'A0000005591010FFFFFFFF8900000100'H",
    );
}

#[test]
fn gser_octet_string_key_sizes() {
    for size in [16, 24, 32] {
        let data: Vec<u8> = (0..size).map(|i| (i * 17) as u8).collect();
        let value = Value::OctetString(data);
        assert_eq!(value, through(&AsnType::OctetString, &value), "Round-trip failed for size {size}");
    }
}

fn full_profile_header_ty() -> AsnType {
    AsnType::Sequence(vec![
        ft("major-version", u8_ty(), false),
        ft("minor-version", u8_ty(), false),
        ft("profileType", utf8(), true),
        ft("iccid", AsnType::OctetString, false),
        ft(
            "eUICC-Mandatory-GFSTEList",
            AsnType::SequenceOf(Box::new(AsnType::ObjectIdentifier)),
            false,
        ),
    ])
}

fn full_key_info_ty() -> AsnType {
    let key_component = AsnType::Sequence(vec![
        ft("keyType", u8_ty(), false),
        ft("keyData", AsnType::OctetString, false),
    ]);
    AsnType::Sequence(vec![
        ft("keyIdentifier", u8_ty(), false),
        ft("keyVersionNumber", u8_ty(), false),
        ft("keyComponents", AsnType::SequenceOf(Box::new(key_component)), false),
    ])
}

fn key_component(byte: u8) -> Value {
    Value::Sequence(vec![
        field("keyType", Value::Integer(0x88)),
        field("keyData", Value::OctetString(vec![byte; 16])),
    ])
}

fn full_key_info(id: i128, components: Vec<Value>) -> Value {
    Value::Sequence(vec![
        field("keyIdentifier", Value::Integer(id)),
        field("keyVersionNumber", Value::Integer(1)),
        field("keyComponents", Value::SequenceOf(components)),
    ])
}

#[test]
fn gser_full_profile_header_round_trip() {
    let header = Value::Sequence(vec![
        field("major-version", Value::Integer(2)),
        field("minor-version", Value::Integer(3)),
        field("profileType", text("telecom")),
        field(
            "iccid",
            Value::OctetString(vec![0x89, 0x01, 0x99, 0x90, 0x00, 0x00, 0x00, 0x12, 0x34, 0x5F]),
        ),
        field("eUICC-Mandatory-GFSTEList", Value::SequenceOf(vec![oid(&[2, 23, 143, 1, 2, 1])])),
    ]);
    assert_eq!(header, through(&full_profile_header_ty(), &header));
}

#[test]
fn gser_full_profile_header_no_optional() {
    let header = Value::Sequence(vec![
        field("major-version", Value::Integer(1)),
        field("minor-version", Value::Integer(0)),
        absent("profileType"),
        field("iccid", Value::OctetString(vec![0x89, 0x00, 0x00, 0x00, 0x00])),
        field("eUICC-Mandatory-GFSTEList", Value::SequenceOf(vec![])),
    ]);
    assert_eq!(header, through(&full_profile_header_ty(), &header));
}

#[test]
fn gser_security_domain_multiple_keys() {
    let keys = Value::SequenceOf(vec![
        full_key_info(1, vec![key_component(0x11), key_component(0x22)]),
        full_key_info(2, vec![key_component(0xAA)]),
    ]);
    assert_eq!(keys, through(&AsnType::SequenceOf(Box::new(full_key_info_ty())), &keys));
}

#[test]
fn gser_deeply_nested_optional() {
    let nested = Value::Sequence(vec![field(
        "a",
        Value::Sequence(vec![
            field("very", Value::Sequence(vec![field("strct", Value::Integer(42))])),
            absent("nested"),
        ]),
    )]);
    assert_eq!(nested, through(&very_ty(), &nested));
}

#[test]
fn gser_empty_nested() {
    let nested = Value::Sequence(vec![absent("a")]);
    assert_eq!(nested, through(&very_ty(), &nested));
}

// ----------------------------------------------------------------------------
// Beyond the scenarios above: errors, laws on concrete values, edge cases
// ----------------------------------------------------------------------------

fn kind_of(input: &str, ty: &AsnType) -> DecodeErrorKind {
    decode(input, ty).unwrap_err().kind
}

#[test]
fn gser_error_kinds() {
    assert_eq!(kind_of("", &AsnType::Bool), DecodeErrorKind::ParserFail);
    assert_eq!(kind_of("300", &u8_ty()), DecodeErrorKind::IntegerOverflow);
    assert_eq!(kind_of("3.5", &AsnType::ObjectIdentifier), DecodeErrorKind::InvalidOid);
    assert_eq!(
        kind_of("\"12a\"", &AsnType::Text(StringKind::Numeric)),
        DecodeErrorKind::StringConversionFailed { kind: StringKind::Numeric }
    );
    assert_eq!(
        kind_of("Test9", &simple_enum()),
        DecodeErrorKind::InvalidEnumDiscriminant { discriminant: s("Test9") }
    );
    assert_eq!(
        kind_of("Other: 1", &simple_choice()),
        DecodeErrorKind::InvalidChoiceVariant { variant: s("Other") }
    );
}

#[test]
fn gser_tuple_real_cannot_be_written() {
    let value = Value::Real(RealValue::Tuple { mantissa: 314, base: 10, exponent: -2 });
    let err = encode(&value).unwrap_err();
    assert_eq!(err.kind, asn1_notation::model::EncodeErrorKind::RealEncodingFailed);
    // the same value has a value notation form
    assert_eq!(avn::encode(&value).unwrap(), "{ 314, 10, -2 }");
}

#[test]
fn gser_decoder_reads_its_whole_text() {
    let mut decoder = asn1_notation::gser::de::Decoder::new(" TRUE ").unwrap();
    assert_eq!(decoder.decode_value(&AsnType::Bool).unwrap(), Value::Bool(true));
    // nothing is left for a second value
    assert!(decoder.decode_value(&AsnType::Bool).is_err());
}

#[test]
fn gser_string_with_nul_round_trips() {
    round_trip(&utf8(), text("a\u{0}b"), "\"a\u{0}b\"");
    let ty = AsnType::Sequence(vec![ft("name", utf8(), false), ft("flag", AsnType::Bool, false)]);
    let value = Value::Sequence(vec![field("name", text("x\u{0}y")), field("flag", Value::Bool(false))]);
    assert_eq!(value, through(&ty, &value));
}

#[test]
fn gser_encoder_builds_text() {
    let mut encoder = asn1_notation::avn::enc::Encoder::new_gser();
    encoder.encode_value(&Value::SequenceOf(vec![oid(&[1, 2]), Value::Null])).unwrap();
    assert_eq!(encoder.to_string(), "{ 1.2, NULL }");
}

#[test]
fn gser_string_round_trip_law() {
    for x in ["", "\"", "\"\"", "a\"b\"c", "{ , }", "tab\there"] {
        round_trip(&utf8(), text(x), &format!("\"{}\"", x.replace('"', "\"\"")));
    }
}

#[test]
fn gser_numeral_reads_back() {
    for t in ["1E0", "-2.5E-3", "12", "7.25"] {
        round_trip(&AsnType::Real, Value::Real(RealValue::Numeral(s(t))), t);
    }
}

#[test]
fn gser_required_sequence_keeps_later_components() {
    let ty = AsnType::Sequence(vec![ft("inner", struct_ty(), false), ft("flag", AsnType::Bool, false)]);
    let value = Value::Sequence(vec![
        field("inner", Value::Sequence(vec![field("strct", Value::Integer(1))])),
        field("flag", Value::Bool(true)),
    ]);
    let encoded = encode(&value).unwrap();
    assert_eq!(encoded, "{ inner { strct 1 }, flag TRUE }");
    assert_eq!(decode(&encoded, &ty).unwrap(), value);
}

#[test]
fn gser_sequence_without_closing_brace_is_refused() {
    assert!(decode("{ juice 0, wine Wine: 4", &test_type_a()).is_err());
    assert!(decode("{ juice 0", &test_type_a()).is_err());
    let list = AsnType::SequenceOf(Box::new(u8_ty()));
    assert!(decode("{ 1, 2", &list).is_err());
    assert_eq!(
        decode("{ 1, 2 }", &list).unwrap(),
        Value::SequenceOf(vec![Value::Integer(1), Value::Integer(2)])
    );
}

#[test]
fn gser_enumerated_with_digits_and_hyphens() {
    let ty = AsnType::Enumerated(vec![s("v-2_x")]);
    round_trip(&ty, Value::Enumerated(s("v-2_x")), "v-2_x");
}

fn set_ty() -> AsnType {
    let ctx = |n: u32| Tag { class: TagClass::Context, number: n };
    AsnType::SetType(vec![
        SetComponent { field: ft("a", u8_ty(), false), tag: ctx(1), extension: false },
        SetComponent { field: ft("b", AsnType::Bool, false), tag: ctx(0), extension: false },
        SetComponent { field: ft("c", AsnType::Null, true), tag: ctx(2), extension: false },
    ])
}

#[test]
fn gser_set_decodes_components_in_tag_order() {
    let value = Value::Sequence(vec![
        field("a", Value::Integer(5)),
        field("b", Value::Bool(true)),
        absent("c"),
    ]);
    assert_eq!(decode("{ b TRUE, a 5 }", &set_ty()).unwrap(), value);
    assert_eq!(through(&set_ty(), &value), value);
    // both components fail: the one with the smaller tag (b) is reported
    let err = decode("{ a 300, b 5 }", &set_ty()).unwrap_err();
    assert_eq!(err.kind, DecodeErrorKind::ParserFail);
    let err = decode("{ a 300, b TRUE }", &set_ty()).unwrap_err();
    assert_eq!(err.kind, DecodeErrorKind::IntegerOverflow);
    // as a SEQUENCE the first component's error comes first
    let seq = AsnType::Sequence(vec![ft("a", u8_ty(), false), ft("b", AsnType::Bool, false)]);
    assert_eq!(decode("{ a 300, b 5 }", &seq).unwrap_err().kind, DecodeErrorKind::IntegerOverflow);
    assert!(decode("{ a 5, b TRUE", &set_ty()).is_err());
}

fn extended_set_ty() -> AsnType {
    let ctx = |n: u32| Tag { class: TagClass::Context, number: n };
    AsnType::SetType(vec![
        SetComponent { field: ft("a", u8_ty(), false), tag: ctx(5), extension: false },
        SetComponent { field: ft("e1", AsnType::Bool, true), tag: ctx(3), extension: true },
        SetComponent { field: ft("e2", u8_ty(), true), tag: ctx(0), extension: true },
    ])
}

#[test]
fn gser_set_decodes_extension_additions_after_root_components() {
    let value = Value::Sequence(vec![
        field("a", Value::Integer(1)),
        field("e1", Value::Bool(false)),
        absent("e2"),
    ]);
    assert_eq!(decode("{ e1 FALSE, a 1 }", &extended_set_ty()).unwrap(), value);
    assert_eq!(through(&extended_set_ty(), &value), value);
    // a failed root component is reported before a failed extension with a lower tag
    let err = decode("{ a 300, e2 x }", &extended_set_ty()).unwrap_err();
    assert_eq!(err.kind, DecodeErrorKind::IntegerOverflow);
    // extensions in the order of the type, whatever their tags
    let err = decode("{ a 1, e1 x, e2 300 }", &extended_set_ty()).unwrap_err();
    assert_eq!(err.kind, DecodeErrorKind::ParserFail);
    let err = decode("{ a 1, e1 TRUE, e2 300 }", &extended_set_ty()).unwrap_err();
    assert_eq!(err.kind, DecodeErrorKind::IntegerOverflow);
}
