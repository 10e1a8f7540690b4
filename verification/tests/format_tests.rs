use eci::component::DataValue;
use eci::format::{Json, JsonString};

fn roundtrip(v: DataValue) {
    let serialized = Json::serialize(&v);
    let deserialized = Json::deserialize(&serialized).unwrap();
    assert_eq!(deserialized, v);
}

#[test]
fn test_roundtrip() {
    let component = DataValue::Text("Hello world!".to_string());

    let serialized = Json::serialize(&component);
    let deserialized: DataValue = Json::deserialize(&serialized).unwrap();

    assert_eq!(deserialized, component);
}

#[test]
fn roundtrip_integers() {
    roundtrip(DataValue::Int(0));
    roundtrip(DataValue::Int(7));
    roundtrip(DataValue::Int(10));
    roundtrip(DataValue::Int(u64::MAX));
}

#[test]
fn roundtrip_texts() {
    roundtrip(DataValue::Text(String::new()));
    roundtrip(DataValue::Text("plain".to_string()));
    roundtrip(DataValue::Text("with \"quotes\" inside".to_string()));
    roundtrip(DataValue::Text("back\\slash and \\\" both".to_string()));
    roundtrip(DataValue::Text("1234".to_string()));
}

#[test]
fn exact_encodings() {
    assert_eq!(Json::serialize(&DataValue::Int(42)).0, "42");
    assert_eq!(Json::serialize(&DataValue::Int(0)).0, "0");
    assert_eq!(
        Json::serialize(&DataValue::Text("Hello".to_string())).0,
        "\"Hello\""
    );
    assert_eq!(
        Json::serialize(&DataValue::Text("a\"b\\c".to_string())).0,
        "\"a\\\"b\\\\c\""
    );
    assert_eq!(Json::serialize(&DataValue::Text(String::new())).0, "\"\"");
}

#[test]
fn exact_decodings() {
    assert_eq!(
        Json::deserialize(&JsonString("\"a\\\"b\\\\c\"".to_string())).unwrap(),
        DataValue::Text("a\"b\\c".to_string())
    );
    // Leading zeros still denote the number they spell.
    assert_eq!(
        Json::deserialize(&JsonString("007".to_string())).unwrap(),
        DataValue::Int(7)
    );
}

#[test]
fn malformed_payloads_are_serialization_errors() {
    let bad = [
        "",                       // empty
        "abc",                    // not a number, not quoted
        "\"unterminated",         // missing closing quote
        "\"bad\\x\"",             // invalid escape
        "\"trailing\\\"",         // the escape swallows the closing quote
        "\"a\"b\"",               // a bare quote inside
        "12a34",                  // digits interrupted
        "99999999999999999999",   // larger than any representable integer
        "\"",                     // a lone quote
    ];
    for s in bad {
        let err = Json::deserialize(&JsonString(s.to_string())).unwrap_err();
        assert!(matches!(err, eci::access::AccessError::Serialization(_)));
    }
}

#[test]
fn largest_integer_still_fits() {
    assert_eq!(
        Json::deserialize(&JsonString("18446744073709551615".to_string())).unwrap(),
        DataValue::Int(u64::MAX)
    );
    Json::deserialize(&JsonString("18446744073709551616".to_string())).unwrap_err();
}
