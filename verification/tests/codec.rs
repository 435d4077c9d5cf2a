use credlock::codec::{decode, encode_to_json, encode_to_json_pretty, Credentials};

#[test]
fn credentials_serialize_as_expected() {
    let c = Credentials {
        version: 1,
        access_key_id: "key".into(),
        secret_access_key: "secret".into(),
        session_token: None,
        expiration: None,
    };
    assert_eq!(
        encode_to_json(&c),
        r#"{"Version":1,"AccessKeyId":"key","SecretAccessKey":"secret"}"#
    );
}

#[test]
fn serialize_pretty_as_expected() {
    let c = Credentials {
        version: 1,
        access_key_id: "key".into(),
        secret_access_key: "secret".into(),
        session_token: None,
        expiration: None,
    };
    assert_eq!(
        encode_to_json_pretty(&c),
        "{\n  \"Version\": 1,\n  \"AccessKeyId\": \"key\",\n  \"SecretAccessKey\": \"secret\"\n}"
    );
}

#[test]
fn serialize_with_optional_fields_present() {
    let c = Credentials {
        version: 1,
        access_key_id: "k".into(),
        secret_access_key: "s".into(),
        session_token: Some("tok".into()),
        expiration: Some("2030-01-01T00:00:00Z".into()),
    };
    assert_eq!(
        encode_to_json(&c),
        r#"{"Version":1,"AccessKeyId":"k","SecretAccessKey":"s","SessionToken":"tok","Expiration":"2030-01-01T00:00:00Z"}"#
    );
}

#[test]
fn optional_markers_appear_exactly_when_present() {
    let bare = Credentials {
        version: 1,
        access_key_id: "k".into(),
        secret_access_key: "s".into(),
        session_token: None,
        expiration: None,
    };
    let with_token = Credentials {
        version: 1,
        access_key_id: "k".into(),
        secret_access_key: "s".into(),
        session_token: Some("t".into()),
        expiration: None,
    };
    for text in [encode_to_json(&bare), encode_to_json_pretty(&bare)] {
        assert!(!text.contains("SessionToken"));
        assert!(!text.contains("Expiration"));
    }
    for text in [encode_to_json(&with_token), encode_to_json_pretty(&with_token)] {
        assert!(text.contains("SessionToken"));
        assert!(!text.contains("Expiration"));
    }
}

#[test]
fn serialize_escapes_string_values() {
    let c = Credentials {
        version: 1,
        access_key_id: "a\"b\\c\nd".into(),
        secret_access_key: "x\u{1}y\tz".into(),
        session_token: None,
        expiration: None,
    };
    assert_eq!(
        encode_to_json(&c),
        "{\"Version\":1,\"AccessKeyId\":\"a\\\"b\\\\c\\nd\",\"SecretAccessKey\":\"x\\u0001y\\tz\"}"
    );
}

#[test]
fn decode_defaults_missing_attributes_to_empty() {
    let c = decode(None, None);
    assert_eq!(c.version, 1);
    assert_eq!(c.access_key_id, "");
    assert_eq!(c.secret_access_key, "");
    assert!(c.session_token.is_none());
    assert!(c.expiration.is_none());
    assert_eq!(
        encode_to_json(&c),
        r#"{"Version":1,"AccessKeyId":"","SecretAccessKey":""}"#
    );
}

#[test]
fn decode_then_encode_round_trip() {
    let c = decode(Some("AKIAEXAMPLE".into()), Some("s3cr3t-text".into()));
    assert_eq!(c.access_key_id, "AKIAEXAMPLE");
    assert_eq!(c.secret_access_key, "s3cr3t-text");
    let text = encode_to_json(&c);
    assert!(text.contains("\"AccessKeyId\":\"AKIAEXAMPLE\""));
    assert!(text.contains("\"SecretAccessKey\":\"s3cr3t-text\""));
    assert!(!text.contains("SessionToken"));
    assert!(!text.contains("Expiration"));
}

#[test]
fn serialize_three_digit_version() {
    let c = Credentials {
        version: 255,
        access_key_id: "k".into(),
        secret_access_key: "s".into(),
        session_token: None,
        expiration: None,
    };
    assert_eq!(
        encode_to_json(&c),
        r#"{"Version":255,"AccessKeyId":"k","SecretAccessKey":"s"}"#
    );
}
