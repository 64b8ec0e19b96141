use flowgger::config::{Config, ConfigError, ConfigValue};
use flowgger::ltsv_encoder::{LTSVEncoder, LTSVString};
use flowgger::record::{Record, SDValue, StructuredData};
use flowgger::text::{escape_string, i64_to_string, u64_to_string};

#[test]
fn test_ltsv_encoder() {
    let expected_msg =
        "a_key:bar\tappname:appname\tfull_message:Backtrace   here with more\thost:example.org\tlevel:1\tmessage:A short message\tmsgid:msg_id\tprocid:44\tsome_info:foo\ttime:1385053862.3072";
    let config = Config {
        entries: vec![(
            "output.ltsv_extra".to_string(),
            ConfigValue::Table(vec![("a_key".to_string(), ConfigValue::Str("bar".to_string()))]),
        )],
    };
    let sd = StructuredData {
        sd_id: Some("someid".to_string()),
        pairs: vec![("some_info".to_string(), SDValue::String("foo".to_string()))],
    };
    let record = Record {
        ts: "1385053862.3072".to_string(),
        hostname: "example.org".to_string(),
        facility: None,
        severity: Some(1),
        appname: Some("appname".to_string()),
        procid: Some("44".to_string()),
        msgid: Some("msg_id".to_string()),
        msg: Some("A short message".to_string()),
        full_msg: Some("Backtrace\n\n here\nwith more".to_string()),
        sd: Some(sd),
    };
    let encoder = LTSVEncoder::new(&config).unwrap();
    assert_eq!(
        String::from_utf8_lossy(&encoder.encode(record).unwrap()),
        expected_msg
    );
}

#[test]
fn test_ltsv_encoder_replace_extra() {
    let expected_msg =
        "host:example.org\tlevel:1\tmessage:A short message\tsome_info:bar\ttime:1385053862.3072";
    let config = Config {
        entries: vec![(
            "output.ltsv_extra".to_string(),
            ConfigValue::Table(vec![(
                "_some_info".to_string(),
                ConfigValue::Str("bar".to_string()),
            )]),
        )],
    };
    let sd = StructuredData {
        sd_id: Some("someid".to_string()),
        pairs: vec![("_some_info".to_string(), SDValue::String("foo".to_string()))],
    };
    let record = Record {
        ts: "1385053862.3072".to_string(),
        hostname: "example.org".to_string(),
        facility: None,
        severity: Some(1),
        appname: None,
        procid: None,
        msgid: None,
        msg: Some("A short message".to_string()),
        full_msg: None,
        sd: Some(sd),
    };
    let encoder = LTSVEncoder::new(&config).unwrap();
    assert_eq!(
        String::from_utf8_lossy(&encoder.encode(record).unwrap()),
        expected_msg
    );
}

#[test]
fn test_ltsv_encoder_config_extra_should_be_section() {
    let config = Config {
        entries: vec![(
            "output.ltsv_extra".to_string(),
            ConfigValue::Str("bar".to_string()),
        )],
    };
    assert!(matches!(
        LTSVEncoder::new(&config),
        Err(ConfigError::ExtraFieldsNotTable)
    ));
}

#[test]
fn test_ltsv_encoder_config_extra_bad_type() {
    let config = Config {
        entries: vec![(
            "output.ltsv_extra".to_string(),
            ConfigValue::Table(vec![("_some_info".to_string(), ConfigValue::Int(42))]),
        )],
    };
    assert!(matches!(
        LTSVEncoder::new(&config),
        Err(ConfigError::ExtraFieldValueNotString)
    ));
}

#[test]
fn test_ltsv_encoder_trimmed_record_example() {
    // The field set is trimmed to only the present optional fields.
    let expected_msg =
        "a_key:bar\thost:example.org\tlevel:1\tmessage:A short message\tsome_info:foo\ttime:1385053862.3072";
    let config = Config {
        entries: vec![(
            "output.ltsv_extra".to_string(),
            ConfigValue::Table(vec![("a_key".to_string(), ConfigValue::Str("bar".to_string()))]),
        )],
    };
    let sd = StructuredData {
        sd_id: None,
        pairs: vec![("some_info".to_string(), SDValue::String("foo".to_string()))],
    };
    let record = Record {
        ts: "1385053862.3072".to_string(),
        hostname: "example.org".to_string(),
        facility: None,
        severity: Some(1),
        appname: None,
        procid: None,
        msgid: None,
        msg: Some("A short message".to_string()),
        full_msg: None,
        sd: Some(sd),
    };
    let encoder = LTSVEncoder::new(&config).unwrap();
    assert_eq!(
        String::from_utf8_lossy(&encoder.encode(record).unwrap()),
        expected_msg
    );
}

#[test]
fn test_ltsv_encoder_no_extra_entry() {
    let config = Config { entries: vec![] };
    let encoder = LTSVEncoder::new(&config).unwrap();
    let record = Record {
        ts: "1.5".to_string(),
        hostname: "h".to_string(),
        facility: None,
        severity: None,
        appname: None,
        procid: None,
        msgid: None,
        msg: None,
        full_msg: None,
        sd: None,
    };
    assert_eq!(
        String::from_utf8_lossy(&encoder.encode(record).unwrap()),
        "host:h\ttime:1.5"
    );
}

#[test]
fn test_ltsv_encoder_fixed_keys_win() {
    // A structured-data name `_host` and an extra field `host` both
    // collide with the fixed key after stripping; the fixed key wins.
    let config = Config {
        entries: vec![(
            "output.ltsv_extra".to_string(),
            ConfigValue::Table(vec![(
                "host".to_string(),
                ConfigValue::Str("from-extra".to_string()),
            )]),
        )],
    };
    let sd = StructuredData {
        sd_id: None,
        pairs: vec![(
            "_host".to_string(),
            SDValue::String("from-sd".to_string()),
        )],
    };
    let record = Record {
        ts: "2.25".to_string(),
        hostname: "real.example".to_string(),
        facility: None,
        severity: None,
        appname: None,
        procid: None,
        msgid: None,
        msg: None,
        full_msg: None,
        sd: Some(sd),
    };
    let encoder = LTSVEncoder::new(&config).unwrap();
    assert_eq!(
        String::from_utf8_lossy(&encoder.encode(record).unwrap()),
        "host:real.example\ttime:2.25"
    );
}

#[test]
fn test_ltsv_encoder_value_kinds() {
    let config = Config { entries: vec![] };
    let sd = StructuredData {
        sd_id: None,
        pairs: vec![
            ("b".to_string(), SDValue::Bool(true)),
            ("f".to_string(), SDValue::F64("1.25".to_string())),
            ("i".to_string(), SDValue::I64(-7)),
            ("u".to_string(), SDValue::U64(12)),
            ("n".to_string(), SDValue::Null),
        ],
    };
    let record = Record {
        ts: "3".to_string(),
        hostname: "h".to_string(),
        facility: Some(4),
        severity: Some(7),
        appname: None,
        procid: None,
        msgid: None,
        msg: None,
        full_msg: None,
        sd: Some(sd),
    };
    let encoder = LTSVEncoder::new(&config).unwrap();
    assert_eq!(
        String::from_utf8_lossy(&encoder.encode(record).unwrap()),
        "b:true\tf:1.25\tfacility:4\thost:h\ti:-7\tlevel:7\tn:\ttime:3\tu:12"
    );
}

#[test]
fn test_config_lookup() {
    let config = Config {
        entries: vec![
            ("a.b".to_string(), ConfigValue::Int(1)),
            ("a.c".to_string(), ConfigValue::Int(2)),
        ],
    };
    assert!(matches!(config.lookup("a.b"), Some(ConfigValue::Int(1))));
    assert!(matches!(config.lookup("a.c"), Some(ConfigValue::Int(2))));
    assert!(config.lookup("a.d").is_none());
    assert!(config.lookup("").is_none());
}

fn bare_record(ts: &str, hostname: &str) -> Record {
    Record {
        ts: ts.to_string(),
        hostname: hostname.to_string(),
        facility: None,
        severity: None,
        appname: None,
        procid: None,
        msgid: None,
        msg: None,
        full_msg: None,
        sd: None,
    }
}

#[test]
fn test_encode_all_keeps_order_and_skips_failed_decodes() {
    let encoder = LTSVEncoder::new(&Config { entries: vec![] }).unwrap();
    let frames = vec![
        Some(bare_record("1", "a")),
        None,
        Some(bare_record("2", "b")),
    ];
    let out = encoder.encode_all(frames);
    assert_eq!(out.len(), 2);
    assert_eq!(String::from_utf8_lossy(&out[0]), "host:a\ttime:1");
    assert_eq!(String::from_utf8_lossy(&out[1]), "host:b\ttime:2");
}

#[test]
fn test_escape_string_clean_text_unchanged() {
    assert_eq!(escape_string("already clean"), "already clean");
    // Idempotence: escaping escaped text changes nothing.
    let once = escape_string("a:b\tc\nd");
    assert_eq!(once, "a_b c d");
    assert_eq!(escape_string(&once), once);
}

#[test]
fn test_ltsv_string_sorted_and_overwrites() {
    let mut s = LTSVString::new();
    s.insert("zebra", "1");
    s.insert("alpha", "2");
    s.insert("middle", "3");
    s.insert("alpha", "4");
    assert_eq!(s.finalize(), "alpha:4\tmiddle:3\tzebra:1");
}

#[test]
fn test_ltsv_string_escapes_keys_and_values() {
    let mut s = LTSVString::new();
    s.insert("a:key", "v\tal\nue");
    assert_eq!(s.finalize(), "a_key:v al ue");
}

#[test]
fn test_integer_rendering() {
    assert_eq!(u64_to_string(0), "0");
    assert_eq!(u64_to_string(u64::MAX), "18446744073709551615");
    assert_eq!(i64_to_string(0), "0");
    assert_eq!(i64_to_string(-1), "-1");
    assert_eq!(i64_to_string(i64::MIN), "-9223372036854775808");
    assert_eq!(i64_to_string(i64::MAX), "9223372036854775807");
}
