use logstash_rs::json::{push_json_string, unescape};
use logstash_rs::time::{parse_iso, push_iso, MAX_EPOCH_MS};
use logstash_rs::record::{serializable_records, serialize_checked};
use logstash_rs::{serialize, serialize_batch, FieldMap, JsonValue, Level, LogStashRecord};

fn record(level: Level, target: &str, message: &str) -> LogStashRecord {
    let mut r = LogStashRecord::from_record(
        None,
        None,
        None,
        level,
        target.to_string(),
        message.to_string(),
    );
    r.set_timestamp(0);
    r
}

fn iso(ms: u64) -> String {
    let mut out = Vec::new();
    push_iso(&mut out, ms);
    String::from_utf8(out).unwrap()
}

#[test]
fn serializes_minimal_record_exactly() {
    let r = record(Level::Info, "app", "hi");
    let line = String::from_utf8(serialize(&r)).unwrap();
    assert_eq!(
        line,
        "{\"@timestamp\":\"1970-01-01T00:00:00.000Z\",\"module\":null,\"file\":null,\
         \"line\":null,\"level\":\"INFO\",\"target\":\"app\",\"message\":\"hi\"}\n"
    );
}

#[test]
fn serializes_source_location_and_level_names() {
    let mut r = LogStashRecord::from_record(
        Some("my_mod".to_string()),
        Some("src/main.rs".to_string()),
        Some(42),
        Level::Error,
        "app".to_string(),
        "boom".to_string(),
    );
    r.set_timestamp(1_614_556_800_123);
    let line = String::from_utf8(serialize(&r)).unwrap();
    assert_eq!(
        line,
        "{\"@timestamp\":\"2021-03-01T00:00:00.123Z\",\"module\":\"my_mod\",\
         \"file\":\"src/main.rs\",\"line\":42,\"level\":\"ERROR\",\"target\":\"app\",\
         \"message\":\"boom\"}\n"
    );
}

#[test]
fn batch_concatenates_lines_without_separators() {
    let a = record(Level::Info, "t", "one");
    let b = record(Level::Warn, "t", "two");
    let la = serialize(&a);
    let lb = serialize(&b);
    let batch = serialize_batch(&vec![a, b]);
    let mut expected = la.clone();
    expected.extend_from_slice(&lb);
    assert_eq!(batch, expected);
    assert_eq!(batch.iter().filter(|&&c| c == b'\n').count(), 2);
}

#[test]
fn empty_batch_serializes_to_nothing() {
    let batch = serialize_batch(&vec![]);
    assert!(batch.is_empty());
}

#[test]
fn escapes_quotes_backslashes_and_control_characters() {
    let r = record(Level::Info, "app", "say \"hi\"\\\n\tdone");
    let line = String::from_utf8(serialize(&r)).unwrap();
    assert!(line.contains("say \\\"hi\\\"\\\\\\u000a\\u0009done"));
    let v: serde_json::Value = serde_json::from_slice(&serialize(&r)).unwrap();
    assert_eq!(v["message"].as_str(), Some("say \"hi\"\\\n\tdone"));
}

#[test]
fn escapes_non_ascii_as_unicode_escapes() {
    let r = record(Level::Info, "app", "héllo \u{1F600}");
    let bytes = serialize(&r);
    assert!(bytes.iter().all(|&b| b < 0x80), "output must be pure ASCII");
    let v: serde_json::Value = serde_json::from_slice(&bytes).unwrap();
    assert_eq!(v["message"].as_str(), Some("héllo \u{1F600}"));
}

#[test]
fn round_trips_record_through_json() {
    let mut r = LogStashRecord::from_record(
        Some("m".to_string()),
        Some("f.rs".to_string()),
        Some(7),
        Level::Debug,
        "svc".to_string(),
        "payload".to_string(),
    );
    r.set_timestamp(1_700_000_000_456);
    r.add_data("count", JsonValue::UInt(3));
    r.add_data("delta", JsonValue::Int(-5));
    r.add_data("ok", JsonValue::Bool(true));
    r.add_data("nothing", JsonValue::Null);
    r.add_data(
        "tags",
        JsonValue::Arr(vec![
            JsonValue::Str("a".to_string()),
            JsonValue::Obj(vec![("k".to_string(), JsonValue::UInt(1))]),
        ]),
    );
    let bytes = serialize(&r);
    let v: serde_json::Value = serde_json::from_slice(&bytes).unwrap();
    assert_eq!(v["module"].as_str(), Some("m"));
    assert_eq!(v["file"].as_str(), Some("f.rs"));
    assert_eq!(v["line"].as_u64(), Some(7));
    assert_eq!(v["level"].as_str(), Some("DEBUG"));
    assert_eq!(v["target"].as_str(), Some("svc"));
    assert_eq!(v["message"].as_str(), Some("payload"));
    assert_eq!(v["count"].as_u64(), Some(3));
    assert_eq!(v["delta"].as_i64(), Some(-5));
    assert_eq!(v["ok"].as_bool(), Some(true));
    assert!(v["nothing"].is_null());
    assert_eq!(v["tags"][0].as_str(), Some("a"));
    assert_eq!(v["tags"][1]["k"].as_u64(), Some(1));
    // the timestamp survives to millisecond precision
    let ts = v["@timestamp"].as_str().unwrap();
    assert_eq!(parse_iso(ts.as_bytes()), Some(1_700_000_000_456));
}

#[test]
fn timestamp_format_matches_reference_rendering() {
    for ms in [
        0u64,
        1u64,
        999u64,
        86_399_999u64,
        86_400_000u64,
        951_782_400_000u64,
        1_078_099_199_999u64,
        1_614_556_800_123u64,
        4_102_444_800_000u64,
        MAX_EPOCH_MS,
    ] {
        let expected = chrono::DateTime::from_timestamp_millis(ms as i64)
            .unwrap()
            .to_rfc3339_opts(chrono::SecondsFormat::Millis, true);
        assert_eq!(iso(ms), expected, "at {} ms", ms);
    }
}

#[test]
fn timestamp_round_trips_to_millisecond_precision() {
    for ms in [0u64, 123, 86_400_000, 1_700_000_000_456, MAX_EPOCH_MS] {
        assert_eq!(parse_iso(iso(ms).as_bytes()), Some(ms));
    }
}

#[test]
fn rejects_malformed_timestamps() {
    assert_eq!(parse_iso(b"2021-03-01T00:00:00.123"), None);
    assert_eq!(parse_iso(b"2021-03-01 00:00:00.123Z"), None);
    assert_eq!(parse_iso(b"2021-13-01T00:00:00.123Z"), None);
    assert_eq!(parse_iso(b"2021-02-30T00:00:00.123Z"), None);
    assert_eq!(parse_iso(b"2021-03-01T24:00:00.123Z"), None);
    assert_eq!(parse_iso(b"1969-12-31T23:59:59.999Z"), None);
    assert_eq!(parse_iso(b""), None);
}

#[test]
fn leap_years_have_their_day() {
    assert_eq!(parse_iso(b"2024-02-29T12:00:00.000Z"), Some(1_709_208_000_000));
    assert_eq!(parse_iso(b"2023-02-29T12:00:00.000Z"), None);
    assert_eq!(parse_iso(b"2000-02-29T00:00:00.000Z"), Some(951_782_400_000));
    assert_eq!(parse_iso(b"1900-02-29T00:00:00.000Z"), None);
}

#[test]
fn set_timestamp_clamps_to_supported_range() {
    let mut r = record(Level::Info, "t", "m");
    r.set_timestamp(u64::MAX);
    assert_eq!(r.timestamp_ms, MAX_EPOCH_MS);
    r.set_timestamp(5);
    assert_eq!(r.timestamp_ms, 5);
}

#[test]
fn add_data_replaces_in_place_and_keeps_order() {
    let mut r = record(Level::Info, "t", "m");
    r.add_data("a", JsonValue::UInt(1));
    r.add_data("b", JsonValue::UInt(2));
    r.add_data("a", JsonValue::UInt(9));
    let keys: Vec<&str> = r.fields.entries.iter().map(|e| e.0.as_str()).collect();
    assert_eq!(keys, vec!["message", "a", "b"]);
    match r.fields.get("a") {
        Some(JsonValue::UInt(9)) => {},
        other => panic!("unexpected value for a: {:?}", other.is_some()),
    }
}

#[test]
fn add_metadata_prefixes_the_key() {
    let mut r = record(Level::Info, "t", "m");
    r.add_metadata("beat", JsonValue::Str("x".to_string()));
    assert!(r.fields.get("@metadata.beat").is_some());
    assert!(r.fields.get("beat").is_none());
}

#[test]
fn extra_fields_win_on_collision() {
    let r = record(Level::Info, "t", "m");
    let mut extra = FieldMap::new();
    extra.insert("message".to_string(), JsonValue::Str("other".to_string()));
    extra.insert("env".to_string(), JsonValue::Str("prod".to_string()));
    let r = r.with_data_from_map(extra);
    match r.fields.get("message") {
        Some(JsonValue::Str(s)) => assert_eq!(s, "other"),
        _ => panic!("message not replaced"),
    }
    match r.fields.get("env") {
        Some(JsonValue::Str(s)) => assert_eq!(s, "prod"),
        _ => panic!("env not added"),
    }
    // the replaced key keeps its place
    assert_eq!(r.fields.entries[0].0, "message");
}

#[test]
fn integer_fields_keep_their_extremes() {
    let mut r = record(Level::Info, "t", "m");
    r.add_data("min", JsonValue::Int(i64::MIN));
    r.add_data("max", JsonValue::Int(i64::MAX));
    r.add_data("umax", JsonValue::UInt(u64::MAX));
    r.add_data("zero", JsonValue::UInt(0));
    let line = String::from_utf8(serialize(&r)).unwrap();
    assert!(line.contains("\"min\":-9223372036854775808"));
    assert!(line.contains("\"max\":9223372036854775807"));
    assert!(line.contains("\"umax\":18446744073709551615"));
    assert!(line.contains("\"zero\":0"));
    let v: serde_json::Value = serde_json::from_slice(&serialize(&r)).unwrap();
    assert_eq!(v["min"].as_i64(), Some(i64::MIN));
    assert_eq!(v["max"].as_i64(), Some(i64::MAX));
    assert_eq!(v["umax"].as_u64(), Some(u64::MAX));
}

#[test]
fn a_field_map_copy_serves_many_records() {
    let mut extra = FieldMap::new();
    extra.insert("env".to_string(), JsonValue::Str("prod".to_string()));
    let a = record(Level::Info, "t", "a").with_data_from_map(extra.duplicate());
    let b = record(Level::Info, "t", "b").with_data_from_map(extra);
    for r in [a, b] {
        match r.fields.get("env") {
            Some(JsonValue::Str(s)) => assert_eq!(s, "prod"),
            _ => panic!("env missing"),
        }
    }
}

#[test]
fn escaping_round_trips_for_every_kind_of_character() {
    for text in [
        "plain ascii",
        "quotes \" and backslashes \\",
        "controls \u{0}\u{1f}\t\r\n",
        "latin-1 caf\u{e9}, BMP \u{4e2d}\u{6587}, astral \u{1F600}\u{10FFFF}",
        "",
        "\u{7f}",
    ] {
        let mut buf = Vec::new();
        push_json_string(&mut buf, text);
        assert_eq!(buf[0], b'"');
        assert_eq!(buf[buf.len() - 1], b'"');
        let inner = &buf[1..buf.len() - 1];
        let chars = unescape(inner).expect("escaped text must read back");
        let back: String = chars.into_iter().collect();
        assert_eq!(back, text);
    }
}

#[test]
fn unescape_rejects_what_the_library_never_writes() {
    assert!(unescape(b"\\x41").is_none(), "unknown escape");
    assert!(unescape(b"\\").is_none(), "dangling backslash");
    assert!(unescape(b"\\u12").is_none(), "short escape");
    assert!(unescape(b"\\uD800x").is_none(), "upper-case hex is not written");
    assert!(unescape(b"\\ud800\\u0061").is_none(), "lone high surrogate");
    assert!(unescape(b"\\udc00").is_none(), "lone low surrogate");
    assert!(unescape(b"raw\ttab").is_none(), "raw control byte");
    assert!(unescape(b"a\"b").is_none(), "raw quote");
    assert!(unescape(&[0x80]).is_none(), "raw non-ascii byte");
}

#[test]
fn timestamp_sits_at_a_fixed_place_in_the_line() {
    let mut r = record(Level::Info, "t", "m");
    r.set_timestamp(1_700_000_000_456);
    let bytes = serialize(&r);
    assert_eq!(parse_iso(&bytes[15..39]), Some(1_700_000_000_456));
}

#[test]
fn checked_serialization_accepts_well_formed_records() {
    let r = record(Level::Info, "t", "m");
    let bytes = serialize_checked(&r).expect("well-formed record must serialize");
    assert_eq!(bytes, serialize(&r));
}

#[test]
fn batch_split_keeps_serializable_records_in_order() {
    let batch = vec![
        record(Level::Info, "t", "a"),
        record(Level::Info, "t", "b"),
        record(Level::Info, "t", "c"),
    ];
    let (kept, dropped) = serializable_records(batch);
    assert_eq!(dropped, 0);
    let msgs: Vec<String> = kept
        .iter()
        .map(|r| match r.fields.get("message") {
            Some(JsonValue::Str(s)) => s.clone(),
            _ => panic!("missing message"),
        })
        .collect();
    assert_eq!(msgs, vec!["a", "b", "c"]);
}

#[test]
fn levels_are_ordered_by_severity() {
    assert!(Level::Error.rank() > Level::Warn.rank());
    assert!(Level::Warn.rank() > Level::Info.rank());
    assert!(Level::Info.rank() > Level::Debug.rank());
    assert!(Level::Debug.rank() > Level::Trace.rank());
    assert!(Level::Warn.at_least(Level::Warn));
    assert!(!Level::Info.at_least(Level::Warn));
}
