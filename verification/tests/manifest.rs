use apfsrelic::json::Json;
use apfsrelic::json_parse::{JsonParser, ParsedJson};
use apfsrelic::manifest::{
    is_absolute_path, parse_manifest_row, validated_relative_path, Manifest, MAX_MANIFEST_LINE,
};
use apfsrelic::options::{parse_number, Options};
use apfsrelic::text::split_at_slashes;

#[test]
fn parser_round_trips_control_paths_and_nested_fields() {
    let row = parse_manifest_row(
        r#"{"snapshot_xid":"0x2a","source_path":"/a\tb\r\n\ud83d\ude00","output_relative_path":"x\ty\r\nz","relative_path":"a/b","fsoid":"0x99","type":"file","ignored":[true,{"x":null}]}"#,
        7,
        true,
    )
    .expect("parse row");
    assert_eq!(row.snapshot_xid, 42);
    assert_eq!(row.source_path, "/a\tb\r\n😀");
    assert_eq!(row.output_relative_path, "x\ty\r\nz");
    assert_eq!(row.expected_fsoid, Some(0x99));
    assert_eq!(row.line, 7);
    assert_eq!(row.relative_path.as_deref(), Some("a/b"));
    assert_eq!(row.expected_type.as_deref(), Some("file"));
    assert_eq!(row.snapshot_name, None);
}

#[test]
fn output_path_rejects_absolute_parent_and_empty_components() {
    assert!(validated_relative_path("/absolute", "p").is_err());
    assert!(validated_relative_path("a/../b", "p").is_err());
    assert!(validated_relative_path("a//b", "p").is_err());
    assert!(validated_relative_path("a/./b", "p").is_err());
    assert!(validated_relative_path("normal/a\tb\r\n", "p").is_ok());
}

#[test]
fn rejected_paths_say_why() {
    assert_eq!(
        validated_relative_path("", "p").unwrap_err(),
        "p must be a non-empty relative leaf path without NUL"
    );
    assert!(validated_relative_path("a\0b", "p").is_err());
    assert!(validated_relative_path("a/", "p").is_err());
    assert_eq!(
        validated_relative_path("..", "p").unwrap_err(),
        "p contains an empty, `.` or `..` path component"
    );
    assert_eq!(validated_relative_path("...", "p").unwrap(), "...");
}

#[test]
fn duplicate_security_fields_are_rejected() {
    let error = parse_manifest_row(
        r#"{"snapshot_xid":1,"snapshot_xid":2,"source_path":"/a","output_relative_path":"b"}"#,
        1,
        false,
    )
    .expect_err("duplicate snapshot xid");
    assert!(error.contains("duplicate field"));
}

fn row_error(text: &str, fallback: bool) -> String {
    parse_manifest_row(text, 1, fallback).unwrap_err()
}

#[test]
fn each_fault_of_a_row_has_its_message() {
    assert_eq!(row_error("[]", false), "JSONL row must be an object");
    assert_eq!(row_error("{}", false), "missing required field `snapshot_xid`");
    assert_eq!(
        row_error(r#"{"snapshot_xid":true}"#, false),
        "field `snapshot_xid` must be an unsigned integer"
    );
    assert_eq!(
        row_error(r#"{"snapshot_xid":-1}"#, false),
        "field `snapshot_xid` is not a valid u64: `-1`"
    );
    assert_eq!(
        row_error(r#"{"snapshot_xid":18446744073709551616}"#, false),
        "field `snapshot_xid` is not a valid u64: `18446744073709551616`"
    );
    assert_eq!(
        row_error(r#"{"snapshot_xid":1,"snapshot_name":3}"#, false),
        "field `snapshot_name` must be a JSON string"
    );
    assert_eq!(
        row_error(r#"{"snapshot_xid":1,"source_path":"a"}"#, false),
        "source_path must be an absolute APFS path without NUL"
    );
    assert_eq!(
        row_error(r#"{"snapshot_xid":1,"source_path":"/a"}"#, false),
        "missing required field `output_relative_path`"
    );
    assert_eq!(
        row_error(
            r#"{"snapshot_xid":1,"source_path":"/a","output_relative_path":"b"}"#,
            true
        ),
        "--fallback-history requires relative_path in every row"
    );
    assert_eq!(
        row_error(
            r#"{"snapshot_xid":1,"source_path":"/a","output_relative_path":"b","type":"dir"}"#,
            false
        ),
        "type must be `file` or `symlink`, got `dir`"
    );
    assert_eq!(
        row_error(
            r#"{"snapshot_xid":1,"source_path":"/a","output_relative_path":"b","fsoid":"x"}"#,
            false
        ),
        "field `fsoid` is not a valid u64: `x`"
    );
}

#[test]
fn null_stands_for_an_absent_field() {
    let row = parse_manifest_row(
        r#"{"snapshot_xid":18446744073709551615,"source_path":"/a","output_relative_path":"b","fsoid":null,"type":null,"snapshot_name":null}"#,
        1,
        false,
    )
    .unwrap();
    assert_eq!(row.snapshot_xid, u64::MAX);
    assert_eq!(row.expected_fsoid, None);
    assert_eq!(row.expected_type, None);
}

#[test]
fn lines_are_numbered_and_none_is_lost() {
    let mut manifest = Manifest::new();
    manifest.take_line(
        b"{\"snapshot_xid\":1,\"source_path\":\"/a\",\"output_relative_path\":\"b\"}\r\n".to_vec(),
        false,
    );
    manifest.take_line(b" \t\r\n".to_vec(), false);
    manifest.take_line(b"\xff\n".to_vec(), false);
    manifest.take_line(b"{\n".to_vec(), false);
    manifest.take_line(
        b"{\"snapshot_xid\":2,\"source_path\":\"/c\",\"output_relative_path\":\"d\"}".to_vec(),
        false,
    );
    assert_eq!(manifest.line, 5);
    assert_eq!(manifest.rows.len(), 2);
    assert_eq!(manifest.rows[0].line, 1);
    assert_eq!(manifest.rows[1].line, 5);
    assert_eq!(manifest.invalid.len(), 2);
    assert_eq!(manifest.invalid[0].line, 3);
    assert_eq!(
        manifest.invalid[0].message,
        "row is not UTF-8 JSON: invalid utf-8 sequence of 1 bytes from index 0"
    );
    assert_eq!(manifest.invalid[1].line, 4);
}

#[test]
fn a_line_that_is_too_long_is_refused_unread() {
    let mut manifest = Manifest::new();
    manifest.take_line(vec![b' '; MAX_MANIFEST_LINE + 1], false);
    assert_eq!(manifest.invalid.len(), 1);
    assert_eq!(
        manifest.invalid[0].message,
        "JSONL row exceeds 67108864 bytes"
    );
}

#[test]
fn numbers_are_decimal_or_hexadecimal() {
    assert_eq!(parse_number("0"), Some(0));
    assert_eq!(parse_number("42"), Some(42));
    assert_eq!(parse_number("0x2a"), Some(42));
    assert_eq!(parse_number("0XFf"), Some(255));
    assert_eq!(parse_number("18446744073709551615"), Some(u64::MAX));
    assert_eq!(parse_number("0xffffffffffffffff"), Some(u64::MAX));
    assert_eq!(parse_number("18446744073709551616"), None);
    assert_eq!(parse_number("0x10000000000000000"), None);
    assert_eq!(parse_number("000000000000000000000001"), Some(1));
    assert_eq!(parse_number(""), None);
    assert_eq!(parse_number("0x"), None);
    assert_eq!(parse_number("1a"), None);
    assert_eq!(parse_number("-1"), None);
}

#[test]
fn texts_split_into_parts_and_join_again() {
    assert_eq!(split_at_slashes("a/b//c"), vec!["a", "b", "", "c"]);
    assert_eq!(split_at_slashes(""), vec![""]);
    assert_eq!(split_at_slashes("/").join("/"), "/");
    assert!(is_absolute_path("/a"));
    assert!(!is_absolute_path("a/"));
    assert!(!is_absolute_path("/a\0"));
}

fn parse(text: &str) -> Result<ParsedJson, String> {
    JsonParser::new(text).parse()
}

fn message(text: &str) -> String {
    parse(text).unwrap_err()
}

#[test]
fn json_values_are_read() {
    assert!(matches!(parse(" null ").unwrap(), ParsedJson::Null));
    assert!(matches!(parse("true").unwrap(), ParsedJson::Bool(true)));
    match parse("-12.50e+3").unwrap() {
        ParsedJson::Number(text) => assert_eq!(text, "-12.50e+3"),
        other => panic!("{other:?}"),
    }
    match parse(r#""\"\\\/\b\f\n\r\t\u00e9é""#).unwrap() {
        ParsedJson::String(text) => assert_eq!(text, "\"\\/\u{8}\u{c}\n\r\téé"),
        other => panic!("{other:?}"),
    }
    match parse(r#"{"a":[1,{}],"a":[]}"#).unwrap() {
        ParsedJson::Object(fields) => {
            assert_eq!(fields.len(), 2);
            assert_eq!(fields[0].0, "a");
            assert!(matches!(&fields[0].1, ParsedJson::Array(values) if values.len() == 2));
            assert!(matches!(&fields[1].1, ParsedJson::Array(values) if values.is_empty()));
        }
        other => panic!("{other:?}"),
    }
}

#[test]
fn json_faults_are_located() {
    assert_eq!(message(""), "unexpected end of JSON");
    assert_eq!(message("nul"), "invalid JSON literal at byte 0");
    assert_eq!(message("1 2"), "trailing JSON data at byte 2");
    assert_eq!(message("?"), "unexpected byte 0x3f at JSON offset 0");
    assert_eq!(message("01"), "JSON number has a leading zero");
    assert_eq!(message("-"), "invalid JSON number");
    assert_eq!(message("1."), "JSON fraction has no digits");
    assert_eq!(message("1e"), "JSON exponent has no digits");
    assert_eq!(message("\"a"), "unterminated JSON string");
    assert_eq!(message("\"\\"), "unterminated JSON escape");
    assert_eq!(message("\"\\q\""), "invalid JSON escape `\\q`");
    assert_eq!(message("\"\u{1}\""), "unescaped control byte in JSON string");
    assert_eq!(message(r#""\u12""#), "non-hex digit in JSON Unicode escape");
    assert_eq!(message(r#""\udc00""#), "lone low surrogate in JSON string");
    assert_eq!(
        message(r#""\ud800\u0041""#),
        "invalid low surrogate in JSON string"
    );
    assert_eq!(message("[1"), "expected byte 0x2c at JSON offset 2");
    assert_eq!(message("{1"), "expected byte 0x22 at JSON offset 1");
    assert_eq!(message("{\"a\" 1}"), "expected byte 0x3a at JSON offset 5");
}

#[test]
fn json_nesting_is_bounded() {
    let deep = |n: usize| format!("{}{}", "[".repeat(n), "]".repeat(n));
    assert!(parse(&deep(128)).is_ok());
    assert_eq!(message(&deep(130)), "JSON nesting is too deep");
}

#[test]
fn options_start_empty() {
    let opts = Options::default();
    assert!(opts.path.is_none() && opts.fsoid.is_none() && !opts.overwrite && !opts.best_effort);
}

#[test]
fn written_json_is_read_back() {
    let text = "tab\t quote\" back\\ nul\0 é😀\u{1f}\u{7f}/";
    let value = Json::Object(vec![
        (text.to_string(), Json::Str(text.to_string())),
        (
            "list".to_string(),
            Json::Array(vec![
                Json::Null,
                Json::Bool(false),
                Json::UInt(u64::MAX),
                Json::Int(i64::MIN),
                Json::Int(0),
                Json::Array(Vec::new()),
                Json::Object(Vec::new()),
            ]),
        ),
    ]);
    let written = value.to_compact_string();
    let ParsedJson::Object(fields) = JsonParser::new(&written).parse().unwrap() else {
        panic!("not an object");
    };
    assert_eq!(fields.len(), 2);
    assert_eq!(fields[0].0, text);
    assert!(matches!(&fields[0].1, ParsedJson::String(s) if s == text));
    let ParsedJson::Array(items) = &fields[1].1 else {
        panic!("not an array");
    };
    assert_eq!(items.len(), 7);
    assert!(matches!(items[0], ParsedJson::Null));
    assert!(matches!(items[1], ParsedJson::Bool(false)));
    assert!(matches!(&items[2], ParsedJson::Number(n) if n == "18446744073709551615"));
    assert!(matches!(&items[3], ParsedJson::Number(n) if n == "-9223372036854775808"));
    assert!(matches!(&items[4], ParsedJson::Number(n) if n == "0"));
    assert!(matches!(&items[5], ParsedJson::Array(v) if v.is_empty()));
    assert!(matches!(&items[6], ParsedJson::Object(v) if v.is_empty()));
}
