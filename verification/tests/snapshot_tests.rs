use std::collections::BTreeMap;
use std::collections::HashMap;

use data_dealer::snapshot::encode_snapshot;
use data_dealer::snapshot::load_state;
use data_dealer::snapshot::parse_snapshot;
use data_dealer::state::Entry;

fn entry(key: &str, value: &str) -> Entry {
    Entry { key: String::from(key), value: String::from(value) }
}

#[test]
fn encode_empty_snapshot() {
    let entries: Vec<Entry> = vec![];
    assert_eq!(encode_snapshot(&entries), "{}");
}

#[test]
fn encode_two_entries() {
    let entries = vec![entry("a", "1"), entry("b", "2")];
    assert_eq!(encode_snapshot(&entries), "{\"a\":\"1\",\"b\":\"2\"}");
}

#[test]
fn encode_escapes_special_characters() {
    let entries = vec![entry("qu\"ote", "back\\slash"), entry("line\nbreak", "tab\there")];
    assert_eq!(
        encode_snapshot(&entries),
        "{\"qu\\\"ote\":\"back\\\\slash\",\"line\\nbreak\":\"tab\\there\"}"
    );
}

#[test]
fn parse_simple_snapshot() {
    let parsed = parse_snapshot("{\"a\":\"1\",\"b\":\"2\"}").unwrap();
    assert_eq!(parsed, vec![entry("a", "1"), entry("b", "2")]);
}

#[test]
fn parse_empty_snapshot() {
    assert_eq!(parse_snapshot("{}").unwrap(), vec![]);
}

#[test]
fn round_trip_reproduces_entries() {
    let entries = vec![
        entry("plain", "value"),
        entry("qu\"ote", "back\\slash"),
        entry("line\nbreak", "tab\tand\rreturn"),
        entry("unicode \u{263a}", "caf\u{e9}"),
        entry("", "empty key is fine at the format level"),
    ];
    let text = encode_snapshot(&entries);
    let parsed = parse_snapshot(text.as_str()).unwrap();
    assert_eq!(parsed, entries);
}

#[test]
fn parse_accepts_extra_escapes() {
    let parsed = parse_snapshot("{\"a\\/b\":\"x\\by\\fz\"}").unwrap();
    assert_eq!(parsed, vec![entry("a/b", "x\u{8}y\u{c}z")]);
}

#[test]
fn parse_rejects_malformed_snapshots() {
    for text in [
        "",
        "{",
        "}",
        "nonsense",
        "{\"a\"}",
        "{\"a\":}",
        "{\"a\":\"1\"",
        "{\"a\":\"1\",}",
        "{\"a\":\"1\"}x",
        "{\"a\"x\"1\"}",
        "{\"a\\q\":\"1\"}",
        "{a:\"1\"}",
        "{}x",
    ] {
        assert!(parse_snapshot(text).is_none(), "accepted: {}", text);
    }
}

#[test]
fn serde_parses_our_encoding() {
    let entries = vec![entry("qu\"ote", "back\\slash"), entry("line\nbreak", "plain")];
    let text = encode_snapshot(&entries);
    let map: HashMap<String, String> = serde_json::from_str(&text).unwrap();
    assert_eq!(map.len(), 2);
    assert_eq!(map["qu\"ote"], "back\\slash");
    assert_eq!(map["line\nbreak"], "plain");
}

#[test]
fn our_parser_reads_serde_output() {
    let mut map: BTreeMap<String, String> = BTreeMap::new();
    map.insert(String::from("key one"), String::from("value\none"));
    map.insert(String::from("key\ttwo"), String::from("qu\"ote"));
    let text = serde_json::to_string(&map).unwrap();
    let parsed = parse_snapshot(&text).unwrap();
    let parsed_map: BTreeMap<String, String> =
        parsed.into_iter().map(|e| (e.key, e.value)).collect();
    assert_eq!(parsed_map, map);
}

#[test]
fn load_state_reads_a_valid_snapshot() {
    let st = load_state("{\"apple\":\"red\",\"banana\":\"yellow\"}").unwrap();
    assert_eq!(st.rows_by_id, vec![entry("apple", "red"), entry("banana", "yellow")]);
    assert_eq!(st.query, "");
}

#[test]
fn load_state_rejects_bad_snapshots() {
    assert!(load_state("not a snapshot").is_none());
    assert!(load_state("{\"a\":\"1\",\"a\":\"2\"}").is_none());
    assert!(load_state("{\"\":\"empty key\"}").is_none());
}
