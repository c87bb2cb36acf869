//! Codec tests: the encoder's output against a standard JSON encoder's, and
//! the decoder as its exact inverse.

use kvs::codec::{command_ok, decode_command, encode_command, encode_frame, str_hash_free};
use kvs::Command;

fn cs(s: &str) -> Vec<char> {
    s.chars().collect()
}

fn text(v: Vec<char>) -> String {
    v.into_iter().collect()
}

fn serde_set(key: &str, value: &str) -> String {
    let mut m = serde_json::Map::new();
    m.insert(
        "Set".to_string(),
        serde_json::Value::Array(vec![
            serde_json::Value::String(key.to_string()),
            serde_json::Value::String(value.to_string()),
        ]),
    );
    serde_json::to_string(&serde_json::Value::Object(m)).unwrap()
}

fn serde_tagged(tag: &str, key: &str) -> String {
    let mut m = serde_json::Map::new();
    m.insert(tag.to_string(), serde_json::Value::String(key.to_string()));
    serde_json::to_string(&serde_json::Value::Object(m)).unwrap()
}

#[test]
fn encode_set_matches_standard_json() {
    let mine = text(encode_command(&Command::Put("a".to_string(), "1".to_string())));
    assert_eq!(mine, serde_set("a", "1"));
    assert_eq!(mine, "{\"Set\":[\"a\",\"1\"]}");
}

#[test]
fn encode_get_and_rm_match_standard_json() {
    let g = text(encode_command(&Command::Get("key one".to_string())));
    assert_eq!(g, serde_tagged("Get", "key one"));
    let r = text(encode_command(&Command::Rm("key one".to_string())));
    assert_eq!(r, serde_tagged("Rm", "key one"));
}

#[test]
fn encode_escapes_match_standard_json() {
    let tricky = "a\"b\\c\nd\te\rf\u{08}g\u{0c}h\u{01}i\u{1f}j";
    let mine = text(encode_command(&Command::Put("k".to_string(), tricky.to_string())));
    assert_eq!(mine, serde_set("k", tricky));
}

#[test]
fn encode_keeps_unicode_raw() {
    let mine = text(encode_command(&Command::Put("clef".to_string(), "v\u{e9}rit\u{e9}".to_string())));
    assert_eq!(mine, serde_set("clef", "v\u{e9}rit\u{e9}"));
}

#[test]
fn frame_appends_single_delimiter() {
    let f = text(encode_frame(&Command::Rm("a".to_string())));
    assert_eq!(f, "{\"Rm\":\"a\"}#");
}

#[test]
fn decode_inverts_encode() {
    let cases = vec![
        Command::Get("a".to_string()),
        Command::Rm("some key".to_string()),
        Command::Put("k".to_string(), "v".to_string()),
        Command::Put("".to_string(), "".to_string()),
        Command::Put("q\"\\\n".to_string(), "\u{01}x\u{1f}".to_string()),
        Command::Put("caf\u{e9}".to_string(), "\u{4e2d}\u{6587}".to_string()),
    ];
    for c in cases {
        let enc = encode_command(&c);
        let dec = decode_command(&enc).expect("canonical text decodes");
        assert_eq!(dec, c);
    }
}

#[test]
fn decode_rejects_malformed_text() {
    assert_eq!(decode_command(&cs("")), None);
    assert_eq!(decode_command(&cs("{\"Set\":[\"a\"]}")), None);
    assert_eq!(decode_command(&cs("{\"Put\":[\"a\",\"1\"]}")), None);
    assert_eq!(decode_command(&cs("{\"Get\":\"a\"")), None);
    assert_eq!(decode_command(&cs("{\"Get\":\"a\"}}")), None);
    assert_eq!(decode_command(&cs("garbage")), None);
}

#[test]
fn decode_rejects_non_canonical_text() {
    // The decoder accepts exactly the encoder's output: stray whitespace or
    // escapes the encoder never produces are refused.
    assert_eq!(decode_command(&cs("{\"Get\": \"a\"}")), None);
    assert_eq!(decode_command(&cs("{\"Get\":\"\\u0041\"}")), None);
    assert_eq!(decode_command(&cs("{\"Get\":\"\\u0009\"}")), None);
}

#[test]
fn decode_handles_canonical_escapes() {
    let dec = decode_command(&cs("{\"Set\":[\"k\",\"a\\\"b\\u0001\"]}")).unwrap();
    assert_eq!(dec, Command::Put("k".to_string(), "a\"b\u{01}".to_string()));
}

#[test]
fn delimiter_checks_on_strings_and_commands() {
    assert!(str_hash_free("abc"));
    assert!(!str_hash_free("a#b"));
    assert!(command_ok(&Command::Put("a".to_string(), "b".to_string())));
    assert!(!command_ok(&Command::Put("a#".to_string(), "b".to_string())));
    assert!(!command_ok(&Command::Put("a".to_string(), "#b".to_string())));
    assert!(!command_ok(&Command::Rm("#".to_string())));
    assert!(command_ok(&Command::Get("plain".to_string())));
}
