//! The wire form of a chat message: exact bytes, JSON escaping, and
//! interoperability with an ordinary JSON parser.

use chatter::message::ChatMessage;
use chatter::wire::{chat_message_to_json, copy_bytes};

fn msg(author: &str, contents: &str, timestamp: u64) -> ChatMessage {
    ChatMessage {
        author: author.to_string(),
        contents: contents.to_string(),
        timestamp,
    }
}

#[test]
fn plain_message_has_exact_bytes() {
    let bytes = chat_message_to_json(&msg("alice", "hi", 1700000000));
    assert_eq!(
        bytes,
        br#"{"author":"alice","contents":"hi","timestamp":1700000000}"#.to_vec()
    );
}

#[test]
fn zero_timestamp_renders_as_single_digit() {
    let bytes = chat_message_to_json(&msg("a", "b", 0));
    assert_eq!(bytes, br#"{"author":"a","contents":"b","timestamp":0}"#.to_vec());
}

#[test]
fn quotes_and_backslashes_are_escaped() {
    let bytes = chat_message_to_json(&msg("al\"ice", "a\\b", 5));
    assert_eq!(
        bytes,
        br#"{"author":"al\"ice","contents":"a\\b","timestamp":5}"#.to_vec()
    );
    let parsed: serde_json::Value = serde_json::from_slice(&bytes).unwrap();
    assert_eq!(parsed["author"], "al\"ice");
    assert_eq!(parsed["contents"], "a\\b");
}

#[test]
fn control_bytes_become_unicode_escapes() {
    let bytes = chat_message_to_json(&msg("a", "line\nbreak\ttab", 7));
    assert_eq!(
        bytes,
        br#"{"author":"a","contents":"line\u000abreak\u0009tab","timestamp":7}"#.to_vec()
    );
    let parsed: serde_json::Value = serde_json::from_slice(&bytes).unwrap();
    assert_eq!(parsed["contents"], "line\nbreak\ttab");
}

#[test]
fn multibyte_text_passes_through_verbatim() {
    let bytes = chat_message_to_json(&msg("żółw", "héllo → świat", 9));
    let parsed: serde_json::Value = serde_json::from_slice(&bytes).unwrap();
    assert_eq!(parsed["author"], "żółw");
    assert_eq!(parsed["contents"], "héllo → świat");
    assert_eq!(parsed["timestamp"], 9);
}

#[test]
fn round_trips_through_a_json_parser() {
    let original = msg("bob", "all good?", u64::MAX);
    let bytes = chat_message_to_json(&original);
    let parsed: serde_json::Value = serde_json::from_slice(&bytes).unwrap();
    assert_eq!(parsed["author"].as_str().unwrap(), original.author);
    assert_eq!(parsed["contents"].as_str().unwrap(), original.contents);
    assert_eq!(parsed["timestamp"].as_u64().unwrap(), original.timestamp);
}

#[test]
fn copy_bytes_copies_exactly() {
    let v: Vec<u8> = vec![0, 1, 2, 254, 255];
    assert_eq!(copy_bytes(&v), v);
    assert_eq!(copy_bytes(&Vec::new()), Vec::<u8>::new());
}
