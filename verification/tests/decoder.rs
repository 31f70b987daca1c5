//! The key decoder: ASCII, control bytes, UTF-8, escape sequences, lines.

use amulet::decoder::{build_keypress_trie, read_key, read_line};
use amulet::errors::AmuletError;
use amulet::keys::{cap_to_key, Key, SpecialKeyCode};
use amulet::trie::Trie;

fn empty_trie() -> Trie<Key> {
    Trie::new()
}

fn arrow_trie() -> Trie<Key> {
    let mut t: Trie<Key> = Trie::new();
    t.insert(b"\x1bOA", Key::SpecialKey(SpecialKeyCode::UP));
    t.insert(b"\x1bOB", Key::SpecialKey(SpecialKeyCode::DOWN));
    t
}

#[test]
fn printable_ascii_is_a_character() {
    let t = empty_trie();
    assert_eq!(read_key(&t, b"A", 0), Ok((Key::Character('A'), 1)));
    assert_eq!(read_key(&t, b"~", 0), Ok((Key::Character('~'), 1)));
    assert_eq!(read_key(&t, b" ", 0), Ok((Key::Character(' '), 1)));
}

#[test]
fn control_byte_is_a_character() {
    let t = empty_trie();
    assert_eq!(read_key(&t, b"\x01", 0), Ok((Key::Character('\u{1}'), 1)));
    assert_eq!(read_key(&t, b"\x1c", 0), Ok((Key::Character('\u{1c}'), 1)));
    assert_eq!(read_key(&t, b"\n", 0), Ok((Key::Character('\n'), 1)));
}

#[test]
fn utf8_two_bytes_round_trip() {
    let t = empty_trie();
    let bytes = "\u{e9}".as_bytes();
    assert_eq!(bytes.len(), 2);
    assert_eq!(read_key(&t, bytes, 0), Ok((Key::Character('\u{e9}'), 2)));
}

#[test]
fn utf8_three_bytes_round_trip() {
    let t = empty_trie();
    let bytes = "\u{20ac}".as_bytes();
    assert_eq!(bytes.len(), 3);
    assert_eq!(read_key(&t, bytes, 0), Ok((Key::Character('\u{20ac}'), 3)));
}

#[test]
fn utf8_four_bytes_round_trip() {
    let t = empty_trie();
    let bytes = "\u{1f600}".as_bytes();
    assert_eq!(bytes.len(), 4);
    assert_eq!(read_key(&t, bytes, 0), Ok((Key::Character('\u{1f600}'), 4)));
}

#[test]
fn utf8_junk_lead_byte_fails() {
    let t = empty_trie();
    // A bare continuation byte, and a byte above the 4-byte lead range.
    assert_eq!(read_key(&t, &[0x80], 0), Err(AmuletError::InvalidEncoding));
    assert_eq!(read_key(&t, &[0xBF], 0), Err(AmuletError::InvalidEncoding));
    assert_eq!(read_key(&t, &[0xF8], 0), Err(AmuletError::InvalidEncoding));
    assert_eq!(read_key(&t, &[0xFF], 0), Err(AmuletError::InvalidEncoding));
}

#[test]
fn utf8_truncated_sequence_fails() {
    let t = empty_trie();
    assert_eq!(read_key(&t, &[0xC3], 0), Err(AmuletError::DecodeError));
    assert_eq!(read_key(&t, &[0xE2, 0x82], 0), Err(AmuletError::DecodeError));
}

#[test]
fn utf8_bad_continuation_fails() {
    let t = empty_trie();
    assert_eq!(read_key(&t, &[0xC3, 0x28], 0), Err(AmuletError::DecodeError));
}

#[test]
fn utf8_overlong_fails() {
    let t = empty_trie();
    // 0xC0 0xAF would decode to '/', an overlong two-byte form.
    assert_eq!(read_key(&t, &[0xC0, 0xAF], 0), Err(AmuletError::DecodeError));
}

#[test]
fn utf8_surrogate_fails() {
    let t = empty_trie();
    // 0xED 0xA0 0x80 encodes the surrogate 0xD800.
    assert_eq!(
        read_key(&t, &[0xED, 0xA0, 0x80], 0),
        Err(AmuletError::DecodeError)
    );
}

#[test]
fn registered_escape_sequence_decodes() {
    let t = arrow_trie();
    assert_eq!(
        read_key(&t, b"\x1bOA", 0),
        Ok((Key::SpecialKey(SpecialKeyCode::UP), 3))
    );
    assert_eq!(
        read_key(&t, b"\x1bOBxy", 0),
        Ok((Key::SpecialKey(SpecialKeyCode::DOWN), 3))
    );
}

#[test]
fn unmatched_long_escape_falls_back_to_first_byte() {
    let t = arrow_trie();
    // Ten bytes, no prefix registered: the decoder gives up after nine
    // bytes and hands back a character made from the first one alone.
    let input = b"\x1bZZZZZZZZZZ";
    assert_eq!(
        read_key(&t, input, 0),
        Ok((Key::Character('\u{1b}'), 9))
    );
}

#[test]
fn exhausted_escape_falls_back() {
    let t = arrow_trie();
    assert_eq!(read_key(&t, b"\x1b", 0), Ok((Key::Character('\u{1b}'), 1)));
    assert_eq!(read_key(&t, b"\x1bO", 0), Ok((Key::Character('\u{1b}'), 2)));
}

#[test]
fn read_key_from_offset() {
    let t = empty_trie();
    assert_eq!(read_key(&t, b"ab", 1), Ok((Key::Character('b'), 2)));
}

#[test]
fn read_line_gathers_until_newline() {
    let t = empty_trie();
    let (line, pos) = read_line(&t, b"hi!\nrest", 0).unwrap();
    assert_eq!(line, "hi!\n");
    assert_eq!(pos, 4);
}

#[test]
fn read_line_turns_carriage_return_into_newline() {
    let t = empty_trie();
    let (line, pos) = read_line(&t, b"ok\r", 0).unwrap();
    assert_eq!(line, "ok\n");
    assert_eq!(pos, 3);
}

#[test]
fn read_line_skips_special_keys() {
    let t = arrow_trie();
    let mut input = b"a".to_vec();
    input.extend_from_slice(b"\x1bOA");
    input.extend_from_slice(b"b\n");
    let (line, pos) = read_line(&t, &input, 0).unwrap();
    assert_eq!(line, "ab\n");
    assert_eq!(pos, input.len());
}

#[test]
fn read_line_without_terminator_fails() {
    let t = empty_trie();
    assert_eq!(read_line(&t, b"abc", 0), Err(AmuletError::IOError));
    assert_eq!(read_line(&t, b"", 0), Err(AmuletError::IOError));
}

#[test]
fn read_line_propagates_decode_errors() {
    let t = empty_trie();
    assert_eq!(
        read_line(&t, &[0x61, 0x80, 0x0a], 0),
        Err(AmuletError::InvalidEncoding)
    );
}

#[test]
fn build_trie_takes_only_key_capabilities() {
    let caps: Vec<(String, Vec<u8>)> = vec![
        ("kcuu1".to_string(), b"\x1bOA".to_vec()),
        ("cup".to_string(), b"\x1b[%p1%d;%p2%dH".to_vec()),
        ("kf3".to_string(), b"\x1bOR".to_vec()),
    ];
    let t = build_keypress_trie(&caps);
    assert_eq!(
        read_key(&t, b"\x1bOA", 0),
        Ok((Key::SpecialKey(SpecialKeyCode::UP), 3))
    );
    assert_eq!(read_key(&t, b"\x1bOR", 0), Ok((Key::FunctionKey(3), 3)));
    // The non-key capability was not inserted: its sequence dead-ends and
    // the fallback returns the first byte once the input runs out.
    assert_eq!(
        read_key(&t, b"\x1b[", 0),
        Ok((Key::Character('\u{1b}'), 2))
    );
}

#[test]
fn build_trie_later_entry_wins() {
    let caps: Vec<(String, Vec<u8>)> = vec![
        ("kcuu1".to_string(), b"\x1bOA".to_vec()),
        ("kcud1".to_string(), b"\x1bOA".to_vec()),
    ];
    let t = build_keypress_trie(&caps);
    assert_eq!(
        read_key(&t, b"\x1bOA", 0),
        Ok((Key::SpecialKey(SpecialKeyCode::DOWN), 3))
    );
}

#[test]
fn cap_to_key_known_names() {
    assert_eq!(cap_to_key("kcuf1"), Key::SpecialKey(SpecialKeyCode::RIGHT));
    assert_eq!(cap_to_key("kcub1"), Key::SpecialKey(SpecialKeyCode::LEFT));
    assert_eq!(cap_to_key("kcuu1"), Key::SpecialKey(SpecialKeyCode::UP));
    assert_eq!(cap_to_key("kcud1"), Key::SpecialKey(SpecialKeyCode::DOWN));
    assert_eq!(cap_to_key("kf1"), Key::FunctionKey(1));
    assert_eq!(cap_to_key("kf9"), Key::FunctionKey(9));
    assert_eq!(cap_to_key("kf10"), Key::FunctionKey(10));
    assert_eq!(cap_to_key("kf12"), Key::FunctionKey(12));
}

#[test]
fn cap_to_key_unknown_name() {
    assert_eq!(
        cap_to_key("khome"),
        Key::SpecialKey(SpecialKeyCode::UNKNOWN)
    );
    assert_eq!(cap_to_key(""), Key::SpecialKey(SpecialKeyCode::UNKNOWN));
}
