//! The trie: exact lookup, overwriting, and longest-prefix walking.

use amulet::keys::{Key, SpecialKeyCode};
use amulet::trie::Trie;

#[test]
fn insert_then_find_returns_value() {
    let mut t: Trie<u32> = Trie::new();
    t.insert(&[1, 2, 3], 10);
    assert_eq!(t.find(&[1, 2, 3]), Some(10));
}

#[test]
fn find_missing_path_is_none() {
    let mut t: Trie<u32> = Trie::new();
    t.insert(&[1, 2, 3], 10);
    assert_eq!(t.find(&[1, 2]), None);
    assert_eq!(t.find(&[1, 2, 3, 4]), None);
    assert_eq!(t.find(&[9]), None);
}

#[test]
fn insert_overwrites_same_key() {
    let mut t: Trie<u32> = Trie::new();
    t.insert(&[5, 6], 1);
    t.insert(&[5, 6], 2);
    assert_eq!(t.find(&[5, 6]), Some(2));
}

#[test]
fn insert_keeps_other_keys() {
    let mut t: Trie<u32> = Trie::new();
    t.insert(&[5, 6], 1);
    t.insert(&[5, 7], 2);
    t.insert(&[5], 3);
    assert_eq!(t.find(&[5, 6]), Some(1));
    assert_eq!(t.find(&[5, 7]), Some(2));
    assert_eq!(t.find(&[5]), Some(3));
}

#[test]
fn find_prefix_deepest_node_and_remainder() {
    let mut t: Trie<u32> = Trie::new();
    t.insert(&[1, 2], 7);
    let (v, rest) = t.find_prefix(&[1, 2, 3, 4]);
    assert_eq!(v, Some(7));
    assert_eq!(rest, vec![3, 4]);
}

#[test]
fn find_prefix_no_value_on_walk() {
    let mut t: Trie<u32> = Trie::new();
    t.insert(&[1, 2, 3], 7);
    // The walk stops inside the path; the node reached holds no value.
    let (v, rest) = t.find_prefix(&[1, 2, 9]);
    assert_eq!(v, None);
    assert_eq!(rest, vec![9]);
}

#[test]
fn find_prefix_deepest_wins_over_shallow() {
    let mut t: Trie<u32> = Trie::new();
    t.insert(&[1], 1);
    t.insert(&[1, 2], 2);
    // The deepest reachable node's value is returned, not the first found.
    let (v, rest) = t.find_prefix(&[1, 2]);
    assert_eq!(v, Some(2));
    assert_eq!(rest, Vec::<u8>::new());
}

#[test]
fn find_prefix_shallow_value_deep_none() {
    let mut t: Trie<u32> = Trie::new();
    t.insert(&[1], 1);
    t.insert(&[1, 2, 3], 3);
    // Walk reaches node [1,2], which holds no value, though [1] does.
    let (v, rest) = t.find_prefix(&[1, 2, 9]);
    assert_eq!(v, None);
    assert_eq!(rest, vec![9]);
}

#[test]
fn find_prefix_empty_input() {
    let mut t: Trie<u32> = Trie::new();
    t.insert(&[1], 1);
    let (v, rest) = t.find_prefix(&[]);
    assert_eq!(v, None);
    assert_eq!(rest, Vec::<u8>::new());
}

#[test]
fn capability_sequences_scenario() {
    // "kcuu1" and "kcud1" formatted as the usual SS3 sequences.
    let up = b"\x1bOA";
    let down = b"\x1bOB";
    let mut t: Trie<Key> = Trie::new();
    t.insert(up, Key::SpecialKey(SpecialKeyCode::UP));
    t.insert(down, Key::SpecialKey(SpecialKeyCode::DOWN));

    let mut input = up.to_vec();
    input.extend_from_slice(b"xyz");
    let (v, rest) = t.find_prefix(&input);
    assert_eq!(v, Some(Key::SpecialKey(SpecialKeyCode::UP)));
    assert_eq!(rest, b"xyz".to_vec());

    let (v2, rest2) = t.find_prefix(down);
    assert_eq!(v2, Some(Key::SpecialKey(SpecialKeyCode::DOWN)));
    assert!(rest2.is_empty());
}

#[test]
fn trie_constructor_function() {
    let t: Trie<u32> = amulet::trie::Trie();
    assert_eq!(t.find(&[0]), None);
}
