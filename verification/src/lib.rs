//! A small terminal-control library: a byte trie for escape sequences, a key
//! decoder (ASCII, UTF-8 and capability escape sequences), a character grid
//! with dirty-span tracking that repaints only what changed, and reversible
//! terminal line-discipline state.

pub mod canvas;
pub mod decoder;
pub mod errors;
pub mod keys;
pub mod style;
pub mod termios;
pub mod trie;
