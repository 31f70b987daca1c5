//! Key events and the mapping from key-capability names to them.

use vstd::prelude::*;

verus! {

use vstd::string::StringSliceAdditionalSpecFns;

broadcast use vstd::utf8::encode_utf8_decode_utf8;

/// A key that is not a plain character.
#[allow(non_camel_case_types)]
#[derive(Clone, Copy, Debug, PartialEq, Eq, Structural)]
pub enum SpecialKeyCode {
    LEFT,
    RIGHT,
    UP,
    DOWN,
    ESC,
    UNKNOWN,
}

/// A decoded key event.
#[derive(Clone, Copy, Debug, PartialEq, Eq, Structural)]
pub enum Key {
    Character(char),
    SpecialKey(SpecialKeyCode),
    FunctionKey(u32),
}

/// Compare two byte slices for equality of contents.
fn bytes_eq(a: &[u8], b: &[u8]) -> (r: bool)
    ensures
        r == (a@ == b@),
{
    if a.len() != b.len() {
        return false;
    }
    let n: usize = a.len();
    let mut i: usize = 0;
    while i < n
        invariant
            n == a@.len() == b@.len(),
            0 <= i <= n,
            forall|k: int| 0 <= k < i ==> a@[k] == b@[k],
        decreases n - i,
    {
        if a[i] != b[i] {
            return false;
        }
        i = i + 1;
    }
    proof {
        assert(a@ =~= b@);
    }
    true
}

/// Compare two string slices for equality of their character sequences.
pub fn str_eq(s: &str, t: &str) -> (r: bool)
    ensures
        r == (s@ == t@),
{
    let r = bytes_eq(s.as_bytes(), t.as_bytes());
    proof {
        if s.spec_bytes() == t.spec_bytes() {
            assert(vstd::utf8::decode_utf8(vstd::utf8::encode_utf8(s@)) == s@);
            assert(vstd::utf8::decode_utf8(vstd::utf8::encode_utf8(t@)) == t@);
            assert(s@ == t@);
        }
    }
    r
}

/// The key event that a key-capability name stands for.
pub open spec fn spec_cap_to_key(name: Seq<char>) -> Key {
    if name == "kcuf1"@ {
        Key::SpecialKey(SpecialKeyCode::RIGHT)
    } else if name == "kcub1"@ {
        Key::SpecialKey(SpecialKeyCode::LEFT)
    } else if name == "kcuu1"@ {
        Key::SpecialKey(SpecialKeyCode::UP)
    } else if name == "kcud1"@ {
        Key::SpecialKey(SpecialKeyCode::DOWN)
    } else if name == "kf1"@ {
        Key::FunctionKey(1)
    } else if name == "kf2"@ {
        Key::FunctionKey(2)
    } else if name == "kf3"@ {
        Key::FunctionKey(3)
    } else if name == "kf4"@ {
        Key::FunctionKey(4)
    } else if name == "kf5"@ {
        Key::FunctionKey(5)
    } else if name == "kf6"@ {
        Key::FunctionKey(6)
    } else if name == "kf7"@ {
        Key::FunctionKey(7)
    } else if name == "kf8"@ {
        Key::FunctionKey(8)
    } else if name == "kf9"@ {
        Key::FunctionKey(9)
    } else if name == "kf10"@ {
        Key::FunctionKey(10)
    } else if name == "kf11"@ {
        Key::FunctionKey(11)
    } else if name == "kf12"@ {
        Key::FunctionKey(12)
    } else {
        Key::SpecialKey(SpecialKeyCode::UNKNOWN)
    }
}

/// Map a key-capability name ("kcuu1", "kf3", ...) to the key event it emits.
/// Names that are not recognised map to `UNKNOWN`.
pub fn cap_to_key(cap: &str) -> (k: Key)
    ensures
        k == spec_cap_to_key(cap@),
{
    if str_eq(cap, "kcuf1") {
        Key::SpecialKey(SpecialKeyCode::RIGHT)
    } else if str_eq(cap, "kcub1") {
        Key::SpecialKey(SpecialKeyCode::LEFT)
    } else if str_eq(cap, "kcuu1") {
        Key::SpecialKey(SpecialKeyCode::UP)
    } else if str_eq(cap, "kcud1") {
        Key::SpecialKey(SpecialKeyCode::DOWN)
    } else if str_eq(cap, "kf1") {
        Key::FunctionKey(1)
    } else if str_eq(cap, "kf2") {
        Key::FunctionKey(2)
    } else if str_eq(cap, "kf3") {
        Key::FunctionKey(3)
    } else if str_eq(cap, "kf4") {
        Key::FunctionKey(4)
    } else if str_eq(cap, "kf5") {
        Key::FunctionKey(5)
    } else if str_eq(cap, "kf6") {
        Key::FunctionKey(6)
    } else if str_eq(cap, "kf7") {
        Key::FunctionKey(7)
    } else if str_eq(cap, "kf8") {
        Key::FunctionKey(8)
    } else if str_eq(cap, "kf9") {
        Key::FunctionKey(9)
    } else if str_eq(cap, "kf10") {
        Key::FunctionKey(10)
    } else if str_eq(cap, "kf11") {
        Key::FunctionKey(11)
    } else if str_eq(cap, "kf12") {
        Key::FunctionKey(12)
    } else {
        Key::SpecialKey(SpecialKeyCode::UNKNOWN)
    }
}

} // verus!
