//! The key decoder: raw input bytes to key events.
//!
//! One key is decoded per call, in this order: printable ASCII and bare
//! control bytes become characters at once; a byte with the high bit set
//! starts a UTF-8 sequence; what is left (NUL, ESC, DEL) starts
//! capability-escape matching against a trie, reading one byte at a time
//! up to a bound, and falling back to a bare character made from the first
//! byte alone — the bytes read past it are discarded, as the design has it.

use vstd::prelude::*;

verus! {

use crate::errors::AmuletError;
use crate::keys::Key;
use crate::trie::Trie;
use vstd::utf8::{
    is_leading_byte_width_2, is_leading_byte_width_3, is_leading_byte_width_4,
    valid_first_scalar, decode_first_scalar, is_scalar,
};

/// Printable ASCII, decoded to a character immediately.
pub open spec fn is_printable_ascii(b: u8) -> bool {
    32 <= b <= 126
}

/// A control byte passed through as a bare character (ESC excluded).
pub open spec fn is_bare_control(b: u8) -> bool {
    (0 < b < 27) || (27 < b < 32)
}

/// A byte that begins capability-escape matching: NUL, ESC or DEL.
pub open spec fn is_escape_intro(b: u8) -> bool {
    b == 0 || b == 27 || b == 127
}

/// How a one-key read starting at a byte with the high bit set ends: the
/// byte must be a recognised UTF-8 lead byte, the input must still hold
/// the whole sequence, and the sequence must encode exactly one scalar.
pub open spec fn spec_utf8_key(input: Seq<u8>, start: int) -> Result<(Key, int), AmuletError> {
    let b = input[start];
    if !(is_leading_byte_width_2(b) || is_leading_byte_width_3(b) || is_leading_byte_width_4(b)) {
        Err(AmuletError::InvalidEncoding)
    } else {
        let n: int = if is_leading_byte_width_2(b) {
            2
        } else if is_leading_byte_width_3(b) {
            3
        } else {
            4
        };
        if start + n > input.len() {
            Err(AmuletError::DecodeError)
        } else {
            let bytes = input.subrange(start, start + n);
            if valid_first_scalar(bytes) {
                Ok((Key::Character(decode_first_scalar(bytes) as char), start + n))
            } else {
                Err(AmuletError::DecodeError)
            }
        }
    }
}

/// How escape matching ends, having already taken `i` bytes: the first
/// complete value the trie offers wins; past 9 bytes, or at the end of the
/// input, the first byte alone becomes a character and the bytes taken are
/// discarded.
pub open spec fn spec_escape_key(t: Trie<Key>, input: Seq<u8>, start: int, i: int) -> (Key, int)
    decreases 10 - i,
{
    if t.prefix_value(input.subrange(start, start + i)) is Some {
        (t.prefix_value(input.subrange(start, start + i)).unwrap(), start + i)
    } else if i > 8 || start + i >= input.len() {
        (Key::Character(input[start] as char), start + i)
    } else {
        spec_escape_key(t, input, start, i + 1)
    }
}

/// How a one-key read starting at `start` ends.
pub open spec fn spec_read_key(t: Trie<Key>, input: Seq<u8>, start: int) -> Result<
    (Key, int),
    AmuletError,
> {
    let b = input[start];
    if is_printable_ascii(b) || is_bare_control(b) {
        Ok((Key::Character(b as char), start + 1))
    } else if b >= 128 {
        spec_utf8_key(input, start)
    } else {
        Ok(spec_escape_key(t, input, start, 1))
    }
}

/// Whether an executable read result agrees with the specified one.
pub open spec fn result_matches(
    r: Result<(Key, usize), AmuletError>,
    s: Result<(Key, int), AmuletError>,
) -> bool {
    match (r, s) {
        (Ok((k, p)), Ok((sk, sp))) => k == sk && p as int == sp,
        (Err(e), Err(se)) => e == se,
        _ => false,
    }
}

/// Relies on char::from_u32: `Some` exactly for Unicode scalar values, and
/// the character converts back to the same number.
pub assume_specification[ char::from_u32 ](i: u32) -> (r: Option<char>)
    ensures
        r is Some <==> is_scalar(i),
        r is Some ==> r.unwrap() as u32 == i,
;

/// Decode one key event from `input`, starting at `start`.  Returns the
/// event and the position of the first byte not consumed.  Escape matching
/// may consume bytes it then discards; that loss is part of the contract.
pub fn read_key(trie: &Trie<Key>, input: &[u8], start: usize) -> (r: Result<
    (Key, usize),
    AmuletError,
>)
    requires
        start < input@.len(),
    ensures
        result_matches(r, spec_read_key(*trie, input@, start as int)),
{
    let b = input[start];
    if 32 <= b && b <= 126 {
        return Ok((Key::Character(b as char), start + 1));
    }
    if (0 < b && b < 27) || (27 < b && b < 32) {
        return Ok((Key::Character(b as char), start + 1));
    }
    if b >= 128 {
        return read_utf8_key(input, start);
    }
    read_escape_key(trie, input, start)
}

fn read_utf8_key(input: &[u8], start: usize) -> (r: Result<(Key, usize), AmuletError>)
    requires
        start < input@.len(),
        input@[start as int] >= 128,
    ensures
        result_matches(r, spec_utf8_key(input@, start as int)),
{
    let b = input[start];
    proof {
        assert((b & 0xe0 == 0xc0) == (0xc0 <= b && b <= 0xdf)) by (bit_vector);
        assert((b & 0xf0 == 0xe0) == (0xe0 <= b && b <= 0xef)) by (bit_vector);
        assert((b & 0xf8 == 0xf0) == (0xf0 <= b && b <= 0xf7)) by (bit_vector);
    }
    let n: usize;
    let cp: u32;
    if b & 0xe0 == 0xc0 {
        n = 2;
        if input.len() - start < 2 {
            return Err(AmuletError::DecodeError);
        }
        let ghost bytes = input@.subrange(start as int, start as int + 2);
        let c1 = input[start + 1];
        proof {
            assert(bytes.len() == 2);
            assert(bytes[0] == b);
            assert(bytes[1] == c1);
        }
        if !(0x80 <= c1 && c1 <= 0xbf) {
            proof {
                lemma_utf8_not_valid(bytes);
            }
            return Err(AmuletError::DecodeError);
        }
        cp = (((b & 0x1F) as u32) << 6) | ((c1 & 0x3F) as u32);
        proof {
            assert(((((b & 0x1F) as u32) << 6) | ((c1 & 0x3F) as u32)) <= 0x7ff) by (bit_vector);
        }
        if cp < 0x80 {
            proof {
                lemma_utf8_not_valid(bytes);
            }
            return Err(AmuletError::DecodeError);
        }
        proof {
            lemma_utf8_valid(bytes, cp);
        }
    } else if b & 0xf0 == 0xe0 {
        n = 3;
        if input.len() - start < 3 {
            return Err(AmuletError::DecodeError);
        }
        let ghost bytes = input@.subrange(start as int, start as int + 3);
        let c1 = input[start + 1];
        let c2 = input[start + 2];
        proof {
            assert(bytes.len() == 3);
            assert(bytes[0] == b);
            assert(bytes[1] == c1);
            assert(bytes[2] == c2);
        }
        if !(0x80 <= c1 && c1 <= 0xbf) || !(0x80 <= c2 && c2 <= 0xbf) {
            proof {
                lemma_utf8_not_valid(bytes);
            }
            return Err(AmuletError::DecodeError);
        }
        cp = ((((b & 0x0F) as u32) << 12) | (((c1 & 0x3F) as u32) << 6)) | ((c2 & 0x3F) as u32);
        proof {
            assert((((((b & 0x0F) as u32) << 12) | (((c1 & 0x3F) as u32) << 6)) | ((c2
                & 0x3F) as u32)) <= 0xffff) by (bit_vector);
        }
        if cp < 0x800 || (0xD800 <= cp && cp <= 0xDFFF) {
            proof {
                lemma_utf8_not_valid(bytes);
            }
            return Err(AmuletError::DecodeError);
        }
        proof {
            lemma_utf8_valid(bytes, cp);
        }
    } else if b & 0xf8 == 0xf0 {
        n = 4;
        if input.len() - start < 4 {
            return Err(AmuletError::DecodeError);
        }
        let ghost bytes = input@.subrange(start as int, start as int + 4);
        let c1 = input[start + 1];
        let c2 = input[start + 2];
        let c3 = input[start + 3];
        proof {
            assert(bytes.len() == 4);
            assert(bytes[0] == b);
            assert(bytes[1] == c1);
            assert(bytes[2] == c2);
            assert(bytes[3] == c3);
        }
        if !(0x80 <= c1 && c1 <= 0xbf) || !(0x80 <= c2 && c2 <= 0xbf) || !(0x80 <= c3 && c3
            <= 0xbf) {
            proof {
                lemma_utf8_not_valid(bytes);
            }
            return Err(AmuletError::DecodeError);
        }
        cp = (((((b & 0x07) as u32) << 18) | (((c1 & 0x3F) as u32) << 12)) | (((c2
            & 0x3F) as u32) << 6)) | ((c3 & 0x3F) as u32);
        if cp < 0x10000 || cp > 0x10FFFF {
            proof {
                lemma_utf8_not_valid(bytes);
            }
            return Err(AmuletError::DecodeError);
        }
        proof {
            lemma_utf8_valid(bytes, cp);
        }
    } else {
        return Err(AmuletError::InvalidEncoding);
    }
    match char::from_u32(cp) {
        Some(ch) => {
            proof {
                vstd::utf8::char_u32_cast(ch, cp);
            }
            Ok((Key::Character(ch), start + n))
        },
        None => {
            proof {
                assert(false);
            }
            Err(AmuletError::DecodeError)
        },
    }
}

/// When the checks made on a lead byte and its continuation bytes fail,
/// the byte run is not a valid scalar encoding.
proof fn lemma_utf8_not_valid(bytes: Seq<u8>)
    requires
        ({
            ||| !vstd::utf8::valid_leading_and_continuation_bytes_first_codepoint(bytes)
            ||| !vstd::utf8::not_overlong_encoding(
                vstd::utf8::decode_first_codepoint(bytes),
                vstd::utf8::length_of_first_codepoint(bytes),
            )
            ||| !vstd::utf8::not_surrogate(vstd::utf8::decode_first_codepoint(bytes))
        }),
    ensures
        !valid_first_scalar(bytes),
{
}

/// When all the checks pass, the byte run is a valid scalar encoding of
/// the computed code point.
proof fn lemma_utf8_valid(bytes: Seq<u8>, cp: u32)
    requires
        ({
            ||| (bytes.len() == 2 && is_leading_byte_width_2(bytes[0])
                && vstd::utf8::is_continuation_byte(bytes[1]) && cp == vstd::utf8::codepoint_width_2(
                bytes[0],
                bytes[1],
            ) && 0x80 <= cp <= 0x7FF)
            ||| (bytes.len() == 3 && is_leading_byte_width_3(bytes[0])
                && vstd::utf8::is_continuation_byte(bytes[1])
                && vstd::utf8::is_continuation_byte(bytes[2]) && cp
                == vstd::utf8::codepoint_width_3(bytes[0], bytes[1], bytes[2]) && 0x800 <= cp
                <= 0xFFFF && !(0xD800 <= cp <= 0xDFFF))
            ||| (bytes.len() == 4 && is_leading_byte_width_4(bytes[0])
                && vstd::utf8::is_continuation_byte(bytes[1])
                && vstd::utf8::is_continuation_byte(bytes[2])
                && vstd::utf8::is_continuation_byte(bytes[3]) && cp
                == vstd::utf8::codepoint_width_4(bytes[0], bytes[1], bytes[2], bytes[3]) && 0x10000
                <= cp <= 0x10FFFF)
        }),
    ensures
        valid_first_scalar(bytes),
        decode_first_scalar(bytes) == cp,
        is_scalar(cp),
{
}

#[verifier::loop_isolation(false)]
fn read_escape_key(trie: &Trie<Key>, input: &[u8], start: usize) -> (r: Result<
    (Key, usize),
    AmuletError,
>)
    requires
        start < input@.len(),
    ensures
        r == Ok::<(Key, usize), AmuletError>((
            spec_escape_key(*trie, input@, start as int, 1).0,
            spec_escape_key(*trie, input@, start as int, 1).1 as usize,
        )),
        0 <= spec_escape_key(*trie, input@, start as int, 1).1 <= input@.len(),
{
    let b = input[start];
    let mut i: usize = 1;
    loop
        invariant
            1 <= i <= 9,
            start + i <= input@.len(),
            spec_escape_key(*trie, input@, start as int, 1) == spec_escape_key(
                *trie,
                input@,
                start as int,
                i as int,
            ),
        decreases 10 - i,
    {
        let (val, _rest) = trie.find_prefix(
            vstd::slice::slice_subrange(input, start, start + i),
        );
        match val {
            Some(k) => {
                return Ok((k, start + i));
            },
            None => {
            },
        }
        if i > 8 || start + i >= input.len() {
            return Ok((Key::Character(b as char), start + i));
        }
        i = i + 1;
    }
}

proof fn lemma_escape_key_range(t: Trie<Key>, input: Seq<u8>, start: int, i: int)
    requires
        0 <= start,
        1 <= i <= 9,
        start + i <= input.len(),
    ensures
        start + i <= spec_escape_key(t, input, start, i).1 <= input.len(),
    decreases 10 - i,
{
    if t.prefix_value(input.subrange(start, start + i)) is Some {
    } else if i > 8 || start + i >= input.len() {
    } else {
        lemma_escape_key_range(t, input, start, i + 1);
    }
}

/// A successful one-key read always consumes at least one byte and never
/// runs past the end of the input.
pub proof fn lemma_read_key_advances(t: Trie<Key>, input: Seq<u8>, start: int)
    requires
        0 <= start < input.len(),
    ensures
        spec_read_key(t, input, start) matches Ok(r) ==> start < r.1 <= input.len(),
{
    let b = input[start];
    if is_printable_ascii(b) || is_bare_control(b) {
    } else if b >= 128 {
    } else {
        lemma_escape_key_range(t, input, start, 1);
    }
}

/// How a line read starting at `start` ends: keys are decoded one after
/// the other; characters gather into the line, a carriage return becoming
/// a newline; a newline or carriage return ends the line, included; other
/// key events are passed over; an input that ends first is an error.
pub open spec fn spec_read_line(t: Trie<Key>, input: Seq<u8>, start: int) -> Result<
    (Seq<char>, int),
    AmuletError,
>
    decreases input.len() - start,
    via spec_read_line_decreases
{
    if !(0 <= start < input.len()) {
        Err(AmuletError::IOError)
    } else {
        match spec_read_key(t, input, start) {
            Err(e) => Err(e),
            Ok((k, p)) => match k {
                Key::Character(ch) => if ch == '\n' || ch == '\r' {
                    Ok((seq!['\n'], p))
                } else {
                    match spec_read_line(t, input, p) {
                        Err(e) => Err(e),
                        Ok((rest, q)) => Ok((seq![ch] + rest, q)),
                    }
                },
                _ => spec_read_line(t, input, p),
            },
        }
    }
}

#[via_fn]
proof fn spec_read_line_decreases(t: Trie<Key>, input: Seq<u8>, start: int) {
    if 0 <= start < input.len() {
        lemma_read_key_advances(t, input, start);
    }
}

/// Relies on String::push: appends exactly the one character.
pub assume_specification[ String::push ](s: &mut String, ch: char)
    ensures
        final(s)@ == old(s)@.push(ch),
;

/// Read one line: decode keys until a newline or carriage return arrives,
/// gathering the characters, the terminator included (a carriage return is
/// written as a newline).  Key events that are not characters are passed
/// over.  If the input ends before a terminator, the read fails.
pub fn read_line(trie: &Trie<Key>, input: &[u8], start: usize) -> (r: Result<
    (String, usize),
    AmuletError,
>)
    ensures
        match (r, spec_read_line(*trie, input@, start as int)) {
            (Ok((s, p)), Ok((ss, sp))) => s@ == ss && p as int == sp,
            (Err(e), Err(se)) => e == se,
            _ => false,
        },
{
    let mut acc = String::new();
    let mut pos = start;
    proof {
        match spec_read_line(*trie, input@, start as int) {
            Ok((rest, q)) => {
                assert(Seq::<char>::empty() + rest =~= rest);
            },
            Err(_) => {},
        }
    }
    loop
        invariant
            start <= pos,
            spec_read_line(*trie, input@, start as int) == (match spec_read_line(
                *trie,
                input@,
                pos as int,
            ) {
                Ok((rest, q)) => Ok::<(Seq<char>, int), AmuletError>((acc@ + rest, q)),
                Err(e) => Err::<(Seq<char>, int), AmuletError>(e),
            }),
        decreases input@.len() - pos,
    {
        if pos >= input.len() {
            return Err(AmuletError::IOError);
        }
        match read_key(trie, input, pos) {
            Err(e) => {
                return Err(e);
            },
            Ok((k, p)) => {
                proof {
                    lemma_read_key_advances(*trie, input@, pos as int);
                }
                match k {
                    Key::Character(ch) => {
                        let ghost acc0 = acc@;
                        if ch == '\n' || ch == '\r' {
                            acc.push('\n');
                            proof {
                                assert(acc@ =~= acc0 + seq!['\n']);
                            }
                            return Ok((acc, p));
                        }
                        acc.push(ch);
                        proof {
                            assert(acc@ =~= acc0 + seq![ch]);
                            match spec_read_line(*trie, input@, p as int) {
                                Ok((rest2, q)) => {
                                    assert(acc0 + (seq![ch] + rest2) =~= acc@ + rest2);
                                },
                                Err(_) => {},
                            }
                        }
                        pos = p;
                    },
                    _ => {
                        pos = p;
                    },
                }
            },
        }
    }
}

/// A capability that feeds the trie: its name begins with `k`, the
/// input-key convention, and its byte sequence is not empty.
pub open spec fn is_key_cap(name: Seq<char>, bytes: Seq<u8>) -> bool {
    name.len() > 0 && name[0] == 'k' && bytes.len() > 0
}

/// What a trie seeded from `caps` holds at path `p`: the key event of the
/// last key capability whose byte sequence is exactly `p`.
pub open spec fn spec_seeded(caps: Seq<(String, Vec<u8>)>, p: Seq<u8>) -> Option<Key>
    decreases caps.len(),
{
    if caps.len() == 0 {
        None
    } else if is_key_cap(caps.last().0@, caps.last().1@) && caps.last().1@ == p {
        Some(crate::keys::spec_cap_to_key(caps.last().0@))
    } else {
        spec_seeded(caps.drop_last(), p)
    }
}

/// Build the escape-sequence trie from enumerated capabilities, given as
/// (name, formatted byte sequence) pairs: every capability whose name
/// begins with `k` is inserted under its byte sequence, mapped to the key
/// event the name stands for.
pub fn build_keypress_trie(caps: &Vec<(String, Vec<u8>)>) -> (t: Trie<Key>)
    ensures
        forall|p: Seq<u8>| #[trigger] t.get(p) == spec_seeded(caps@, p),
{
    let mut t: Trie<Key> = Trie::new();
    proof {
        assert(caps@.take(0) =~= Seq::<(String, Vec<u8>)>::empty());
    }
    let n = caps.len();
    let mut i: usize = 0;
    while i < n
        invariant
            0 <= i <= n,
            n == caps@.len(),
            forall|p: Seq<u8>| #[trigger] t.get(p) == spec_seeded(caps@.take(i as int), p),
        decreases n - i,
    {
        proof {
            assert(caps@.take(i + 1).drop_last() =~= caps@.take(i as int));
            assert(caps@.take(i + 1).last() == caps@[i as int]);
        }
        let pair = &caps[i];
        if pair.1.len() > 0 && pair.0.as_str().unicode_len() > 0 && pair.0.as_str().get_char(0)
            == 'k' {
            t.insert(pair.1.as_slice(), crate::keys::cap_to_key(pair.0.as_str()));
        }
        i = i + 1;
    }
    proof {
        assert(caps@.take(n as int) =~= caps@);
    }
    t
}

/// Decoding the UTF-8 encoding of any character beyond ASCII yields
/// exactly that character and consumes exactly its encoding, whatever
/// bytes follow.  (Printable ASCII and bare control bytes are their own
/// one-byte encodings and are decoded directly by the earlier branches.)
pub proof fn lemma_utf8_round_trip(t: Trie<Key>, c: char, rest: Seq<u8>)
    requires
        c as u32 >= 0x80,
    ensures
        ({
            let enc = vstd::utf8::encode_scalar(c as u32);
            spec_read_key(t, enc + rest, 0) == Ok::<(Key, int), AmuletError>((
                Key::Character(c),
                enc.len() as int,
            ))
        }),
{
    let s = c as u32;
    vstd::utf8::char_is_scalar(c);
    let enc = vstd::utf8::encode_scalar(s);
    let chars = seq![c];
    assert(chars.drop_first() =~= Seq::<char>::empty());
    assert(vstd::utf8::encode_utf8(Seq::<char>::empty()) =~= Seq::<u8>::empty());
    assert(vstd::utf8::encode_utf8(chars) =~= enc);
    vstd::utf8::encode_utf8_first_scalar(chars);
    let input = enc + rest;
    assert(input.subrange(0, enc.len() as int) =~= enc);
    let b = input[0];
    assert(b == enc[0]);
    if vstd::utf8::has_width_2_encoding(s) {
        assert(0xc0 <= (0xC0 | ((s >> 6) & 0x1F) as u8) <= 0xdf) by (bit_vector);
        assert(enc.len() == 2);
    } else if vstd::utf8::has_width_3_encoding(s) {
        assert(0xe0 <= (0xE0 | ((s >> 12) & 0x0F) as u8) <= 0xef) by (bit_vector);
        assert(enc.len() == 3);
    } else {
        assert(vstd::utf8::has_width_4_encoding(s));
        assert(0xf0 <= (0xF0 | ((s >> 18) & 0x7) as u8) <= 0xf7) by (bit_vector);
        assert(enc.len() == 4);
    }
    vstd::utf8::char_u32_cast(c, vstd::utf8::decode_first_scalar(enc));
}

/// A byte with the high bit set that fits no recognised lead-byte pattern
/// (a bare continuation byte, or `0xF8` and above) fails the decode with
/// `InvalidEncoding`.
pub proof fn lemma_utf8_invalid_lead(t: Trie<Key>, input: Seq<u8>, start: int)
    requires
        0 <= start < input.len(),
        0x80 <= input[start] <= 0xbf || 0xf8 <= input[start],
    ensures
        spec_read_key(t, input, start) == Err::<(Key, int), AmuletError>(
            AmuletError::InvalidEncoding,
        ),
{
}

proof fn lemma_escape_walk(t: Trie<Key>, seqb: Seq<u8>, k: Key, rest: Seq<u8>, i: int)
    requires
        1 <= i <= seqb.len() <= 9,
        t.get(seqb) == Some(k),
        forall|l: int| 1 <= l < seqb.len() ==> t.get(#[trigger] seqb.take(l)) is None,
    ensures
        spec_escape_key(t, seqb + rest, 0, i) == (k, seqb.len() as int),
    decreases seqb.len() - i,
{
    let input = seqb + rest;
    assert(input.subrange(0, i) =~= seqb.take(i));
    assert(t.node_at(seqb) is Some);
    crate::trie::lemma_node_at_prefix(t, seqb, i);
    crate::trie::lemma_prefix_value_on_path(t, seqb.take(i));
    if i == seqb.len() {
        assert(seqb.take(i) =~= seqb);
    } else {
        assert(t.get(seqb.take(i)) is None);
        assert(i <= 8);
        assert(0 + i < input.len());
        lemma_escape_walk(t, seqb, k, rest, i + 1);
    }
}

/// Feeding the decoder a registered capability byte sequence, none of
/// whose proper prefixes is itself registered, yields exactly the
/// registered key event and consumes exactly that sequence.
pub proof fn lemma_escape_registered(t: Trie<Key>, seqb: Seq<u8>, k: Key, rest: Seq<u8>)
    requires
        1 <= seqb.len() <= 9,
        is_escape_intro(seqb[0]),
        t.get(seqb) == Some(k),
        forall|l: int| 1 <= l < seqb.len() ==> t.get(#[trigger] seqb.take(l)) is None,
    ensures
        spec_read_key(t, seqb + rest, 0) == Ok::<(Key, int), AmuletError>((k, seqb.len() as int)),
{
    let input = seqb + rest;
    assert(input[0] == seqb[0]);
    lemma_escape_walk(t, seqb, k, rest, 1);
}

proof fn lemma_escape_no_match_walk(t: Trie<Key>, input: Seq<u8>, i: int)
    requires
        input.len() >= 9,
        1 <= i <= 9,
        forall|l: int| 1 <= l <= 9 ==> t.prefix_value(#[trigger] input.take(l)) is None,
    ensures
        spec_escape_key(t, input, 0, i) == (Key::Character(input[0] as char), 9int),
    decreases 10 - i,
{
    assert(input.subrange(0, i) =~= input.take(i));
    if i == 9 {
    } else {
        assert(0 + i < input.len());
        lemma_escape_no_match_walk(t, input, i + 1);
    }
}

/// Feeding the decoder bytes that begin an escape and match nothing in
/// the trie, at any length the decoder will try, yields a character built
/// from the first byte alone, with nine bytes consumed and discarded.
pub proof fn lemma_escape_unmatched(t: Trie<Key>, input: Seq<u8>)
    requires
        input.len() >= 9,
        is_escape_intro(input[0]),
        forall|l: int| 1 <= l <= 9 ==> t.prefix_value(#[trigger] input.take(l)) is None,
    ensures
        spec_read_key(t, input, 0) == Ok::<(Key, int), AmuletError>((
            Key::Character(input[0] as char),
            9int,
        )),
{
    lemma_escape_no_match_walk(t, input, 1);
}

} // verus!
