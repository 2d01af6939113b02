//! UTF-16 encoding and decoding specifications.

use vstd::prelude::*;
use vstd::utf8::{decode_utf8, encode_utf8, valid_utf8};

verus! {

/// Whether `u` is a UTF-16 high (leading) surrogate unit.
pub open spec fn is_high_surrogate(u: u16) -> bool {
    0xD800 <= u <= 0xDBFF
}

/// Whether `u` is a UTF-16 low (trailing) surrogate unit.
pub open spec fn is_low_surrogate(u: u16) -> bool {
    0xDC00 <= u <= 0xDFFF
}

/// The UTF-16 encoding of one character.
pub open spec fn encode_utf16_char(c: char) -> Seq<u16> {
    let v = c as u32;
    if v < 0x10000 {
        seq![v as u16]
    } else {
        seq![(0xD800 + (v - 0x10000) / 0x400) as u16, (0xDC00 + (v - 0x10000) % 0x400) as u16]
    }
}

/// The UTF-16 encoding of a character sequence.
pub open spec fn encode_utf16(cs: Seq<char>) -> Seq<u16>
    decreases cs.len(),
{
    if cs.len() == 0 {
        seq![]
    } else {
        encode_utf16_char(cs[0]) + encode_utf16(cs.drop_first())
    }
}

/// Whether a unit sequence is well-formed UTF-16: every high surrogate is
/// directly followed by a low surrogate, and no low surrogate stands alone.
pub open spec fn valid_utf16(u: Seq<u16>) -> bool
    decreases u.len(),
{
    if u.len() == 0 {
        true
    } else if is_high_surrogate(u[0]) {
        u.len() >= 2 && is_low_surrogate(u[1]) && valid_utf16(u.skip(2))
    } else if is_low_surrogate(u[0]) {
        false
    } else {
        valid_utf16(u.skip(1))
    }
}

/// The characters a well-formed UTF-16 sequence encodes.
pub open spec fn decode_utf16(u: Seq<u16>) -> Seq<char>
    decreases u.len(),
{
    if u.len() == 0 {
        seq![]
    } else if u.len() >= 2 && is_high_surrogate(u[0]) && is_low_surrogate(u[1]) {
        seq![(0x10000 + (u[0] - 0xD800) * 0x400 + (u[1] - 0xDC00)) as char]
            + decode_utf16(u.skip(2))
    } else {
        seq![u[0] as char] + decode_utf16(u.skip(1))
    }
}

/// Encoding distributes over appending one character.
pub proof fn lemma_encode_utf16_push(cs: Seq<char>, c: char)
    ensures
        encode_utf16(cs.push(c)) == encode_utf16(cs) + encode_utf16_char(c),
    decreases cs.len(),
{
    if cs.len() == 0 {
        assert(cs.push(c).drop_first() =~= Seq::<char>::empty());
        assert(cs.push(c)[0] == c);
        assert(encode_utf16(Seq::<char>::empty()) == Seq::<u16>::empty());
        assert(encode_utf16(cs.push(c)) =~= encode_utf16_char(c) + encode_utf16(Seq::<char>::empty()));
        assert(encode_utf16(cs) =~= Seq::<u16>::empty());
    } else {
        lemma_encode_utf16_push(cs.drop_first(), c);
        assert(cs.push(c).drop_first() =~= cs.drop_first().push(c));
        assert(encode_utf16(cs.push(c)) =~= encode_utf16(cs) + encode_utf16_char(c));
    }
}

/// Encoding distributes over concatenation.
pub proof fn lemma_encode_utf16_concat(a: Seq<char>, b: Seq<char>)
    ensures
        encode_utf16(a + b) == encode_utf16(a) + encode_utf16(b),
    decreases b.len(),
{
    if b.len() == 0 {
        assert(a + b =~= a);
        assert(encode_utf16(b) =~= Seq::<u16>::empty());
        assert(encode_utf16(a) + encode_utf16(b) =~= encode_utf16(a));
    } else {
        let init = b.drop_last();
        let c = b.last();
        lemma_encode_utf16_concat(a, init);
        assert(a + b =~= (a + init).push(c));
        assert(b =~= init.push(c));
        lemma_encode_utf16_push(a + init, c);
        lemma_encode_utf16_push(init, c);
        assert(encode_utf16(a + b) =~= encode_utf16(a) + encode_utf16(b));
    }
}

/// A nonempty character sequence encodes to nonempty UTF-16.
pub proof fn lemma_encode_utf16_nonempty(cs: Seq<char>)
    requires
        cs.len() > 0,
    ensures
        encode_utf16(cs).len() > 0,
        encode_utf16(cs)[0] == encode_utf16_char(cs[0])[0],
{
    assert(encode_utf16(cs) == encode_utf16_char(cs[0]) + encode_utf16(cs.drop_first()));
}

/// The UTF-16 units of `s`.
pub fn encode_utf16_units(s: &str) -> (units: Vec<u16>)
    ensures
        units@ == encode_utf16(s@),
{
    let mut units: Vec<u16> = Vec::new();
    let ghost chars = s@;
    for c in it: s.chars()
        invariant
            it.seq() == chars,
            units@ == encode_utf16(chars.take(it.index() as int)),
    {
        let v = c as u32;
        proof {
            lemma_encode_utf16_push(chars.take(it.index() as int), c);
            assert(chars.take(it.index() + 1) =~= chars.take(it.index() as int).push(c));
        }
        if v < 0x10000 {
            units.push(v as u16);
        } else {
            let w = v - 0x10000;
            units.push((0xD800 + w / 0x400) as u16);
            units.push((0xDC00 + w % 0x400) as u16);
        }
    }
    proof {
        assert(chars.take(chars.len() as int) =~= chars);
    }
    units
}

/// `String::from_utf16`: per its documentation it decodes a UTF-16 vector
/// into a string and fails exactly when the vector holds invalid data (an
/// unpaired surrogate). Claimed here: `Some` exactly on well-formed input,
/// holding the decoded characters.
#[verifier::external_body]
pub(crate) fn string_from_utf16(units: &[u16]) -> (res: Option<String>)
    ensures
        res is Some <==> valid_utf16(units@),
        res matches Some(s) ==> s@ == decode_utf16(units@),
{
    String::from_utf16(units).ok()
}

/// `String::from_utf8`: per its documentation it converts a byte vector to
/// a string and fails exactly when the bytes are not valid UTF-8. Claimed
/// here: `Some` exactly on well-formed input, holding the decoded characters.
#[verifier::external_body]
pub(crate) fn string_from_utf8(bytes: Vec<u8>) -> (res: Option<String>)
    ensures
        res is Some <==> valid_utf8(bytes@),
        res matches Some(s) ==> s@ == decode_utf8(bytes@),
{
    String::from_utf8(bytes).ok()
}

/// `String::into_bytes`: per its documentation it hands back the string's
/// own UTF-8 byte vector without copying. Claimed here: the bytes are the
/// UTF-8 encoding of the string's characters.
#[verifier::external_body]
pub(crate) fn string_into_bytes(s: String) -> (bytes: Vec<u8>)
    ensures
        bytes@ == encode_utf8(s@),
{
    s.into_bytes()
}

} // verus!
