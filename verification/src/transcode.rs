//! Moving between the two addressings of the pipeline: the lossy UTF-8
//! parse copy of UTF-16 input, with its byte-to-unit map, and UTF-16
//! offsets of UTF-8 byte positions.

use vstd::prelude::*;
use vstd::utf8::{encode_scalar, encode_utf8, is_ascii_chars};

use crate::chars::{lemma_encode_utf8_concat, lemma_encode_utf8_push};
use crate::literal_text::char_from_u32;
use crate::unicode::{
    encode_utf16, encode_utf16_char, is_high_surrogate, is_low_surrogate, lemma_encode_utf16_push,
};

verus! {

/// The character a unit stands for on its own: a lone surrogate becomes
/// U+FFFD.
pub open spec fn unit_char(u: u16) -> char {
    if 0xD800 <= u <= 0xDFFF {
        '\u{FFFD}'
    } else {
        u as char
    }
}

/// The character a surrogate pair encodes.
pub open spec fn pair_char(high: u16, low: u16) -> char {
    (0x10000 + (high - 0xD800) * 0x400 + (low - 0xDC00)) as char
}

/// Whether unit `k` is the low half of a surrogate pair.
pub open spec fn pair_low(units: Seq<u16>, k: int) -> bool {
    1 <= k < units.len() && is_high_surrogate(units[k - 1]) && is_low_surrogate(units[k])
}

/// The characters of UTF-16 units with every unpaired surrogate replaced
/// by U+FFFD.
pub open spec fn lossy_chars(units: Seq<u16>) -> Seq<char>
    decreases units.len(),
{
    if units.len() == 0 {
        seq![]
    } else if pair_low(units, units.len() - 1) {
        lossy_chars(units.take(units.len() - 2)) + seq![
            pair_char(units[units.len() - 2], units[units.len() - 1]),
        ]
    } else {
        lossy_chars(units.drop_last()) + seq![unit_char(units.last())]
    }
}

/// A surrogate pair at `i` extends the lossy characters by its character.
proof fn lemma_lossy_pair_step(units: Seq<u16>, i: int)
    requires
        0 <= i,
        i + 1 < units.len(),
        is_high_surrogate(units[i]),
        is_low_surrogate(units[i + 1]),
    ensures
        lossy_chars(units.take(i + 2)) == lossy_chars(units.take(i)).push(
            pair_char(units[i], units[i + 1]),
        ),
{
    let t = units.take(i + 2);
    assert(pair_low(t, t.len() - 1));
    assert(t.take(t.len() - 2) =~= units.take(i));
    assert(lossy_chars(t) =~= lossy_chars(units.take(i)).push(pair_char(units[i], units[i + 1])));
}

/// A unit at `i` that is no pair's low half, and does not start a pair,
/// extends the lossy characters by its own character.
proof fn lemma_lossy_single_step(units: Seq<u16>, i: int)
    requires
        0 <= i < units.len(),
        !pair_low(units, i),
    ensures
        lossy_chars(units.take(i + 1)) == lossy_chars(units.take(i)).push(unit_char(units[i])),
{
    let t = units.take(i + 1);
    assert(!pair_low(t, t.len() - 1));
    assert(t.drop_last() =~= units.take(i));
    assert(lossy_chars(t) =~= lossy_chars(units.take(i)).push(unit_char(units[i])));
}

/// Append the UTF-8 encoding of `c`.
pub fn push_utf8(out: &mut Vec<u8>, c: char)
    ensures
        final(out)@ == old(out)@ + encode_scalar(c as u32),
{
    proof {
        vstd::utf8::char_is_scalar(c);
    }
    let v = c as u32;
    if v <= 0x7F {
        out.push((v & 0x7F) as u8);
    } else if v <= 0x7FF {
        out.push(0xC0 | ((v >> 6) & 0x1F) as u8);
        out.push(0x80 | (v & 0x3F) as u8);
    } else if v <= 0xFFFF {
        out.push(0xE0 | ((v >> 12) & 0x0F) as u8);
        out.push(0x80 | ((v >> 6) & 0x3F) as u8);
        out.push(0x80 | (v & 0x3F) as u8);
    } else {
        out.push(0xF0 | ((v >> 18) & 0x7) as u8);
        out.push(0x80 | ((v >> 12) & 0x3F) as u8);
        out.push(0x80 | ((v >> 6) & 0x3F) as u8);
        out.push(0x80 | (v & 0x3F) as u8);
    }
    assert(out@ =~= old(out)@ + encode_scalar(c as u32));
}

/// Whether `map` is the byte-to-unit map of the lossy copy of `units`: one
/// entry per unit and one for the end, each the byte offset in the copy
/// where that unit's character starts (a surrogate pair's low half two
/// bytes into the astral character's encoding), strictly increasing.
pub open spec fn is_byte_map(units: Seq<u16>, map: Seq<u32>) -> bool {
    &&& map.len() == units.len() + 1
    &&& forall|k: int|
        0 <= k <= units.len() && !pair_low(units, k) ==> #[trigger] map[k] == encode_utf8(
            lossy_chars(units.take(k)),
        ).len()
    &&& forall|k: int| pair_low(units, k) ==> #[trigger] map[k] == map[k - 1] + 2
    &&& crate::search::strictly_increasing(map)
}

/// Cutting the units where no surrogate pair straddles the cut cuts their
/// lossy characters there too.
pub proof fn lemma_lossy_split(units: Seq<u16>, k: int)
    requires
        0 <= k <= units.len(),
        !pair_low(units, k),
    ensures
        lossy_chars(units) == lossy_chars(units.take(k)) + lossy_chars(units.skip(k)),
    decreases units.len(),
{
    let n = units.len() as int;
    if k == n {
        assert(units.take(k) =~= units);
        assert(units.skip(k) =~= Seq::<u16>::empty());
        assert(lossy_chars(Seq::<u16>::empty()) =~= Seq::<char>::empty());
        assert(lossy_chars(units) + Seq::<char>::empty() =~= lossy_chars(units));
    } else {
        let sfx = units.skip(k);
        if pair_low(units, n - 1) {
            let init = units.take(n - 2);
            assert(k <= n - 2);
            assert(!pair_low(init, k));
            lemma_lossy_split(init, k);
            assert(init.take(k) =~= units.take(k));
            assert(pair_low(sfx, sfx.len() - 1));
            assert(sfx.take(sfx.len() - 2) =~= init.skip(k));
            assert(sfx[sfx.len() - 2] == units[n - 2] && sfx[sfx.len() - 1] == units[n - 1]);
        } else {
            let init = units.drop_last();
            assert(!pair_low(init, k));
            lemma_lossy_split(init, k);
            assert(init.take(k) =~= units.take(k));
            assert(!pair_low(sfx, sfx.len() - 1));
            assert(sfx.drop_last() =~= init.skip(k));
            assert(sfx.last() == units.last());
        }
    }
}

/// The lossy UTF-8 copy of UTF-16 input the parser reads, and the map from
/// each unit (and the end) to its byte offset in the copy. A surrogate
/// pair's low half maps two bytes into the astral character's encoding; no
/// span boundary can land there.
#[verifier::rlimit(30)]
pub fn lossy_copy(units: &[u16]) -> (r: (String, Vec<u32>))
    requires
        encode_utf8(lossy_chars(units@)).len() <= u32::MAX,
    ensures
        r.0@ == lossy_chars(units@),
        is_byte_map(units@, r.1@),
        r.1@[units@.len() as int] == encode_utf8(lossy_chars(units@)).len(),
{
    let mut copy: Vec<u8> = Vec::new();
    let mut byte_to_unit: Vec<u32> = Vec::new();
    let mut index: usize = 0;
    let len = units.len();
    proof {
        assert(units@.take(0) =~= Seq::<u16>::empty());
    }
    while index < len
        invariant
            len == units@.len(),
            encode_utf8(lossy_chars(units@)).len() <= u32::MAX,
            index <= len,
            !pair_low(units@, index as int),
            copy@ == encode_utf8(lossy_chars(units@.take(index as int))),
            copy@.len() <= encode_utf8(lossy_chars(units@)).len(),
            byte_to_unit@.len() == index,
            forall|k: int|
                0 <= k < index && !pair_low(units@, k) ==> #[trigger] byte_to_unit@[k]
                    == encode_utf8(lossy_chars(units@.take(k))).len(),
            forall|k: int| 0 <= k < index && pair_low(units@, k) ==> #[trigger] byte_to_unit@[k] == byte_to_unit@[k - 1] + 2,
            crate::search::strictly_increasing(byte_to_unit@),
            index > 0 ==> byte_to_unit@[index - 1] < copy@.len(),
        decreases len - index,
    {
        let ghost before = copy@;
        let ghost done = units@.take(index as int);
        byte_to_unit.push(copy.len() as u32);
        let unit = units[index];
        let is_high = 0xD800 <= unit && unit < 0xDC00;
        let next_low = index + 1 < len && 0xDC00 <= units[index + 1] && units[index + 1] < 0xE000;
        if is_high && next_low {
            let low = units[index + 1];
            let code = 0x10000 + ((unit - 0xD800) as u32) * 0x400 + (low - 0xDC00) as u32;
            let c = char_from_u32(code).unwrap();
            proof {
                vstd::utf8::char_u32_cast(c, code);
                assert(c == pair_char(unit, low));
                lemma_lossy_pair_step(units@, index as int);
                lemma_encode_utf8_push(lossy_chars(done), c);
            }
            push_utf8(&mut copy, c);
            proof {
                vstd::utf8::char_is_scalar(c);
                assert(encode_scalar(c as u32).len() == 4);
            }
            byte_to_unit.push((copy.len() - 2) as u32);
            index += 2;
        } else {
            let c = if unit == 0x0A || unit == 0x0D {
                unit as u8 as char
            } else {
                match char_from_u32(unit as u32) {
                    Some(c) => c,
                    None => '\u{FFFD}',
                }
            };
            proof {
                if !(0xD800 <= unit <= 0xDFFF) && unit != 0x0A && unit != 0x0D {
                    vstd::utf8::char_u32_cast(c, unit as u32);
                }
                assert(c == unit_char(unit));
                lemma_lossy_single_step(units@, index as int);
                lemma_encode_utf8_push(lossy_chars(done), c);
            }
            push_utf8(&mut copy, c);
            proof {
                vstd::utf8::char_is_scalar(c);
                assert(encode_scalar(c as u32).len() >= 1);
            }
            index += 1;
        }
        proof {
            lemma_lossy_split(units@, index as int);
            crate::chars::lemma_encode_utf8_concat(
                lossy_chars(units@.take(index as int)),
                lossy_chars(units@.skip(index as int)),
            );
            assert forall|k: int|
                0 <= k < index && !pair_low(units@, k) implies #[trigger] byte_to_unit@[k]
                    == encode_utf8(lossy_chars(units@.take(k))).len() by {
                if k == before.len() {
                }
            }
        }
    }
    byte_to_unit.push(copy.len() as u32);
    proof {
        assert(units@.take(len as int) =~= units@);
        vstd::utf8::encode_utf8_valid_utf8(lossy_chars(units@));
        vstd::utf8::encode_utf8_decode_utf8(lossy_chars(units@));
    }
    let parse_copy = crate::unicode::string_from_utf8(copy).unwrap();
    (parse_copy, byte_to_unit)
}

/// The number of leading characters of `s` whose UTF-8 encoding ends at or
/// before byte `b`.
pub open spec fn chars_before(s: Seq<char>, b: int) -> nat
    decreases s.len(),
{
    if s.len() == 0 || encode_utf8(s).len() <= b {
        s.len()
    } else {
        chars_before(s.drop_last(), b)
    }
}

/// A longer prefix never has a shorter encoding.
proof fn lemma_prefix_bytes_monotone(s: Seq<char>, j: int, k: int)
    requires
        0 <= j <= k <= s.len(),
    ensures
        encode_utf8(s.take(j)).len() <= encode_utf8(s.take(k)).len(),
{
    lemma_encode_utf8_concat(s.take(j), s.subrange(j, k));
    assert(s.take(j) + s.subrange(j, k) =~= s.take(k));
}

/// [`chars_before`] is the last prefix that still fits.
pub proof fn lemma_chars_before(s: Seq<char>, b: int, k: int)
    requires
        0 <= k <= s.len(),
        encode_utf8(s.take(k)).len() <= b,
        k == s.len() || encode_utf8(s.take(k + 1)).len() > b,
    ensures
        chars_before(s, b) == k,
    decreases s.len(),
{
    if s.len() == 0 || encode_utf8(s).len() <= b {
        if k < s.len() {
            lemma_prefix_bytes_monotone(s, k + 1, s.len() as int);
            assert(s.take(s.len() as int) =~= s);
        }
    } else {
        assert(s.take(s.len() as int) =~= s);
        let d = s.drop_last();
        assert(k < s.len());
        assert(d.take(k) =~= s.take(k));
        if k + 1 < s.len() {
            assert(d.take(k + 1) =~= s.take(k + 1));
        }
        lemma_chars_before(d, b, k);
    }
}

/// The JS string index (UTF-16 units) of UTF-8 byte position
/// `byte_offset`: for ASCII input the same number, otherwise the UTF-16
/// length of the characters that end at or before it.
pub fn utf16_offset(input: &str, byte_offset: u32) -> (r: u32)
    ensures
        is_ascii_chars(input@) ==> r == byte_offset,
        !is_ascii_chars(input@) ==> r == encode_utf16(
            input@.take(chars_before(input@, byte_offset as int) as int),
        ).len(),
{
    if input.is_ascii() {
        return byte_offset;
    }
    let (chars, offsets) = crate::chars::chars_with_offsets(input);
    let ghost s = input@;
    let bound = byte_offset as usize;
    let mut k: usize = 0;
    proof {
        assert(s.take(0) =~= Seq::<char>::empty());
    }
    while k < chars.len() && offsets[k + 1] <= bound
        invariant
            chars@ == s,
            offsets@.len() == s.len() + 1,
            forall|i: int| 0 <= i <= s.len() ==> #[trigger] offsets@[i] == encode_utf8(s.take(i)).len(),
            bound == byte_offset,
            k <= s.len(),
            offsets@[k as int] <= bound,
        decreases s.len() - k,
    {
        k += 1;
    }
    proof {
        lemma_chars_before(s, byte_offset as int, k as int);
    }
    let mut total: u32 = 0;
    let mut i: usize = 0;
    while i < k
        invariant
            chars@ == s,
            k <= s.len(),
            encode_utf8(s.take(k as int)).len() <= byte_offset,
            i <= k,
            total == encode_utf16(s.take(i as int)).len(),
            total <= encode_utf8(s.take(i as int)).len(),
        decreases k - i,
    {
        let c = chars[i];
        proof {
            assert(s.take(i + 1) =~= s.take(i as int).push(c));
            lemma_encode_utf16_push(s.take(i as int), c);
            lemma_encode_utf8_push(s.take(i as int), c);
            lemma_prefix_bytes_monotone(s, i + 1, k as int);
            vstd::utf8::char_is_scalar(c);
        }
        if c as u32 >= 0x10000 {
            total = total + 2;
        } else {
            total = total + 1;
        }
        i += 1;
    }
    total
}

} // verus!
