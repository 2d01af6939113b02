//! The two build paths agree: applying an edit list to UTF-8 text and
//! reading the result as UTF-16 gives exactly what applying it to the
//! text's UTF-16 units gives, offsets mapped through the parse copy's
//! byte-to-unit map.

use vstd::prelude::*;
use vstd::utf8::{
    decode_utf8, encode_scalar, encode_utf8, encode_utf8_decode_utf8, encode_utf8_first_scalar,
    encode_utf8_valid_utf8, is_char_boundary, pop_first_scalar, valid_utf8,
};

use crate::blank_string::{
    blank_bytes, blank_char, blank_chars, blank_units, blanked_span, clipped_start, edited_bytes,
    edited_units, edits_fit, edits_prefix, is_marker, lemma_blank_bytes_ascii,
    lemma_blanked_run_keeps_positions, lemma_decode_concat, lemma_fit_prefix, marker_byte,
    marker_unit, prev_end, unit_clip, units_fit, units_prefix, REPLACE_WITH_CLOSE_PAREN,
    REPLACE_WITH_OPEN_PAREN, REPLACE_WITH_TEXT,
};
use crate::chars::{lemma_encode_utf8_concat, lemma_encode_utf8_push};
use crate::search::{count_below, lemma_count_below_monotone, lemma_count_below_split};
use crate::utf8_lemmas::{lemma_ascii_valid, lemma_valid_concat};
use crate::transcode::{is_byte_map, lossy_chars, pair_char, pair_low, unit_char};
use crate::unicode::{
    decode_utf16, encode_utf16, encode_utf16_char, is_high_surrogate, is_low_surrogate,
    lemma_encode_utf16_concat, lemma_encode_utf16_push, valid_utf16,
};

verus! {

/// The UTF-16 units a blanked character writes are the blanked units of
/// the character.
proof fn lemma_blank_char_units(c: char)
    ensures
        encode_utf16(blank_char(c)) == blank_units(encode_utf16_char(c)),
{
    let v = c as u32;
    lemma_encode_utf16_push(Seq::<char>::empty(), c);
    assert(seq![c] =~= Seq::<char>::empty().push(c));
    lemma_encode_utf16_push(Seq::<char>::empty(), ' ');
    assert(seq![' '] =~= Seq::<char>::empty().push(' '));
    lemma_encode_utf16_push(seq![' '], ' ');
    assert(seq![' ', ' '] =~= seq![' '].push(' '));
    assert(encode_utf16(Seq::<char>::empty()) =~= Seq::<u16>::empty());
    if c == '\n' || c == '\r' {
        assert(encode_utf16(seq![c]) =~= encode_utf16_char(c));
        assert(blank_units(encode_utf16_char(c)) =~= encode_utf16_char(c));
    } else if v < 0x10000 {
        vstd::utf8::char_u32_cast(c, v);
        assert(v as u16 != 0x0A && v as u16 != 0x0D);
        assert(blank_units(encode_utf16_char(c)) =~= seq![0x20u16]);
        assert(encode_utf16(seq![' ']) =~= seq![0x20u16]);
    } else {
        let hi = (0xD800 + (v - 0x10000) / 0x400) as u16;
        let lo = (0xDC00 + (v - 0x10000) % 0x400) as u16;
        assert(hi >= 0xD800 && lo >= 0xDC00);
        assert(blank_units(encode_utf16_char(c)) =~= seq![0x20u16, 0x20u16]);
        assert(encode_utf16(seq![' ', ' ']) =~= seq![0x20u16, 0x20u16]);
    }
}

/// Blanking characters and blanking their UTF-16 units agree.
pub proof fn lemma_blank_chars_units(cs: Seq<char>)
    ensures
        encode_utf16(blank_chars(cs)) == blank_units(encode_utf16(cs)),
    decreases cs.len(),
{
    if cs.len() == 0 {
        assert(blank_chars(cs) =~= Seq::<char>::empty());
        assert(encode_utf16(cs) =~= Seq::<u16>::empty());
        assert(blank_units(Seq::<u16>::empty()) =~= Seq::<u16>::empty());
    } else {
        let init = cs.drop_last();
        let c = cs.last();
        lemma_blank_chars_units(init);
        lemma_blank_char_units(c);
        assert(cs =~= init.push(c));
        lemma_encode_utf16_push(init, c);
        lemma_encode_utf16_concat(blank_chars(init), blank_char(c));
        assert(blank_units(encode_utf16(init) + encode_utf16_char(c)) =~= blank_units(
            encode_utf16(init),
        ) + blank_units(encode_utf16_char(c)));
    }
}

/// A character's encoding never ends on a high surrogate, and a BMP
/// character's single unit is no surrogate at all.
pub(crate) proof fn lemma_char_units_shape(c: char)
    ensures
        !is_high_surrogate(encode_utf16_char(c).last()),
        (c as u32) < 0x10000 ==> encode_utf16_char(c) == seq![(c as u32) as u16]
            && !is_low_surrogate((c as u32) as u16),
        (c as u32) >= 0x10000 ==> encode_utf16_char(c).len() == 2
            && is_high_surrogate(encode_utf16_char(c)[0])
            && is_low_surrogate(encode_utf16_char(c)[1])
            && pair_char(encode_utf16_char(c)[0], encode_utf16_char(c)[1]) == c,
{
    vstd::utf8::char_is_scalar(c);
    let v = c as u32;
    if v >= 0x10000 {
        let x = (v - 0x10000) as int;
        assert(x == 0x400 * (x / 0x400) + x % 0x400) by {
            vstd::arithmetic::div_mod::lemma_fundamental_div_mod(x, 0x400);
        }
        assert(x / 0x400 < 0x400);
        let hi = (0xD800 + x / 0x400) as u16;
        let lo = (0xDC00 + x % 0x400) as u16;
        assert(hi - 0xD800 == x / 0x400);
        assert(lo - 0xDC00 == x % 0x400);
        assert(0x10000 + (hi - 0xD800) * 0x400 + (lo - 0xDC00) == v);
        vstd::utf8::char_u32_cast(c, v);
    }
}

/// The lossy reading of a character sequence's own UTF-16 units gives the
/// characters back.
pub proof fn lemma_lossy_of_encoded(t: Seq<char>)
    ensures
        lossy_chars(encode_utf16(t)) == t,
    decreases t.len(),
{
    if t.len() == 0 {
        assert(encode_utf16(t) =~= Seq::<u16>::empty());
    } else {
        let init = t.drop_last();
        let c = t.last();
        lemma_lossy_of_encoded(init);
        assert(t =~= init.push(c));
        lemma_encode_utf16_push(init, c);
        lemma_char_units_shape(c);
        let e = encode_utf16(init);
        let u = encode_utf16(t);
        let v = c as u32;
        if v < 0x10000 {
            assert(u =~= e.push(v as u16));
            assert(!pair_low(u, u.len() - 1));
            assert(u.drop_last() =~= e);
            vstd::utf8::char_u32_cast(c, v);
            assert(unit_char(v as u16) == c);
        } else {
            assert(u.len() == e.len() + 2);
            assert(u[u.len() - 2] == encode_utf16_char(c)[0]);
            assert(u[u.len() - 1] == encode_utf16_char(c)[1]);
            assert(pair_low(u, u.len() - 1));
            assert(u.take(u.len() - 2) =~= e);
        }
    }
}

/// Well-formed UTF-16 decodes and re-encodes to itself.
pub proof fn lemma_utf16_round_trip(u: Seq<u16>)
    requires
        valid_utf16(u),
    ensures
        encode_utf16(decode_utf16(u)) == u,
    decreases u.len(),
{
    if u.len() > 0 {
        let d = decode_utf16(u);
        if u.len() >= 2 && is_high_surrogate(u[0]) && is_low_surrogate(u[1]) {
            let hi = u[0];
            let lo = u[1];
            let x = ((hi - 0xD800) * 0x400 + (lo - 0xDC00)) as int;
            let c = (0x10000 + x) as char;
            assert(0 <= x < 0x100000);
            assert((x / 0x400) == hi - 0xD800 && x % 0x400 == lo - 0xDC00) by {
                vstd::arithmetic::div_mod::lemma_fundamental_div_mod_converse(
                    x,
                    0x400,
                    (hi - 0xD800) as int,
                    (lo - 0xDC00) as int,
                );
            }
            assert((c as u32) == 0x10000 + x);
            assert(encode_utf16_char(c) =~= seq![hi, lo]);
            lemma_utf16_round_trip(u.skip(2));
            assert(d == seq![c] + decode_utf16(u.skip(2)));
            lemma_encode_utf16_concat(seq![c], decode_utf16(u.skip(2)));
            lemma_encode_utf16_push(Seq::<char>::empty(), c);
            assert(seq![c] =~= Seq::<char>::empty().push(c));
            assert(encode_utf16(Seq::<char>::empty()) =~= Seq::<u16>::empty());
            assert(u =~= seq![hi, lo] + u.skip(2));
        } else {
            let c = u[0] as char;
            assert(!is_high_surrogate(u[0]) && !is_low_surrogate(u[0]));
            assert((c as u32) == u[0]);
            assert(encode_utf16_char(c) =~= seq![u[0]]);
            lemma_utf16_round_trip(u.skip(1));
            assert(d == seq![c] + decode_utf16(u.skip(1)));
            lemma_encode_utf16_concat(seq![c], decode_utf16(u.skip(1)));
            lemma_encode_utf16_push(Seq::<char>::empty(), c);
            assert(seq![c] =~= Seq::<char>::empty().push(c));
            assert(encode_utf16(Seq::<char>::empty()) =~= Seq::<u16>::empty());
            assert(u =~= seq![u[0]] + u.skip(1));
        }
    } else {
        assert(decode_utf16(u) =~= Seq::<char>::empty());
        assert(encode_utf16(Seq::<char>::empty()) =~= Seq::<u16>::empty());
    }
}

/// The number of leading characters of `text` whose UTF-8 encoding ends at
/// byte `b` (meaningful where `b` is a character boundary).
pub open spec fn char_index(text: Seq<char>, b: int) -> int {
    choose|j: int| 0 <= j <= text.len() && encode_utf8(text.take(j)).len() == b
}

/// Every character boundary of encoded text ends some prefix of its
/// characters.
proof fn lemma_boundary_has_index(text: Seq<char>, b: int)
    requires
        is_char_boundary(encode_utf8(text), b),
    ensures
        0 <= char_index(text, b) <= text.len(),
        encode_utf8(text.take(char_index(text, b))).len() == b,
    decreases text.len(),
{
    let bytes = encode_utf8(text);
    encode_utf8_valid_utf8(text);
    if b == 0 {
        assert(text.take(0) =~= Seq::<char>::empty());
        assert(encode_utf8(Seq::<char>::empty()) =~= Seq::<u8>::empty());
        assert(encode_utf8(text.take(0)).len() == 0);
    } else {
        assert(0 < b <= bytes.len());
        if text.len() == 0 {
            assert(bytes =~= Seq::<u8>::empty());
        }
        encode_utf8_first_scalar(text);
        let rest = text.drop_first();
        assert(pop_first_scalar(bytes) =~= encode_utf8(rest));
        let w = encode_scalar(text[0] as u32).len() as int;
        assert(is_char_boundary(encode_utf8(rest), b - w));
        lemma_boundary_has_index(rest, b - w);
        let j = char_index(rest, b - w);
        let t = text.take(j + 1);
        assert(t[0] == text[0]);
        assert(t.drop_first() =~= rest.take(j));
        assert(encode_utf8(t) == encode_scalar(t[0] as u32) + encode_utf8(t.drop_first()));
        assert(encode_utf8(t).len() == b);
    }
}

/// Splitting text at two character indices splits both its encodings.
proof fn lemma_take_split(text: Seq<char>, j1: int, j2: int)
    requires
        0 <= j1 <= j2 <= text.len(),
    ensures
        encode_utf8(text.take(j2)) == encode_utf8(text.take(j1)) + encode_utf8(
            text.subrange(j1, j2),
        ),
        encode_utf16(text.take(j2)) == encode_utf16(text.take(j1)) + encode_utf16(
            text.subrange(j1, j2),
        ),
        encode_utf8(text) == encode_utf8(text.take(j2)) + encode_utf8(text.skip(j2)),
        encode_utf16(text) == encode_utf16(text.take(j2)) + encode_utf16(text.skip(j2)),
        j1 < j2 ==> encode_utf8(text.take(j1)).len() < encode_utf8(text.take(j2)).len(),
        j1 < j2 ==> encode_utf16(text.take(j1)).len() < encode_utf16(text.take(j2)).len(),
{
    let sub = text.subrange(j1, j2);
    assert(text.take(j2) =~= text.take(j1) + sub);
    assert(text =~= text.take(j2) + text.skip(j2));
    lemma_encode_utf8_concat(text.take(j1), sub);
    lemma_encode_utf16_concat(text.take(j1), sub);
    lemma_encode_utf8_concat(text.take(j2), text.skip(j2));
    lemma_encode_utf16_concat(text.take(j2), text.skip(j2));
    if j1 < j2 {
        crate::unicode::lemma_encode_utf16_nonempty(sub);
        assert(encode_utf8(sub) == encode_scalar(sub[0] as u32) + encode_utf8(sub.drop_first()));
    }
}

/// The map entry at the unit where a prefix of the characters ends is
/// that prefix's byte length, so the units below that byte offset are
/// exactly the prefix's units.
proof fn lemma_count_below_at(text: Seq<char>, map: Seq<u32>, j: int, b: u32)
    requires
        is_byte_map(encode_utf16(text), map),
        0 <= j <= text.len(),
        encode_utf8(text.take(j)).len() == b,
    ensures
        count_below(map, b) == encode_utf16(text.take(j)).len(),
{
    let units = encode_utf16(text);
    let pre = encode_utf16(text.take(j));
    let u = pre.len() as int;
    lemma_take_split(text, j, j);
    assert(units.take(u) =~= pre);
    if 1 <= u < units.len() {
        let c = text[j - 1];
        assert(text.take(j) =~= text.take(j - 1).push(c));
        lemma_encode_utf16_push(text.take(j - 1), c);
        lemma_char_units_shape(c);
        assert(units[u - 1] == encode_utf16_char(c).last());
        assert(!pair_low(units, u));
    }
    lemma_lossy_of_encoded(text.take(j));
    assert(map[u] == b);
    assert forall|i: int| 0 <= i < u implies map[i] < b by {
        assert(map[i] < map[u]);
    }
    assert forall|i: int| u <= i < map.len() implies map[i] >= b by {
        if i > u {
            assert(map[u] < map[i]);
        }
    }
    lemma_count_below_split(map, b, u);
}

/// Between two character boundaries, the bytes and the units (found
/// through the map) encode the same characters.
proof fn lemma_segment(text: Seq<char>, map: Seq<u32>, j1: int, j2: int, p: u32, q: u32)
    requires
        is_byte_map(encode_utf16(text), map),
        0 <= j1 <= j2 <= text.len(),
        encode_utf8(text.take(j1)).len() == p,
        encode_utf8(text.take(j2)).len() == q,
    ensures
        count_below(map, p) == encode_utf16(text.take(j1)).len(),
        count_below(map, q) == encode_utf16(text.take(j2)).len(),
        count_below(map, p) <= count_below(map, q) <= encode_utf16(text).len(),
        encode_utf8(text).subrange(p as int, q as int) == encode_utf8(text.subrange(j1, j2)),
        encode_utf16(text).subrange(count_below(map, p), count_below(map, q)) == encode_utf16(
            text.subrange(j1, j2),
        ),
{
    lemma_count_below_at(text, map, j1, p);
    lemma_count_below_at(text, map, j2, q);
    lemma_take_split(text, j1, j2);
    let sub = text.subrange(j1, j2);
    assert(encode_utf8(text).subrange(p as int, q as int) =~= encode_utf8(sub));
    assert(encode_utf16(text).subrange(count_below(map, p), count_below(map, q)) =~= encode_utf16(
        sub,
    ));
}

/// An ASCII byte at a character boundary is a whole one-unit character.
proof fn lemma_ascii_head(text: Seq<char>, j: int)
    requires
        0 <= j < text.len(),
        encode_utf8(text)[encode_utf8(text.take(j)).len() as int] < 0x80,
    ensures
        encode_utf8(text.take(j + 1)).len() == encode_utf8(text.take(j)).len() + 1,
        encode_utf16(text.take(j + 1)).len() == encode_utf16(text.take(j)).len() + 1,
{
    let c = text[j];
    let v = c as u32;
    vstd::utf8::char_is_scalar(c);
    assert(text.take(j + 1) =~= text.take(j).push(c));
    lemma_encode_utf8_push(text.take(j), c);
    lemma_encode_utf16_push(text.take(j), c);
    lemma_take_split(text, j + 1, j + 1);
    let n = encode_utf8(text.take(j)).len() as int;
    assert(encode_utf8(text)[n] == encode_scalar(v)[0]);
    if v > 0x7F {
        if v <= 0x7FF {
            assert((0xC0 | ((v >> 6) & 0x1F) as u8) as u8 >= 0xC0) by (bit_vector);
        } else if v <= 0xFFFF {
            assert((0xE0 | ((v >> 12) & 0x0F) as u8) as u8 >= 0xE0) by (bit_vector);
        } else {
            assert((0xF0 | ((v >> 18) & 0x7) as u8) as u8 >= 0xF0) by (bit_vector);
        }
        assert(false);
    }
}

/// The text reading of empty bytes is empty, and so are its units.
proof fn lemma_empty_units()
    ensures
        decode_utf8(Seq::<u8>::empty()) == Seq::<char>::empty(),
        encode_utf16(Seq::<char>::empty()) == Seq::<u16>::empty(),
        vstd::utf8::valid_utf8(Seq::<u8>::empty()),
{
    encode_utf8_decode_utf8(Seq::<char>::empty());
    encode_utf8_valid_utf8(Seq::<char>::empty());
    assert(encode_utf8(Seq::<char>::empty()) =~= Seq::<u8>::empty());
    assert(encode_utf16(Seq::<char>::empty()) =~= Seq::<u16>::empty());
}

/// A marker byte reads as its marker unit.
proof fn lemma_marker_units(flags: u8)
    requires
        is_marker(flags),
    ensures
        vstd::utf8::valid_utf8(seq![marker_byte(flags)]),
        encode_utf16(decode_utf8(seq![marker_byte(flags)])) == seq![marker_unit(flags)],
{
    let c = if flags == REPLACE_WITH_OPEN_PAREN {
        '('
    } else if flags == REPLACE_WITH_CLOSE_PAREN {
        ')'
    } else {
        ';'
    };
    let v = c as u32;
    assert(v == marker_byte(flags) as u32);
    assert(v <= 0x7F);
    assert((v & 0x7F) as u8 == v as u8) by (bit_vector)
        requires
            v <= 0x7F,
    ;
    let one = seq![c];
    assert(one.drop_first() =~= Seq::<char>::empty());
    assert(encode_utf8(one) == encode_scalar(v) + encode_utf8(one.drop_first()));
    assert(encode_utf8(Seq::<char>::empty()) =~= Seq::<u8>::empty());
    assert(encode_utf8(one) =~= seq![marker_byte(flags)]);
    encode_utf8_decode_utf8(one);
    encode_utf8_valid_utf8(one);
    lemma_encode_utf16_push(Seq::<char>::empty(), c);
    assert(one =~= Seq::<char>::empty().push(c));
    assert(encode_utf16(Seq::<char>::empty()) =~= Seq::<u16>::empty());
    assert(encode_utf16(one) =~= seq![marker_unit(flags)]);
}

/// A marker byte is well-formed UTF-8 and reads as its marker unit.
pub proof fn lemma_marker_units_pub(flags: u8)
    requires
        is_marker(flags),
    ensures
        vstd::utf8::valid_utf8(seq![marker_byte(flags)]),
        encode_utf16(decode_utf8(seq![marker_byte(flags)])) == seq![marker_unit(flags)],
{
    lemma_marker_units(flags);
}

/// A blanked segment between two character boundaries reads, in units, as
/// the blanked units of that segment.
proof fn lemma_blanked_segment(text: Seq<char>, map: Seq<u32>, j1: int, j2: int, p: u32, q: u32)
    requires
        is_byte_map(encode_utf16(text), map),
        0 <= j1 <= j2 <= text.len(),
        encode_utf8(text.take(j1)).len() == p,
        encode_utf8(text.take(j2)).len() == q,
    ensures
        vstd::utf8::valid_utf8(blanked_span(encode_utf8(text), p as int, q as int)),
        encode_utf16(decode_utf8(blanked_span(encode_utf8(text), p as int, q as int)))
            == blank_units(
            encode_utf16(text).subrange(count_below(map, p), count_below(map, q)),
        ),
{
    let bytes = encode_utf8(text);
    lemma_segment(text, map, j1, j2, p, q);
    lemma_take_split(text, j1, j2);
    let sub = text.subrange(j1, j2);
    let span = blanked_span(bytes, p as int, q as int);
    lemma_blank_bytes_ascii(bytes.subrange(p as int, q as int));
    lemma_ascii_valid(blank_bytes(bytes.subrange(p as int, q as int)));
    lemma_empty_units();
    if p < q {
        lemma_blanked_run_keeps_positions(sub);
        assert(span == encode_utf8(blank_chars(sub)));
        encode_utf8_decode_utf8(blank_chars(sub));
        lemma_blank_chars_units(sub);
    } else {
        assert(j1 == j2);
        assert(sub =~= Seq::<char>::empty());
        assert(span =~= Seq::<u8>::empty());
        assert(blank_units(Seq::<u16>::empty()) =~= Seq::<u16>::empty());
    }
}

/// The first `n` edits agree on both paths: the UTF-8 output built so far,
/// followed by the input from the previous end up to any later character
/// boundary, reads in units as the UTF-16 output built so far followed by
/// the units between the two offsets; and both stop at the same previous
/// end.
#[verifier::rlimit(60)]
#[verifier::spinoff_prover]
proof fn lemma_prefix_agrees(
    text: Seq<char>,
    map: Seq<u32>,
    edits: Seq<(u8, u32, u32, u32)>,
    texts: Seq<Seq<u16>>,
    n: nat,
)
    requires
        edits_fit(encode_utf8(text), edits, texts),
        units_fit(encode_utf16(text), map, edits, texts),
        is_byte_map(encode_utf16(text), map),
        n <= edits.len(),
    ensures
        edits_prefix(encode_utf8(text), edits, texts, n).1 == prev_end(edits, n as int),
        forall|b: u32|
            prev_end(edits, n as int) <= b <= encode_utf8(text).len() && #[trigger] is_char_boundary(
                encode_utf8(text),
                b as int,
            ) ==> encode_utf16(
                decode_utf8(
                    edits_prefix(encode_utf8(text), edits, texts, n).0 + encode_utf8(text).subrange(
                        prev_end(edits, n as int) as int,
                        b as int,
                    ),
                ),
            ) == units_prefix(encode_utf16(text), map, edits, texts, n) + encode_utf16(
                text,
            ).subrange(count_below(map, prev_end(edits, n as int)), count_below(map, b)),
    decreases n,
{
    let bytes = encode_utf8(text);
    let units = encode_utf16(text);
    encode_utf8_valid_utf8(text);
    lemma_empty_units();
    lemma_fit_prefix(bytes, edits, texts, n);
    if n == 0 {
        assert forall|b: u32|
            prev_end(edits, 0) <= b <= bytes.len() && #[trigger] is_char_boundary(bytes, b as int)
                implies encode_utf16(
            decode_utf8(edits_prefix(bytes, edits, texts, 0).0 + bytes.subrange(0, b as int)),
        ) == units_prefix(units, map, edits, texts, 0) + units.subrange(
            count_below(map, 0),
            count_below(map, b),
        ) by {
            lemma_boundary_has_index(text, b as int);
            let j = char_index(text, b as int);
            lemma_boundary_has_index(text, 0);
            assert(text.take(0) =~= Seq::<char>::empty());
            assert(encode_utf8(Seq::<char>::empty()) =~= Seq::<u8>::empty());
            lemma_segment(text, map, 0, j, 0, b);
            lemma_take_split(text, 0, j);
            assert(text.subrange(0, j) =~= text.take(j));
            encode_utf8_decode_utf8(text.take(j));
            assert(Seq::<u8>::empty() + bytes.subrange(0, b as int) =~= bytes.subrange(0, b as int));
            assert(Seq::<u16>::empty() + units.subrange(count_below(map, 0), count_below(map, b))
                =~= units.subrange(count_below(map, 0), count_below(map, b)));
        }
    } else {
        let i = n - 1;
        lemma_prefix_agrees(text, map, edits, texts, i as nat);
        lemma_fit_prefix(bytes, edits, texts, i as nat);
        let st = edits_prefix(bytes, edits, texts, i as nat);
        let e = edits[i];
        let prev = st.1;
        let from = clipped_start(bytes, edits, texts, i);
        assert(from == unit_clip(edits, i) as int);
        let pe = prev_end(edits, i);
        let uf = unit_clip(edits, i);
        lemma_count_below_monotone(map, pe, uf);
        lemma_count_below_split(map, 0, 0);
        lemma_count_below_monotone(map, 0, pe);
        assert(units_fit(units, map, edits, texts));
        assert(count_below(map, e.2) <= units.len());
        let out = edits_prefix(bytes, edits, texts, n).0;
        assert(prev_end(edits, n as int) == e.2);
        if crate::blank_string::empty_blank_at(edits, i) {
            assert(blanked_span(bytes, from, e.2 as int) =~= Seq::<u8>::empty());
            assert(blank_units(units.subrange(count_below(map, uf), count_below(map, e.2)))
                =~= Seq::<u16>::empty());
            assert forall|b: u32|
                e.2 <= b <= bytes.len() && #[trigger] is_char_boundary(bytes, b as int) implies encode_utf16(
                decode_utf8(out + bytes.subrange(e.2 as int, b as int)),
            ) == units_prefix(units, map, edits, texts, n) + units.subrange(
                count_below(map, e.2),
                count_below(map, b),
            ) by {
                assert(out + bytes.subrange(e.2 as int, b as int) =~= st.0 + bytes.subrange(
                    prev,
                    b as int,
                ));
                lemma_count_below_monotone(map, uf, b);
                lemma_boundary_has_index(text, b as int);
                lemma_count_below_at(text, map, char_index(text, b as int), b);
                lemma_take_split(text, char_index(text, b as int), text.len() as int);
                let pre = units_prefix(units, map, edits, texts, i as nat);
                assert(units_prefix(units, map, edits, texts, n) == pre + units.subrange(
                    count_below(map, pe),
                    count_below(map, uf),
                ) + blank_units(units.subrange(count_below(map, uf), count_below(map, e.2))));
                assert(pre + units.subrange(count_below(map, pe), count_below(map, b)) =~= pre
                    + units.subrange(count_below(map, pe), count_below(map, uf)) + Seq::<u16>::empty()
                    + units.subrange(count_below(map, e.2), count_below(map, b)));
            }
        } else {
            // every offset in play is a character boundary, so it ends a prefix
            assert(is_char_boundary(bytes, from));
            assert(is_char_boundary(bytes, e.2 as int));
            lemma_boundary_has_index(text, from);
            lemma_boundary_has_index(text, e.2 as int);
            let jf = char_index(text, from);
            let je = char_index(text, e.2 as int);
            let gap = bytes.subrange(prev, from);
            let copied = st.0 + gap;
            assert(is_char_boundary(bytes, uf as int));
            assert(valid_utf8(st.0 + bytes.subrange(prev, uf as int)));
            let head = units_prefix(units, map, edits, texts, i as nat) + units.subrange(
                count_below(map, pe),
                count_below(map, uf),
            );
            assert(encode_utf16(decode_utf8(copied)) == head);
            assert(valid_utf8(copied));
            lemma_segment(text, map, jf, jf, uf, uf);
            if e.0 == REPLACE_WITH_TEXT {
                let t = texts[e.3 as int];
                let written = encode_utf8(decode_utf16(t));
                encode_utf8_valid_utf8(decode_utf16(t));
                encode_utf8_decode_utf8(decode_utf16(t));
                lemma_utf16_round_trip(t);
                lemma_decode_concat(copied, written);
                lemma_encode_utf16_concat(decode_utf8(copied), decode_utf8(written));
                lemma_valid_concat(copied, written);
                assert(out == copied + written);
            } else if is_marker(e.0) {
                // the units path writes the marker over a unit of the range, so
                // the range is not empty and starts with an ASCII byte
                if je <= jf {
                    lemma_segment(text, map, je, jf, e.2, uf);
                }
                assert(jf < je);
                lemma_take_split(text, jf, je);
                assert(from < e.2);
                lemma_ascii_head(text, jf);
                let after = (from + 1) as u32;
                lemma_take_split(text, jf + 1, je);
                lemma_segment(text, map, jf + 1, je, after, e.2);
                lemma_segment(text, map, jf, jf + 1, uf, after);
                lemma_blanked_segment(text, map, jf + 1, je, after, e.2);
                lemma_marker_units(e.0);
                let mark = seq![marker_byte(e.0)];
                let rest = blanked_span(bytes, from + 1, e.2 as int);
                lemma_decode_concat(copied, mark);
                lemma_encode_utf16_concat(decode_utf8(copied), decode_utf8(mark));
                lemma_valid_concat(copied, mark);
                lemma_decode_concat(copied + mark, rest);
                lemma_encode_utf16_concat(decode_utf8(copied + mark), decode_utf8(rest));
                lemma_valid_concat(copied + mark, rest);
                assert(out == copied + mark + rest);
                assert(count_below(map, after) == count_below(map, uf) + 1);
            } else {
                if je < jf {
                    lemma_take_split(text, je, jf);
                    lemma_segment(text, map, je, jf, e.2, uf);
                }
                assert(jf <= je);
                lemma_blanked_segment(text, map, jf, je, uf, e.2);
                let rest = blanked_span(bytes, from, e.2 as int);
                lemma_decode_concat(copied, rest);
                lemma_encode_utf16_concat(decode_utf8(copied), decode_utf8(rest));
                lemma_valid_concat(copied, rest);
                assert(out == copied + rest);
            }
            assert(valid_utf8(out));
            assert(encode_utf16(decode_utf8(out)) == units_prefix(units, map, edits, texts, n));
            assert forall|b: u32|
                e.2 <= b <= bytes.len() && #[trigger] is_char_boundary(bytes, b as int) implies encode_utf16(
                decode_utf8(out + bytes.subrange(e.2 as int, b as int)),
            ) == units_prefix(units, map, edits, texts, n) + units.subrange(
                count_below(map, e.2),
                count_below(map, b),
            ) by {
                lemma_boundary_has_index(text, b as int);
                let jb = char_index(text, b as int);
                if jb < je {
                    lemma_take_split(text, jb, je);
                }
                lemma_segment(text, map, je, jb, e.2, b);
                lemma_take_split(text, je, jb);
                encode_utf8_valid_utf8(text.subrange(je, jb));
                encode_utf8_decode_utf8(text.subrange(je, jb));
                lemma_decode_concat(out, bytes.subrange(e.2 as int, b as int));
                lemma_encode_utf16_concat(decode_utf8(out), decode_utf8(bytes.subrange(e.2 as int, b as int)));
            }
        }
    }
}

/// The two build paths agree: on text that is well-formed UTF-16 (so the
/// parse copy is exact), applying an edit list to its UTF-8 bytes and
/// reading the result as UTF-16 gives exactly what applying the list to
/// its code units gives, byte offsets mapped to units through the parse
/// copy's byte-to-unit map — wherever both builds accept the list.
pub proof fn lemma_build_paths_agree(
    text: Seq<char>,
    map: Seq<u32>,
    edits: Seq<(u8, u32, u32, u32)>,
    texts: Seq<Seq<u16>>,
)
    requires
        edits_fit(encode_utf8(text), edits, texts),
        units_fit(encode_utf16(text), map, edits, texts),
        is_byte_map(encode_utf16(text), map),
    ensures
        encode_utf16(decode_utf8(edited_bytes(encode_utf8(text), edits, texts))) == edited_units(
            encode_utf16(text),
            map,
            edits,
            texts,
        ),
{
    let bytes = encode_utf8(text);
    let units = encode_utf16(text);
    encode_utf8_valid_utf8(text);
    let n = edits.len();
    lemma_prefix_agrees(text, map, edits, texts, n);
    lemma_fit_prefix(bytes, edits, texts, n);
    assert(text.take(text.len() as int) =~= text);
    assert(bytes.len() < 0x1_0000_0000) by {
        assert(units.take(units.len() as int) =~= units);
        lemma_lossy_of_encoded(text);
        assert(!pair_low(units, units.len() as int));
        assert(map[units.len() as int] == bytes.len());
    }
    let end = bytes.len() as u32;
    vstd::utf8::is_char_boundary_start_end_of_seq(bytes);
    assert(is_char_boundary(bytes, end as int));
    lemma_count_below_at(text, map, text.len() as int, end);
}

} // verus!
