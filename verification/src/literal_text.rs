//! JS string-literal text for enum members: escape decoding over UTF-16 code
//! units (lossless for lone surrogates) and the `JSON.stringify` quote forms
//! the TypeScript emitter uses for member keys and folded string values.

use vstd::prelude::*;

use crate::unicode::{encode_utf16_char, is_high_surrogate, is_low_surrogate};

verus! {

/// `char::from_u32`: per its documentation it returns the character with
/// that code point, or `None` when the value is a surrogate or above
/// U+10FFFF. Claimed here exactly that.
#[verifier::external_body]
pub(crate) fn char_from_u32(v: u32) -> (r: Option<char>)
    ensures
        r is Some <==> (v <= 0x10FFFF && !(0xD800 <= v <= 0xDFFF)),
        r matches Some(c) ==> c as u32 == v,
{
    char::from_u32(v)
}

/// The value of a hexadecimal digit unit, if it is one.
pub open spec fn hex_digit_value(u: u16) -> Option<int> {
    if 0x30 <= u <= 0x39 {
        Some(u - 0x30)
    } else if 0x41 <= u <= 0x46 {
        Some(u - 0x37)
    } else if 0x61 <= u <= 0x66 {
        Some(u - 0x57)
    } else {
        None
    }
}

/// The value of a hexadecimal digit unit, if it is one.
pub fn hex_digit(unit: u16) -> (r: Option<u16>)
    ensures
        r matches Some(d) ==> hex_digit_value(unit) == Some(d as int),
        r is None ==> hex_digit_value(unit) is None,
{
    if 0x30 <= unit && unit <= 0x39 {
        Some(unit - 0x30)
    } else if 0x41 <= unit && unit <= 0x46 {
        Some(unit - 0x37)
    } else if 0x61 <= unit && unit <= 0x66 {
        Some(unit - 0x57)
    } else {
        None
    }
}

/// The value of the `count` hex digits at `start`, if all are there.
pub open spec fn hex_run(units: Seq<u16>, start: int, count: nat) -> Option<int>
    decreases count,
{
    if count == 0 {
        Some(0)
    } else {
        match hex_run(units, start, (count - 1) as nat) {
            Some(v) => {
                let k = start + count - 1;
                if 0 <= k < units.len() && hex_digit_value(units[k]) is Some {
                    Some(v * 16 + hex_digit_value(units[k])->0)
                } else {
                    None
                }
            },
            None => None,
        }
    }
}

/// Sixteen to the power `n`.
pub open spec fn pow16(n: nat) -> nat
    decreases n,
{
    if n == 0 {
        1
    } else {
        16 * pow16((n - 1) as nat)
    }
}

/// The value of the `count` hex digits at `start`, with the number of
/// units read, if all are there.
pub fn hex_value(units: &[u16], start: usize, count: usize) -> (r: Option<(u32, usize)>)
    requires
        count <= 4,
    ensures
        r is None <==> hex_run(units@, start as int, count as nat) is None,
        r matches Some((v, used)) ==> used == count && hex_run(units@, start as int, count as nat)
            == Some(v as int),
{
    let mut value: u32 = 0;
    let mut offset: usize = 0;
    while offset < count
        invariant
            count <= 4,
            offset <= count,
            hex_run(units@, start as int, offset as nat) == Some(value as int),
            value < pow16(offset as nat),
        decreases count - offset,
    {
        proof {
            reveal_with_fuel(pow16, 5);
        }
        if start >= units.len() || offset >= units.len() - start {
            proof {
                lemma_hex_run_none(units@, start as int, offset as nat, count as nat);
            }
            return None;
        }
        match hex_digit(units[start + offset]) {
            Some(d) => {
                value = value * 16 + d as u32;
            },
            None => {
                proof {
                    lemma_hex_run_none(units@, start as int, offset as nat, count as nat);
                }
                return None;
            },
        }
        offset += 1;
    }
    Some((value, count))
}

/// Once a digit is missing, every longer run is missing too.
proof fn lemma_hex_run_none(units: Seq<u16>, start: int, missing: nat, count: nat)
    requires
        missing < count,
        hex_run(units, start, (missing + 1) as nat) is None,
    ensures
        hex_run(units, start, count) is None,
    decreases count,
{
    if count > missing + 1 {
        lemma_hex_run_none(units, start, missing, (count - 1) as nat);
    }
}

/// The end and value of a `\u{...}` digit run starting at `k`: digits are
/// taken while the value so far is a code point.
pub open spec fn brace_scan(units: Seq<u16>, k: int, value: int) -> (int, int)
    decreases units.len() - k,
{
    if 0 <= k < units.len() && hex_digit_value(units[k]) is Some && value <= 0x10FFFF {
        brace_scan(units, k + 1, value * 16 + hex_digit_value(units[k])->0)
    } else {
        (k, value)
    }
}

/// The end and value of a legacy octal escape's extra digits, at most
/// `remaining` of them.
pub open spec fn octal_scan(units: Seq<u16>, k: int, value: int, remaining: nat) -> (int, int)
    decreases remaining,
{
    if remaining > 0 && 0 <= k < units.len() && 0x30 <= units[k] <= 0x37 {
        octal_scan(units, k + 1, value * 8 + (units[k] - 0x30), (remaining - 1) as nat)
    } else {
        (k, value)
    }
}

/// The units a `\u{...}` escape stands for: a surrogate value stays one
/// unit, any other code point is encoded.
pub open spec fn code_point_units(value: int) -> Seq<u16> {
    if 0xD800 <= value <= 0xDFFF {
        seq![value as u16]
    } else {
        encode_utf16_char(value as char)
    }
}

/// What the escape `\e` followed by the units from `j` decodes to, and
/// where decoding resumes.
pub open spec fn escape_step(units: Seq<u16>, e: u16, j: int) -> (Seq<u16>, int) {
    if e == 0x0A || e == 0x2028 || e == 0x2029 {
        (seq![], j)
    } else if e == 0x0D {
        (seq![], if j < units.len() && units[j] == 0x0A { j + 1 } else { j })
    } else if e == 0x62 {
        (seq![0x08u16], j)
    } else if e == 0x74 {
        (seq![0x09u16], j)
    } else if e == 0x6E {
        (seq![0x0Au16], j)
    } else if e == 0x76 {
        (seq![0x0Bu16], j)
    } else if e == 0x66 {
        (seq![0x0Cu16], j)
    } else if e == 0x72 {
        (seq![0x0Du16], j)
    } else if e == 0x78 {
        match hex_run(units, j, 2) {
            Some(v) => (seq![v as u16], j + 2),
            None => (seq![0x78u16], j),
        }
    } else if e == 0x75 {
        if j < units.len() && units[j] == 0x7B {
            let (end, value) = brace_scan(units, j + 1, 0);
            if end < units.len() && units[end] == 0x7D && value <= 0x10FFFF {
                (code_point_units(value), end + 1)
            } else {
                (seq![0x75u16], j)
            }
        } else {
            match hex_run(units, j, 4) {
                Some(v) => (seq![v as u16], j + 4),
                None => (seq![0x75u16], j),
            }
        }
    } else if 0x30 <= e <= 0x37 {
        let first = e - 0x30;
        let (end, value) = octal_scan(units, j, first, if first <= 3 { 2 } else { 1 });
        (seq![value as u16], end)
    } else {
        (seq![e], j)
    }
}

/// What the unit at `i` (with what follows) decodes to, and where decoding
/// resumes. In a template, a literal CR or CRLF becomes LF.
pub open spec fn decode_step(units: Seq<u16>, template: bool, i: int) -> (Seq<u16>, int) {
    let u = units[i];
    if u != 0x5C {
        if template && u == 0x0D {
            (seq![0x0Au16], if i + 1 < units.len() && units[i + 1] == 0x0A { i + 2 } else { i + 1 })
        } else {
            (seq![u], i + 1)
        }
    } else if i + 1 >= units.len() {
        (seq![0x5Cu16], units.len() as int)
    } else {
        escape_step(units, units[i + 1], i + 2)
    }
}

/// The decoded value of the units from `i` on.
pub open spec fn decoded(units: Seq<u16>, template: bool, i: int) -> Seq<u16>
    decreases units.len() - i,
{
    if i < 0 || i >= units.len() {
        seq![]
    } else {
        let (chunk, next) = decode_step(units, template, i);
        if i < next <= units.len() {
            chunk + decoded(units, template, next)
        } else {
            chunk
        }
    }
}

/// Push the units of the code point `value`, which is at most U+10FFFF.
fn push_code_point(out: &mut Vec<u16>, value: u32)
    requires
        value <= 0x10FFFF,
    ensures
        final(out)@ == old(out)@ + code_point_units(value as int),
{
    if 0xD800 <= value && value <= 0xDFFF {
        out.push(value as u16);
    } else {
        let c = char_from_u32(value).unwrap();
        proof {
            vstd::utf8::char_u32_cast(c, value);
        }
        let v = c as u32;
        if v < 0x10000 {
            out.push(v as u16);
            proof {
                assert(code_point_units(value as int) =~= seq![v as u16]);
            }
        } else {
            let w = v - 0x10000;
            out.push((0xD800 + w / 0x400) as u16);
            out.push((0xDC00 + w % 0x400) as u16);
            proof {
                assert(code_point_units(value as int) =~= seq![
                    (0xD800 + w / 0x400) as u16,
                    (0xDC00 + w % 0x400) as u16,
                ]);
            }
        }
    }
}

/// Decode one step at `i`, appending its units to `out`; returns where
/// decoding resumes.
fn decode_one(units: &[u16], template: bool, i: usize, out: &mut Vec<u16>) -> (next: usize)
    requires
        i < units@.len(),
    ensures
        final(out)@ == old(out)@ + decode_step(units@, template, i as int).0,
        next == decode_step(units@, template, i as int).1,
        i < next <= units@.len(),
{
    let len = units.len();
    let unit = units[i];
    if unit != 0x5C {
        if template && unit == 0x0D {
            out.push(0x0A);
            if i + 1 < len && units[i + 1] == 0x0A {
                return i + 2;
            }
            return i + 1;
        }
        out.push(unit);
        return i + 1;
    }
    if i + 1 >= len {
        out.push(0x5C);
        return len;
    }
    let escape = units[i + 1];
    let j = i + 2;
    if escape == 0x0A || escape == 0x2028 || escape == 0x2029 {
        assert(out@ =~= old(out)@ + Seq::<u16>::empty());
        return j;
    }
    if escape == 0x0D {
        assert(out@ =~= old(out)@ + Seq::<u16>::empty());
        if j < len && units[j] == 0x0A {
            return j + 1;
        }
        return j;
    }
    if escape == 0x62 {
        out.push(0x08);
        return j;
    }
    if escape == 0x74 {
        out.push(0x09);
        return j;
    }
    if escape == 0x6E {
        out.push(0x0A);
        return j;
    }
    if escape == 0x76 {
        out.push(0x0B);
        return j;
    }
    if escape == 0x66 {
        out.push(0x0C);
        return j;
    }
    if escape == 0x72 {
        out.push(0x0D);
        return j;
    }
    if escape == 0x78 {
        match hex_value(units, j, 2) {
            Some((value, used)) => {
                proof {
                    reveal_with_fuel(hex_run, 3);
                }
                out.push(value as u16);
                return j + used;
            },
            None => {
                out.push(0x78);
                return j;
            },
        }
    }
    if escape == 0x75 {
        if j < len && units[j] == 0x7B {
            let mut k = j + 1;
            let mut value: u32 = 0;
            loop
                invariant
                    len == units@.len(),
                    j + 1 <= k <= len,
                    value <= 0x10FFFF * 16 + 15,
                    brace_scan(units@, j + 1, 0) == brace_scan(units@, k as int, value as int),
                ensures
                    brace_scan(units@, j + 1, 0) == (k as int, value as int),
                    j + 1 <= k <= len,
                decreases len - k,
            {
                if k >= len {
                    break;
                }
                let digit = hex_digit(units[k]);
                if digit.is_none() || value > 0x10FFFF {
                    break;
                }
                value = value * 16 + digit.unwrap() as u32;
                k += 1;
            }
            if k < len && units[k] == 0x7D && value <= 0x10FFFF {
                push_code_point(out, value);
                return k + 1;
            }
            out.push(0x75);
            return j;
        }
        match hex_value(units, j, 4) {
            Some((value, used)) => {
                proof {
                    reveal_with_fuel(hex_run, 5);
                    reveal_with_fuel(pow16, 5);
                }
                out.push(value as u16);
                return j + used;
            },
            None => {
                out.push(0x75);
                return j;
            },
        }
    }
    if 0x30 <= escape && escape <= 0x37 {
        let first = escape - 0x30;
        let max_extra: usize = if first <= 3 { 2 } else { 1 };
        let mut value = first;
        let mut count: usize = 1;
        let mut k = j;
        while count <= max_extra && k < len && 0x30 <= units[k] && units[k] <= 0x37
            invariant
                len == units@.len(),
                j <= k <= len,
                1 <= count <= max_extra + 1,
                max_extra == (if first <= 3 { 2usize } else { 1usize }),
                k - j == count - 1,
                count == 1 ==> value <= 7,
                count == 2 ==> value <= 63,
                count == 3 ==> value <= 511,
                octal_scan(units@, j as int, first as int, max_extra as nat) == octal_scan(
                    units@,
                    k as int,
                    value as int,
                    (max_extra + 1 - count) as nat,
                ),
            decreases max_extra + 1 - count,
        {
            value = value * 8 + (units[k] - 0x30);
            k += 1;
            count += 1;
        }
        out.push(value);
        return k;
    }
    out.push(escape);
    j
}

/// Decode JS string-literal escapes over UTF-16 code units, literal CR
/// and CRLF normalized to LF when `template`; lone surrogates (escaped or
/// raw) stay as individual units.
pub fn decode_units_inner(units: &[u16], template: bool) -> (out: Vec<u16>)
    ensures
        out@ == decoded(units@, template, 0),
{
    let mut out: Vec<u16> = Vec::new();
    let mut i: usize = 0;
    while i < units.len()
        invariant
            i <= units@.len(),
            out@ + decoded(units@, template, i as int) == decoded(units@, template, 0),
        decreases units@.len() - i,
    {
        let ghost before = out@;
        let next = decode_one(units, template, i, &mut out);
        proof {
            assert(before + decoded(units@, template, i as int) =~= out@ + decoded(
                units@,
                template,
                next as int,
            ));
        }
        i = next;
    }
    proof {
        assert(out@ + decoded(units@, template, i as int) =~= out@);
    }
    out
}

/// Decode JS string-literal escapes over UTF-16 code units; lone
/// surrogates (`\uD800`-style escapes or raw units) stay as individual
/// units.
pub fn decode_units(units: &[u16]) -> (out: Vec<u16>)
    ensures
        out@ == decoded(units@, false, 0),
{
    decode_units_inner(units, false)
}

/// [`decode_units`] for template quasis: literal CRLF and lone CR
/// normalize to LF, like every cooked value; an escaped `\r` stays CR.
pub fn decode_template_units(units: &[u16]) -> (out: Vec<u16>)
    ensures
        out@ == decoded(units@, true, 0),
{
    decode_units_inner(units, true)
}

/// The lowercase hexadecimal digit for `d`.
pub open spec fn hex_char(d: int) -> char {
    if d < 10 {
        (0x30 + d) as char
    } else {
        (0x57 + d) as char
    }
}

/// `\uXXXX` with four lowercase hexadecimal digits.
pub open spec fn unicode_escape(u: int) -> Seq<char> {
    seq![
        '\\',
        'u',
        hex_char(u / 4096 % 16),
        hex_char(u / 256 % 16),
        hex_char(u / 16 % 16),
        hex_char(u % 16),
    ]
}

/// What `JSON.stringify` writes for the unit at `i` (with what follows),
/// and where it resumes.
pub open spec fn json_unit_step(units: Seq<u16>, i: int) -> (Seq<char>, int) {
    let u = units[i];
    if u == 0x22 {
        (seq!['\\', '"'], i + 1)
    } else if u == 0x5C {
        (seq!['\\', '\\'], i + 1)
    } else if u == 0x08 {
        (seq!['\\', 'b'], i + 1)
    } else if u == 0x09 {
        (seq!['\\', 't'], i + 1)
    } else if u == 0x0A {
        (seq!['\\', 'n'], i + 1)
    } else if u == 0x0C {
        (seq!['\\', 'f'], i + 1)
    } else if u == 0x0D {
        (seq!['\\', 'r'], i + 1)
    } else if u <= 0x1F {
        (unicode_escape(u as int), i + 1)
    } else if is_high_surrogate(u) {
        if i + 1 < units.len() && is_low_surrogate(units[i + 1]) {
            (seq![(0x10000 + (u - 0xD800) * 0x400 + (units[i + 1] - 0xDC00)) as char], i + 2)
        } else {
            (unicode_escape(u as int), i + 1)
        }
    } else if is_low_surrogate(u) {
        (unicode_escape(u as int), i + 1)
    } else {
        (seq![u as char], i + 1)
    }
}

/// What `JSON.stringify` writes for the units from `i` on, unquoted.
pub open spec fn json_units_from(units: Seq<u16>, i: int) -> Seq<char>
    decreases units.len() - i,
{
    if i < 0 || i >= units.len() {
        seq![]
    } else {
        let (chunk, next) = json_unit_step(units, i);
        if i < next <= units.len() {
            chunk + json_units_from(units, next)
        } else {
            chunk
        }
    }
}

/// The lowercase hexadecimal digit for `d`.
fn hex_char_of(d: u32) -> (c: char)
    requires
        d < 16,
    ensures
        c == hex_char(d as int),
{
    let b: u8 = if d < 10 {
        (0x30 + d) as u8
    } else {
        (0x57 + d) as u8
    };
    b as char
}

/// Append `\uXXXX` for `u`.
fn push_unicode_escape(out: &mut Vec<char>, u: u16)
    ensures
        final(out)@ == old(out)@ + unicode_escape(u as int),
{
    let v = u as u32;
    out.push('\\');
    out.push('u');
    out.push(hex_char_of(v / 4096 % 16));
    out.push(hex_char_of(v / 256 % 16));
    out.push(hex_char_of(v / 16 % 16));
    out.push(hex_char_of(v % 16));
    assert(out@ =~= old(out)@ + unicode_escape(u as int));
}

/// Append what `JSON.stringify` writes for the unit at `i`; returns where
/// it resumes.
fn json_one(units: &[u16], i: usize, out: &mut Vec<char>) -> (next: usize)
    requires
        i < units@.len(),
    ensures
        final(out)@ == old(out)@ + json_unit_step(units@, i as int).0,
        next == json_unit_step(units@, i as int).1,
        i < next <= units@.len(),
{
    let unit = units[i];
    if unit == 0x22 {
        out.push('\\');
        out.push('"');
    } else if unit == 0x5C {
        out.push('\\');
        out.push('\\');
    } else if unit == 0x08 {
        out.push('\\');
        out.push('b');
    } else if unit == 0x09 {
        out.push('\\');
        out.push('t');
    } else if unit == 0x0A {
        out.push('\\');
        out.push('n');
    } else if unit == 0x0C {
        out.push('\\');
        out.push('f');
    } else if unit == 0x0D {
        out.push('\\');
        out.push('r');
    } else if unit <= 0x1F {
        push_unicode_escape(out, unit);
    } else if 0xD800 <= unit && unit <= 0xDBFF {
        if i + 1 < units.len() && 0xDC00 <= units[i + 1] && units[i + 1] <= 0xDFFF {
            let code = 0x10000 + ((unit - 0xD800) as u32) * 0x400 + (units[i + 1] - 0xDC00) as u32;
            let c = char_from_u32(code).unwrap();
            proof {
                vstd::utf8::char_u32_cast(c, code);
            }
            out.push(c);
            return i + 2;
        }
        push_unicode_escape(out, unit);
    } else if 0xDC00 <= unit && unit <= 0xDFFF {
        push_unicode_escape(out, unit);
    } else {
        let c = char_from_u32(unit as u32).unwrap();
        proof {
            vstd::utf8::char_u32_cast(c, unit as u32);
        }
        out.push(c);
    }
    i + 1
}

/// `JSON.stringify` over UTF-16 code units: well-formed output — lone
/// surrogates escape as lowercase `\udXXX`, pairs become the astral
/// character.
pub fn json_quote_utf16(units: &[u16]) -> (s: String)
    ensures
        s@ == seq!['"'] + json_units_from(units@, 0) + seq!['"'],
{
    let mut out: Vec<char> = Vec::new();
    out.push('"');
    let mut i: usize = 0;
    while i < units.len()
        invariant
            i <= units@.len(),
            out@ + json_units_from(units@, i as int) == seq!['"'] + json_units_from(units@, 0),
        decreases units@.len() - i,
    {
        let ghost before = out@;
        let next = json_one(units, i, &mut out);
        proof {
            assert(before + json_units_from(units@, i as int) =~= out@ + json_units_from(
                units@,
                next as int,
            ));
        }
        i = next;
    }
    proof {
        assert(out@ + json_units_from(units@, i as int) =~= out@);
    }
    out.push('"');
    crate::chars::string_from_chars(out.as_slice())
}

/// What `JSON.stringify` writes for one character of a string.
pub open spec fn json_char(c: char) -> Seq<char> {
    if c == '"' {
        seq!['\\', '"']
    } else if c == '\\' {
        seq!['\\', '\\']
    } else if c == '\n' {
        seq!['\\', 'n']
    } else if c == '\r' {
        seq!['\\', 'r']
    } else if c == '\t' {
        seq!['\\', 't']
    } else if (c as u32) == 0x08 {
        seq!['\\', 'b']
    } else if (c as u32) == 0x0C {
        seq!['\\', 'f']
    } else if (c as u32) < 0x20 {
        unicode_escape(c as int)
    } else {
        seq![c]
    }
}

/// What `JSON.stringify` writes for a character sequence, unquoted.
pub open spec fn json_chars(s: Seq<char>) -> Seq<char>
    decreases s.len(),
{
    if s.len() == 0 {
        seq![]
    } else {
        json_chars(s.drop_last()) + json_char(s.last())
    }
}

/// Append what `JSON.stringify` writes for `c`.
fn push_json_char(out: &mut Vec<char>, c: char)
    ensures
        final(out)@ == old(out)@ + json_char(c),
{
    let v = c as u32;
    if c == '"' {
        out.push('\\');
        out.push('"');
    } else if c == '\\' {
        out.push('\\');
        out.push('\\');
    } else if c == '\n' {
        out.push('\\');
        out.push('n');
    } else if c == '\r' {
        out.push('\\');
        out.push('r');
    } else if c == '\t' {
        out.push('\\');
        out.push('t');
    } else if v == 0x08 {
        out.push('\\');
        out.push('b');
    } else if v == 0x0C {
        out.push('\\');
        out.push('f');
    } else if v < 0x20 {
        push_unicode_escape(out, v as u16);
    } else {
        out.push(c);
    }
    assert(out@ =~= old(out)@ + json_char(c));
}

/// `JSON.stringify` of a JS string, used for the quoted member key text.
pub fn json_quote(s: &str) -> (r: String)
    ensures
        r@ == seq!['"'] + json_chars(s@) + seq!['"'],
{
    let mut out: Vec<char> = Vec::new();
    out.push('"');
    let ghost chars = s@;
    for c in it: s.chars()
        invariant
            it.seq() == chars,
            out@ == seq!['"'] + json_chars(chars.take(it.index() as int)),
    {
        let ghost i = it.index() as int;
        proof {
            assert(chars.take(i + 1).drop_last() =~= chars.take(i));
            assert(chars.take(i + 1).last() == c);
        }
        push_json_char(&mut out, c);
        proof {
            assert(out@ =~= seq!['"'] + json_chars(chars.take(i + 1)));
        }
    }
    proof {
        assert(chars.take(chars.len() as int) =~= chars);
    }
    out.push('"');
    crate::chars::string_from_chars(out.as_slice())
}

} // verus!

verus! {

/// The units of one character: its UTF-16 encoding.
proof fn lemma_units_of_char(c: char)
    ensures
        crate::unicode::encode_utf16(seq![c]) == encode_utf16_char(c),
{
    assert(seq![c].drop_first() =~= Seq::<char>::empty());
    assert(crate::unicode::encode_utf16(Seq::<char>::empty()) =~= Seq::<u16>::empty());
    assert(crate::unicode::encode_utf16(seq![c]) =~= encode_utf16_char(c) + Seq::<u16>::empty());
}

/// The units of a backslash and an ASCII character.
proof fn lemma_units_of_pair(a: char, b: char)
    requires
        (a as u32) < 0x80,
        (b as u32) < 0x80,
    ensures
        crate::unicode::encode_utf16(seq![a, b]) == seq![a as u16, b as u16],
{
    assert(seq![a, b] =~= seq![a] + seq![b]);
    crate::unicode::lemma_encode_utf16_concat(seq![a], seq![b]);
    lemma_units_of_char(a);
    lemma_units_of_char(b);
}

/// A lowercase hex digit reads back as its value.
proof fn lemma_hex_char_value(d: int)
    requires
        0 <= d < 16,
    ensures
        hex_digit_value(hex_char(d) as u16) == Some(d),
        hex_char(d) as u16 != 0x7B,
        (hex_char(d) as u32) < 0x80,
{
}

/// Four lowercase hex digits put back together.
proof fn lemma_hex_digits(u: u32)
    by (bit_vector)
    requires
        u < 0x10000,
    ensures
        (((u / 4096 % 16) * 16 + u / 256 % 16) * 16 + u / 16 % 16) * 16 + u % 16 == u,
{
}

/// The units of `\uXXXX` for `u`.
proof fn lemma_unicode_escape_units(u: u16)
    ensures
        ({
            let e = crate::unicode::encode_utf16(unicode_escape(u as int));
            &&& e.len() == 6
            &&& e[0] == 0x5C
            &&& e[1] == 0x75
            &&& e[2] != 0x7B
            &&& hex_run(e, 2, 4) == Some(u as int)
        }),
{
    let s = unicode_escape(u as int);
    let v = u as int;
    let d1 = v / 4096 % 16;
    let d2 = v / 256 % 16;
    let d3 = v / 16 % 16;
    let d4 = v % 16;
    lemma_hex_char_value(d1);
    lemma_hex_char_value(d2);
    lemma_hex_char_value(d3);
    lemma_hex_char_value(d4);
    assert(s =~= seq!['\\', 'u'] + seq![hex_char(d1), hex_char(d2)] + seq![hex_char(d3), hex_char(d4)]);
    crate::unicode::lemma_encode_utf16_concat(seq!['\\', 'u'] + seq![hex_char(d1), hex_char(d2)], seq![hex_char(d3), hex_char(d4)]);
    crate::unicode::lemma_encode_utf16_concat(seq!['\\', 'u'], seq![hex_char(d1), hex_char(d2)]);
    lemma_units_of_pair('\\', 'u');
    lemma_units_of_pair(hex_char(d1), hex_char(d2));
    lemma_units_of_pair(hex_char(d3), hex_char(d4));
    let e = crate::unicode::encode_utf16(s);
    assert(e =~= seq![
        0x5Cu16,
        0x75u16,
        hex_char(d1) as u16,
        hex_char(d2) as u16,
        hex_char(d3) as u16,
        hex_char(d4) as u16,
    ]);
    lemma_hex_digits(u as u32);
    reveal_with_fuel(hex_run, 5);
    assert(hex_run(e, 2, 1) == Some(d1));
    assert(hex_run(e, 2, 2) == Some(d1 * 16 + d2));
    assert(hex_run(e, 2, 3) == Some((d1 * 16 + d2) * 16 + d3));
    assert(hex_run(e, 2, 4) == Some(((d1 * 16 + d2) * 16 + d3) * 16 + d4));
}

/// A hex run reads only the units it covers.
proof fn lemma_hex_run_local(a: Seq<u16>, s: int, b: Seq<u16>, t: int, n: nat)
    requires
        0 <= s,
        s + n <= a.len(),
        0 <= t,
        t + n <= b.len(),
        a.subrange(s, s + n) == b.subrange(t, t + n),
    ensures
        hex_run(a, s, n) == hex_run(b, t, n),
    decreases n,
{
    if n > 0 {
        assert(a.subrange(s, s + n - 1) =~= a.subrange(s, s + n).take(n - 1));
        assert(b.subrange(t, t + n - 1) =~= b.subrange(t, t + n).take(n - 1));
        lemma_hex_run_local(a, s, b, t, (n - 1) as nat);
        assert(a[s + (n - 1)] == a.subrange(s, s + n)[n - 1]);
        assert(b[t + (n - 1)] == b.subrange(t, t + n)[n - 1]);
    }
}

/// Decoding the escape or character `JSON.stringify` writes for the unit at
/// `i`, where it stands in `big` at `p`, gives the unit (or pair) back and
/// resumes right after it.
proof fn lemma_json_step_decodes(units: Seq<u16>, i: int, big: Seq<u16>, x: Seq<u16>, y: Seq<u16>)
    requires
        0 <= i < units.len(),
        big == x + crate::unicode::encode_utf16(json_unit_step(units, i).0) + y,
    ensures
        ({
            let (chunk, next) = json_unit_step(units, i);
            let len = crate::unicode::encode_utf16(chunk).len() as int;
            let p = x.len() as int;
            &&& i < next <= units.len()
            &&& len > 0
            &&& decoded(big, false, p) == units.subrange(i, next) + decoded(big, false, p + len)
        }),
{
    let (chunk, next) = json_unit_step(units, i);
    let e = crate::unicode::encode_utf16(chunk);
    let p = x.len() as int;
    let u = units[i];
    assert(big.len() == x.len() + e.len() + y.len());
    assert forall|k: int| 0 <= k < e.len() implies #[trigger] big[p + k] == e[k] by {
        assert(big[p + k] == (x + e)[p + k]);
    }
    if u == 0x22 || u == 0x5C || u == 0x08 || u == 0x09 || u == 0x0A || u == 0x0C || u == 0x0D {
        let second = chunk[1];
        assert(chunk == seq!['\\', second]);
        lemma_units_of_pair('\\', second);
        assert(e == seq![0x5Cu16, second as u16]);
        assert(big[p] == 0x5C);
        assert(big[p + 1] == second as u16);
        assert(decode_step(big, false, p) == escape_step(big, second as u16, p + 2));
        assert(units.subrange(i, i + 1) =~= seq![u]);
        assert(decoded(big, false, p) == units.subrange(i, next) + decoded(big, false, p + 2));
    } else if u <= 0x1F || is_low_surrogate(u) || (is_high_surrogate(u) && !(i + 1 < units.len()
        && is_low_surrogate(units[i + 1]))) {
        lemma_unicode_escape_units(u);
        assert(chunk == unicode_escape(u as int));
        assert(big[p] == 0x5C);
        assert(big[p + 1] == 0x75);
        assert(big[p + 2] == e[2]);
        assert(big.subrange(p + 2, p + 6) =~= e.subrange(2, 6));
        lemma_hex_run_local(big, p + 2, e, 2, 4);
        assert(escape_step(big, 0x75, p + 2) == (seq![u], p + 6));
        assert(units.subrange(i, i + 1) =~= seq![u]);
        assert(decoded(big, false, p) == units.subrange(i, next) + decoded(big, false, p + 6));
    } else if is_high_surrogate(u) {
        let lo = units[i + 1];
        let v = 0x10000 + (u - 0xD800) * 0x400 + (lo - 0xDC00);
        let c = v as char;
        assert(chunk == seq![c]);
        assert(0x10000 <= v <= 0x10FFFF);
        assert((c as u32) as int == v);
        assert((v - 0x10000) / 0x400 == u - 0xD800 && (v - 0x10000) % 0x400 == lo - 0xDC00) by (
        nonlinear_arith)
            requires
                v == 0x10000 + (u - 0xD800) * 0x400 + (lo - 0xDC00),
                0xD800 <= u <= 0xDBFF,
                0xDC00 <= lo <= 0xDFFF,
        ;
        lemma_units_of_char(c);
        assert(e == seq![u, lo]);
        assert(big[p] == u);
        assert(big[p + 1] == lo);
        assert(decode_step(big, false, p) == (seq![u], p + 1));
        assert(decode_step(big, false, p + 1) == (seq![lo], p + 2));
        assert(decoded(big, false, p + 1) == seq![lo] + decoded(big, false, p + 2));
        assert(units.subrange(i, i + 2) =~= seq![u] + seq![lo]);
        assert(decoded(big, false, p) == units.subrange(i, next) + decoded(big, false, p + 2));
    } else {
        let c = u as char;
        assert(chunk == seq![c]);
        assert((c as u32) as int == u as int);
        lemma_units_of_char(c);
        assert(e == seq![u]);
        assert(big[p] == u);
        assert(decode_step(big, false, p) == (seq![u], p + 1));
        assert(units.subrange(i, i + 1) =~= seq![u]);
        assert(decoded(big, false, p) == units.subrange(i, next) + decoded(big, false, p + 1));
    }
}

proof fn lemma_json_decodes_from(units: Seq<u16>, i: int, a: Seq<char>)
    requires
        0 <= i <= units.len(),
    ensures
        decoded(
            crate::unicode::encode_utf16(a + json_units_from(units, i)),
            false,
            crate::unicode::encode_utf16(a).len() as int,
        ) == units.subrange(i, units.len() as int),
    decreases units.len() - i,
{
    let big = crate::unicode::encode_utf16(a + json_units_from(units, i));
    let p = crate::unicode::encode_utf16(a).len() as int;
    if i >= units.len() {
        assert(json_units_from(units, i) =~= Seq::<char>::empty());
        assert(a + json_units_from(units, i) =~= a);
        assert(units.subrange(i, units.len() as int) =~= Seq::<u16>::empty());
    } else {
        let (chunk, next) = json_unit_step(units, i);
        let rest = json_units_from(units, next);
        let ghost e = crate::unicode::encode_utf16(chunk);
        lemma_json_step_decodes(
            units,
            i,
            crate::unicode::encode_utf16(a) + e + crate::unicode::encode_utf16(rest),
            crate::unicode::encode_utf16(a),
            crate::unicode::encode_utf16(rest),
        );
        assert(json_units_from(units, i) == chunk + rest);
        assert(a + json_units_from(units, i) =~= (a + chunk) + rest);
        crate::unicode::lemma_encode_utf16_concat(a + chunk, rest);
        crate::unicode::lemma_encode_utf16_concat(a, chunk);
        assert(big =~= crate::unicode::encode_utf16(a) + e + crate::unicode::encode_utf16(rest));
        lemma_json_decodes_from(units, next, a + chunk);
        assert(units.subrange(i, units.len() as int) =~= units.subrange(i, next) + units.subrange(
            next,
            units.len() as int,
        ));
    }
}

/// What `JSON.stringify` writes, read back as a string literal's value,
/// is what it was given: decoding the units between the quotes of
/// [`json_quote_utf16`]'s output gives back every unit, lone surrogates
/// included.
pub proof fn lemma_json_quote_round_trip(units: Seq<u16>)
    ensures
        decoded(crate::unicode::encode_utf16(json_units_from(units, 0)), false, 0) == units,
{
    lemma_json_decodes_from(units, 0, Seq::empty());
    assert(Seq::<char>::empty() + json_units_from(units, 0) =~= json_units_from(units, 0));
    assert(crate::unicode::encode_utf16(Seq::<char>::empty()) =~= Seq::<u16>::empty());
    assert(units.subrange(0, units.len() as int) =~= units);
}

/// `JSON.stringify` distributes over concatenation.
proof fn lemma_json_chars_concat(x: Seq<char>, y: Seq<char>)
    ensures
        json_chars(x + y) == json_chars(x) + json_chars(y),
    decreases y.len(),
{
    if y.len() == 0 {
        assert(x + y =~= x);
        assert(json_chars(y) =~= Seq::<char>::empty());
        assert(json_chars(x) + json_chars(y) =~= json_chars(x));
    } else {
        lemma_json_chars_concat(x, y.drop_last());
        assert((x + y).drop_last() =~= x + y.drop_last());
        assert((x + y).last() == y.last());
    }
}

/// Decoding what `JSON.stringify` writes for `c`, where it stands in `big`
/// at `p`, gives `c`'s units back and resumes right after it.
proof fn lemma_json_char_decodes(c: char, big: Seq<u16>, x: Seq<u16>, y: Seq<u16>)
    requires
        big == x + crate::unicode::encode_utf16(json_char(c)) + y,
    ensures
        ({
            let len = crate::unicode::encode_utf16(json_char(c)).len() as int;
            let p = x.len() as int;
            &&& len > 0
            &&& decoded(big, false, p) == encode_utf16_char(c) + decoded(big, false, p + len)
        }),
{
    let chunk = json_char(c);
    let e = crate::unicode::encode_utf16(chunk);
    let p = x.len() as int;
    let v = c as u32;
    assert(big.len() == x.len() + e.len() + y.len());
    assert forall|k: int| 0 <= k < e.len() implies #[trigger] big[p + k] == e[k] by {
        assert(big[p + k] == (x + e)[p + k]);
    }
    vstd::utf8::char_is_scalar(c);
    if c == '"' || c == '\\' || c == '\n' || c == '\r' || c == '\t' || v == 0x08 || v == 0x0C {
        let second = chunk[1];
        assert(chunk == seq!['\\', second]);
        lemma_units_of_pair('\\', second);
        assert(e == seq![0x5Cu16, second as u16]);
        assert(big[p] == 0x5C);
        assert(big[p + 1] == second as u16);
        assert(decode_step(big, false, p) == escape_step(big, second as u16, p + 2));
        assert(encode_utf16_char(c) =~= seq![v as u16]);
        assert(decoded(big, false, p) == encode_utf16_char(c) + decoded(big, false, p + 2));
    } else if v < 0x20 {
        let u = v as u16;
        lemma_unicode_escape_units(u);
        assert(chunk == unicode_escape(u as int));
        assert(big[p] == 0x5C);
        assert(big[p + 1] == 0x75);
        assert(big.subrange(p + 2, p + 6) =~= e.subrange(2, 6));
        lemma_hex_run_local(big, p + 2, e, 2, 4);
        assert(escape_step(big, 0x75, p + 2) == (seq![u], p + 6));
        assert(encode_utf16_char(c) =~= seq![u]);
        assert(decoded(big, false, p) == encode_utf16_char(c) + decoded(big, false, p + 6));
    } else if v < 0x10000 {
        assert(chunk == seq![c]);
        lemma_units_of_char(c);
        let u = v as u16;
        assert(e == seq![u]);
        assert(u != 0x5C);
        assert(big[p] == u);
        assert(decode_step(big, false, p) == (seq![u], p + 1));
        assert(decoded(big, false, p) == encode_utf16_char(c) + decoded(big, false, p + 1));
    } else {
        assert(chunk == seq![c]);
        lemma_units_of_char(c);
        let hi = e[0];
        let lo = e[1];
        assert((v - 0x10000) / 0x400 < 0x400) by (nonlinear_arith)
            requires
                0x10000 <= v <= 0x10FFFF,
        ;
        assert(hi >= 0xD800 && lo >= 0xDC00);
        assert(big[p] == hi);
        assert(big[p + 1] == lo);
        assert(decode_step(big, false, p) == (seq![hi], p + 1));
        assert(decode_step(big, false, p + 1) == (seq![lo], p + 2));
        assert(decoded(big, false, p + 1) == seq![lo] + decoded(big, false, p + 2));
        assert(encode_utf16_char(c) =~= seq![hi] + seq![lo]);
        assert(decoded(big, false, p) == encode_utf16_char(c) + decoded(big, false, p + 2));
    }
}

proof fn lemma_json_chars_decode_from(s: Seq<char>, i: int, a: Seq<char>)
    requires
        0 <= i <= s.len(),
    ensures
        decoded(
            crate::unicode::encode_utf16(a + json_chars(s.skip(i))),
            false,
            crate::unicode::encode_utf16(a).len() as int,
        ) == crate::unicode::encode_utf16(s.skip(i)),
    decreases s.len() - i,
{
    let big = crate::unicode::encode_utf16(a + json_chars(s.skip(i)));
    if i >= s.len() {
        assert(s.skip(i) =~= Seq::<char>::empty());
        assert(json_chars(s.skip(i)) =~= Seq::<char>::empty());
        assert(a + json_chars(s.skip(i)) =~= a);
        assert(crate::unicode::encode_utf16(s.skip(i)) =~= Seq::<u16>::empty());
    } else {
        let c = s[i];
        let chunk = json_char(c);
        let rest = json_chars(s.skip(i + 1));
        assert(s.skip(i) =~= seq![c] + s.skip(i + 1));
        lemma_json_chars_concat(seq![c], s.skip(i + 1));
        assert(seq![c].drop_last() =~= Seq::<char>::empty());
        assert(json_chars(seq![c]) =~= json_chars(Seq::<char>::empty()) + json_char(c));
        assert(json_chars(Seq::<char>::empty()) =~= Seq::<char>::empty());
        assert(json_chars(s.skip(i)) =~= chunk + rest);
        let ghost e = crate::unicode::encode_utf16(chunk);
        lemma_json_char_decodes(
            c,
            crate::unicode::encode_utf16(a) + e + crate::unicode::encode_utf16(rest),
            crate::unicode::encode_utf16(a),
            crate::unicode::encode_utf16(rest),
        );
        assert(a + json_chars(s.skip(i)) =~= (a + chunk) + rest);
        crate::unicode::lemma_encode_utf16_concat(a + chunk, rest);
        crate::unicode::lemma_encode_utf16_concat(a, chunk);
        assert(big =~= crate::unicode::encode_utf16(a) + e + crate::unicode::encode_utf16(rest));
        lemma_json_chars_decode_from(s, i + 1, a + chunk);
        crate::unicode::lemma_encode_utf16_concat(seq![c], s.skip(i + 1));
        lemma_units_of_char(c);
    }
}

/// What [`json_quote`] writes, read back as a string literal's value, is
/// the string's own UTF-16 units.
pub proof fn lemma_json_quote_chars_round_trip(s: Seq<char>)
    ensures
        decoded(crate::unicode::encode_utf16(json_chars(s)), false, 0) == crate::unicode::encode_utf16(s),
{
    lemma_json_chars_decode_from(s, 0, Seq::empty());
    assert(s.skip(0) =~= s);
    assert(Seq::<char>::empty() + json_chars(s) =~= json_chars(s));
    assert(crate::unicode::encode_utf16(Seq::<char>::empty()) =~= Seq::<u16>::empty());
}

/// Quoting a character sequence's UTF-16 units from the units of its first
/// `j` characters on gives what quoting its remaining characters gives.
proof fn lemma_json_units_of_encoded(s: Seq<char>, j: int)
    requires
        0 <= j <= s.len(),
    ensures
        json_units_from(crate::unicode::encode_utf16(s), crate::unicode::encode_utf16(s.take(j)).len() as int)
            == json_chars(s.skip(j)),
    decreases s.len() - j,
{
    let units = crate::unicode::encode_utf16(s);
    let p = crate::unicode::encode_utf16(s.take(j)).len() as int;
    assert(s =~= s.take(j) + s.skip(j));
    crate::unicode::lemma_encode_utf16_concat(s.take(j), s.skip(j));
    if j == s.len() {
        assert(s.skip(j) =~= Seq::<char>::empty());
        assert(crate::unicode::encode_utf16(Seq::<char>::empty()) =~= Seq::<u16>::empty());
        assert(json_chars(Seq::<char>::empty()) =~= Seq::<char>::empty());
    } else {
        let c = s[j];
        let rest = s.skip(j + 1);
        assert(s.skip(j) =~= seq![c] + rest);
        crate::unicode::lemma_encode_utf16_concat(seq![c], rest);
        lemma_units_of_char(c);
        assert(s.take(j + 1) =~= s.take(j).push(c));
        crate::unicode::lemma_encode_utf16_push(s.take(j), c);
        crate::build_paths::lemma_char_units_shape(c);
        lemma_json_units_of_encoded(s, j + 1);
        lemma_json_chars_concat(seq![c], rest);
        assert(seq![c].drop_last() =~= Seq::<char>::empty());
        assert(json_chars(Seq::<char>::empty()) =~= Seq::<char>::empty());
        assert(json_chars(seq![c]) =~= json_char(c));
        let e = encode_utf16_char(c);
        assert(units[p] == e[0]);
        let v = c as u32;
        if v < 0x10000 {
            let u = units[p];
            assert(u as u32 == v);
            vstd::utf8::char_u32_cast(c, v);
            assert(c == '"' <==> u == 0x22);
            assert(c == '\\' <==> u == 0x5C);
            assert(c == '\n' <==> u == 0x0A);
            assert(c == '\r' <==> u == 0x0D);
            assert(c == '\t' <==> u == 0x09);
            assert(json_unit_step(units, p) == (json_char(c), p + 1));
        } else {
            assert(units[p + 1] == e[1]);
            assert(json_unit_step(units, p) == (json_char(c), p + 2));
        }
    }
}

/// The UTF-16 and the string quoting agree: `JSON.stringify` of a string's
/// UTF-16 units, as [`json_quote_utf16`] writes it, is what [`json_quote`]
/// writes for the string.
pub proof fn lemma_json_quote_paths_agree(s: Seq<char>)
    ensures
        json_units_from(crate::unicode::encode_utf16(s), 0) == json_chars(s),
{
    lemma_json_units_of_encoded(s, 0);
    assert(s.take(0) =~= Seq::<char>::empty());
    assert(crate::unicode::encode_utf16(Seq::<char>::empty()) =~= Seq::<u16>::empty());
    assert(s.skip(0) =~= s);
}

} // verus!
