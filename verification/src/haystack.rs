//! The text a replace scan runs over, as a sequence of elements: the
//! characters of a string (each read as its code point, compared as its
//! UTF-16 units) or the raw UTF-16 code units of a lossless source (each
//! read and compared as itself). Every matching decision of the scan is
//! stated here once, over that sequence.

use vstd::prelude::*;

use crate::unicode::encode_utf16_char;

verus! {

/// The UTF-16 units one element spells: a character's encoding when the
/// elements are characters (`wide`), the unit itself otherwise.
pub open spec fn elem_units(v: u32, wide: bool) -> Seq<u16> {
    if wide {
        encode_utf16_char(v as char)
    } else {
        seq![v as u16]
    }
}

/// The bucket pre-filter slot of an element: its first UTF-16 unit, masked
/// to 256 slots.
pub open spec fn elem_bucket(v: u32, wide: bool) -> int {
    (elem_units(v, wide)[0] as int) % 256
}

/// The identifier-boundary class `[_$A-Za-z0-9\xA0-\uFFFF]`, judged per
/// element: every element at or above U+A0 (lone surrogates included on
/// the units path) reads as part of a longer word.
pub open spec fn is_word_elem(v: u32) -> bool {
    v == 0x5F || v == 0x24 || (0x30 <= v <= 0x39) || (0x41 <= v <= 0x5A) || (0x61 <= v <= 0x7A)
        || v >= 0xA0
}

/// The ECMAScript regex `\s` class (U+FEFF included, U+0085 not).
pub open spec fn is_js_space(v: u32) -> bool {
    v == 0x09 || v == 0x0A || v == 0x0B || v == 0x0C || v == 0x0D || v == 0x20 || v == 0xA0 || v
        == 0x1680 || (0x2000 <= v <= 0x200A) || v == 0x2028 || v == 0x2029 || v == 0x202F || v
        == 0x205F || v == 0x3000 || v == 0xFEFF
}

/// Where a match of `key` starting at element `at` ends: the key must be
/// exactly the concatenated UTF-16 units of the elements it covers.
pub open spec fn match_end(hay: Seq<u32>, wide: bool, at: int, key: Seq<u16>) -> Option<int>
    decreases key.len(),
{
    if key.len() == 0 {
        Some(at)
    } else if at < 0 || at >= hay.len() {
        None
    } else {
        let u = elem_units(hay[at], wide);
        if u.len() == 0 || key.len() < u.len() || key.subrange(0, u.len() as int) != u {
            None
        } else {
            match_end(hay, wide, at + 1, key.subrange(u.len() as int, key.len() as int))
        }
    }
}

/// The left delimiter: the match is not the tail of a longer word.
pub open spec fn left_bounded(hay: Seq<u32>, at: int) -> bool {
    at == 0 || !is_word_elem(hay[at - 1])
}

/// The right delimiter: the next element is outside the identifier class
/// and is not a member-access `.`.
pub open spec fn right_bounded(hay: Seq<u32>, end: int) -> bool {
    end >= hay.len() || (!is_word_elem(hay[end]) && hay[end] != 0x2E)
}

/// How far back from `at` a run of whitespace elements reaches.
pub open spec fn space_run_start(hay: Seq<u32>, at: int) -> int
    decreases at,
{
    if at <= 0 || at > hay.len() || !is_js_space(hay[at - 1]) {
        at
    } else {
        space_run_start(hay, at - 1)
    }
}

/// Whether the elements right before `at` spell the ASCII keyword `kw`.
pub open spec fn ends_with_keyword(hay: Seq<u32>, at: int, kw: Seq<u32>) -> bool {
    at >= kw.len() && at <= hay.len() && hay.subrange(at - kw.len(), at) == kw
}

/// The declaration keywords `const`, `let` and `var`, as code points.
pub open spec fn keyword_const() -> Seq<u32> {
    seq![0x63u32, 0x6F, 0x6E, 0x73, 0x74]
}

/// `let`.
pub open spec fn keyword_let() -> Seq<u32> {
    seq![0x6Cu32, 0x65, 0x74]
}

/// `var`.
pub open spec fn keyword_var() -> Seq<u32> {
    seq![0x76u32, 0x61, 0x72]
}

/// Whether a whole keyword `kw` ends at `at`.
pub open spec fn whole_keyword_before(hay: Seq<u32>, at: int, kw: Seq<u32>) -> bool {
    ends_with_keyword(hay, at, kw) && (at - kw.len() == 0 || !is_word_elem(
        hay[at - kw.len() - 1],
    ))
}

/// Whether the only text between the last non-whitespace element and
/// `start` is a whole `const`/`let`/`var` keyword followed by at least one
/// whitespace element.
pub open spec fn preceded_by_declaration(hay: Seq<u32>, start: int) -> bool {
    let cursor = space_run_start(hay, start);
    cursor < start && (whole_keyword_before(hay, cursor, keyword_const()) || whole_keyword_before(
        hay,
        cursor,
        keyword_let(),
    ) || whole_keyword_before(hay, cursor, keyword_var()))
}

/// The first non-whitespace element at or after `at` (or the end).
pub open spec fn skip_spaces(hay: Seq<u32>, at: int) -> int
    decreases hay.len() - at,
{
    if at < 0 || at >= hay.len() || !is_js_space(hay[at]) {
        at
    } else {
        skip_spaces(hay, at + 1)
    }
}

/// The `(?!\s*=[^=])` lookahead: after optional whitespace, a `=` followed
/// by an element other than `=`.
pub open spec fn assignment_follows(hay: Seq<u32>, end: int) -> bool {
    let c = skip_spaces(hay, end);
    0 <= c && c + 1 < hay.len() && hay[c] == 0x3D && hay[c + 1] != 0x3D
}

/// The `preventAssignment` skips: a declaration prefix or an assignment
/// lookahead, when the option is on.
pub open spec fn assignment_blocked(
    hay: Seq<u32>,
    prevent: bool,
    start: int,
    end: int,
) -> bool {
    prevent && (preceded_by_declaration(hay, start) || assignment_follows(hay, end))
}

/// Where a candidate key matches at `at` with both delimiters satisfied
/// and no `preventAssignment` skip: its end.
pub open spec fn candidate_end(
    hay: Seq<u32>,
    wide: bool,
    prevent: bool,
    at: int,
    key: Seq<u16>,
) -> Option<int> {
    match match_end(hay, wide, at, key) {
        Some(end) => if left_bounded(hay, at) && right_bounded(hay, end) && !assignment_blocked(
            hay,
            prevent,
            at,
            end,
        ) {
            Some(end)
        } else {
            None
        },
        None => None,
    }
}

/// Every element is a code point when the elements are characters.
pub open spec fn elems_ok(hay: Seq<u32>, wide: bool) -> bool {
    wide ==> forall|i: int| 0 <= i < hay.len() ==> ((#[trigger] hay[i] as char) as u32) == hay[i]
}

/// The UTF-16 units of one element, as (first, second, count).
pub fn units_of(v: u32, wide: bool) -> (r: (u16, u16, usize))
    requires
        wide ==> ((v as char) as u32) == v,
    ensures
        1 <= r.2 <= 2,
        r.2 == elem_units(v, wide).len(),
        r.0 == elem_units(v, wide)[0],
        r.2 == 2 ==> r.1 == elem_units(v, wide)[1],
{
    if !wide || v < 0x10000 {
        (v as u16, 0, 1)
    } else {
        let w = v - 0x10000;
        assert(w / 0x400 < 0x400) by {
            assert(v <= 0x10FFFF) by {
                vstd::utf8::char_is_scalar(v as char);
            }
        }
        ((0xD800 + w / 0x400) as u16, (0xDC00 + w % 0x400) as u16, 2)
    }
}

/// The bucket pre-filter slot of the element at `at`.
pub fn bucket_of(hay: &[u32], wide: bool, at: usize) -> (r: usize)
    requires
        at < hay@.len(),
        elems_ok(hay@, wide),
    ensures
        r == elem_bucket(hay@[at as int], wide),
        r < 256,
{
    let (first, _, _) = units_of(hay[at], wide);
    (first as usize) % 256
}

/// [`is_word_elem`].
pub fn is_word_element(v: u32) -> (r: bool)
    ensures
        r == is_word_elem(v),
{
    v == 0x5F || v == 0x24 || (0x30 <= v && v <= 0x39) || (0x41 <= v && v <= 0x5A) || (0x61 <= v
        && v <= 0x7A) || v >= 0xA0
}

/// [`is_js_space`].
pub fn is_js_whitespace(v: u32) -> (r: bool)
    ensures
        r == is_js_space(v),
{
    v == 0x09 || v == 0x0A || v == 0x0B || v == 0x0C || v == 0x0D || v == 0x20 || v == 0xA0 || v
        == 0x1680 || (0x2000 <= v && v <= 0x200A) || v == 0x2028 || v == 0x2029 || v == 0x202F
        || v == 0x205F || v == 0x3000 || v == 0xFEFF
}

/// [`match_end`]: compares element by element in UTF-16 units, so an
/// astral character matches only a key spelling the same surrogate pair.
pub fn match_end_at(hay: &[u32], wide: bool, at: usize, key: &[u16]) -> (r: Option<usize>)
    requires
        at <= hay@.len(),
        elems_ok(hay@, wide),
    ensures
        r matches Some(e) ==> match_end(hay@, wide, at as int, key@) == Some(e as int) && at <= e
            <= hay@.len(),
        r is None ==> match_end(hay@, wide, at as int, key@) is None,
{
    let mut cursor = at;
    let mut key_at: usize = 0;
    proof {
        assert(key@.subrange(0, key@.len() as int) =~= key@);
    }
    while key_at < key.len()
        invariant
            at <= cursor <= hay@.len(),
            key_at <= key@.len(),
            elems_ok(hay@, wide),
            match_end(hay@, wide, at as int, key@) == match_end(
                hay@,
                wide,
                cursor as int,
                key@.subrange(key_at as int, key@.len() as int),
            ),
        decreases key@.len() - key_at,
    {
        let ghost rest = key@.subrange(key_at as int, key@.len() as int);
        if cursor >= hay.len() {
            return None;
        }
        let (u0, u1, n) = units_of(hay[cursor], wide);
        let ghost u = elem_units(hay@[cursor as int], wide);
        if key.len() - key_at < n {
            return None;
        }
        if key[key_at] != u0 {
            proof {
                assert(rest.subrange(0, u.len() as int)[0] != u[0]);
            }
            return None;
        }
        if n == 2 && key[key_at + 1] != u1 {
            proof {
                assert(rest.subrange(0, u.len() as int)[1] != u[1]);
            }
            return None;
        }
        proof {
            assert(rest.subrange(0, u.len() as int) =~= u);
            assert(rest.subrange(u.len() as int, rest.len() as int) =~= key@.subrange(
                key_at + n,
                key@.len() as int,
            ));
        }
        key_at += n;
        cursor += 1;
    }
    proof {
        assert(key@.subrange(key_at as int, key@.len() as int).len() == 0);
    }
    Some(cursor)
}

/// [`left_bounded`].
pub fn left_bounded_at(hay: &[u32], at: usize) -> (r: bool)
    requires
        at <= hay@.len(),
    ensures
        r == left_bounded(hay@, at as int),
{
    at == 0 || !is_word_element(hay[at - 1])
}

/// [`right_bounded`].
pub fn right_bounded_at(hay: &[u32], end: usize) -> (r: bool)
    ensures
        r == right_bounded(hay@, end as int),
{
    if end >= hay.len() {
        true
    } else {
        let c = hay[end];
        !is_word_element(c) && c != 0x2E
    }
}

/// The code points of an ASCII keyword.
pub fn ascii_units(bytes: &[u8]) -> (units: Vec<u32>)
    ensures
        units@.len() == bytes@.len(),
        forall|i: int| 0 <= i < bytes@.len() ==> #[trigger] units@[i] == bytes@[i] as u32,
{
    let mut units: Vec<u32> = Vec::new();
    let mut at: usize = 0;
    while at < bytes.len()
        invariant
            at <= bytes@.len(),
            units@.len() == at,
            forall|i: int| 0 <= i < at ==> #[trigger] units@[i] == bytes@[i] as u32,
        decreases bytes@.len() - at,
    {
        units.push(bytes[at] as u32);
        at += 1;
    }
    units
}

/// Backward comparison for the declaration-prefix check: whether the
/// elements before `at` end with `key`.
pub fn ends_with_elements(hay: &[u32], at: usize, key: &[u32]) -> (r: bool)
    requires
        at <= hay@.len(),
    ensures
        r == ends_with_keyword(hay@, at as int, key@),
{
    if at < key.len() {
        return false;
    }
    let base = at - key.len();
    let mut k: usize = 0;
    while k < key.len()
        invariant
            base + key@.len() == at <= hay@.len(),
            k <= key@.len(),
            forall|j: int| 0 <= j < k ==> hay@[base + j] == key@[j],
        decreases key@.len() - k,
    {
        if hay[base + k] != key[k] {
            proof {
                assert(hay@.subrange(base as int, at as int)[k as int] != key@[k as int]);
            }
            return false;
        }
        k += 1;
    }
    proof {
        assert(hay@.subrange(base as int, at as int) =~= key@);
    }
    true
}

/// Whether a whole keyword ends at `at`.
fn whole_keyword_at(hay: &[u32], at: usize, kw: &[u32]) -> (r: bool)
    requires
        at <= hay@.len(),
    ensures
        r == whole_keyword_before(hay@, at as int, kw@),
{
    if ends_with_elements(hay, at, kw) {
        let before = at - kw.len();
        before == 0 || !is_word_element(hay[before - 1])
    } else {
        false
    }
}

/// [`preceded_by_declaration`].
pub fn preceded_by_declaration_at(hay: &[u32], start: usize) -> (r: bool)
    requires
        start <= hay@.len(),
    ensures
        r == preceded_by_declaration(hay@, start as int),
{
    let mut cursor = start;
    let mut saw_space = false;
    while cursor > 0 && is_js_whitespace(hay[cursor - 1])
        invariant
            cursor <= start <= hay@.len(),
            saw_space == (cursor < start),
            space_run_start(hay@, start as int) == space_run_start(hay@, cursor as int),
        decreases cursor,
    {
        saw_space = true;
        cursor -= 1;
    }
    if !saw_space {
        return false;
    }
    let c = ascii_units(&[0x63u8, 0x6F, 0x6E, 0x73, 0x74]);
    let l = ascii_units(&[0x6Cu8, 0x65, 0x74]);
    let v = ascii_units(&[0x76u8, 0x61, 0x72]);
    proof {
        assert(c@ =~= keyword_const());
        assert(l@ =~= keyword_let());
        assert(v@ =~= keyword_var());
    }
    whole_keyword_at(hay, cursor, c.as_slice()) || whole_keyword_at(hay, cursor, l.as_slice())
        || whole_keyword_at(hay, cursor, v.as_slice())
}

/// [`assignment_blocked`]: the two `preventAssignment` skips.
pub fn assignment_blocked_at(hay: &[u32], prevent: bool, start: usize, end: usize) -> (r: bool)
    requires
        start <= hay@.len(),
        end <= hay@.len(),
    ensures
        r == assignment_blocked(hay@, prevent, start as int, end as int),
{
    if !prevent {
        return false;
    }
    if preceded_by_declaration_at(hay, start) {
        return true;
    }
    let mut cursor = end;
    while cursor < hay.len() && is_js_whitespace(hay[cursor])
        invariant
            end <= cursor <= hay@.len(),
            skip_spaces(hay@, end as int) == skip_spaces(hay@, cursor as int),
        decreases hay@.len() - cursor,
    {
        cursor += 1;
    }
    if cursor < hay.len() && hay[cursor] == 0x3D {
        let after = cursor + 1;
        if after < hay.len() && hay[after] != 0x3D {
            return true;
        }
    }
    false
}

} // verus!
