//! The two scan paths agree: scanning a text's characters (the String path)
//! and scanning its UTF-16 units (the lossless path) find the same hits,
//! each at the unit offsets of its characters, and splicing those hits
//! gives the same text.

use vstd::prelude::*;

use crate::haystack::{
    assignment_blocked, assignment_follows, candidate_end, ends_with_keyword, is_js_space,
    is_word_elem, keyword_const, keyword_let, keyword_var, left_bounded, match_end,
    preceded_by_declaration, right_bounded, skip_spaces, space_run_start, whole_keyword_before,
};
use crate::replace::{
    byte_offset, char_codes, hit_end, hits_ordered, lemma_scan_ordered, pick, scan_from, splice, text_hits, unit_codes,
    unit_hits, values_utf16, Replaces,
};
use crate::unicode::{encode_utf16, encode_utf16_char, lemma_encode_utf16_concat, lemma_encode_utf16_push};

verus! {

/// The UTF-16 offset of character `i` of `s`.
pub open spec fn unit_pos(s: Seq<char>, i: int) -> int {
    encode_utf16(s.take(i)).len() as int
}

/// A character's UTF-16 units: one non-surrogate unit equal to the code
/// point below U+10000, else a high and a low surrogate.
proof fn lemma_char_units(c: char)
    ensures
        (c as u32) < 0x10000 ==> {
            &&& encode_utf16_char(c).len() == 1
            &&& encode_utf16_char(c)[0] as u32 == c as u32
            &&& !(0xD800 <= encode_utf16_char(c)[0] <= 0xDFFF)
        },
        (c as u32) >= 0x10000 ==> {
            &&& encode_utf16_char(c).len() == 2
            &&& 0xD800 <= encode_utf16_char(c)[0] <= 0xDBFF
            &&& 0xDC00 <= encode_utf16_char(c)[1] <= 0xDFFF
        },
{
    vstd::utf8::char_is_scalar(c);
    let v = c as u32;
    if v >= 0x10000 {
        assert((v - 0x10000) / 0x400 < 0x400) by (nonlinear_arith)
            requires
                0x10000 <= v <= 0x10FFFF,
        ;
        assert((v - 0x10000) % 0x400 < 0x400) by (nonlinear_arith)
            requires
                0x10000 <= v,
        ;
    }
}

/// Where character `i` sits among the units: its units start at its
/// offset, and the next character's offset follows them.
proof fn lemma_layout(s: Seq<char>, i: int)
    requires
        0 <= i < s.len(),
    ensures
        unit_pos(s, i + 1) == unit_pos(s, i) + encode_utf16_char(s[i]).len(),
        unit_pos(s, i + 1) <= encode_utf16(s).len(),
        forall|k: int|
            0 <= k < encode_utf16_char(s[i]).len() ==> #[trigger] encode_utf16(s)[unit_pos(s, i) + k]
                == encode_utf16_char(s[i])[k],
{
    assert(s.take(i + 1) =~= s.take(i).push(s[i]));
    lemma_encode_utf16_push(s.take(i), s[i]);
    assert(s =~= s.take(i + 1) + s.skip(i + 1));
    lemma_encode_utf16_concat(s.take(i + 1), s.skip(i + 1));
    let pre = encode_utf16(s.take(i));
    let u = encode_utf16_char(s[i]);
    assert forall|k: int| 0 <= k < u.len() implies #[trigger] encode_utf16(s)[unit_pos(s, i) + k]
        == u[k] by {
        assert(encode_utf16(s)[pre.len() + k] == (pre + u)[pre.len() + k]);
    }
}

/// Offsets grow with the character index, one or two units a character.
proof fn lemma_pos_mono(s: Seq<char>, i: int, j: int)
    requires
        0 <= i <= j <= s.len(),
    ensures
        unit_pos(s, i) + (j - i) <= unit_pos(s, j),
        unit_pos(s, j) <= encode_utf16(s).len(),
        unit_pos(s, 0) == 0,
        unit_pos(s, s.len() as int) == encode_utf16(s).len(),
    decreases j - i,
{
    assert(s.take(0) =~= Seq::<char>::empty());
    assert(encode_utf16(Seq::<char>::empty()) =~= Seq::<u16>::empty());
    assert(s.take(s.len() as int) =~= s);
    assert(s =~= s.take(j) + s.skip(j));
    lemma_encode_utf16_concat(s.take(j), s.skip(j));
    if i < j {
        lemma_pos_mono(s, i, j - 1);
        lemma_layout(s, j - 1);
        lemma_char_units(s[j - 1]);
    }
}

/// The unit code at the first unit of character `i`.
proof fn lemma_first_unit(s: Seq<char>, i: int)
    requires
        0 <= i < s.len(),
    ensures
        unit_pos(s, i) < encode_utf16(s).len(),
        unit_codes(encode_utf16(s))[unit_pos(s, i)] == encode_utf16_char(s[i])[0] as u32,
        (s[i] as u32) < 0x10000 ==> unit_codes(encode_utf16(s))[unit_pos(s, i)] == s[i] as u32,
        (s[i] as u32) >= 0x10000 ==> 0xD800 <= unit_codes(encode_utf16(s))[unit_pos(s, i)] <= 0xDBFF,
        (s[i] as u32) >= 0x10000 ==> 0xDC00 <= unit_codes(encode_utf16(s))[unit_pos(s, i) + 1] <= 0xDFFF,
        (s[i] as u32) >= 0x10000 ==> unit_pos(s, i) + 1 < encode_utf16(s).len(),
{
    lemma_layout(s, i);
    lemma_char_units(s[i]);
    assert(encode_utf16(s)[unit_pos(s, i) + 0] == encode_utf16_char(s[i])[0]);
    if (s[i] as u32) >= 0x10000 {
        assert(encode_utf16(s)[unit_pos(s, i) + 1] == encode_utf16_char(s[i])[1]);
    }
}

/// The unit code at the last unit of character `i`.
proof fn lemma_last_unit(s: Seq<char>, i: int)
    requires
        0 <= i < s.len(),
    ensures
        unit_pos(s, i + 1) - 1 >= 0,
        (s[i] as u32) < 0x10000 ==> unit_codes(encode_utf16(s))[unit_pos(s, i + 1) - 1] == s[i] as u32,
        (s[i] as u32) >= 0x10000 ==> 0xDC00 <= unit_codes(encode_utf16(s))[unit_pos(s, i + 1) - 1] <= 0xDFFF,
{
    lemma_layout(s, i);
    lemma_first_unit(s, i);
}

/// A character-path result moved to unit offsets.
pub open spec fn opt_pos(s: Seq<char>, r: Option<int>) -> Option<int> {
    match r {
        Some(e) => Some(unit_pos(s, e)),
        None => None,
    }
}

proof fn lemma_codes(s: Seq<char>)
    ensures
        char_codes(s).len() == s.len(),
        unit_codes(encode_utf16(s)).len() == encode_utf16(s).len(),
        forall|i: int| 0 <= i < s.len() ==> #[trigger] char_codes(s)[i] == s[i] as u32,
        forall|k: int|
            0 <= k < encode_utf16(s).len() ==> #[trigger] unit_codes(encode_utf16(s))[k]
                == encode_utf16(s)[k] as u32,
{
}

/// The left delimiter reads the same at a character and at its offset.
proof fn lemma_left_bounded(s: Seq<char>, i: int)
    requires
        0 <= i <= s.len(),
    ensures
        left_bounded(unit_codes(encode_utf16(s)), unit_pos(s, i)) == left_bounded(char_codes(s), i),
{
    lemma_codes(s);
    lemma_pos_mono(s, 0, i);
    if i > 0 {
        lemma_last_unit(s, i - 1);
    }
}

/// The right delimiter reads the same at a character and at its offset.
proof fn lemma_right_bounded(s: Seq<char>, j: int)
    requires
        0 <= j <= s.len(),
    ensures
        right_bounded(unit_codes(encode_utf16(s)), unit_pos(s, j)) == right_bounded(char_codes(s), j),
{
    lemma_codes(s);
    lemma_pos_mono(s, j, s.len() as int);
    if j < s.len() {
        lemma_first_unit(s, j);
    }
}

/// A key matches at a character exactly when its units match at the
/// character's offset, ending at the offset of the character it ends at.
proof fn lemma_match_end(s: Seq<char>, i: int, kc: Seq<char>)
    requires
        0 <= i <= s.len(),
    ensures
        match_end(unit_codes(encode_utf16(s)), false, unit_pos(s, i), encode_utf16(kc)) == opt_pos(
            s,
            match_end(char_codes(s), true, i, encode_utf16(kc)),
        ),
    decreases kc.len(),
{
    let uc = unit_codes(encode_utf16(s));
    let cc = char_codes(s);
    let key = encode_utf16(kc);
    let p = unit_pos(s, i);
    lemma_codes(s);
    lemma_pos_mono(s, i, s.len() as int);
    if kc.len() == 0 {
        assert(key =~= Seq::<u16>::empty());
    } else {
        let v = encode_utf16_char(kc[0]);
        let rest = encode_utf16(kc.drop_first());
        assert(key == v + rest);
        lemma_char_units(kc[0]);
        if i < s.len() {
            let c = s[i];
            vstd::utf8::char_u32_cast(c, c as u32);
            let u = encode_utf16_char(c);
            assert(crate::haystack::elem_units(cc[i], true) == u);
            lemma_char_units(c);
            lemma_first_unit(s, i);
            lemma_layout(s, i);
            lemma_match_end(s, i + 1, kc.drop_first());
            assert(crate::haystack::elem_units(uc[p], false) == seq![uc[p] as u16]);
            let goal = match_end(uc, false, p, key) == opt_pos(s, match_end(cc, true, i, key));
            if u.len() == 1 && v.len() == 1 {
                assert(key.subrange(0, 1) =~= seq![key[0]]);
                assert(key.subrange(1, key.len() as int) =~= rest);
                assert(uc[p] as u16 == u[0]);
                assert(u =~= seq![u[0]]);
                assert(unit_pos(s, i + 1) == p + 1);
                assert(goal);
            } else if u.len() == 2 && v.len() == 2 {
                let k1 = key.subrange(1, key.len() as int);
                assert(key.subrange(0, 1) =~= seq![key[0]]);
                assert(k1.subrange(0, 1) =~= seq![k1[0]]);
                assert(k1.subrange(1, k1.len() as int) =~= rest);
                assert(key.subrange(2, key.len() as int) =~= rest);
                assert(uc[p] as u16 == u[0]);
                assert(uc[p + 1] == encode_utf16(s)[p + 1] as u32);
                assert(encode_utf16(s)[p + 1] == u[1]);
                assert(uc[p + 1] as u16 == u[1]);
                assert(unit_pos(s, i + 1) == p + 2);
                assert(key.subrange(0, 2) == u <==> (key[0] == u[0] && key[1] == u[1])) by {
                    if key[0] == u[0] && key[1] == u[1] {
                        assert(key.subrange(0, 2) =~= u);
                    }
                }
                assert(crate::haystack::elem_units(uc[p + 1], false) == seq![uc[p + 1] as u16]);
                if key[0] == u[0] {
                    assert(match_end(uc, false, p, key) == match_end(uc, false, p + 1, k1));
                    assert(k1[0] == key[1]);
                    if key[1] == u[1] {
                        assert(match_end(uc, false, p + 1, k1) == match_end(uc, false, p + 2, rest));
                    } else {
                        assert(seq![uc[p + 1] as u16] != k1.subrange(0, 1)) by {
                            assert(seq![uc[p + 1] as u16][0] != k1.subrange(0, 1)[0]);
                        }
                        assert(match_end(uc, false, p + 1, k1) is None);
                    }
                } else {
                    assert(seq![uc[p] as u16] != key.subrange(0, 1)) by {
                        assert(seq![uc[p] as u16][0] != key.subrange(0, 1)[0]);
                    }
                }
                assert(goal);
            } else if u.len() == 1 {
                assert(key.subrange(0, 1) =~= seq![key[0]]);
                assert(key[0] != u[0]);
                assert(uc[p] as u16 == u[0]);
                assert(seq![uc[p] as u16] != key.subrange(0, 1)) by {
                    assert(seq![uc[p] as u16][0] != key.subrange(0, 1)[0]);
                }
                assert(key.subrange(0, 1) != u) by {
                    assert(key.subrange(0, 1)[0] != u[0]);
                }
                assert(goal);
            } else {
                assert(key[0] != u[0]);
                assert(uc[p] as u16 == u[0]);
                if key.len() >= 2 {
                    assert(key.subrange(0, 2)[0] == key[0]);
                    assert(key.subrange(0, 2) != u);
                }
                assert(key.subrange(0, 1) =~= seq![key[0]]);
                assert(seq![uc[p] as u16] != key.subrange(0, 1)) by {
                    assert(seq![uc[p] as u16][0] != key.subrange(0, 1)[0]);
                }
                assert(goal);
            }
        } else {
            assert(p == uc.len());
        }
    }
}

/// No key starts in the middle of a surrogate pair.
proof fn lemma_no_match_mid_pair(s: Seq<char>, i: int, kc: Seq<char>)
    requires
        0 <= i < s.len(),
        (s[i] as u32) >= 0x10000,
        kc.len() > 0,
    ensures
        match_end(unit_codes(encode_utf16(s)), false, unit_pos(s, i) + 1, encode_utf16(kc)) is None,
{
    let uc = unit_codes(encode_utf16(s));
    let key = encode_utf16(kc);
    let p = unit_pos(s, i) + 1;
    lemma_codes(s);
    lemma_first_unit(s, i);
    lemma_char_units(kc[0]);
    assert(key == encode_utf16_char(kc[0]) + encode_utf16(kc.drop_first()));
    assert(key[0] == encode_utf16_char(kc[0])[0]);
    assert(crate::haystack::elem_units(uc[p], false) == seq![uc[p] as u16]);
    assert(key.subrange(0, 1) =~= seq![key[0]]);
    assert(p < uc.len());
    assert(key.len() >= 1);
    assert(uc[p] == encode_utf16(s)[p] as u32);
    assert(0xDC00 <= encode_utf16(s)[p] <= 0xDFFF);
    assert(!(0xDC00 <= key[0] <= 0xDFFF));
    assert(uc[p] as u16 == encode_utf16(s)[p]);
    assert(seq![uc[p] as u16][0] != key.subrange(0, 1)[0]);
    assert(seq![uc[p] as u16] != key.subrange(0, 1));
}

/// A whitespace run reaches back to the offset of the character it reaches
/// back to.
proof fn lemma_space_run(s: Seq<char>, i: int)
    requires
        0 <= i <= s.len(),
    ensures
        space_run_start(unit_codes(encode_utf16(s)), unit_pos(s, i)) == unit_pos(
            s,
            space_run_start(char_codes(s), i),
        ),
        0 <= space_run_start(char_codes(s), i) <= i,
    decreases i,
{
    lemma_codes(s);
    lemma_pos_mono(s, 0, i);
    lemma_pos_mono(s, i, s.len() as int);
    if i > 0 {
        lemma_last_unit(s, i - 1);
        lemma_layout(s, i - 1);
        lemma_space_run(s, i - 1);
    }
}

/// Skipping whitespace forward ends at the offset of the character it ends
/// at.
proof fn lemma_skip_spaces(s: Seq<char>, j: int)
    requires
        0 <= j <= s.len(),
    ensures
        skip_spaces(unit_codes(encode_utf16(s)), unit_pos(s, j)) == unit_pos(
            s,
            skip_spaces(char_codes(s), j),
        ),
        j <= skip_spaces(char_codes(s), j) <= s.len(),
    decreases s.len() - j,
{
    lemma_codes(s);
    lemma_pos_mono(s, j, s.len() as int);
    if j < s.len() {
        lemma_first_unit(s, j);
        lemma_layout(s, j);
        lemma_skip_spaces(s, j + 1);
    }
}

/// Whether every element is ASCII.
pub open spec fn ascii_codes(t: Seq<u32>) -> bool {
    forall|k: int| 0 <= k < t.len() ==> #[trigger] t[k] < 0x80
}

/// An ASCII run ends at a character exactly when it ends at the
/// character's offset, each of its characters one unit long.
proof fn lemma_ascii_tail(s: Seq<char>, c: int, t: Seq<u32>)
    requires
        0 <= c <= s.len(),
        ascii_codes(t),
    ensures
        (unit_pos(s, c) >= t.len() && unit_codes(encode_utf16(s)).subrange(
            unit_pos(s, c) - t.len(),
            unit_pos(s, c),
        ) == t) <==> (c >= t.len() && char_codes(s).subrange(c - t.len(), c) == t),
        (c >= t.len() && char_codes(s).subrange(c - t.len(), c) == t) ==> unit_pos(s, c - t.len())
            == unit_pos(s, c) - t.len(),
    decreases t.len(),
{
    let uc = unit_codes(encode_utf16(s));
    let cc = char_codes(s);
    let l = t.len() as int;
    lemma_codes(s);
    lemma_pos_mono(s, 0, c);
    if l == 0 {
        assert(uc.subrange(unit_pos(s, c), unit_pos(s, c)) =~= t);
        assert(cc.subrange(c, c) =~= t);
    } else {
        let init = t.drop_last();
        let a = t.last();
        assert(ascii_codes(init));
        if c > 0 {
            lemma_last_unit(s, c - 1);
            lemma_layout(s, c - 1);
            lemma_char_units(s[c - 1]);
            lemma_ascii_tail(s, c - 1, init);
            let p = unit_pos(s, c);
            if p >= l && uc.subrange(p - l, p) == t {
                assert(uc[p - 1] == t[l - 1]);
                assert(uc[p - 1] < 0x80);
                assert((s[c - 1] as u32) < 0x10000);
                assert(unit_pos(s, c - 1) == p - 1);
                assert(uc.subrange(p - 1 - (l - 1), p - 1) =~= init);
                assert(cc.subrange(c - 1 - (l - 1), c - 1) == init);
                assert(cc[c - 1] == a);
                assert(cc.subrange(c - l, c) =~= init.push(a));
                assert(t =~= init.push(a));
            }
            if c >= l && cc.subrange(c - l, c) == t {
                assert(cc[c - 1] == t[l - 1]);
                assert((s[c - 1] as u32) < 0x80);
                assert(unit_pos(s, c - 1) == p - 1);
                assert(cc.subrange(c - 1 - (l - 1), c - 1) =~= init);
                assert(uc.subrange(p - 1 - (l - 1), p - 1) == init);
                assert(uc[p - 1] == a);
                assert(uc.subrange(p - l, p) =~= init.push(a));
                assert(t =~= init.push(a));
            }
        } else {
            assert(unit_pos(s, c) == 0);
        }
    }
}

/// A whole declaration keyword ends at a character exactly when it ends at
/// the character's offset.
proof fn lemma_whole_keyword(s: Seq<char>, c: int, kw: Seq<u32>)
    requires
        0 <= c <= s.len(),
        ascii_codes(kw),
    ensures
        whole_keyword_before(unit_codes(encode_utf16(s)), unit_pos(s, c), kw)
            == whole_keyword_before(char_codes(s), c, kw),
{
    lemma_codes(s);
    lemma_pos_mono(s, 0, c);
    lemma_pos_mono(s, c, s.len() as int);
    lemma_ascii_tail(s, c, kw);
    let l = kw.len() as int;
    if c >= l && char_codes(s).subrange(c - l, c) == kw {
        lemma_left_bounded(s, c - l);
        lemma_pos_mono(s, 0, c - l);
    }
}

proof fn lemma_keywords_ascii()
    ensures
        ascii_codes(keyword_const()),
        ascii_codes(keyword_let()),
        ascii_codes(keyword_var()),
{
}

/// The declaration prefix reads the same at a character and at its offset.
proof fn lemma_declaration(s: Seq<char>, i: int)
    requires
        0 <= i <= s.len(),
    ensures
        preceded_by_declaration(unit_codes(encode_utf16(s)), unit_pos(s, i))
            == preceded_by_declaration(char_codes(s), i),
{
    lemma_space_run(s, i);
    let cursor = space_run_start(char_codes(s), i);
    lemma_pos_mono(s, cursor, i);
    lemma_keywords_ascii();
    lemma_whole_keyword(s, cursor, keyword_const());
    lemma_whole_keyword(s, cursor, keyword_let());
    lemma_whole_keyword(s, cursor, keyword_var());
}

/// The assignment lookahead reads the same at a character and at its
/// offset.
proof fn lemma_assignment_follows(s: Seq<char>, j: int)
    requires
        0 <= j <= s.len(),
    ensures
        assignment_follows(unit_codes(encode_utf16(s)), unit_pos(s, j)) == assignment_follows(
            char_codes(s),
            j,
        ),
{
    lemma_codes(s);
    lemma_skip_spaces(s, j);
    let c = skip_spaces(char_codes(s), j);
    lemma_pos_mono(s, c, s.len() as int);
    if c < s.len() {
        lemma_first_unit(s, c);
        lemma_layout(s, c);
        lemma_char_units(s[c]);
        if c + 1 < s.len() {
            lemma_first_unit(s, c + 1);
            lemma_pos_mono(s, c + 1, s.len() as int);
        } else {
            lemma_pos_mono(s, c + 1, s.len() as int);
        }
    }
}

/// A key is a hit at a character exactly when it is a hit at the
/// character's offset, ending at the offset of the same end.
proof fn lemma_candidate(s: Seq<char>, prevent: bool, i: int, kc: Seq<char>)
    requires
        0 <= i <= s.len(),
    ensures
        candidate_end(unit_codes(encode_utf16(s)), false, prevent, unit_pos(s, i), encode_utf16(kc))
            == opt_pos(s, candidate_end(char_codes(s), true, prevent, i, encode_utf16(kc))),
{
    lemma_codes(s);
    lemma_match_end(s, i, kc);
    let m = match_end(char_codes(s), true, i, encode_utf16(kc));
    if let Some(e) = m {
        if encode_utf16(kc).len() > 0 {
            crate::replace::lemma_match_end_shape(char_codes(s), true, i, encode_utf16(kc));
        }
        lemma_left_bounded(s, i);
        lemma_right_bounded(s, e);
        lemma_declaration(s, i);
        lemma_assignment_follows(s, e);
    }
}

/// The same keys are hits at a character and at its offset.
proof fn lemma_pick(s: Seq<char>, keys: Seq<Seq<char>>, prevent: bool, i: int, n: nat)
    requires
        0 <= i <= s.len(),
        n <= keys.len(),
    ensures
        pick(keys, unit_codes(encode_utf16(s)), false, prevent, unit_pos(s, i), n) == pick(
            keys,
            char_codes(s),
            true,
            prevent,
            i,
            n,
        ),
    decreases n,
{
    if n > 0 {
        lemma_pick(s, keys, prevent, i, (n - 1) as nat);
        lemma_candidate(s, prevent, i, keys[n - 1]);
    }
}

/// Inside a surrogate pair no key is a hit.
proof fn lemma_pick_mid_pair(s: Seq<char>, keys: Seq<Seq<char>>, prevent: bool, i: int, n: nat)
    requires
        0 <= i < s.len(),
        (s[i] as u32) >= 0x10000,
        n <= keys.len(),
        forall|j: int| 0 <= j < keys.len() ==> (#[trigger] keys[j]).len() > 0,
    ensures
        pick(keys, unit_codes(encode_utf16(s)), false, prevent, unit_pos(s, i) + 1, n) is None,
    decreases n,
{
    if n > 0 {
        lemma_pick_mid_pair(s, keys, prevent, i, (n - 1) as nat);
        lemma_no_match_mid_pair(s, i, keys[n - 1]);
    }
}

/// Hits at character positions moved to the units' offsets.
pub open spec fn hits_at_units(s: Seq<char>, hits: Seq<(int, int, int)>) -> Seq<(int, int, int)> {
    hits.map_values(|h: (int, int, int)| (unit_pos(s, h.0), unit_pos(s, h.1), h.2))
}

proof fn lemma_scan(s: Seq<char>, keys: Seq<Seq<char>>, prevent: bool, i: int)
    requires
        0 <= i <= s.len(),
        forall|j: int| 0 <= j < keys.len() ==> (#[trigger] keys[j]).len() > 0,
    ensures
        scan_from(keys, unit_codes(encode_utf16(s)), false, prevent, unit_pos(s, i)) == hits_at_units(
            s,
            scan_from(keys, char_codes(s), true, prevent, i),
        ),
    decreases s.len() - i,
{
    let uc = unit_codes(encode_utf16(s));
    let cc = char_codes(s);
    lemma_codes(s);
    lemma_pos_mono(s, i, s.len() as int);
    if i == s.len() {
        assert(hits_at_units(s, Seq::<(int, int, int)>::empty()) =~= Seq::<(int, int, int)>::empty());
    } else {
        lemma_first_unit(s, i);
        lemma_layout(s, i);
        lemma_char_units(s[i]);
        lemma_pick(s, keys, prevent, i, keys.len());
        let p = unit_pos(s, i);
        crate::replace::lemma_pick(keys, cc, true, prevent, i, keys.len());
        match pick(keys, cc, true, prevent, i, keys.len()) {
            Some(k) => {
                let e = crate::replace::hit_end(keys, cc, true, prevent, i, k)->0;
                lemma_candidate(s, prevent, i, keys[k]);
                let key = encode_utf16(keys[k]);
                crate::unicode::lemma_encode_utf16_nonempty(keys[k]);
                crate::replace::lemma_match_end_shape(cc, true, i, key);
                lemma_pos_mono(s, i, e);
                lemma_pos_mono(s, e, s.len() as int);
                lemma_scan(s, keys, prevent, e);
                let rest = scan_from(keys, cc, true, prevent, e);
                assert(hits_at_units(s, seq![(i, e, k)] + rest) =~= seq![(p, unit_pos(s, e), k)]
                    + hits_at_units(s, rest));
            },
            None => {
                lemma_scan(s, keys, prevent, i + 1);
                if (s[i] as u32) >= 0x10000 {
                    lemma_pick_mid_pair(s, keys, prevent, i, keys.len());
                    assert(scan_from(keys, uc, false, prevent, p + 1) == scan_from(
                        keys,
                        uc,
                        false,
                        prevent,
                        p + 2,
                    ));
                }
            },
        }
    }
}

/// The String path and the lossless path find the same hits: scanning a
/// text's UTF-16 units gives, hit for hit, the scan of its characters with
/// every position moved to its UTF-16 offset (so the same keys win, at the
/// same places, with the same leftmost-longest choices).
pub proof fn lemma_scan_paths_agree(keys: Seq<Seq<char>>, s: Seq<char>, prevent: bool)
    requires
        forall|j: int| 0 <= j < keys.len() ==> (#[trigger] keys[j]).len() > 0,
    ensures
        unit_hits(keys, encode_utf16(s), prevent) == hits_at_units(s, text_hits(keys, s, prevent)),
{
    lemma_scan(s, keys, prevent, 0);
    lemma_pos_mono(s, 0, 0);
}

/// The units of a stretch of characters are the stretch of the units
/// between the two UTF-16 offsets.
proof fn lemma_units_subrange(s: Seq<char>, a: int, b: int)
    requires
        0 <= a <= b <= s.len(),
    ensures
        encode_utf16(s.subrange(a, b)) == encode_utf16(s).subrange(unit_pos(s, a), unit_pos(s, b)),
{
    assert(s.take(b) =~= s.take(a) + s.subrange(a, b));
    assert(s =~= s.take(b) + s.skip(b));
    lemma_encode_utf16_concat(s.take(a), s.subrange(a, b));
    lemma_encode_utf16_concat(s.take(b), s.skip(b));
    assert(encode_utf16(s).subrange(unit_pos(s, a), unit_pos(s, b)) =~= encode_utf16(
        s.subrange(a, b),
    ));
}

/// Splicing characters and splicing their units, hits moved to the units'
/// offsets, agree.
proof fn lemma_splice_units(s: Seq<char>, hits: Seq<(int, int, int)>, vals: Seq<Seq<char>>, cursor: int)
    requires
        hits_ordered(hits, cursor, s.len() as int, vals.len() as int),
        0 <= cursor <= s.len(),
    ensures
        encode_utf16(splice(s, hits, vals, cursor)) == splice(
            encode_utf16(s),
            hits_at_units(s, hits),
            values_utf16(vals),
            unit_pos(s, cursor),
        ),
    decreases hits.len(),
{
    let units = encode_utf16(s);
    let moved = hits_at_units(s, hits);
    lemma_pos_mono(s, cursor, s.len() as int);
    if hits.len() == 0 {
        lemma_units_subrange(s, cursor, s.len() as int);
    } else {
        let h = hits[0];
        let rest = hits.drop_first();
        assert forall|k: int| 0 <= k < rest.len() implies h.1 <= (#[trigger] rest[k]).0 < rest[k].1
            <= s.len() && 0 <= rest[k].2 < vals.len() by {
            assert(rest[k] == hits[k + 1]);
        }
        assert forall|j: int, k: int| 0 <= j < k < rest.len() implies (#[trigger] rest[j]).1
            <= (#[trigger] rest[k]).0 by {
            assert(rest[j] == hits[j + 1] && rest[k] == hits[k + 1]);
        }
        lemma_splice_units(s, rest, vals, h.1);
        lemma_units_subrange(s, cursor, h.0);
        lemma_pos_mono(s, cursor, h.0);
        lemma_pos_mono(s, h.0, h.1);
        lemma_pos_mono(s, h.1, s.len() as int);
        assert(moved[0] == (unit_pos(s, h.0), unit_pos(s, h.1), h.2));
        assert(moved.drop_first() =~= hits_at_units(s, rest));
        assert(values_utf16(vals)[h.2] == encode_utf16(vals[h.2]));
        let left = s.subrange(cursor, h.0) + vals[h.2];
        lemma_encode_utf16_concat(s.subrange(cursor, h.0), vals[h.2]);
        lemma_encode_utf16_concat(left, splice(s, rest, vals, h.1));
    }
}

/// The String path and the lossless path rewrite alike: with every key
/// nonempty and a value per key, splicing the hits of a text's scan and
/// reading the result as UTF-16 gives exactly the splice of the hits of
/// its units' scan, with the same number of hits.
pub proof fn lemma_rewrite_paths_agree(
    keys: Seq<Seq<char>>,
    values: Seq<Seq<char>>,
    s: Seq<char>,
    prevent: bool,
)
    requires
        forall|j: int| 0 <= j < keys.len() ==> (#[trigger] keys[j]).len() > 0,
        values.len() == keys.len(),
    ensures
        unit_hits(keys, encode_utf16(s), prevent).len() == text_hits(keys, s, prevent).len(),
        encode_utf16(splice(s, text_hits(keys, s, prevent), values, 0)) == splice(
            encode_utf16(s),
            unit_hits(keys, encode_utf16(s), prevent),
            values_utf16(values),
            0,
        ),
{
    lemma_scan_paths_agree(keys, s, prevent);
    lemma_codes(s);
    lemma_scan_ordered(keys, char_codes(s), true, prevent, 0);
    lemma_splice_units(s, text_hits(keys, s, prevent), values, 0);
    lemma_pos_mono(s, 0, 0);
}

/// [`Replaces::rewrite`] and [`Replaces::rewrite_units`] agree: on any
/// text, rewriting its UTF-16 units gives the same number of hits as
/// rewriting the text, and the same text, unit for unit.
pub proof fn lemma_rewrite_and_rewrite_units_agree(r: &Replaces, s: Seq<char>)
    requires
        r.well_formed(),
    ensures
        unit_hits(r.keys(), encode_utf16(s), r.prevents_assignment()).len() == text_hits(
            r.keys(),
            s,
            r.prevents_assignment(),
        ).len(),
        encode_utf16(splice(s, text_hits(r.keys(), s, r.prevents_assignment()), r.values(), 0))
            == splice(
            encode_utf16(s),
            unit_hits(r.keys(), encode_utf16(s), r.prevents_assignment()),
            values_utf16(r.values()),
            0,
        ),
{
    r.lemma_table_shape();
    lemma_rewrite_paths_agree(r.keys(), r.values(), s, r.prevents_assignment());
}

/// Hits at character positions moved to the text's UTF-8 offsets.
pub open spec fn hits_at_bytes(s: Seq<char>, hits: Seq<(int, int, int)>) -> Seq<(int, int, int)> {
    hits.map_values(|h: (int, int, int)| (byte_offset(s, h.0), byte_offset(s, h.1), h.2))
}

/// The values spelled in UTF-8.
pub open spec fn values_utf8(values: Seq<Seq<char>>) -> Seq<Seq<u8>> {
    values.map_values(|v: Seq<char>| vstd::utf8::encode_utf8(v))
}

/// The bytes of a stretch of characters are the stretch of the bytes
/// between the two UTF-8 offsets, and offsets grow with positions.
proof fn lemma_bytes_subrange(s: Seq<char>, a: int, b: int)
    requires
        0 <= a <= b <= s.len(),
    ensures
        vstd::utf8::encode_utf8(s.subrange(a, b)) == vstd::utf8::encode_utf8(s).subrange(
            byte_offset(s, a),
            byte_offset(s, b),
        ),
        byte_offset(s, a) <= byte_offset(s, b) <= vstd::utf8::encode_utf8(s).len(),
{
    assert(s.take(b) =~= s.take(a) + s.subrange(a, b));
    assert(s =~= s.take(b) + s.skip(b));
    crate::chars::lemma_encode_utf8_concat(s.take(a), s.subrange(a, b));
    crate::chars::lemma_encode_utf8_concat(s.take(b), s.skip(b));
    assert(vstd::utf8::encode_utf8(s).subrange(byte_offset(s, a), byte_offset(s, b))
        =~= vstd::utf8::encode_utf8(s.subrange(a, b)));
}

/// Splicing characters and splicing their UTF-8 bytes, hits moved to the
/// bytes' offsets and values spelled in UTF-8, agree.
proof fn lemma_splice_bytes(s: Seq<char>, hits: Seq<(int, int, int)>, vals: Seq<Seq<char>>, cursor: int)
    requires
        hits_ordered(hits, cursor, s.len() as int, vals.len() as int),
        0 <= cursor <= s.len(),
    ensures
        vstd::utf8::encode_utf8(splice(s, hits, vals, cursor)) == splice(
            vstd::utf8::encode_utf8(s),
            hits_at_bytes(s, hits),
            values_utf8(vals),
            byte_offset(s, cursor),
        ),
    decreases hits.len(),
{
    let moved = hits_at_bytes(s, hits);
    if hits.len() == 0 {
        lemma_bytes_subrange(s, cursor, s.len() as int);
        assert(s.take(s.len() as int) =~= s);
    } else {
        let h = hits[0];
        let rest = hits.drop_first();
        assert forall|k: int| 0 <= k < rest.len() implies h.1 <= (#[trigger] rest[k]).0 < rest[k].1
            <= s.len() && 0 <= rest[k].2 < vals.len() by {
            assert(rest[k] == hits[k + 1]);
        }
        assert forall|j: int, k: int| 0 <= j < k < rest.len() implies (#[trigger] rest[j]).1
            <= (#[trigger] rest[k]).0 by {
            assert(rest[j] == hits[j + 1] && rest[k] == hits[k + 1]);
        }
        lemma_splice_bytes(s, rest, vals, h.1);
        lemma_bytes_subrange(s, cursor, h.0);
        assert(moved[0] == (byte_offset(s, h.0), byte_offset(s, h.1), h.2));
        assert(moved.drop_first() =~= hits_at_bytes(s, rest));
        assert(values_utf8(vals)[h.2] == vstd::utf8::encode_utf8(vals[h.2]));
        let left = s.subrange(cursor, h.0) + vals[h.2];
        crate::chars::lemma_encode_utf8_concat(s.subrange(cursor, h.0), vals[h.2]);
        crate::chars::lemma_encode_utf8_concat(left, splice(s, rest, vals, h.1));
    }
}

/// [`Replaces::rewrite`] in bytes: its text, in UTF-8, is the source's
/// bytes with each hit's byte range (as [`Replaces::scan_hits`] reports it)
/// replaced by its value's bytes, verbatim and unpadded, the bytes between
/// hits kept.
pub proof fn lemma_rewrite_in_bytes(r: &Replaces, s: Seq<char>)
    requires
        r.well_formed(),
    ensures
        vstd::utf8::encode_utf8(splice(s, text_hits(r.keys(), s, r.prevents_assignment()), r.values(), 0))
            == splice(
            vstd::utf8::encode_utf8(s),
            hits_at_bytes(s, text_hits(r.keys(), s, r.prevents_assignment())),
            values_utf8(r.values()),
            0,
        ),
{
    r.lemma_table_shape();
    lemma_codes(s);
    lemma_scan_ordered(r.keys(), char_codes(s), true, r.prevents_assignment(), 0);
    lemma_splice_bytes(s, text_hits(r.keys(), s, r.prevents_assignment()), r.values(), 0);
    assert(s.take(0) =~= Seq::<char>::empty());
    assert(vstd::utf8::encode_utf8(Seq::<char>::empty()) =~= Seq::<u8>::empty());
}

} // verus!
