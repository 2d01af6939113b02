//! An edit list over a source text: blanked ranges (line breaks kept, so
//! every line and column stays put) and literal overwrites, applied in one
//! pass to the UTF-8 text or to its UTF-16 code units.

use vstd::prelude::*;
use vstd::utf8::{
    decode_utf8, decode_utf8_encode_utf8, encode_scalar, encode_utf8, encode_utf8_valid_utf8, is_char_boundary,
    is_char_boundary_iff_not_is_continuation_byte, is_char_boundary_start_end_of_seq, valid_utf8,
};

use crate::search::{
    count_below, last_start_before, lemma_count_below_monotone, lemma_last_start_before,
    range_partition_point, start_before, starts_partitioned, strictly_increasing, unit_at,
};
use crate::unicode::{
    decode_utf16, encode_utf16, encode_utf16_units, lemma_encode_utf16_push, string_from_utf16, string_from_utf8,
    string_into_bytes,
    valid_utf16,
};
use crate::utf8_lemmas::{all_ascii, lemma_ascii_valid, lemma_valid_concat, lemma_valid_subrange};

verus! {

/// Edit kind: blank the range.
pub const REPLACE_WITH_BLANK: u8 = 0;

/// Edit kind: blank the range, its first element becoming `(`.
pub const REPLACE_WITH_OPEN_PAREN: u8 = 1;

/// Edit kind: blank the range, its first element becoming `)`.
pub const REPLACE_WITH_CLOSE_PAREN: u8 = 2;

/// Edit kind: blank the range, its first element becoming `;`.
pub const REPLACE_WITH_SEMI: u8 = 3;

/// Edit kind: replace the range with a stored text.
pub const REPLACE_WITH_TEXT: u8 = 4;

/// The index a non-text edit carries in its text slot.
pub const NO_TEXT: u32 = 0xFFFF_FFFF;

/// Whether an edit kind writes a one-element marker at its start.
pub open spec fn is_marker(flags: u8) -> bool {
    flags == REPLACE_WITH_OPEN_PAREN || flags == REPLACE_WITH_CLOSE_PAREN || flags
        == REPLACE_WITH_SEMI
}

/// The ASCII marker a marker edit writes.
pub open spec fn marker_byte(flags: u8) -> u8 {
    if flags == REPLACE_WITH_OPEN_PAREN {
        0x28u8
    } else if flags == REPLACE_WITH_CLOSE_PAREN {
        0x29u8
    } else {
        0x3Bu8
    }
}

/// What one byte of a blanked UTF-8 range becomes: CR and LF stay, any
/// other ASCII byte becomes a space, a leading byte becomes one space per
/// UTF-16 unit of its character (two for a 4-byte character) and a
/// continuation byte disappears.
pub open spec fn blank_byte(b: u8) -> Seq<u8> {
    if b == 0x0A || b == 0x0D {
        seq![b]
    } else if b < 0x80 {
        seq![0x20u8]
    } else if b < 0xC0 {
        seq![]
    } else if b < 0xF0 {
        seq![0x20u8]
    } else {
        seq![0x20u8, 0x20u8]
    }
}

/// A blanked run of UTF-8 bytes.
pub open spec fn blank_bytes(b: Seq<u8>) -> Seq<u8>
    decreases b.len(),
{
    if b.len() == 0 {
        seq![]
    } else {
        blank_bytes(b.drop_last()) + blank_byte(b.last())
    }
}

/// What one character of a blanked range becomes: CR and LF stay, any
/// other character becomes one space per UTF-16 code unit.
pub open spec fn blank_char(c: char) -> Seq<char> {
    if c == '\n' || c == '\r' {
        seq![c]
    } else if (c as u32) < 0x10000 {
        seq![' ']
    } else {
        seq![' ', ' ']
    }
}

/// A blanked run of characters.
pub open spec fn blank_chars(cs: Seq<char>) -> Seq<char>
    decreases cs.len(),
{
    if cs.len() == 0 {
        seq![]
    } else {
        blank_chars(cs.drop_last()) + blank_char(cs.last())
    }
}

/// The UTF-8 bytes of a blanked range `[from, to)` of `bytes` (nothing
/// when the range is empty or reversed).
pub open spec fn blanked_span(bytes: Seq<u8>, from: int, to: int) -> Seq<u8> {
    if from < to {
        blank_bytes(bytes.subrange(from, to))
    } else {
        seq![]
    }
}

/// Applying one edit to the UTF-8 output built so far: `state` holds that
/// output and the end of the previous edit. The input between the previous
/// end and the edit's start is copied (an edit starting before the previous
/// end is clipped to it), then the edit's own content is written.
pub open spec fn apply_edit(
    bytes: Seq<u8>,
    texts: Seq<Seq<u16>>,
    state: (Seq<u8>, int),
    edit: (u8, u32, u32, u32),
) -> (Seq<u8>, int) {
    let out = state.0;
    let prev = state.1;
    let from = if edit.1 >= prev {
        edit.1 as int
    } else {
        prev
    };
    let copied = out + bytes.subrange(prev, from);
    if edit.0 == REPLACE_WITH_TEXT {
        (copied + encode_utf8(decode_utf16(texts[edit.3 as int])), edit.2 as int)
    } else if is_marker(edit.0) {
        (copied + seq![marker_byte(edit.0)] + blanked_span(bytes, from + 1, edit.2 as int), edit.2 as int)
    } else {
        (copied + blanked_span(bytes, from, edit.2 as int), edit.2 as int)
    }
}

/// The output and previous end after the first `n` edits.
pub open spec fn edits_prefix(
    bytes: Seq<u8>,
    edits: Seq<(u8, u32, u32, u32)>,
    texts: Seq<Seq<u16>>,
    n: nat,
) -> (Seq<u8>, int)
    decreases n,
{
    if n == 0 || n > edits.len() {
        (seq![], 0)
    } else {
        apply_edit(bytes, texts, edits_prefix(bytes, edits, texts, (n - 1) as nat), edits[n - 1])
    }
}

/// The UTF-8 bytes the edit list produces over `bytes`.
pub open spec fn edited_bytes(
    bytes: Seq<u8>,
    edits: Seq<(u8, u32, u32, u32)>,
    texts: Seq<Seq<u16>>,
) -> Seq<u8> {
    let state = edits_prefix(bytes, edits, texts, edits.len());
    state.0 + bytes.subrange(state.1, bytes.len() as int)
}

/// Where the edit at `i` starts writing: its start, clipped to the end of
/// the edit before it.
pub open spec fn clipped_start(
    bytes: Seq<u8>,
    edits: Seq<(u8, u32, u32, u32)>,
    texts: Seq<Seq<u16>>,
    i: int,
) -> int {
    let prev = edits_prefix(bytes, edits, texts, i as nat).1;
    if edits[i].1 >= prev {
        edits[i].1 as int
    } else {
        prev
    }
}

/// Edits whose every offset the build reads at (each edit's start, clipped
/// to the end before it, and each edit's end) lies inside the input on a
/// character boundary, every text spliced well-formed UTF-16, and a marker
/// edit that overwrites an element overwriting an ASCII byte. A start
/// hidden under an earlier edit is never read.
pub open spec fn edits_on_boundaries(
    bytes: Seq<u8>,
    edits: Seq<(u8, u32, u32, u32)>,
    texts: Seq<Seq<u16>>,
) -> bool {
    &&& forall|i: int|
        0 <= i < edits.len() ==> {
            let e = #[trigger] edits[i];
            &&& unit_clip(edits, i) <= bytes.len()
            &&& e.2 <= bytes.len()
            &&& is_char_boundary(bytes, unit_clip(edits, i) as int)
            &&& is_char_boundary(bytes, e.2 as int)
            &&& e.0 == REPLACE_WITH_TEXT ==> 0 <= e.3 < texts.len() && valid_utf16(
                texts[e.3 as int],
            )
            &&& is_marker(e.0) && clipped_start(bytes, edits, texts, i) < e.2 ==> bytes[clipped_start(
                bytes,
                edits,
                texts,
                i,
            )] < 0x80
        }
}

/// Whether the edit at `i` is a blank that is empty at its clipped start:
/// it copies up to that offset and writes nothing, so the build never
/// reads a character there.
pub open spec fn empty_blank_at(edits: Seq<(u8, u32, u32, u32)>, i: int) -> bool {
    edits[i].0 == REPLACE_WITH_BLANK && unit_clip(edits, i) == edits[i].2
}

/// The inputs the UTF-8 build accepts: as [`edits_on_boundaries`], except
/// that a blank empty at its clipped start may sit anywhere inside the
/// input, even inside a character (the copies around it join up again).
pub open spec fn edits_fit(
    bytes: Seq<u8>,
    edits: Seq<(u8, u32, u32, u32)>,
    texts: Seq<Seq<u16>>,
) -> bool {
    &&& forall|i: int|
        0 <= i < edits.len() ==> {
            let e = #[trigger] edits[i];
            &&& unit_clip(edits, i) <= bytes.len()
            &&& e.2 <= bytes.len()
            &&& empty_blank_at(edits, i) || is_char_boundary(bytes, unit_clip(edits, i) as int)
            &&& empty_blank_at(edits, i) || is_char_boundary(bytes, e.2 as int)
            &&& e.0 == REPLACE_WITH_TEXT ==> 0 <= e.3 < texts.len() && valid_utf16(
                texts[e.3 as int],
            )
            &&& is_marker(e.0) && clipped_start(bytes, edits, texts, i) < e.2 ==> bytes[clipped_start(
                bytes,
                edits,
                texts,
                i,
            )] < 0x80
        }
}

/// Edits on character boundaries fit the build.
pub proof fn lemma_boundaries_fit(bytes: Seq<u8>, edits: Seq<(u8, u32, u32, u32)>, texts: Seq<Seq<u16>>)
    requires
        edits_on_boundaries(bytes, edits, texts),
    ensures
        edits_fit(bytes, edits, texts),
{
}

/// The first `n` edits of a fitting list: the previous end lies in the
/// input, and the output so far, followed by the input from the previous
/// end up to any later character boundary, is well-formed UTF-8 — the
/// output may stop inside a character only where the input resumes it.
pub(crate) proof fn lemma_fit_prefix(bytes: Seq<u8>, edits: Seq<(u8, u32, u32, u32)>, texts: Seq<Seq<u16>>, n: nat)
    requires
        valid_utf8(bytes),
        edits_fit(bytes, edits, texts),
        n <= edits.len(),
    ensures
        0 <= edits_prefix(bytes, edits, texts, n).1 <= bytes.len(),
        edits_prefix(bytes, edits, texts, n).1 == prev_end(edits, n as int),
        forall|b: int|
            edits_prefix(bytes, edits, texts, n).1 <= b <= bytes.len() && is_char_boundary(bytes, b)
                ==> #[trigger] valid_utf8(
                edits_prefix(bytes, edits, texts, n).0 + bytes.subrange(
                    edits_prefix(bytes, edits, texts, n).1,
                    b,
                ),
            ),
    decreases n,
{
    is_char_boundary_start_end_of_seq(bytes);
    if n == 0 {
        assert forall|b: int| 0 <= b <= bytes.len() && is_char_boundary(bytes, b) implies #[trigger] valid_utf8(
            Seq::<u8>::empty() + bytes.subrange(0, b),
        ) by {
            lemma_valid_subrange(bytes, 0, b);
            assert(Seq::<u8>::empty() + bytes.subrange(0, b) =~= bytes.subrange(0, b));
        }
    } else {
        let i = n - 1;
        lemma_fit_prefix(bytes, edits, texts, i as nat);
        let state = edits_prefix(bytes, edits, texts, i as nat);
        let e = edits[i];
        let prev = state.1;
        let from = clipped_start(bytes, edits, texts, i);
        assert(from == unit_clip(edits, i) as int);
        let gap = bytes.subrange(prev, from);
        let copied = state.0 + gap;
        let next = edits_prefix(bytes, edits, texts, n);
        if empty_blank_at(edits, i) {
            assert(blanked_span(bytes, from, e.2 as int) =~= Seq::<u8>::empty());
            assert(next.0 == copied + Seq::<u8>::empty());
            assert forall|b: int| e.2 <= b <= bytes.len() && is_char_boundary(bytes, b) implies #[trigger] valid_utf8(
                next.0 + bytes.subrange(e.2 as int, b),
            ) by {
                assert(next.0 + bytes.subrange(e.2 as int, b) =~= state.0 + bytes.subrange(prev, b));
            }
        } else {
            assert(valid_utf8(copied)) by {
                assert(copied =~= state.0 + bytes.subrange(prev, from));
            }
            let written = next.0;
            if e.0 == REPLACE_WITH_TEXT {
                encode_utf8_valid_utf8(decode_utf16(texts[e.3 as int]));
                lemma_valid_concat(copied, encode_utf8(decode_utf16(texts[e.3 as int])));
            } else if is_marker(e.0) {
                lemma_ascii_valid(seq![marker_byte(e.0)]);
                lemma_valid_concat(copied, seq![marker_byte(e.0)]);
                lemma_blanked_span_valid(bytes, from + 1, e.2 as int);
                lemma_valid_concat(copied + seq![marker_byte(e.0)], blanked_span(bytes, from + 1, e.2 as int));
            } else {
                lemma_blanked_span_valid(bytes, from, e.2 as int);
                lemma_valid_concat(copied, blanked_span(bytes, from, e.2 as int));
            }
            assert(valid_utf8(written));
            assert forall|b: int| e.2 <= b <= bytes.len() && is_char_boundary(bytes, b) implies #[trigger] valid_utf8(
                written + bytes.subrange(e.2 as int, b),
            ) by {
                lemma_valid_subrange(bytes, e.2 as int, b);
                lemma_valid_concat(written, bytes.subrange(e.2 as int, b));
            }
        }
    }
}

/// A fitting edit list's whole output is well-formed UTF-8.
pub proof fn lemma_fit_output_valid(bytes: Seq<u8>, edits: Seq<(u8, u32, u32, u32)>, texts: Seq<Seq<u16>>)
    requires
        valid_utf8(bytes),
        edits_fit(bytes, edits, texts),
    ensures
        valid_utf8(edited_bytes(bytes, edits, texts)),
{
    lemma_fit_prefix(bytes, edits, texts, edits.len());
    is_char_boundary_start_end_of_seq(bytes);
    assert(valid_utf8(edits_prefix(bytes, edits, texts, edits.len()).0 + bytes.subrange(
        edits_prefix(bytes, edits, texts, edits.len()).1,
        bytes.len() as int,
    )));
}

/// Like magic-string, restricted to two features: blanking ranges (newlines
/// preserved so line/column stay stable) and literal overwrites (enum
/// expansion, grouping parens).
pub struct BlankString {
    /// Flat (flags, start, end, textIndex) tuples, pushed in source order.
    ranges: Vec<(u8, u32, u32, u32)>,
    /// Override texts as UTF-16 units — the only lossless form shared by the
    /// String and UTF-16 paths (raw lone surrogates must survive).
    texts: Vec<Vec<u16>>,
}

impl BlankString {
    /// The edits, in push order: (kind, start, end, text index).
    pub closed spec fn edits(&self) -> Seq<(u8, u32, u32, u32)> {
        self.ranges@
    }

    /// The stored override texts, as UTF-16 units.
    pub closed spec fn texts(&self) -> Seq<Seq<u16>> {
        self.texts@.map_values(|t: Vec<u16>| t@)
    }

    /// Every edit has a known kind, and a text edit names a stored text.
    pub closed spec fn well_formed(&self) -> bool {
        forall|i: int|
            0 <= i < self.ranges@.len() ==> {
                let e = #[trigger] self.ranges@[i];
                &&& e.0 <= REPLACE_WITH_TEXT
                &&& e.0 == REPLACE_WITH_TEXT ==> e.3 < self.texts@.len()
            }
    }

    /// A list with no edits.
    pub fn new() -> (s: Self)
        ensures
            s.well_formed(),
            s.edits() == Seq::<(u8, u32, u32, u32)>::empty(),
            s.texts() == Seq::<Seq<u16>>::empty(),
    {
        let s = BlankString { ranges: Vec::new(), texts: Vec::new() };
        assert(s.texts() =~= Seq::<Seq<u16>>::empty());
        s
    }

    /// Replace [start, end) with `text`; `end` may equal `start` to insert.
    pub fn override_range(&mut self, start: u32, end: u32, text: &str)
        requires
            old(self).well_formed(),
        ensures
            final(self).well_formed(),
            final(self).edits() == old(self).edits().push(
                (REPLACE_WITH_TEXT, start, end, old(self).texts().len() as u32),
            ),
            final(self).texts() == old(self).texts().push(encode_utf16(text@)),
    {
        let units = encode_utf16_units(text);
        self.override_range_units(start, end, "", units.as_slice());
        proof {
            assert(""@ =~= Seq::<char>::empty()) by {
                reveal_strlit("");
            }
            assert(encode_utf16(""@) + units@ =~= units@);
        }
    }

    /// [`override_range`](Self::override_range) with the replacement given as
    /// UTF-16 units — required when the text contains raw lone surrogates.
    pub fn override_range_units(&mut self, start: u32, end: u32, prefix: &str, units: &[u16])
        requires
            old(self).well_formed(),
        ensures
            final(self).well_formed(),
            final(self).edits() == old(self).edits().push(
                (REPLACE_WITH_TEXT, start, end, old(self).texts().len() as u32),
            ),
            final(self).texts() == old(self).texts().push(encode_utf16(prefix@) + units@),
    {
        let index = self.texts.len() as u32;
        let mut text: Vec<u16> = encode_utf16_units(prefix);
        let mut k: usize = 0;
        while k < units.len()
            invariant
                k <= units@.len(),
                text@ == encode_utf16(prefix@) + units@.subrange(0, k as int),
            decreases units@.len() - k,
        {
            text.push(units[k]);
            k += 1;
            proof {
                assert(encode_utf16(prefix@) + units@.subrange(0, k as int) =~= (encode_utf16(prefix@)
                    + units@.subrange(0, k - 1)).push(units@[k - 1]));
            }
        }
        proof {
            assert(units@.subrange(0, units@.len() as int) =~= units@);
        }
        let ghost old_texts = self.texts();
        self.texts.push(text);
        self.ranges.push((REPLACE_WITH_TEXT, start, end, index));
        proof {
            assert(self.texts() =~= old_texts.push(encode_utf16(prefix@) + units@));
        }
    }
}

/// Whether the edits are ordered by start.
pub open spec fn sorted_by_start(edits: Seq<(u8, u32, u32, u32)>) -> bool {
    forall|i: int, j: int| 0 <= i < j < edits.len() ==> edits[i].1 <= edits[j].1
}

/// Sorted edits are partitioned by every start bound.
pub proof fn lemma_sorted_partitioned(edits: Seq<(u8, u32, u32, u32)>, bound: u32, strict: bool)
    requires
        sorted_by_start(edits),
    ensures
        starts_partitioned(edits, bound, strict),
{
    assert forall|i: int, j: int|
        0 <= i < j < edits.len() && #[trigger] start_before(edits[j].1, bound, strict)
            implies #[trigger] start_before(edits[i].1, bound, strict) by {
        assert(edits[i].1 <= edits[j].1);
    }
}

impl BlankString {
    /// [`override_range`](Self::override_range) spliced in at its source
    /// position among the pushed ranges: directly after the last edit
    /// starting at or before `start` (on edits ordered by start), so an
    /// ordered list stays ordered.
    pub fn override_range_sorted(&mut self, start: u32, end: u32, text: &str)
        requires
            old(self).well_formed(),
        ensures
            final(self).well_formed(),
            final(self).texts() == old(self).texts().push(encode_utf16(text@)),
            exists|at: int|
                0 <= at <= old(self).edits().len() && final(self).edits() == #[trigger] old(self).edits().insert(
                    at,
                    (REPLACE_WITH_TEXT, start, end, old(self).texts().len() as u32),
                ) && (starts_partitioned(old(self).edits(), start, false) ==> at
                    == last_start_before(old(self).edits(), start, false) + 1),
            sorted_by_start(old(self).edits()) ==> sorted_by_start(final(self).edits()),
    {
        let index = self.texts.len() as u32;
        let ghost old_texts = self.texts();
        let ghost old_edits = self.ranges@;
        self.texts.push(encode_utf16_units(text));
        let at = range_partition_point(&self.ranges, start, false);
        self.ranges.insert(at, (REPLACE_WITH_TEXT, start, end, index));
        proof {
            assert(self.texts() =~= old_texts.push(encode_utf16(text@)));
            let e = (REPLACE_WITH_TEXT, start, end, index);
            assert(old_texts.len() == self.texts@.len() - 1);
            assert(index == old_texts.len() as u32);
            assert(self.ranges@ == old_edits.insert(at as int, e));
            if starts_partitioned(old_edits, start, false) {
                lemma_last_start_before(old_edits, start, false, at as int);
            }
            assert(self.edits() == old_edits.insert(
                at as int,
                (REPLACE_WITH_TEXT, start, end, old_texts.len() as u32),
            ));
            assert(starts_partitioned(old_edits, start, false) ==> at == last_start_before(old_edits, start, false) + 1);
            assert(0 <= at <= old_edits.len());
            assert(old(self).edits() == old_edits);
            assert(old(self).texts() == old_texts);
            assert(exists|a: int|
                0 <= a <= old_edits.len() && self.edits() == #[trigger] old_edits.insert(
                    a,
                    (REPLACE_WITH_TEXT, start, end, old_texts.len() as u32),
                ) && (starts_partitioned(old_edits, start, false) ==> a
                    == last_start_before(old_edits, start, false) + 1));
            if sorted_by_start(old_edits) {
                lemma_sorted_partitioned(old_edits, start, false);
                let n = self.ranges@;
                assert forall|i: int, j: int| 0 <= i < j < n.len() implies n[i].1 <= n[j].1 by {
                    if j < at {
                    } else if j == at {
                        assert(start_before(old_edits[i].1, start, false));
                    } else if i < at {
                        assert(old_edits[i].1 <= old_edits[j - 1].1);
                    } else if i == at {
                        assert(!start_before(old_edits[j - 1].1, start, false));
                    } else {
                        assert(old_edits[i - 1].1 <= old_edits[j - 1].1);
                    }
                }
            }
            assert forall|i: int| 0 <= i < self.ranges@.len() implies {
                let r = #[trigger] self.ranges@[i];
                &&& r.0 <= REPLACE_WITH_TEXT
                &&& r.0 == REPLACE_WITH_TEXT ==> r.3 < self.texts@.len()
            } by {
                if i < at {
                    assert(self.ranges@[i] == old_edits[i]);
                } else if i > at {
                    assert(self.ranges@[i] == old_edits[i - 1]);
                }
            }
        }
    }

    /// Whether [start, end) overlaps an already-pushed range: on edits ordered
    /// by start, whether the last edit starting before `end` reaches past
    /// `start`. An identifier inside an erased region (a type alias, an
    /// annotation) must not be rewritten.
    pub fn overlaps_pushed_range(&self, start: u32, end: u32) -> (res: bool)
        ensures
            starts_partitioned(self.edits(), end, true) ==> res == ({
                let k = last_start_before(self.edits(), end, true);
                k >= 0 && self.edits()[k].2 > start
            }),
    {
        let pushed = range_partition_point(&self.ranges, end, true);
        proof {
            if starts_partitioned(self.ranges@, end, true) {
                lemma_last_start_before(self.ranges@, end, true, pushed as int);
            }
        }
        pushed > 0 && self.ranges[pushed - 1].2 > start
    }

    /// Blank [start, end), writing `(` over its first element.
    pub fn blank_but_start_with_open_paren(&mut self, start: u32, end: u32)
        requires
            old(self).well_formed(),
        ensures
            final(self).well_formed(),
            final(self).texts() == old(self).texts(),
            final(self).edits() == old(self).edits().push((REPLACE_WITH_OPEN_PAREN, start, end, NO_TEXT)),
    {
        self.ranges.push((REPLACE_WITH_OPEN_PAREN, start, end, NO_TEXT));
    }

    /// Blank [start, end), writing `)` over its last element.
    pub fn blank_but_end_with_close_paren(&mut self, start: u32, end: u32)
        requires
            old(self).well_formed(),
            end >= 1,
        ensures
            final(self).well_formed(),
            final(self).texts() == old(self).texts(),
            final(self).edits() == old(self).edits().push(
                (REPLACE_WITH_BLANK, start, (end - 1) as u32, NO_TEXT),
            ).push((REPLACE_WITH_CLOSE_PAREN, (end - 1) as u32, end, NO_TEXT)),
    {
        self.ranges.push((REPLACE_WITH_BLANK, start, end - 1, NO_TEXT));
        self.ranges.push((REPLACE_WITH_CLOSE_PAREN, end - 1, end, NO_TEXT));
    }

    /// Blank [start, end), writing `;` over its first element.
    pub fn blank_but_start_with_semi(&mut self, start: u32, end: u32)
        requires
            old(self).well_formed(),
        ensures
            final(self).well_formed(),
            final(self).texts() == old(self).texts(),
            final(self).edits() == old(self).edits().push((REPLACE_WITH_SEMI, start, end, NO_TEXT)),
    {
        self.ranges.push((REPLACE_WITH_SEMI, start, end, NO_TEXT));
    }

    /// Blank [start, end).
    pub fn blank(&mut self, start: u32, end: u32)
        requires
            old(self).well_formed(),
        ensures
            final(self).well_formed(),
            final(self).texts() == old(self).texts(),
            final(self).edits() == old(self).edits().push((REPLACE_WITH_BLANK, start, end, NO_TEXT)),
    {
        self.ranges.push((REPLACE_WITH_BLANK, start, end, NO_TEXT));
    }
}

/// A blanked run holds only spaces, CRs and LFs.
pub proof fn lemma_blank_bytes_ascii(b: Seq<u8>)
    ensures
        all_ascii(blank_bytes(b)),
    decreases b.len(),
{
    if b.len() > 0 {
        lemma_blank_bytes_ascii(b.drop_last());
        let x = blank_bytes(b.drop_last());
        let y = blank_byte(b.last());
        assert forall|i: int| 0 <= i < (x + y).len() implies #[trigger] (x + y)[i] < 0x80 by {
            if i < x.len() {
                assert((x + y)[i] == x[i]);
            } else {
                assert((x + y)[i] == y[i - x.len()]);
            }
        }
    }
}

/// A blanked span is well-formed UTF-8.
proof fn lemma_blanked_span_valid(bytes: Seq<u8>, from: int, to: int)
    ensures
        valid_utf8(blanked_span(bytes, from, to)),
{
    lemma_blank_bytes_ascii(bytes.subrange(from, to));
    lemma_ascii_valid(blanked_span(bytes, from, to));
}

/// Every prefix of the edit list produces well-formed UTF-8 and ends on a
/// character boundary of the input.
pub(crate) proof fn lemma_edits_prefix_valid(
    bytes: Seq<u8>,
    edits: Seq<(u8, u32, u32, u32)>,
    texts: Seq<Seq<u16>>,
    n: nat,
)
    requires
        valid_utf8(bytes),
        edits_on_boundaries(bytes, edits, texts),
        n <= edits.len(),
    ensures
        valid_utf8(edits_prefix(bytes, edits, texts, n).0),
        0 <= edits_prefix(bytes, edits, texts, n).1 <= bytes.len(),
        is_char_boundary(bytes, edits_prefix(bytes, edits, texts, n).1),
    decreases n,
{
    if n == 0 {
        is_char_boundary_start_end_of_seq(bytes);
        assert(valid_utf8(Seq::<u8>::empty()));
    } else {
        let i = n - 1;
        lemma_edits_prefix_valid(bytes, edits, texts, i as nat);
        let state = edits_prefix(bytes, edits, texts, i as nat);
        let e = edits[i];
        let prev = state.1;
        let from = clipped_start(bytes, edits, texts, i);
        lemma_valid_subrange(bytes, prev, from);
        let copied = state.0 + bytes.subrange(prev, from);
        lemma_valid_concat(state.0, bytes.subrange(prev, from));
        if e.0 == REPLACE_WITH_TEXT {
            encode_utf8_valid_utf8(decode_utf16(texts[e.3 as int]));
            lemma_valid_concat(copied, encode_utf8(decode_utf16(texts[e.3 as int])));
        } else if is_marker(e.0) {
            lemma_ascii_valid(seq![marker_byte(e.0)]);
            lemma_valid_concat(copied, seq![marker_byte(e.0)]);
            lemma_blanked_span_valid(bytes, from + 1, e.2 as int);
            lemma_valid_concat(copied + seq![marker_byte(e.0)], blanked_span(bytes, from + 1, e.2 as int));
        } else {
            lemma_blanked_span_valid(bytes, from, e.2 as int);
            lemma_valid_concat(copied, blanked_span(bytes, from, e.2 as int));
        }
    }
}

/// The whole edited output is well-formed UTF-8.
pub proof fn lemma_edited_bytes_valid(
    bytes: Seq<u8>,
    edits: Seq<(u8, u32, u32, u32)>,
    texts: Seq<Seq<u16>>,
)
    requires
        valid_utf8(bytes),
        edits_on_boundaries(bytes, edits, texts),
    ensures
        valid_utf8(edited_bytes(bytes, edits, texts)),
{
    lemma_edits_prefix_valid(bytes, edits, texts, edits.len());
    let state = edits_prefix(bytes, edits, texts, edits.len());
    is_char_boundary_start_end_of_seq(bytes);
    lemma_valid_subrange(bytes, state.1, bytes.len() as int);
    lemma_valid_concat(state.0, bytes.subrange(state.1, bytes.len() as int));
}

/// Append `bytes[from..to)` to `out`.
fn copy_bytes(out: &mut Vec<u8>, bytes: &[u8], from: usize, to: usize)
    requires
        from <= to <= bytes@.len(),
    ensures
        final(out)@ == old(out)@ + bytes@.subrange(from as int, to as int),
{
    let mut k = from;
    while k < to
        invariant
            from <= k <= to <= bytes@.len(),
            out@ == old(out)@ + bytes@.subrange(from as int, k as int),
        decreases to - k,
    {
        out.push(bytes[k]);
        k += 1;
        proof {
            assert(bytes@.subrange(from as int, k as int) =~= bytes@.subrange(from as int, k - 1).push(
                bytes@[k - 1],
            ));
        }
    }
}

/// Append every byte of `bytes` to `out`.
fn append_bytes(out: &mut Vec<u8>, bytes: &[u8])
    ensures
        final(out)@ == old(out)@ + bytes@,
{
    let mut k: usize = 0;
    while k < bytes.len()
        invariant
            k <= bytes@.len(),
            out@ == old(out)@ + bytes@.subrange(0, k as int),
        decreases bytes@.len() - k,
    {
        out.push(bytes[k]);
        k += 1;
        proof {
            assert(bytes@.subrange(0, k as int) =~= bytes@.subrange(0, k - 1).push(bytes@[k - 1]));
        }
    }
    proof {
        assert(bytes@.subrange(0, bytes@.len() as int) =~= bytes@);
    }
}

/// Preserve newlines inside [start, end); every other character becomes
/// one space per UTF-16 code unit (a non-BMP char becomes 2). An empty or
/// reversed range writes nothing.
fn write_space(out: &mut Vec<u8>, input: &str, start: u32, end: u32)
    requires
        start < end ==> end <= encode_utf8(input@).len(),
    ensures
        final(out)@ == old(out)@ + blanked_span(encode_utf8(input@), start as int, end as int),
{
    if start >= end {
        proof {
            assert(old(out)@ + Seq::<u8>::empty() =~= old(out)@);
        }
        return;
    }
    let bytes = input.as_bytes();
    let mut k = start;
    while k < end
        invariant
            start <= k <= end <= bytes@.len(),
            bytes@ == encode_utf8(input@),
            out@ == old(out)@ + blank_bytes(bytes@.subrange(start as int, k as int)),
        decreases end - k,
    {
        let b = bytes[k as usize];
        let ghost before = out@;
        if b == 0x0A || b == 0x0D {
            out.push(b);
        } else if b < 0x80 {
            out.push(0x20);
        } else if b < 0xC0 {
        } else if b < 0xF0 {
            out.push(0x20);
        } else {
            out.push(0x20);
            out.push(0x20);
        }
        proof {
            assert(out@ =~= before + blank_byte(b));
            let sub = bytes@.subrange(start as int, k + 1);
            assert(sub.drop_last() =~= bytes@.subrange(start as int, k as int));
            assert(sub.last() == b);
        }
        k += 1;
    }
}

impl BlankString {
    /// Apply the edits to `input` in one pass: each edit copies the input up
    /// to its start (clipped to the previous edit's end), then writes its
    /// text, or its marker and the blanked rest of its range.
    #[verifier::rlimit(30)]
    pub fn build(&self, input: &str) -> (res: String)
        requires
            self.well_formed(),
            edits_fit(encode_utf8(input@), self.edits(), self.texts()),
        ensures
            encode_utf8(res@) == edited_bytes(encode_utf8(input@), self.edits(), self.texts()),
    {
        let bytes = input.as_bytes();
        let ghost b = encode_utf8(input@);
        let ghost edits = self.edits();
        let ghost texts = self.texts();
        proof {
            encode_utf8_valid_utf8(input@);
        }
        let mut out: Vec<u8> = Vec::new();
        let mut previous_end: u32 = 0;
        let mut i: usize = 0;
        while i < self.ranges.len()
            invariant
                i <= edits.len(),
                edits == self.ranges@,
                texts == self.texts(),
                self.well_formed(),
                bytes@ == b,
                b == encode_utf8(input@),
                valid_utf8(b),
                edits_fit(b, edits, texts),
                out@ == edits_prefix(b, edits, texts, i as nat).0,
                previous_end == edits_prefix(b, edits, texts, i as nat).1,
            decreases edits.len() - i,
        {
            proof {
                lemma_fit_prefix(b, edits, texts, i as nat);
            }
            let (flags, start, end, text_index) = self.ranges[i];
            let range_start = if start >= previous_end {
                start
            } else {
                previous_end
            };
            proof {
                assert(edits[i as int] == (flags, start, end, text_index));
            }
            copy_bytes(&mut out, bytes, previous_end as usize, range_start as usize);
            if flags == REPLACE_WITH_TEXT {
                assert(self.texts()[text_index as int] == self.texts@[text_index as int]@);
                match string_from_utf16(self.texts[text_index as usize].as_slice()) {
                    Some(text) => append_bytes(&mut out, text.as_str().as_bytes()),
                    None => {
                        proof {
                            assert(false);
                        }
                    },
                }
            } else if flags == REPLACE_WITH_CLOSE_PAREN || flags == REPLACE_WITH_SEMI || flags
                == REPLACE_WITH_OPEN_PAREN {
                let marker: u8 = if flags == REPLACE_WITH_OPEN_PAREN {
                    0x28
                } else if flags == REPLACE_WITH_CLOSE_PAREN {
                    0x29
                } else {
                    0x3B
                };
                out.push(marker);
                if range_start < end {
                    write_space(&mut out, input, range_start + 1, end);
                } else {
                    proof {
                        assert(out@ + Seq::<u8>::empty() =~= out@);
                    }
                }
            } else {
                write_space(&mut out, input, range_start, end);
            }
            previous_end = end;
            i += 1;
        }
        proof {
            lemma_fit_prefix(b, edits, texts, i as nat);
        }
        copy_bytes(&mut out, bytes, previous_end as usize, bytes.len());
        proof {
            lemma_fit_output_valid(b, edits, texts);
        }
        match string_from_utf8(out) {
            Some(s) => {
                proof {
                    decode_utf8_encode_utf8(edited_bytes(b, edits, texts));
                }
                s
            },
            None => {
                proof {
                    assert(false);
                }
                String::new()
            },
        }
    }
}

/// What a blanked ASCII byte becomes.
pub open spec fn blank_ascii(b: u8) -> u8 {
    if b == 0x0A || b == 0x0D {
        b
    } else {
        0x20
    }
}

/// On ASCII bytes, blanking maps byte for byte.
pub proof fn lemma_blank_ascii_pointwise(x: Seq<u8>)
    requires
        all_ascii(x),
    ensures
        blank_bytes(x).len() == x.len(),
        forall|k: int| 0 <= k < x.len() ==> #[trigger] blank_bytes(x)[k] == blank_ascii(x[k]),
    decreases x.len(),
{
    if x.len() > 0 {
        let y = x.drop_last();
        assert(all_ascii(y)) by {
            assert forall|k: int| 0 <= k < y.len() implies #[trigger] y[k] < 0x80 by {
                assert(y[k] == x[k]);
            }
        }
        lemma_blank_ascii_pointwise(y);
        assert(x.last() == x[x.len() - 1]);
        assert forall|k: int| 0 <= k < x.len() implies #[trigger] blank_bytes(x)[k] == blank_ascii(x[k]) by {
            if k < y.len() {
                assert(blank_bytes(x)[k] == blank_bytes(y)[k]);
                assert(y[k] == x[k]);
            }
        }
    }
}

/// The furthest end among the first `n` edits (0 when there are none).
pub open spec fn covered_end(edits: Seq<(u8, u32, u32, u32)>, n: nat) -> u32
    decreases n,
{
    if n == 0 || n > edits.len() {
        0
    } else {
        let c = covered_end(edits, (n - 1) as nat);
        if c >= edits[n - 1].2 {
            c
        } else {
            edits[n - 1].2
        }
    }
}

/// The condition under which the edits can be applied over the input in
/// place: no text edit, edits in order without overlap, a marker edit never
/// empty, and every edited range all ASCII.
pub open spec fn edits_in_place(bytes: Seq<u8>, edits: Seq<(u8, u32, u32, u32)>) -> bool {
    forall|i: int| 0 <= i < edits.len() ==> #[trigger] in_place_at(bytes, edits, i)
}

/// Where an edit's blanked part begins: after its marker, if any.
pub open spec fn edit_first(e: (u8, u32, u32, u32)) -> int {
    if is_marker(e.0) {
        e.1 + 1
    } else {
        e.1 as int
    }
}

/// The in-place condition for the edit at `i`.
pub open spec fn in_place_at(bytes: Seq<u8>, edits: Seq<(u8, u32, u32, u32)>, i: int) -> bool {
    let e = edits[i];
    &&& e.0 != REPLACE_WITH_TEXT
    &&& e.1 >= covered_end(edits, i as nat)
    &&& (e.0 == REPLACE_WITH_BLANK || e.2 > e.1)
    &&& all_ascii(bytes.subrange(e.1 as int, e.2 as int))
}

/// One in-place edit, structurally: it starts at its own start, writes as
/// many bytes as its range holds, and its blanked part maps byte for byte.
#[verifier::spinoff_prover]
#[verifier::rlimit(40)]
proof fn lemma_in_place_shape(
    b: Seq<u8>,
    edits: Seq<(u8, u32, u32, u32)>,
    texts: Seq<Seq<u16>>,
    i: nat,
)
    requires
        i < edits.len(),
        in_place_at(b, edits, i as int),
        blank_edits_ordered(edits),
        edits_fit(b, edits, texts),
        edits_prefix(b, edits, texts, i).0.len() == edits_prefix(b, edits, texts, i).1,
        edits_prefix(b, edits, texts, i).1 <= covered_end(edits, i),
    ensures
        ({
            let state = edits_prefix(b, edits, texts, i);
            let target = edits_prefix(b, edits, texts, i + 1);
            let e = edits[i as int];
            let first = edit_first(e);
            let copied = state.0 + b.subrange(state.1, e.1 as int);
            let span = blanked_span(b, first, e.2 as int);
            &&& state.1 <= e.1 <= first <= e.2 <= b.len()
            &&& copied.len() == e.1
            &&& span.len() == e.2 - first
            &&& forall|k: int| 0 <= k < span.len() ==> #[trigger] span[k] == blank_ascii(b[first + k])
            &&& is_marker(e.0) ==> target.0 == copied + seq![marker_byte(e.0)] + span
            &&& !is_marker(e.0) ==> target.0 == copied + span
            &&& target.1 == e.2
            &&& target.1 <= covered_end(edits, i + 1)
        }),
{
    let state = edits_prefix(b, edits, texts, i);
    let e = edits[i as int];
    let first = edit_first(e);
    let run = b.subrange(e.1 as int, e.2 as int);
    let sub = b.subrange(first, e.2 as int);
    assert(all_ascii(sub)) by {
        assert forall|k: int| 0 <= k < sub.len() implies #[trigger] sub[k] < 0x80 by {
            assert(sub[k] == run[k + first - e.1]);
        }
    }
    lemma_blank_ascii_pointwise(sub);
    let span = blanked_span(b, first, e.2 as int);
    assert forall|k: int| 0 <= k < span.len() implies #[trigger] span[k] == blank_ascii(b[first + k]) by {
        assert(sub[k] == b[first + k]);
    }
}

/// One in-place edit: what the output after it reads at every position.
proof fn lemma_in_place_step(
    b: Seq<u8>,
    edits: Seq<(u8, u32, u32, u32)>,
    texts: Seq<Seq<u16>>,
    i: nat,
)
    requires
        i < edits.len(),
        in_place_at(b, edits, i as int),
        blank_edits_ordered(edits),
        edits_fit(b, edits, texts),
        edits_prefix(b, edits, texts, i).0.len() == edits_prefix(b, edits, texts, i).1,
        edits_prefix(b, edits, texts, i).1 <= covered_end(edits, i),
    ensures
        ({
            let state = edits_prefix(b, edits, texts, i);
            let target = edits_prefix(b, edits, texts, i + 1);
            let e = edits[i as int];
            let first = edit_first(e);
            let goal = target.0 + b.subrange(target.1, b.len() as int);
            &&& target.0.len() == target.1
            &&& target.1 == e.2
            &&& target.1 <= covered_end(edits, i + 1)
            &&& state.1 <= e.1 <= first <= e.2 <= b.len()
            &&& goal.len() == b.len()
            &&& forall|p: int| 0 <= p < e.1 ==> #[trigger] goal[p] == (state.0 + b.subrange(state.1, b.len() as int))[p]
            &&& is_marker(e.0) ==> goal[e.1 as int] == marker_byte(e.0)
            &&& forall|p: int| first <= p < e.2 ==> #[trigger] goal[p] == blank_ascii(b[p])
            &&& forall|p: int| e.2 <= p < b.len() ==> #[trigger] goal[p] == b[p]
        }),
{
    lemma_in_place_shape(b, edits, texts, i);
    let state = edits_prefix(b, edits, texts, i);
    let target = edits_prefix(b, edits, texts, i + 1);
    let e = edits[i as int];
    let first = edit_first(e);
    let copied = state.0 + b.subrange(state.1, e.1 as int);
    let span = blanked_span(b, first, e.2 as int);
    let goal = target.0 + b.subrange(target.1, b.len() as int);
    assert forall|p: int| first <= p < e.2 implies #[trigger] goal[p] == blank_ascii(b[p]) by {
        assert(goal[p] == target.0[p]);
        assert(target.0[p] == span[p - first]);
        assert(span[p - first] == blank_ascii(b[first + (p - first)]));
    }
    assert forall|p: int| 0 <= p < e.1 implies #[trigger] goal[p] == (state.0 + b.subrange(state.1, b.len() as int))[p] by {
        assert(goal[p] == target.0[p]);
        assert(target.0[p] == copied[p]);
        if p >= state.1 {
            assert(b.subrange(state.1, e.1 as int)[p - state.1] == b[p]);
        }
    }
    assert forall|p: int| e.2 <= p < b.len() implies #[trigger] goal[p] == b[p] by {
        assert(goal[p] == b.subrange(target.1, b.len() as int)[p - e.2]);
    }
}

/// Every blank edit is well-ordered (its start does not exceed its end).
pub open spec fn blank_edits_ordered(edits: Seq<(u8, u32, u32, u32)>) -> bool {
    forall|i: int| 0 <= i < edits.len() && #[trigger] edits[i].0 == REPLACE_WITH_BLANK ==> edits[i].1 <= edits[i].2
}

/// The in-place probe can read every range it reaches: the probe walks the
/// edits in order and stops at the first that cannot be applied in place;
/// a blank edit it reaches that starts at or past every earlier end does
/// not start past its own end.
pub open spec fn in_place_probe_total(bytes: Seq<u8>, edits: Seq<(u8, u32, u32, u32)>) -> bool {
    forall|i: int|
        0 <= i < edits.len() && (forall|k: int| 0 <= k < i ==> in_place_at(bytes, edits, k))
            && #[trigger] edits[i].0 == REPLACE_WITH_BLANK && edits[i].1 >= covered_end(
            edits,
            i as nat,
        ) ==> edits[i].1 <= edits[i].2
}

impl BlankString {
    /// [`build`](Self::build) consuming the input buffer: when the edits can
    /// be applied in place (see [`edits_in_place`]) the input's own bytes
    /// are overwritten and handed back; otherwise this falls back to
    /// [`build`](Self::build). Either way the result is the same.
    #[verifier::rlimit(80)]
    #[verifier::spinoff_prover]
    pub fn build_owned(self, input: String) -> (res: String)
        requires
            self.well_formed(),
            edits_fit(encode_utf8(input@), self.edits(), self.texts()),
            in_place_probe_total(encode_utf8(input@), self.edits()),
        ensures
            encode_utf8(res@) == edited_bytes(encode_utf8(input@), self.edits(), self.texts()),
    {
        let ghost b = encode_utf8(input@);
        let ghost edits = self.edits();
        let ghost texts = self.texts();
        let n = self.ranges.len();
        let mut in_place = true;
        proof {
            assert forall|k: int| 0 <= k < edits.len() implies (#[trigger] edits[k]).2 <= b.len() by {
                assert(edits_fit(b, edits, texts));
            }
        }
        {
            let bytes = input.as_str().as_bytes();
            let mut covered: u32 = 0;
            let mut i: usize = 0;
            while i < n
                invariant_except_break
                    in_place,
                invariant
                    i <= n == edits.len(),
                    edits == self.ranges@,
                    bytes@ == b,
                    forall|k: int| 0 <= k < edits.len() ==> (#[trigger] edits[k]).2 <= b.len(),
                    in_place_probe_total(b, edits),
                    covered == covered_end(edits, i as nat),
                    forall|k: int| 0 <= k < i ==> in_place_at(b, edits, k),
                ensures
                    in_place ==> edits_in_place(b, edits),
                    !in_place ==> !edits_in_place(b, edits),
                decreases n - i,
            {
                let (flags, start, end, _) = self.ranges[i];
                proof {
                    assert(edits[i as int] == (flags, start, end, self.ranges@[i as int].3));
                    if flags == REPLACE_WITH_BLANK && start >= covered {
                        assert(edits[i as int].0 == REPLACE_WITH_BLANK);
                    }
                }
                let ok = flags != REPLACE_WITH_TEXT && start >= covered && (flags == REPLACE_WITH_BLANK
                    || end > start) && ascii_run(bytes, start as usize, end as usize);
                if !ok {
                    proof {
                        assert(!in_place_at(b, edits, i as int));
                        if edits_in_place(b, edits) {
                            assert(in_place_at(b, edits, i as int));
                        }
                    }
                    in_place = false;
                    break;
                }
                covered = if covered >= end {
                    covered
                } else {
                    end
                };
                i += 1;
                proof {
                    if i == n {
                        assert forall|k: int| 0 <= k < edits.len() implies #[trigger] in_place_at(b, edits, k) by {}
                    }
                }
            }
            proof {
                if in_place && n == 0 {
                    assert(edits_in_place(b, edits));
                }
            }
        }
        if !in_place {
            return self.build(input.as_str());
        }
        proof {
            assert forall|i: int|
                0 <= i < edits.len() && #[trigger] edits[i].0 == REPLACE_WITH_BLANK implies edits[i].1
                <= edits[i].2 by {
                assert(in_place_at(b, edits, i));
                assert forall|k: int| 0 <= k < i implies in_place_at(b, edits, k) by {
                    assert(in_place_at(b, edits, k));
                }
            }
        }
        let mut buffer = string_into_bytes(input);
        let mut i: usize = 0;
        proof {
            assert(b.subrange(0, b.len() as int) =~= b);
            assert(Seq::<u8>::empty() + b =~= b);
        }
        while i < n
            invariant
                i <= n == edits.len(),
                edits == self.ranges@,
                edits_in_place(b, edits),
                edits_fit(b, edits, texts),
                blank_edits_ordered(edits),
                self.well_formed(),
                buffer@.len() == b.len(),
                edits_prefix(b, edits, texts, i as nat).0.len() == edits_prefix(b, edits, texts, i as nat).1,
                edits_prefix(b, edits, texts, i as nat).1 <= covered_end(edits, i as nat),
                covered_end(edits, i as nat) <= b.len(),
                buffer@ == edits_prefix(b, edits, texts, i as nat).0 + b.subrange(
                    edits_prefix(b, edits, texts, i as nat).1,
                    b.len() as int,
                ),
            decreases n - i,
        {
            let (flags, start, end, _) = self.ranges[i];
            let ghost state = edits_prefix(b, edits, texts, i as nat);
            let ghost target = edits_prefix(b, edits, texts, (i + 1) as nat);
            let ghost goal = target.0 + b.subrange(target.1, b.len() as int);
            proof {
                assert(edits[i as int] == (flags, start, end, self.ranges@[i as int].3));
                assert(in_place_at(b, edits, i as int));
                assert(flags <= REPLACE_WITH_TEXT);
                lemma_in_place_step(b, edits, texts, i as nat);
            }
            let ghost before = buffer@;
            let mut at = start as usize;
            if flags != REPLACE_WITH_BLANK {
                let marker: u8 = if flags == REPLACE_WITH_OPEN_PAREN {
                    0x28
                } else if flags == REPLACE_WITH_CLOSE_PAREN {
                    0x29
                } else {
                    0x3B
                };
                buffer.set(at, marker);
                at += 1;
            }
            let ghost first = at as int;
            proof {
                assert forall|p: int| 0 <= p < first implies #[trigger] buffer@[p] == goal[p] by {
                    if p < start {
                        assert(buffer@[p] == before[p]);
                    } else {
                        assert(is_marker(flags));
                        assert(goal[start as int] == marker_byte(flags));
                    }
                }
            }
            while at < end as usize
                invariant
                    0 <= first <= at <= end <= b.len(),
                    buffer@.len() == b.len(),
                    goal.len() == b.len(),
                    forall|p: int| 0 <= p < first ==> #[trigger] buffer@[p] == goal[p],
                    forall|p: int| first <= p < at ==> #[trigger] buffer@[p] == blank_ascii(b[p]),
                    forall|p: int| at <= p < b.len() ==> #[trigger] buffer@[p] == b[p],
                decreases end - at,
            {
                let v = buffer[at];
                let ghost prior = buffer@;
                let blanked: u8 = if v != 0x0A && v != 0x0D {
                    0x20
                } else {
                    v
                };
                buffer.set(at, blanked);
                proof {
                    assert(v == b[at as int]);
                    assert(buffer@[at as int] == blank_ascii(b[at as int]));
                    assert forall|p: int| first <= p < at + 1 implies #[trigger] buffer@[p] == blank_ascii(b[p]) by {
                        if p < at {
                            assert(prior[p] == blank_ascii(b[p]));
                            assert(buffer@[p] == prior[p]);
                        }
                    }
                }
                at += 1;
            }
            proof {
                assert forall|p: int| 0 <= p < b.len() implies #[trigger] buffer@[p] == goal[p] by {
                    if first <= p < end {
                        assert(buffer@[p] == blank_ascii(b[p]));
                    }
                }
                assert(buffer@ =~= goal);
            }
            i += 1;
        }
        proof {
            encode_utf8_valid_utf8(input@);
            lemma_fit_output_valid(b, edits, texts);
        }
        match string_from_utf8(buffer) {
            Some(s) => {
                proof {
                    decode_utf8_encode_utf8(edited_bytes(b, edits, texts));
                }
                s
            },
            None => {
                proof {
                    assert(false);
                }
                String::new()
            },
        }
    }
}

/// Whether `bytes[from..to)` is all ASCII.
fn ascii_run(bytes: &[u8], from: usize, to: usize) -> (res: bool)
    requires
        from <= to <= bytes@.len(),
    ensures
        res == all_ascii(bytes@.subrange(from as int, to as int)),
{
    let mut k = from;
    while k < to
        invariant
            from <= k <= to <= bytes@.len(),
            forall|p: int| from <= p < k ==> bytes@[p] < 0x80,
        decreases to - k,
    {
        if bytes[k] >= 0x80 {
            proof {
                assert(bytes@.subrange(from as int, to as int)[k - from] == bytes@[k as int]);
            }
            return false;
        }
        k += 1;
    }
    proof {
        assert forall|p: int| 0 <= p < to - from implies #[trigger] bytes@.subrange(from as int, to as int)[p] < 0x80 by {
            assert(bytes@.subrange(from as int, to as int)[p] == bytes@[from + p]);
        }
    }
    true
}

/// What one unit of a blanked UTF-16 range becomes: CR and LF stay, every
/// other unit (lone surrogates included) becomes a space.
pub open spec fn blank_unit(u: u16) -> u16 {
    if u == 0x0A || u == 0x0D {
        u
    } else {
        0x20
    }
}

/// A blanked run of UTF-16 units.
pub open spec fn blank_units(us: Seq<u16>) -> Seq<u16> {
    Seq::new(us.len(), |k: int| blank_unit(us[k]))
}

/// The ASCII marker a marker edit writes, as a UTF-16 unit.
pub open spec fn marker_unit(flags: u8) -> u16 {
    marker_byte(flags) as u16
}

/// The end of the edit before the one at `i` (0 for the first).
pub open spec fn prev_end(edits: Seq<(u8, u32, u32, u32)>, i: int) -> u32 {
    if i <= 0 {
        0
    } else {
        edits[i - 1].2
    }
}

/// Where the edit at `i` starts writing: its start, clipped to the end of
/// the edit before it.
pub open spec fn unit_clip(edits: Seq<(u8, u32, u32, u32)>, i: int) -> u32 {
    if edits[i].1 >= prev_end(edits, i) {
        edits[i].1
    } else {
        prev_end(edits, i)
    }
}

/// The UTF-16 output of the first `n` edits over `units`, byte offsets
/// mapped to unit indices through `map`.
pub open spec fn units_prefix(
    units: Seq<u16>,
    map: Seq<u32>,
    edits: Seq<(u8, u32, u32, u32)>,
    texts: Seq<Seq<u16>>,
    n: nat,
) -> Seq<u16>
    decreases n,
{
    if n == 0 || n > edits.len() {
        seq![]
    } else {
        let i = n - 1;
        let e = edits[i];
        let from = unit_clip(edits, i);
        let copied = units_prefix(units, map, edits, texts, i as nat) + units.subrange(
            count_below(map, prev_end(edits, i)),
            count_below(map, from),
        );
        if e.0 == REPLACE_WITH_TEXT {
            copied + texts[e.3 as int]
        } else if is_marker(e.0) {
            copied + seq![marker_unit(e.0)] + blank_units(
                units.subrange(count_below(map, from) + 1, count_below(map, e.2)),
            )
        } else {
            copied + blank_units(units.subrange(count_below(map, from), count_below(map, e.2)))
        }
    }
}

/// The UTF-16 units the edit list produces over `units`.
pub open spec fn edited_units(
    units: Seq<u16>,
    map: Seq<u32>,
    edits: Seq<(u8, u32, u32, u32)>,
    texts: Seq<Seq<u16>>,
) -> Seq<u16> {
    units_prefix(units, map, edits, texts, edits.len()) + units.subrange(
        count_below(map, prev_end(edits, edits.len() as int)),
        units.len() as int,
    )
}

/// The inputs the UTF-16 build accepts: the byte-to-unit map is strictly
/// increasing, every edit offset maps inside the units, and a non-text
/// edit's range (after its marker) is not reversed.
pub open spec fn units_fit(
    units: Seq<u16>,
    map: Seq<u32>,
    edits: Seq<(u8, u32, u32, u32)>,
    texts: Seq<Seq<u16>>,
) -> bool {
    &&& strictly_increasing(map)
    &&& forall|i: int|
        0 <= i < edits.len() ==> {
            let e = #[trigger] edits[i];
            &&& count_below(map, e.1) <= units.len()
            &&& count_below(map, e.2) <= units.len()
            &&& e.0 == REPLACE_WITH_TEXT ==> 0 <= e.3 < texts.len()
            &&& e.0 != REPLACE_WITH_TEXT ==> count_below(map, unit_clip(edits, i)) + (if is_marker(
                e.0,
            ) {
                1int
            } else {
                0int
            }) <= count_below(map, e.2)
        }
}

/// Blanking distributes over concatenated byte runs.
proof fn lemma_blank_bytes_concat(a: Seq<u8>, b: Seq<u8>)
    ensures
        blank_bytes(a + b) == blank_bytes(a) + blank_bytes(b),
    decreases b.len(),
{
    if b.len() == 0 {
        assert(a + b =~= a);
        assert(blank_bytes(a) + blank_bytes(b) =~= blank_bytes(a));
    } else {
        lemma_blank_bytes_concat(a, b.drop_last());
        assert((a + b).drop_last() =~= a + b.drop_last());
        assert((a + b).last() == b.last());
        assert(blank_bytes(a + b) =~= blank_bytes(a) + blank_bytes(b));
    }
}

/// A single character's UTF-8 bytes blank to the UTF-8 of its blank.
proof fn lemma_blank_scalar(c: char)
    ensures
        blank_bytes(encode_scalar(c as u32)) == encode_utf8(blank_char(c)),
{
    vstd::utf8::char_is_scalar(c);
    let v = c as u32;
    let sp = seq![' '];
    assert(encode_utf8(sp) == encode_scalar(0x20u32) + encode_utf8(sp.drop_first()));
    assert(sp.drop_first() =~= Seq::<char>::empty());
    assert((0x20u32 & 0x7F) as u8 == 0x20u8) by (bit_vector);
    assert(encode_utf8(sp) =~= seq![0x20u8]);
    let sp2 = seq![' ', ' '];
    assert(sp2.drop_first() =~= sp);
    assert(encode_utf8(sp2) =~= seq![0x20u8, 0x20u8]);
    let bytes = encode_scalar(v);
    if v <= 0x7F {
        assert((v & 0x7F) as u8 == v as u8) by (bit_vector)
            requires
                v <= 0x7F,
        ;
        assert(bytes =~= seq![v as u8]);
        assert(bytes.drop_last() =~= Seq::<u8>::empty());
        assert(blank_bytes(Seq::<u8>::empty()) =~= Seq::<u8>::empty());
        assert(blank_bytes(bytes) =~= blank_byte(v as u8));
        vstd::utf8::char_u32_cast(c, v);
        if v == 0x0A || v == 0x0D {
            let one = seq![c];
            assert(one.drop_first() =~= Seq::<char>::empty());
            assert(encode_utf8(one) =~= seq![v as u8]);
            assert(c == '\n' || c == '\r');
            assert(blank_char(c) == one);
        } else {
            assert(c != '\n' && c != '\r');
            assert(blank_char(c) == sp);
        }
        assert(blank_bytes(bytes) =~= encode_utf8(blank_char(c)));
    } else if v <= 0x7FF {
        let l = (0xC0 | ((v >> 6) & 0x1F) as u8) as u8;
        let t = (0x80 | (v & 0x3F) as u8) as u8;
        assert(0xC0 <= l < 0xE0) by (bit_vector)
            requires
                l == (0xC0 | ((v >> 6) & 0x1F) as u8) as u8,
        ;
        assert(0x80 <= t < 0xC0) by (bit_vector)
            requires
                t == (0x80 | (v & 0x3F) as u8) as u8,
        ;
        assert(bytes =~= seq![l, t]);
        assert(bytes.drop_last() =~= seq![l]);
        assert(seq![l].drop_last() =~= Seq::<u8>::empty());
        assert(blank_bytes(Seq::<u8>::empty()) =~= Seq::<u8>::empty());
        assert(blank_bytes(seq![l]) =~= seq![0x20u8]);
        assert(blank_bytes(bytes) =~= seq![0x20u8]);
    } else if v <= 0xFFFF {
        let l = (0xE0 | ((v >> 12) & 0x0F) as u8) as u8;
        let t1 = (0x80 | ((v >> 6) & 0x3F) as u8) as u8;
        let t2 = (0x80 | (v & 0x3F) as u8) as u8;
        assert(0xE0 <= l < 0xF0) by (bit_vector)
            requires
                l == (0xE0 | ((v >> 12) & 0x0F) as u8) as u8,
        ;
        assert(0x80 <= t1 < 0xC0) by (bit_vector)
            requires
                t1 == (0x80 | ((v >> 6) & 0x3F) as u8) as u8,
        ;
        assert(0x80 <= t2 < 0xC0) by (bit_vector)
            requires
                t2 == (0x80 | (v & 0x3F) as u8) as u8,
        ;
        assert(bytes =~= seq![l, t1, t2]);
        assert(bytes.drop_last() =~= seq![l, t1]);
        assert(seq![l, t1].drop_last() =~= seq![l]);
        assert(seq![l].drop_last() =~= Seq::<u8>::empty());
        assert(blank_bytes(Seq::<u8>::empty()) =~= Seq::<u8>::empty());
        assert(blank_bytes(seq![l]) =~= seq![0x20u8]);
        assert(blank_bytes(seq![l, t1]) =~= seq![0x20u8]);
        assert(blank_bytes(bytes) =~= seq![0x20u8]);
    } else {
        let l = (0xF0 | ((v >> 18) & 0x7) as u8) as u8;
        let t1 = (0x80 | ((v >> 12) & 0x3F) as u8) as u8;
        let t2 = (0x80 | ((v >> 6) & 0x3F) as u8) as u8;
        let t3 = (0x80 | (v & 0x3F) as u8) as u8;
        assert(0xF0 <= l) by (bit_vector)
            requires
                l == (0xF0 | ((v >> 18) & 0x7) as u8) as u8,
        ;
        assert(0x80 <= t1 < 0xC0) by (bit_vector)
            requires
                t1 == (0x80 | ((v >> 12) & 0x3F) as u8) as u8,
        ;
        assert(0x80 <= t2 < 0xC0) by (bit_vector)
            requires
                t2 == (0x80 | ((v >> 6) & 0x3F) as u8) as u8,
        ;
        assert(0x80 <= t3 < 0xC0) by (bit_vector)
            requires
                t3 == (0x80 | (v & 0x3F) as u8) as u8,
        ;
        assert(bytes =~= seq![l, t1, t2, t3]);
        assert(bytes.drop_last() =~= seq![l, t1, t2]);
        assert(seq![l, t1, t2].drop_last() =~= seq![l, t1]);
        assert(seq![l, t1].drop_last() =~= seq![l]);
        assert(seq![l].drop_last() =~= Seq::<u8>::empty());
        assert(blank_bytes(Seq::<u8>::empty()) =~= Seq::<u8>::empty());
        assert(blank_bytes(seq![l]) =~= seq![0x20u8, 0x20u8]);
        assert(blank_bytes(seq![l, t1]) =~= seq![0x20u8, 0x20u8]);
        assert(blank_bytes(seq![l, t1, t2]) =~= seq![0x20u8, 0x20u8]);
        assert(blank_bytes(bytes) =~= seq![0x20u8, 0x20u8]);
    }
}

/// A blanked run of UTF-8 text is, as characters, the blanked characters:
/// one space per UTF-16 unit, CR and LF kept — so its UTF-16 length, and
/// with it every JS position after it, does not change.
pub proof fn lemma_blanked_run_keeps_positions(cs: Seq<char>)
    ensures
        blank_bytes(encode_utf8(cs)) == encode_utf8(blank_chars(cs)),
        encode_utf16(blank_chars(cs)).len() == encode_utf16(cs).len(),
    decreases cs.len(),
{
    if cs.len() == 0 {
        assert(encode_utf8(cs) =~= Seq::<u8>::empty());
        assert(blank_bytes(Seq::<u8>::empty()) =~= Seq::<u8>::empty());
        assert(blank_chars(cs) =~= Seq::<char>::empty());
    } else {
        let init = cs.drop_last();
        let c = cs.last();
        lemma_blanked_run_keeps_positions(init);
        assert(cs =~= init.push(c));
        crate::chars::lemma_encode_utf8_push(init, c);
        lemma_blank_bytes_concat(encode_utf8(init), encode_scalar(c as u32));
        lemma_blank_scalar(c);
        crate::chars::lemma_encode_utf8_concat(blank_chars(init), blank_char(c));
        lemma_encode_utf16_push(init, c);
        crate::unicode::lemma_encode_utf16_concat(blank_chars(init), blank_char(c));
        if c == '\n' || c == '\r' {
            assert(blank_char(c) =~= seq![c]);
            lemma_encode_utf16_push(Seq::<char>::empty(), c);
            assert(seq![c] =~= Seq::<char>::empty().push(c));
        } else if (c as u32) < 0x10000 {
            lemma_encode_utf16_push(Seq::<char>::empty(), ' ');
            assert(seq![' '] =~= Seq::<char>::empty().push(' '));
        } else {
            lemma_encode_utf16_push(Seq::<char>::empty(), ' ');
            lemma_encode_utf16_push(seq![' '], ' ');
            assert(seq![' '] =~= Seq::<char>::empty().push(' '));
            assert(seq![' ', ' '] =~= seq![' '].push(' '));
        }
    }
}

/// With no edits, both builds hand the input back unchanged.
pub proof fn lemma_no_edits_keep_input(
    bytes: Seq<u8>,
    units: Seq<u16>,
    map: Seq<u32>,
    texts: Seq<Seq<u16>>,
)
    ensures
        edited_bytes(bytes, Seq::empty(), texts) == bytes,
        edited_units(units, map, Seq::empty(), texts) == units,
{
    assert(bytes.subrange(0, bytes.len() as int) =~= bytes);
    assert(Seq::<u8>::empty() + bytes =~= bytes);
    lemma_count_below_zero(map);
    assert(units.subrange(0, units.len() as int) =~= units);
    assert(Seq::<u16>::empty() + units =~= units);
}

/// On edits that each start no later than they end, the in-place probe
/// reads every range it reaches: `build_owned` then accepts whatever
/// `build` accepts, and (both giving [`edited_bytes`]) writes the same text.
pub proof fn lemma_ordered_edits_probe_total(bytes: Seq<u8>, edits: Seq<(u8, u32, u32, u32)>)
    requires
        forall|i: int| 0 <= i < edits.len() ==> (#[trigger] edits[i]).1 <= edits[i].2,
    ensures
        in_place_probe_total(bytes, edits),
{
}

/// Whether every edit is a plain blank and the edits come in source order
/// without overlapping.
pub open spec fn plain_blanks_in_order(edits: Seq<(u8, u32, u32, u32)>) -> bool {
    forall|i: int|
        0 <= i < edits.len() ==> (#[trigger] edits[i]).0 == REPLACE_WITH_BLANK && edits[i].1
            >= prev_end(edits, i)
}

/// Each unit of `out` below `len` is the input unit or its blank.
pub open spec fn kept_or_blanked(out: Seq<u16>, units: Seq<u16>, len: int) -> bool {
    forall|k: int| 0 <= k < len ==> #[trigger] out[k] == units[k] || out[k] == blank_unit(units[k])
}

/// The prefix the first `n` plain blanks produce covers exactly the units
/// up to the last one's end, each kept or blanked.
proof fn lemma_plain_prefix(
    units: Seq<u16>,
    map: Seq<u32>,
    edits: Seq<(u8, u32, u32, u32)>,
    texts: Seq<Seq<u16>>,
    n: nat,
)
    requires
        units_fit(units, map, edits, texts),
        plain_blanks_in_order(edits),
        n <= edits.len(),
    ensures
        units_prefix(units, map, edits, texts, n).len() == count_below(map, prev_end(edits, n as int)),
        count_below(map, prev_end(edits, n as int)) <= units.len(),
        kept_or_blanked(
            units_prefix(units, map, edits, texts, n),
            units,
            count_below(map, prev_end(edits, n as int)),
        ),
    decreases n,
{
    if n == 0 {
        lemma_count_below_monotone(map, 0, 0);
        assert(count_below(map, 0) == 0) by {
            lemma_count_below_zero(map);
        }
    } else {
        let i = n - 1;
        lemma_plain_prefix(units, map, edits, texts, i as nat);
        let e = edits[i];
        assert(e.0 == REPLACE_WITH_BLANK && e.1 >= prev_end(edits, i));
        assert(unit_clip(edits, i) == e.1);
        lemma_count_below_monotone(map, prev_end(edits, i), e.1);
        let before = units_prefix(units, map, edits, texts, i as nat);
        let a = count_below(map, prev_end(edits, i));
        let b = count_below(map, e.1);
        let c = count_below(map, e.2);
        assert(b <= c);
        let out = units_prefix(units, map, edits, texts, n);
        assert(out == before + units.subrange(a, b) + blank_units(units.subrange(b, c)));
        assert(prev_end(edits, n as int) == e.2);
        assert forall|k: int| 0 <= k < c implies #[trigger] out[k] == units[k] || out[k] == blank_unit(units[k]) by {
            if k < a {
                assert(out[k] == before[k]);
            } else if k < b {
                assert(out[k] == units[k]);
            } else {
                assert(out[k] == blank_unit(units[k]));
            }
        }
    }
}

/// Whether no edit splices a text and the edits come in source order
/// without overlapping.
pub open spec fn blanks_in_order(edits: Seq<(u8, u32, u32, u32)>) -> bool {
    forall|i: int|
        0 <= i < edits.len() ==> (#[trigger] edits[i]).0 != REPLACE_WITH_TEXT && edits[i].1
            >= prev_end(edits, i)
}

/// What unit `j` becomes under the first `n` edits (none a text splice):
/// inside the last edit that covers it, the edit's marker at its first unit
/// or else the blanked unit; covered by none, the unit itself.
pub open spec fn unit_after_edits(
    units: Seq<u16>,
    map: Seq<u32>,
    edits: Seq<(u8, u32, u32, u32)>,
    n: nat,
    j: int,
) -> u16
    decreases n,
{
    if n == 0 || n > edits.len() {
        units[j]
    } else {
        let e = edits[n - 1];
        if count_below(map, e.1) <= j < count_below(map, e.2) {
            if is_marker(e.0) && j == count_below(map, e.1) {
                marker_unit(e.0)
            } else {
                blank_unit(units[j])
            }
        } else {
            unit_after_edits(units, map, edits, (n - 1) as nat, j)
        }
    }
}

/// The prefix the first `n` in-order blanks and markers write covers the
/// units up to the last one's end, each as [`unit_after_edits`] says; past
/// that end no edit has touched a unit.
proof fn lemma_in_order_prefix(
    units: Seq<u16>,
    map: Seq<u32>,
    edits: Seq<(u8, u32, u32, u32)>,
    texts: Seq<Seq<u16>>,
    n: nat,
)
    requires
        units_fit(units, map, edits, texts),
        blanks_in_order(edits),
        n <= edits.len(),
    ensures
        units_prefix(units, map, edits, texts, n).len() == count_below(map, prev_end(edits, n as int)),
        count_below(map, prev_end(edits, n as int)) <= units.len(),
        forall|k: int|
            0 <= k < count_below(map, prev_end(edits, n as int)) ==> #[trigger] units_prefix(
                units,
                map,
                edits,
                texts,
                n,
            )[k] == unit_after_edits(units, map, edits, n, k),
        forall|k: int|
            count_below(map, prev_end(edits, n as int)) <= k < units.len() ==> #[trigger] unit_after_edits(
                units,
                map,
                edits,
                n,
                k,
            ) == units[k],
    decreases n,
{
    if n == 0 {
        lemma_count_below_monotone(map, 0, 0);
        assert(count_below(map, 0) == 0) by {
            lemma_count_below_zero(map);
        }
    } else {
        let i = n - 1;
        lemma_in_order_prefix(units, map, edits, texts, i as nat);
        let e = edits[i];
        assert(e.0 != REPLACE_WITH_TEXT && e.1 >= prev_end(edits, i));
        assert(unit_clip(edits, i) == e.1);
        lemma_count_below_monotone(map, prev_end(edits, i), e.1);
        let before = units_prefix(units, map, edits, texts, i as nat);
        let a = count_below(map, prev_end(edits, i));
        let b = count_below(map, e.1);
        let c = count_below(map, e.2);
        let out = units_prefix(units, map, edits, texts, n);
        assert(prev_end(edits, n as int) == e.2);
        if is_marker(e.0) {
            assert(b + 1 <= c);
            assert(out == before + units.subrange(a, b) + seq![marker_unit(e.0)] + blank_units(
                units.subrange(b + 1, c),
            ));
        } else {
            assert(b <= c);
            assert(out == before + units.subrange(a, b) + blank_units(units.subrange(b, c)));
        }
        assert forall|k: int| 0 <= k < c implies #[trigger] out[k] == unit_after_edits(
            units,
            map,
            edits,
            n,
            k,
        ) by {
            if k < a {
                assert(out[k] == before[k]);
                assert(unit_after_edits(units, map, edits, n, k) == unit_after_edits(
                    units,
                    map,
                    edits,
                    i as nat,
                    k,
                ));
            } else if k < b {
                assert(out[k] == units[k]);
                assert(unit_after_edits(units, map, edits, n, k) == unit_after_edits(
                    units,
                    map,
                    edits,
                    i as nat,
                    k,
                ));
                assert(unit_after_edits(units, map, edits, i as nat, k) == units[k]);
            } else if is_marker(e.0) {
                if k == b {
                    assert(out[k] == marker_unit(e.0));
                } else {
                    assert(out[k] == blank_units(units.subrange(b + 1, c))[k - b - 1]);
                    assert(out[k] == blank_unit(units[k]));
                }
            } else {
                assert(out[k] == blank_units(units.subrange(b, c))[k - b]);
                assert(out[k] == blank_unit(units[k]));
            }
        }
        assert forall|k: int| c <= k < units.len() implies #[trigger] unit_after_edits(
            units,
            map,
            edits,
            n,
            k,
        ) == units[k] by {
            assert(unit_after_edits(units, map, edits, i as nat, k) == units[k]);
        }
    }
}

/// The UTF-16 build with in-order blanks and markers and no text splice,
/// unit by unit: the output is exactly as long as the input, a unit no edit
/// covers is kept, a unit an edit covers becomes the edit's marker at its
/// first unit (`(`, `)` or `;`) or else a space (CR and LF kept, lone
/// surrogates blanked like any unit).
pub proof fn lemma_units_build_pointwise(
    units: Seq<u16>,
    map: Seq<u32>,
    edits: Seq<(u8, u32, u32, u32)>,
    texts: Seq<Seq<u16>>,
)
    requires
        units_fit(units, map, edits, texts),
        blanks_in_order(edits),
    ensures
        edited_units(units, map, edits, texts).len() == units.len(),
        forall|j: int|
            0 <= j < units.len() ==> #[trigger] edited_units(units, map, edits, texts)[j]
                == unit_after_edits(units, map, edits, edits.len(), j),
{
    lemma_in_order_prefix(units, map, edits, texts, edits.len());
    let out = edited_units(units, map, edits, texts);
    let pre = units_prefix(units, map, edits, texts, edits.len());
    let c = count_below(map, prev_end(edits, edits.len() as int));
    assert(out == pre + units.subrange(c, units.len() as int));
    assert forall|j: int| 0 <= j < units.len() implies #[trigger] out[j] == unit_after_edits(
        units,
        map,
        edits,
        edits.len(),
        j,
    ) by {
        if j < c {
            assert(out[j] == pre[j]);
        } else {
            assert(out[j] == units[j]);
        }
    }
}

/// In-order edits lie in order in units too: an earlier edit ends, in
/// units, no later than a later one starts.
proof fn lemma_in_order_units(
    units: Seq<u16>,
    map: Seq<u32>,
    edits: Seq<(u8, u32, u32, u32)>,
    texts: Seq<Seq<u16>>,
    i: int,
    m: int,
)
    requires
        units_fit(units, map, edits, texts),
        blanks_in_order(edits),
        0 <= i < m < edits.len(),
    ensures
        count_below(map, edits[i].2) <= count_below(map, edits[m].1),
    decreases m - i,
{
    let e = edits[m];
    assert(e.0 != REPLACE_WITH_TEXT && e.1 >= prev_end(edits, m));
    lemma_count_below_monotone(map, prev_end(edits, m), e.1);
    if i < m - 1 {
        lemma_in_order_units(units, map, edits, texts, i, m - 1);
        let d = edits[m - 1];
        assert(d.0 != REPLACE_WITH_TEXT && d.1 >= prev_end(edits, m - 1));
        assert(unit_clip(edits, m - 1) == d.1);
    }
}

/// Under the first `n` in-order edits, a unit the edit at `i < n` covers
/// becomes that edit's marker or blank, and a unit no edit covers is kept.
#[verifier::rlimit(40)]
#[verifier::spinoff_prover]
proof fn lemma_unit_after_by_edit(
    units: Seq<u16>,
    map: Seq<u32>,
    edits: Seq<(u8, u32, u32, u32)>,
    texts: Seq<Seq<u16>>,
    n: nat,
    j: int,
)
    requires
        units_fit(units, map, edits, texts),
        blanks_in_order(edits),
        n <= edits.len(),
    ensures
        forall|i: int|
            0 <= i < n && count_below(map, (#[trigger] edits[i]).1) <= j < count_below(map, edits[i].2)
                ==> unit_after_edits(units, map, edits, n, j) == (if is_marker(edits[i].0) && j
                == count_below(map, edits[i].1) {
                marker_unit(edits[i].0)
            } else {
                blank_unit(units[j])
            }),
        (forall|i: int|
            0 <= i < n ==> !(count_below(map, (#[trigger] edits[i]).1) <= j < count_below(map, edits[i].2)))
            ==> unit_after_edits(units, map, edits, n, j) == units[j],
    decreases n,
{
    if n > 0 {
        lemma_unit_after_by_edit(units, map, edits, texts, (n - 1) as nat, j);
        assert forall|i: int|
            0 <= i < n - 1 && count_below(map, (#[trigger] edits[i]).1) <= j < count_below(map, edits[i].2)
                implies !(count_below(map, edits[n - 1].1) <= j < count_below(
            map,
            edits[n - 1].2,
        )) by {
            lemma_in_order_units(units, map, edits, texts, i, n - 1);
        }
    }
}

/// The UTF-16 build with in-order blanks and markers and no text splice,
/// edit by edit: the output is as long as the input; a unit an edit covers
/// (between the units of its start and end) becomes the edit's marker
/// (`(`, `)` or `;`) at its first unit and otherwise a space, CR and LF
/// kept; a unit no edit covers is kept, lone surrogates included.
pub proof fn lemma_units_build_by_edit(
    units: Seq<u16>,
    map: Seq<u32>,
    edits: Seq<(u8, u32, u32, u32)>,
    texts: Seq<Seq<u16>>,
)
    requires
        units_fit(units, map, edits, texts),
        blanks_in_order(edits),
    ensures
        edited_units(units, map, edits, texts).len() == units.len(),
        forall|i: int, j: int|
            #![trigger edits[i], edited_units(units, map, edits, texts)[j]]
            0 <= i < edits.len() && count_below(map, edits[i].1) <= j < count_below(map, edits[i].2)
                && j < units.len() ==> edited_units(units, map, edits, texts)[j] == (if is_marker(
                edits[i].0,
            ) && j == count_below(map, edits[i].1) {
                marker_unit(edits[i].0)
            } else {
                blank_unit(units[j])
            }),
        forall|j: int|
            0 <= j < units.len() && (forall|i: int|
                0 <= i < edits.len() ==> !(count_below(map, (#[trigger] edits[i]).1) <= j < count_below(
                    map,
                    edits[i].2,
                ))) ==> #[trigger] edited_units(units, map, edits, texts)[j] == units[j],
{
    lemma_units_build_pointwise(units, map, edits, texts);
    assert forall|i: int, j: int|
        #![trigger edits[i], edited_units(units, map, edits, texts)[j]]
        0 <= i < edits.len() && count_below(map, edits[i].1) <= j < count_below(map, edits[i].2) && j
            < units.len() implies edited_units(units, map, edits, texts)[j] == (if is_marker(
        edits[i].0,
    ) && j == count_below(map, edits[i].1) {
        marker_unit(edits[i].0)
    } else {
        blank_unit(units[j])
    }) by {
        lemma_unit_after_by_edit(units, map, edits, texts, edits.len(), j);
        lemma_count_below_zero(map);
        lemma_count_below_monotone(map, 0, edits[i].1);
        assert(edited_units(units, map, edits, texts)[j] == unit_after_edits(
            units,
            map,
            edits,
            edits.len(),
            j,
        ));
        assert(count_below(map, edits[i].1) <= j < count_below(map, edits[i].2));
    }
    assert forall|j: int|
        0 <= j < units.len() && (forall|i: int|
            0 <= i < edits.len() ==> !(count_below(map, (#[trigger] edits[i]).1) <= j < count_below(
                map,
                edits[i].2,
            ))) implies #[trigger] edited_units(units, map, edits, texts)[j] == units[j] by {
        lemma_unit_after_by_edit(units, map, edits, texts, edits.len(), j);
    }
}

/// A lone text edit splices its text between what comes before its start
/// and what comes from its end on, on both paths.
pub proof fn lemma_single_text_edit(
    bytes: Seq<u8>,
    units: Seq<u16>,
    map: Seq<u32>,
    start: u32,
    end: u32,
    k: u32,
    texts: Seq<Seq<u16>>,
)
    requires
        start <= end <= bytes.len(),
        k < texts.len(),
        count_below(map, end) <= units.len(),
    ensures
        edited_bytes(bytes, seq![(REPLACE_WITH_TEXT, start, end, k)], texts) == bytes.subrange(
            0,
            start as int,
        ) + encode_utf8(decode_utf16(texts[k as int])) + bytes.subrange(end as int, bytes.len() as int),
        edited_units(units, map, seq![(REPLACE_WITH_TEXT, start, end, k)], texts) == units.subrange(
            0,
            count_below(map, start),
        ) + texts[k as int] + units.subrange(count_below(map, end), units.len() as int),
{
    let edits = seq![(REPLACE_WITH_TEXT, start, end, k)];
    assert(edits_prefix(bytes, edits, texts, 0) == (Seq::<u8>::empty(), 0int));
    assert(Seq::<u8>::empty() + bytes.subrange(0, start as int) =~= bytes.subrange(0, start as int));
    lemma_count_below_zero(map);
    lemma_count_below_monotone(map, start, end);
    assert(unit_clip(edits, 0) == start);
    assert(units_prefix(units, map, edits, texts, 0) == Seq::<u16>::empty());
    assert(Seq::<u16>::empty() + units.subrange(0, count_below(map, start)) =~= units.subrange(
        0,
        count_below(map, start),
    ));
}

/// No entry of a map lies below 0.
proof fn lemma_count_below_zero(map: Seq<u32>)
    ensures
        count_below(map, 0) == 0,
    decreases map.len(),
{
    if map.len() > 0 {
        lemma_count_below_zero(map.drop_last());
    }
}

/// Blanking keeps every position: plain blanks in source order leave the
/// UTF-16 output exactly as long as the input, every unit kept or blanked,
/// and every line break where it was — line and column stay stable.
pub proof fn lemma_blanking_keeps_positions(
    units: Seq<u16>,
    map: Seq<u32>,
    edits: Seq<(u8, u32, u32, u32)>,
    texts: Seq<Seq<u16>>,
)
    requires
        units_fit(units, map, edits, texts),
        plain_blanks_in_order(edits),
    ensures
        edited_units(units, map, edits, texts).len() == units.len(),
        kept_or_blanked(edited_units(units, map, edits, texts), units, units.len() as int),
        forall|k: int|
            0 <= k < units.len() && (units[k] == 0x0A || units[k] == 0x0D) ==> #[trigger] edited_units(
                units,
                map,
                edits,
                texts,
            )[k] == units[k],
{
    lemma_plain_prefix(units, map, edits, texts, edits.len());
    let out = edited_units(units, map, edits, texts);
    let pre = units_prefix(units, map, edits, texts, edits.len());
    let c = count_below(map, prev_end(edits, edits.len() as int));
    assert(out == pre + units.subrange(c, units.len() as int));
    assert forall|k: int| 0 <= k < units.len() implies #[trigger] out[k] == units[k] || out[k] == blank_unit(units[k]) by {
        if k < c {
            assert(out[k] == pre[k]);
        } else {
            assert(out[k] == units[k]);
        }
    }
}

/// Whether `out` reads, in UTF-16 units, as `src` with some units
/// blanked: just as many units, each kept or blanked (line breaks kept).
pub open spec fn units_kept_or_blanked(out: Seq<char>, src: Seq<char>) -> bool {
    &&& encode_utf16(out).len() == encode_utf16(src).len()
    &&& kept_or_blanked(encode_utf16(out), encode_utf16(src), encode_utf16(src).len() as int)
}

proof fn lemma_ukb_concat(o1: Seq<char>, c1: Seq<char>, o2: Seq<char>, c2: Seq<char>)
    requires
        units_kept_or_blanked(o1, c1),
        units_kept_or_blanked(o2, c2),
    ensures
        units_kept_or_blanked(o1 + o2, c1 + c2),
{
    crate::unicode::lemma_encode_utf16_concat(o1, o2);
    crate::unicode::lemma_encode_utf16_concat(c1, c2);
    let out = encode_utf16(o1 + o2);
    let src = encode_utf16(c1 + c2);
    let n1 = encode_utf16(c1).len() as int;
    assert forall|k: int| 0 <= k < src.len() implies #[trigger] out[k] == src[k] || out[k]
        == blank_unit(src[k]) by {
        if k < n1 {
            assert(out[k] == encode_utf16(o1)[k]);
            assert(src[k] == encode_utf16(c1)[k]);
        } else {
            assert(out[k] == encode_utf16(o2)[k - n1]);
            assert(src[k] == encode_utf16(c2)[k - n1]);
        }
    }
}

proof fn lemma_ukb_same(c: Seq<char>)
    ensures
        units_kept_or_blanked(c, c),
{
}

proof fn lemma_ukb_blank_char(x: char)
    ensures
        units_kept_or_blanked(blank_char(x), seq![x]),
{
    lemma_encode_utf16_push(Seq::<char>::empty(), x);
    assert(seq![x] =~= Seq::<char>::empty().push(x));
    assert(encode_utf16(Seq::<char>::empty()) =~= Seq::<u16>::empty());
    assert(encode_utf16(seq![x]) =~= crate::unicode::encode_utf16_char(x));
    lemma_encode_utf16_push(Seq::<char>::empty(), ' ');
    assert(seq![' '] =~= Seq::<char>::empty().push(' '));
    assert(encode_utf16(seq![' ']) =~= seq![0x20u16]);
    let v = x as u32;
    if x == '\n' || x == '\r' {
    } else if v < 0x10000 {
        assert(v as u16 != 0x0A && v as u16 != 0x0D) by {
            vstd::utf8::char_u32_cast(x, v);
        }
    } else {
        lemma_encode_utf16_push(seq![' '], ' ');
        assert(seq![' ', ' '] =~= seq![' '].push(' '));
        assert(encode_utf16(seq![' ', ' ']) =~= seq![0x20u16, 0x20u16]);
        let hi = (0xD800 + (v - 0x10000) / 0x400) as u16;
        let lo = (0xDC00 + (v - 0x10000) % 0x400) as u16;
        assert(hi >= 0xD800 && lo >= 0xDC00);
    }
}

proof fn lemma_ukb_blank(c: Seq<char>)
    ensures
        units_kept_or_blanked(blank_chars(c), c),
    decreases c.len(),
{
    if c.len() == 0 {
        assert(blank_chars(c) =~= Seq::<char>::empty());
        lemma_ukb_same(c);
    } else {
        let init = c.drop_last();
        let x = c.last();
        lemma_ukb_blank(init);
        lemma_ukb_blank_char(x);
        lemma_ukb_concat(blank_chars(init), init, blank_char(x), seq![x]);
        assert(c =~= init + seq![x]);
    }
}

/// Decoding well-formed UTF-8 distributes over concatenation.
pub(crate) proof fn lemma_decode_concat(a: Seq<u8>, b: Seq<u8>)
    requires
        valid_utf8(a),
        valid_utf8(b),
    ensures
        decode_utf8(a + b) == decode_utf8(a) + decode_utf8(b),
{
    decode_utf8_encode_utf8(a);
    decode_utf8_encode_utf8(b);
    crate::chars::lemma_encode_utf8_concat(decode_utf8(a), decode_utf8(b));
    vstd::utf8::encode_utf8_decode_utf8(decode_utf8(a) + decode_utf8(b));
}

/// The first `n` plain blanks (none reversed) leave output that reads as
/// the input up to the last one's end, units kept or blanked.
#[verifier::rlimit(30)]
#[verifier::spinoff_prover]
proof fn lemma_plain_prefix_utf8(
    bytes: Seq<u8>,
    edits: Seq<(u8, u32, u32, u32)>,
    texts: Seq<Seq<u16>>,
    n: nat,
)
    requires
        valid_utf8(bytes),
        edits_on_boundaries(bytes, edits, texts),
        plain_blanks_in_order(edits),
        forall|i: int| 0 <= i < edits.len() ==> (#[trigger] edits[i]).1 <= edits[i].2,
        n <= edits.len(),
    ensures
        edits_prefix(bytes, edits, texts, n).1 == prev_end(edits, n as int),
        units_kept_or_blanked(
            decode_utf8(edits_prefix(bytes, edits, texts, n).0),
            decode_utf8(bytes.subrange(0, edits_prefix(bytes, edits, texts, n).1)),
        ),
    decreases n,
{
    lemma_edits_prefix_valid(bytes, edits, texts, n);
    is_char_boundary_start_end_of_seq(bytes);
    if n == 0 {
        assert(bytes.subrange(0, 0) =~= Seq::<u8>::empty());
        decode_utf8_encode_utf8(Seq::<u8>::empty());
        assert(decode_utf8(Seq::<u8>::empty()) =~= Seq::<char>::empty()) by {
            vstd::utf8::encode_utf8_decode_utf8(Seq::<char>::empty());
            assert(encode_utf8(Seq::<char>::empty()) =~= Seq::<u8>::empty());
        }
        lemma_ukb_same(Seq::<char>::empty());
    } else {
        let i = n - 1;
        lemma_plain_prefix_utf8(bytes, edits, texts, i as nat);
        lemma_edits_prefix_valid(bytes, edits, texts, i as nat);
        let state = edits_prefix(bytes, edits, texts, i as nat);
        let e = edits[i];
        let prev = state.1;
        assert(e.0 == REPLACE_WITH_BLANK && e.1 >= prev_end(edits, i));
        let from = e.1 as int;
        let to = e.2 as int;
        let gap = bytes.subrange(prev, from);
        let run = bytes.subrange(from, to);
        lemma_valid_subrange(bytes, 0, prev);
        lemma_valid_subrange(bytes, prev, from);
        lemma_valid_subrange(bytes, from, to);
        lemma_valid_subrange(bytes, 0, from);
        lemma_valid_subrange(bytes, 0, to);
        // the output grows by the gap and the blanked run
        let blanked = blank_bytes(run);
        decode_utf8_encode_utf8(run);
        lemma_blanked_run_keeps_positions(decode_utf8(run));
        vstd::utf8::encode_utf8_decode_utf8(blank_chars(decode_utf8(run)));
        encode_utf8_valid_utf8(blank_chars(decode_utf8(run)));
        assert(blanked_span(bytes, from, to) == blanked) by {
            if from == to {
                assert(run =~= Seq::<u8>::empty());
                assert(blank_bytes(run) =~= Seq::<u8>::empty());
            }
        }
        lemma_valid_concat(state.0, gap);
        lemma_decode_concat(state.0, gap);
        lemma_decode_concat(state.0 + gap, blanked);
        assert(edits_prefix(bytes, edits, texts, n).0 == state.0 + gap + blanked);
        // the input prefix grows by the same gap and run
        assert(bytes.subrange(0, to) =~= bytes.subrange(0, prev) + gap + run);
        lemma_valid_concat(bytes.subrange(0, prev), gap);
        lemma_decode_concat(bytes.subrange(0, prev), gap);
        lemma_decode_concat(bytes.subrange(0, prev) + gap, run);
        lemma_ukb_same(decode_utf8(gap));
        lemma_ukb_concat(
            decode_utf8(state.0),
            decode_utf8(bytes.subrange(0, prev)),
            decode_utf8(gap),
            decode_utf8(gap),
        );
        lemma_ukb_blank(decode_utf8(run));
        lemma_ukb_concat(
            decode_utf8(state.0) + decode_utf8(gap),
            decode_utf8(bytes.subrange(0, prev)) + decode_utf8(gap),
            blank_chars(decode_utf8(run)),
            decode_utf8(run),
        );
    }
}

/// Blanking keeps every position on the UTF-8 path too: with plain blanks
/// in source order (none reversed), the edited text has exactly as many
/// UTF-16 units as the input, each kept or blanked, line breaks where they
/// were — so every JS line, column and string index stays put.
pub proof fn lemma_blanking_keeps_positions_utf8(
    text: Seq<char>,
    edits: Seq<(u8, u32, u32, u32)>,
    texts: Seq<Seq<u16>>,
)
    requires
        edits_on_boundaries(encode_utf8(text), edits, texts),
        plain_blanks_in_order(edits),
        forall|i: int| 0 <= i < edits.len() ==> (#[trigger] edits[i]).1 <= edits[i].2,
    ensures
        units_kept_or_blanked(decode_utf8(edited_bytes(encode_utf8(text), edits, texts)), text),
{
    let bytes = encode_utf8(text);
    encode_utf8_valid_utf8(text);
    lemma_plain_prefix_utf8(bytes, edits, texts, edits.len());
    lemma_edits_prefix_valid(bytes, edits, texts, edits.len());
    is_char_boundary_start_end_of_seq(bytes);
    let state = edits_prefix(bytes, edits, texts, edits.len());
    let rest = bytes.subrange(state.1, bytes.len() as int);
    lemma_valid_subrange(bytes, 0, state.1);
    lemma_valid_subrange(bytes, state.1, bytes.len() as int);
    lemma_decode_concat(state.0, rest);
    lemma_decode_concat(bytes.subrange(0, state.1), rest);
    assert(bytes.subrange(0, state.1) + rest =~= bytes);
    vstd::utf8::encode_utf8_decode_utf8(text);
    lemma_ukb_same(decode_utf8(rest));
    lemma_ukb_concat(
        decode_utf8(state.0),
        decode_utf8(bytes.subrange(0, state.1)),
        decode_utf8(rest),
        decode_utf8(rest),
    );
}

/// Append `units[from..to)` to `out`.
fn copy_units(out: &mut Vec<u16>, units: &[u16], from: usize, to: usize)
    requires
        from <= to <= units@.len(),
    ensures
        final(out)@ == old(out)@ + units@.subrange(from as int, to as int),
{
    let mut k = from;
    while k < to
        invariant
            from <= k <= to <= units@.len(),
            out@ == old(out)@ + units@.subrange(from as int, k as int),
        decreases to - k,
    {
        out.push(units[k]);
        k += 1;
        proof {
            assert(units@.subrange(from as int, k as int) =~= units@.subrange(from as int, k - 1).push(
                units@[k - 1],
            ));
        }
    }
}

/// Append the blanked `units[from..to)` to `out`.
fn blank_units_into(out: &mut Vec<u16>, units: &[u16], from: usize, to: usize)
    requires
        from <= to <= units@.len(),
    ensures
        final(out)@ == old(out)@ + blank_units(units@.subrange(from as int, to as int)),
{
    let mut k = from;
    while k < to
        invariant
            from <= k <= to <= units@.len(),
            out@ == old(out)@ + blank_units(units@.subrange(from as int, k as int)),
        decreases to - k,
    {
        let u = units[k];
        out.push(if u == 0x0A || u == 0x0D {
            u
        } else {
            0x20
        });
        k += 1;
        proof {
            assert(blank_units(units@.subrange(from as int, k as int)) =~= blank_units(
                units@.subrange(from as int, k - 1),
            ).push(blank_unit(units@[k - 1])));
        }
    }
}

impl BlankString {
    /// UTF-16 variant of [`build`](Self::build): `byte_to_unit` maps byte
    /// offsets of the parsed copy to unit indices (strictly increasing).
    /// Blanked ranges keep newline units; every other unit — lone surrogates
    /// included — becomes a single space; texts splice verbatim.
    pub fn build_units(&self, units: &[u16], byte_to_unit: &[u32]) -> (res: Vec<u16>)
        requires
            self.well_formed(),
            units_fit(units@, byte_to_unit@, self.edits(), self.texts()),
        ensures
            res@ == edited_units(units@, byte_to_unit@, self.edits(), self.texts()),
    {
        let ghost edits = self.edits();
        let ghost texts = self.texts();
        let ghost map = byte_to_unit@;
        let mut out: Vec<u16> = Vec::new();
        let mut previous_end: u32 = 0;
        let mut previous_unit: usize = 0;
        let mut i: usize = 0;
        proof {
            crate::search::lemma_count_below_split(map, 0, 0);
        }
        while i < self.ranges.len()
            invariant
                i <= edits.len(),
                edits == self.ranges@,
                texts == self.texts(),
                self.well_formed(),
                map == byte_to_unit@,
                units_fit(units@, map, edits, texts),
                previous_end == prev_end(edits, i as int),
                previous_unit == count_below(map, previous_end),
                previous_unit <= units@.len(),
                out@ == units_prefix(units@, map, edits, texts, i as nat),
            decreases edits.len() - i,
        {
            let (flags, start, end, text_index) = self.ranges[i];
            proof {
                assert(edits[i as int] == (flags, start, end, text_index));
                lemma_count_below_monotone(map, previous_end, if start >= previous_end { start } else { previous_end });
            }
            let range_start = if start >= previous_end {
                start
            } else {
                previous_end
            };
            let range_unit = unit_at(byte_to_unit, range_start);
            copy_units(&mut out, units, previous_unit, range_unit);
            let end_unit = unit_at(byte_to_unit, end);
            if flags == REPLACE_WITH_TEXT {
                let text = &self.texts[text_index as usize];
                assert(self.texts()[text_index as int] == text@);
                copy_units(&mut out, text.as_slice(), 0, text.len());
                proof {
                    assert(text@.subrange(0, text@.len() as int) =~= text@);
                }
            } else if flags == REPLACE_WITH_CLOSE_PAREN || flags == REPLACE_WITH_SEMI || flags
                == REPLACE_WITH_OPEN_PAREN {
                let marker: u16 = if flags == REPLACE_WITH_OPEN_PAREN {
                    0x28
                } else if flags == REPLACE_WITH_CLOSE_PAREN {
                    0x29
                } else {
                    0x3B
                };
                out.push(marker);
                blank_units_into(&mut out, units, range_unit + 1, end_unit);
            } else {
                blank_units_into(&mut out, units, range_unit, end_unit);
            }
            previous_end = end;
            previous_unit = end_unit;
            i += 1;
        }
        copy_units(&mut out, units, previous_unit, units.len());
        out
    }
}

/// The condition under which the edits can be applied over the units in
/// place: no text edit, edits in order without overlap, and a marker edit
/// never empty.
pub open spec fn units_in_place_at(edits: Seq<(u8, u32, u32, u32)>, i: int) -> bool {
    let e = edits[i];
    &&& e.0 != REPLACE_WITH_TEXT
    &&& e.1 >= covered_end(edits, i as nat)
    &&& (e.0 == REPLACE_WITH_BLANK || e.2 > e.1)
}

/// [`units_in_place_at`] for every edit.
pub open spec fn edits_units_in_place(edits: Seq<(u8, u32, u32, u32)>) -> bool {
    forall|i: int| 0 <= i < edits.len() ==> #[trigger] units_in_place_at(edits, i)
}

/// The furthest end so far bounds the previous end.
proof fn lemma_prev_end_covered(edits: Seq<(u8, u32, u32, u32)>, i: nat)
    requires
        i <= edits.len(),
    ensures
        prev_end(edits, i as int) <= covered_end(edits, i),
        i < edits.len() ==> edits[i as int].2 <= covered_end(edits, i + 1),
{
}

/// One in-place edit over units: what the output after it reads at every
/// position.
proof fn lemma_units_in_place_step(
    units: Seq<u16>,
    map: Seq<u32>,
    edits: Seq<(u8, u32, u32, u32)>,
    texts: Seq<Seq<u16>>,
    i: nat,
)
    requires
        i < edits.len(),
        units_in_place_at(edits, i as int),
        units_fit(units, map, edits, texts),
        units_prefix(units, map, edits, texts, i).len() == count_below(map, prev_end(edits, i as int)),
        edits[i as int].0 <= REPLACE_WITH_TEXT,
    ensures
        ({
            let e = edits[i as int];
            let us = count_below(map, e.1);
            let ue = count_below(map, e.2);
            let first = if is_marker(e.0) { us + 1 } else { us };
            let state = units_prefix(units, map, edits, texts, i) + units.subrange(
                count_below(map, prev_end(edits, i as int)),
                units.len() as int,
            );
            let goal = units_prefix(units, map, edits, texts, i + 1) + units.subrange(ue, units.len() as int);
            &&& units_prefix(units, map, edits, texts, i + 1).len() == ue
            &&& 0 <= us <= first <= ue <= units.len()
            &&& goal.len() == units.len()
            &&& forall|p: int| 0 <= p < us ==> #[trigger] goal[p] == state[p]
            &&& is_marker(e.0) ==> goal[us] == marker_unit(e.0)
            &&& forall|p: int| first <= p < ue ==> #[trigger] goal[p] == blank_unit(units[p])
            &&& forall|p: int| ue <= p < units.len() ==> #[trigger] goal[p] == units[p]
        }),
{
    let e = edits[i as int];
    let pe = prev_end(edits, i as int);
    lemma_prev_end_covered(edits, i);
    assert(unit_clip(edits, i as int) == e.1);
    lemma_count_below_monotone(map, pe, e.1);
    let us = count_below(map, e.1);
    let ue = count_below(map, e.2);
    let up = count_below(map, pe);
    let first = if is_marker(e.0) { us + 1 } else { us };
    let prefix = units_prefix(units, map, edits, texts, i);
    let copied = prefix + units.subrange(up, us);
    let run = blank_units(units.subrange(first, ue));
    let next = units_prefix(units, map, edits, texts, i + 1);
    if is_marker(e.0) {
        assert(next == copied + seq![marker_unit(e.0)] + run);
    } else {
        assert(next == copied + run);
    }
    let state = prefix + units.subrange(up, units.len() as int);
    let goal = next + units.subrange(ue, units.len() as int);
    assert forall|p: int| 0 <= p < us implies #[trigger] goal[p] == state[p] by {
        assert(goal[p] == copied[p]);
        if p >= up {
            assert(units.subrange(up, us)[p - up] == units[p]);
        }
    }
    assert forall|p: int| first <= p < ue implies #[trigger] goal[p] == blank_unit(units[p]) by {
        assert(goal[p] == run[p - first]);
    }
    assert forall|p: int| ue <= p < units.len() implies #[trigger] goal[p] == units[p] by {
        assert(goal[p] == units.subrange(ue, units.len() as int)[p - ue]);
    }
}

impl BlankString {
    /// [`build_units`](Self::build_units) consuming the input units: every
    /// unit maps 1:1, so with no text splices and no overlap the units are
    /// rewritten in place and handed back; otherwise this falls back to
    /// [`build_units`](Self::build_units). Either way the result is the same.
    #[verifier::rlimit(30)]
    pub fn build_units_owned(self, units: Vec<u16>, byte_to_unit: &[u32]) -> (res: Vec<u16>)
        requires
            self.well_formed(),
            units_fit(units@, byte_to_unit@, self.edits(), self.texts()),
        ensures
            res@ == edited_units(units@, byte_to_unit@, self.edits(), self.texts()),
    {
        let ghost edits = self.edits();
        let ghost texts = self.texts();
        let ghost map = byte_to_unit@;
        let ghost u = units@;
        let n = self.ranges.len();
        let mut in_place = true;
        let mut covered: u32 = 0;
        let mut i: usize = 0;
        while i < n
            invariant_except_break
                in_place,
            invariant
                i <= n == edits.len(),
                edits == self.ranges@,
                covered == covered_end(edits, i as nat),
                forall|k: int| 0 <= k < i ==> units_in_place_at(edits, k),
            ensures
                in_place ==> edits_units_in_place(edits),
            decreases n - i,
        {
            let (flags, start, end, _) = self.ranges[i];
            proof {
                assert(edits[i as int] == (flags, start, end, self.ranges@[i as int].3));
            }
            let ok = flags != REPLACE_WITH_TEXT && start >= covered && (flags == REPLACE_WITH_BLANK
                || end > start);
            if !ok {
                in_place = false;
                break;
            }
            covered = if covered >= end {
                covered
            } else {
                end
            };
            i += 1;
            proof {
                if i == n {
                    assert forall|k: int| 0 <= k < edits.len() implies #[trigger] units_in_place_at(edits, k) by {}
                }
            }
        }
        proof {
            if in_place && n == 0 {
                assert(edits_units_in_place(edits));
            }
        }
        if !in_place {
            return self.build_units(units.as_slice(), byte_to_unit);
        }
        let mut buffer = units;
        let mut i: usize = 0;
        proof {
            crate::search::lemma_count_below_split(map, 0, 0);
            assert(u.subrange(0, u.len() as int) =~= u);
            assert(Seq::<u16>::empty() + u =~= u);
        }
        while i < n
            invariant
                i <= n == edits.len(),
                edits == self.ranges@,
                edits_units_in_place(edits),
                units_fit(u, map, edits, texts),
                map == byte_to_unit@,
                self.well_formed(),
                buffer@.len() == u.len(),
                units_prefix(u, map, edits, texts, i as nat).len() == count_below(map, prev_end(edits, i as int)),
                buffer@ == units_prefix(u, map, edits, texts, i as nat) + u.subrange(
                    count_below(map, prev_end(edits, i as int)),
                    u.len() as int,
                ),
            decreases n - i,
        {
            let (flags, start, end, _) = self.ranges[i];
            let ghost before = buffer@;
            let ghost goal = units_prefix(u, map, edits, texts, (i + 1) as nat) + u.subrange(
                count_below(map, end),
                u.len() as int,
            );
            proof {
                assert(edits[i as int] == (flags, start, end, self.ranges@[i as int].3));
                assert(units_in_place_at(edits, i as int));
                assert(flags <= REPLACE_WITH_TEXT);
                lemma_units_in_place_step(u, map, edits, texts, i as nat);
            }
            let mut at = unit_at(byte_to_unit, start);
            let end_unit = unit_at(byte_to_unit, end);
            if flags != REPLACE_WITH_BLANK {
                let marker: u16 = if flags == REPLACE_WITH_OPEN_PAREN {
                    0x28
                } else if flags == REPLACE_WITH_CLOSE_PAREN {
                    0x29
                } else {
                    0x3B
                };
                buffer.set(at, marker);
                at += 1;
            }
            let ghost first = at as int;
            proof {
                assert forall|p: int| 0 <= p < first implies #[trigger] buffer@[p] == goal[p] by {
                    if p < count_below(map, start) {
                        assert(buffer@[p] == before[p]);
                    } else {
                        assert(is_marker(flags));
                    }
                }
            }
            while at < end_unit
                invariant
                    0 <= first <= at <= end_unit <= u.len(),
                    buffer@.len() == u.len(),
                    goal.len() == u.len(),
                    forall|p: int| 0 <= p < first ==> #[trigger] buffer@[p] == goal[p],
                    forall|p: int| first <= p < at ==> #[trigger] buffer@[p] == blank_unit(u[p]),
                    forall|p: int| at <= p < u.len() ==> #[trigger] buffer@[p] == u[p],
                decreases end_unit - at,
            {
                let v = buffer[at];
                let ghost prior = buffer@;
                let blanked: u16 = if v != 0x0A && v != 0x0D {
                    0x20
                } else {
                    v
                };
                buffer.set(at, blanked);
                proof {
                    assert forall|p: int| first <= p < at + 1 implies #[trigger] buffer@[p] == blank_unit(u[p]) by {
                        if p < at {
                            assert(buffer@[p] == prior[p]);
                        }
                    }
                }
                at += 1;
            }
            proof {
                assert forall|p: int| 0 <= p < u.len() implies #[trigger] buffer@[p] == goal[p] by {
                    if first <= p < end_unit {
                        assert(buffer@[p] == blank_unit(u[p]));
                    }
                }
                assert(buffer@ =~= goal);
            }
            i += 1;
        }
        buffer
    }
}

impl Default for BlankString {
    fn default() -> (s: Self)
        ensures
            s.well_formed(),
            s.edits() == Seq::<(u8, u32, u32, u32)>::empty(),
            s.texts() == Seq::<Seq<u16>>::empty(),
    {
        BlankString::new()
    }
}

/// Whether `u` is a marker an edit writes: `(`, `)` or `;`.
pub open spec fn marker_unit_value(u: u16) -> bool {
    u == 0x28 || u == 0x29 || u == 0x3B
}

/// Whether `out` reads, in UTF-16 units, as `src` with some units blanked
/// and some overwritten by a marker: just as many units, each kept,
/// blanked or a marker.
pub open spec fn units_kept_blanked_or_marked(out: Seq<char>, src: Seq<char>) -> bool {
    &&& encode_utf16(out).len() == encode_utf16(src).len()
    &&& forall|k: int|
        0 <= k < encode_utf16(src).len() ==> #[trigger] encode_utf16(out)[k] == encode_utf16(src)[k]
            || encode_utf16(out)[k] == blank_unit(encode_utf16(src)[k]) || marker_unit_value(
            encode_utf16(out)[k],
        )
}

proof fn lemma_ukbm_from_ukb(o: Seq<char>, c: Seq<char>)
    requires
        units_kept_or_blanked(o, c),
    ensures
        units_kept_blanked_or_marked(o, c),
{
}

proof fn lemma_ukbm_concat(o1: Seq<char>, c1: Seq<char>, o2: Seq<char>, c2: Seq<char>)
    requires
        units_kept_blanked_or_marked(o1, c1),
        units_kept_blanked_or_marked(o2, c2),
    ensures
        units_kept_blanked_or_marked(o1 + o2, c1 + c2),
{
    crate::unicode::lemma_encode_utf16_concat(o1, o2);
    crate::unicode::lemma_encode_utf16_concat(c1, c2);
    let out = encode_utf16(o1 + o2);
    let src = encode_utf16(c1 + c2);
    let n1 = encode_utf16(c1).len() as int;
    assert forall|k: int| 0 <= k < src.len() implies #[trigger] out[k] == src[k] || out[k]
        == blank_unit(src[k]) || marker_unit_value(out[k]) by {
        if k < n1 {
            assert(out[k] == encode_utf16(o1)[k]);
            assert(src[k] == encode_utf16(c1)[k]);
        } else {
            assert(out[k] == encode_utf16(o2)[k - n1]);
            assert(src[k] == encode_utf16(c2)[k - n1]);
        }
    }
}

/// A marker over one ASCII character.
proof fn lemma_ukbm_marker(flags: u8, c: char)
    requires
        is_marker(flags),
        (c as u32) < 0x80,
    ensures
        units_kept_blanked_or_marked(decode_utf8(seq![marker_byte(flags)]), seq![c]),
        vstd::utf8::valid_utf8(seq![marker_byte(flags)]),
{
    crate::build_paths::lemma_marker_units_pub(flags);
    lemma_encode_utf16_push(Seq::<char>::empty(), c);
    assert(seq![c] =~= Seq::<char>::empty().push(c));
    assert(encode_utf16(Seq::<char>::empty()) =~= Seq::<u16>::empty());
    assert(encode_utf16(seq![c]).len() == 1);
}

/// The first `n` in-order blanks and markers (none reversed, no marker
/// empty) leave output that reads as the input up to the last one's end,
/// units kept, blanked or a marker.
#[verifier::rlimit(40)]
#[verifier::spinoff_prover]
proof fn lemma_in_order_prefix_utf8(
    bytes: Seq<u8>,
    edits: Seq<(u8, u32, u32, u32)>,
    texts: Seq<Seq<u16>>,
    n: nat,
)
    requires
        valid_utf8(bytes),
        edits_on_boundaries(bytes, edits, texts),
        blanks_in_order(edits),
        forall|i: int| 0 <= i < edits.len() ==> (#[trigger] edits[i]).1 <= edits[i].2,
        forall|i: int| 0 <= i < edits.len() && is_marker((#[trigger] edits[i]).0) ==> edits[i].1 < edits[i].2,
        n <= edits.len(),
    ensures
        edits_prefix(bytes, edits, texts, n).1 == prev_end(edits, n as int),
        units_kept_blanked_or_marked(
            decode_utf8(edits_prefix(bytes, edits, texts, n).0),
            decode_utf8(bytes.subrange(0, edits_prefix(bytes, edits, texts, n).1)),
        ),
    decreases n,
{
    lemma_edits_prefix_valid(bytes, edits, texts, n);
    is_char_boundary_start_end_of_seq(bytes);
    if n == 0 {
        assert(bytes.subrange(0, 0) =~= Seq::<u8>::empty());
        decode_utf8_encode_utf8(Seq::<u8>::empty());
        assert(decode_utf8(Seq::<u8>::empty()) =~= Seq::<char>::empty()) by {
            vstd::utf8::encode_utf8_decode_utf8(Seq::<char>::empty());
            assert(encode_utf8(Seq::<char>::empty()) =~= Seq::<u8>::empty());
        }
        lemma_ukb_same(Seq::<char>::empty());
        lemma_ukbm_from_ukb(Seq::<char>::empty(), Seq::<char>::empty());
    } else {
        let i = n - 1;
        lemma_in_order_prefix_utf8(bytes, edits, texts, i as nat);
        lemma_edits_prefix_valid(bytes, edits, texts, i as nat);
        let state = edits_prefix(bytes, edits, texts, i as nat);
        let e = edits[i];
        let prev = state.1;
        assert(e.0 != REPLACE_WITH_TEXT && e.1 >= prev_end(edits, i));
        assert(unit_clip(edits, i) == e.1);
        let from = e.1 as int;
        let to = e.2 as int;
        let gap = bytes.subrange(prev, from);
        lemma_valid_subrange(bytes, 0, prev);
        lemma_valid_subrange(bytes, prev, from);
        lemma_valid_subrange(bytes, 0, from);
        lemma_valid_subrange(bytes, 0, to);
        lemma_valid_concat(state.0, gap);
        lemma_decode_concat(state.0, gap);
        lemma_valid_concat(bytes.subrange(0, prev), gap);
        lemma_decode_concat(bytes.subrange(0, prev), gap);
        assert(bytes.subrange(0, from) =~= bytes.subrange(0, prev) + gap);
        lemma_ukb_same(decode_utf8(gap));
        lemma_ukbm_from_ukb(decode_utf8(gap), decode_utf8(gap));
        lemma_ukbm_concat(
            decode_utf8(state.0),
            decode_utf8(bytes.subrange(0, prev)),
            decode_utf8(gap),
            decode_utf8(gap),
        );
        let copied = state.0 + gap;
        // the written part over [from, to) against the input's run there
        let head = if is_marker(e.0) { from + 1 } else { from };
        if is_marker(e.0) {
            assert(clipped_start(bytes, edits, texts, i) == from);
            assert(bytes[from] < 0x80);
            if from + 1 < bytes.len() {
                lemma_ascii_next_boundary(bytes, from);
            } else {
                assert(from + 1 == bytes.len());
            }
            lemma_valid_subrange(bytes, from, from + 1);
            let one = bytes.subrange(from, from + 1);
            let c = (bytes[from] as u32) as char;
            assert(encode_utf8(seq![c]) =~= one) by {
                let v = bytes[from] as u32;
                assert((v & 0x7F) as u8 == v as u8) by (bit_vector)
                    requires
                        v <= 0x7F,
                ;
                assert(seq![c].drop_first() =~= Seq::<char>::empty());
                assert(encode_utf8(Seq::<char>::empty()) =~= Seq::<u8>::empty());
            }
            vstd::utf8::encode_utf8_decode_utf8(seq![c]);
            lemma_ukbm_marker(e.0, c);
            let mark = seq![marker_byte(e.0)];
            lemma_valid_concat(copied, mark);
            lemma_decode_concat(copied, mark);
            lemma_valid_concat(bytes.subrange(0, from), one);
            lemma_decode_concat(bytes.subrange(0, from), one);
            assert(bytes.subrange(0, from + 1) =~= bytes.subrange(0, from) + one);
            lemma_ukbm_concat(
                decode_utf8(copied),
                decode_utf8(bytes.subrange(0, from)),
                decode_utf8(mark),
                decode_utf8(one),
            );
        }
        let run = bytes.subrange(head, to);
        lemma_valid_subrange(bytes, 0, head);
        lemma_valid_subrange(bytes, head, to);
        let blanked = blank_bytes(run);
        decode_utf8_encode_utf8(run);
        lemma_blanked_run_keeps_positions(decode_utf8(run));
        vstd::utf8::encode_utf8_decode_utf8(blank_chars(decode_utf8(run)));
        encode_utf8_valid_utf8(blank_chars(decode_utf8(run)));
        assert(blanked_span(bytes, head, to) == blanked) by {
            if head == to {
                assert(run =~= Seq::<u8>::empty());
                assert(blank_bytes(run) =~= Seq::<u8>::empty());
            }
        }
        let written = if is_marker(e.0) { copied + seq![marker_byte(e.0)] } else { copied };
        lemma_valid_concat(written, blanked);
        lemma_decode_concat(written, blanked);
        assert(edits_prefix(bytes, edits, texts, n).0 == written + blanked);
        lemma_valid_concat(bytes.subrange(0, head), run);
        lemma_decode_concat(bytes.subrange(0, head), run);
        assert(bytes.subrange(0, to) =~= bytes.subrange(0, head) + run);
        lemma_ukb_blank(decode_utf8(run));
        lemma_ukbm_from_ukb(blank_chars(decode_utf8(run)), decode_utf8(run));
        lemma_ukbm_concat(
            decode_utf8(written),
            decode_utf8(bytes.subrange(0, head)),
            blank_chars(decode_utf8(run)),
            decode_utf8(run),
        );
    }
}

/// After an ASCII byte at a character boundary, the next offset is a
/// character boundary too.
proof fn lemma_ascii_next_boundary(bytes: Seq<u8>, at: int)
    requires
        valid_utf8(bytes),
        0 <= at,
        at + 1 < bytes.len(),
        is_char_boundary(bytes, at),
        bytes[at] < 0x80,
    ensures
        is_char_boundary(bytes, at + 1),
{
    vstd::utf8::valid_utf8_split(bytes, at);
    let tail = bytes.subrange(at, bytes.len() as int);
    assert(tail[0] == bytes[at]);
    assert(vstd::utf8::length_of_first_scalar(tail) == 1);
    assert(is_char_boundary(tail, 1)) by {
        reveal_with_fuel(is_char_boundary, 2);
        is_char_boundary_start_end_of_seq(vstd::utf8::pop_first_scalar(tail));
    }
    is_char_boundary_iff_not_is_continuation_byte(tail, 1);
    assert(tail[1] == bytes[at + 1]);
    is_char_boundary_iff_not_is_continuation_byte(bytes, at + 1);
}

/// Blanking and marking keep every position on the UTF-8 path: with
/// in-order blanks and markers and no text splice (none reversed, every
/// marker over a nonempty range), the edited text has exactly as many
/// UTF-16 units as the input, each kept, blanked or a marker.
pub proof fn lemma_edits_keep_positions_utf8(
    text: Seq<char>,
    edits: Seq<(u8, u32, u32, u32)>,
    texts: Seq<Seq<u16>>,
)
    requires
        edits_on_boundaries(encode_utf8(text), edits, texts),
        blanks_in_order(edits),
        forall|i: int| 0 <= i < edits.len() ==> (#[trigger] edits[i]).1 <= edits[i].2,
        forall|i: int| 0 <= i < edits.len() && is_marker((#[trigger] edits[i]).0) ==> edits[i].1 < edits[i].2,
    ensures
        units_kept_blanked_or_marked(decode_utf8(edited_bytes(encode_utf8(text), edits, texts)), text),
{
    let bytes = encode_utf8(text);
    encode_utf8_valid_utf8(text);
    lemma_in_order_prefix_utf8(bytes, edits, texts, edits.len());
    lemma_edits_prefix_valid(bytes, edits, texts, edits.len());
    is_char_boundary_start_end_of_seq(bytes);
    let state = edits_prefix(bytes, edits, texts, edits.len());
    let rest = bytes.subrange(state.1, bytes.len() as int);
    lemma_valid_subrange(bytes, 0, state.1);
    lemma_valid_subrange(bytes, state.1, bytes.len() as int);
    lemma_decode_concat(state.0, rest);
    lemma_decode_concat(bytes.subrange(0, state.1), rest);
    assert(bytes.subrange(0, state.1) + rest =~= bytes);
    vstd::utf8::encode_utf8_decode_utf8(text);
    lemma_ukb_same(decode_utf8(rest));
    lemma_ukbm_from_ukb(decode_utf8(rest), decode_utf8(rest));
    lemma_ukbm_concat(
        decode_utf8(state.0),
        decode_utf8(bytes.subrange(0, state.1)),
        decode_utf8(rest),
        decode_utf8(rest),
    );
}

} // verus!
