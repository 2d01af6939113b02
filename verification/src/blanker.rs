//! The erasure driver's state: the edit list being built, whether the last
//! emitted JavaScript still needs a `;`, and the reports of unsupported
//! constructs kept verbatim.

use vstd::prelude::*;

use crate::blank_string::{BlankString, NO_TEXT, REPLACE_WITH_BLANK, REPLACE_WITH_SEMI};

verus! {

/// A TypeScript-only construct with runtime semantics; positions are byte
/// offsets.
pub struct UnsupportedSyntax {
    pub node_type: String,
    pub start: u32,
    pub end: u32,
}

/// The erasure state threaded through the walk.
pub struct Blanker {
    pub output: BlankString,
    /// True while the previously emitted JS did not end with a `;`.
    pub semicolon_needed: bool,
    pub reports: Vec<UnsupportedSyntax>,
}

impl Blanker {
    /// Whether the edit list is well formed.
    pub open spec fn well_formed(&self) -> bool {
        self.output.well_formed()
    }

    /// A fresh state: no edits, no reports, no `;` owed.
    pub fn new() -> (b: Self)
        ensures
            b.well_formed(),
            b.output.edits() == Seq::<(u8, u32, u32, u32)>::empty(),
            b.output.texts() == Seq::<Seq<u16>>::empty(),
            !b.semicolon_needed,
            b.reports@.len() == 0,
    {
        Blanker { output: BlankString::new(), semicolon_needed: false, reports: Vec::new() }
    }

    /// Report an unsupported construct; its source stays in the output.
    pub fn report(&mut self, node_type: &str, start: u32, end: u32)
        ensures
            final(self).output == old(self).output,
            final(self).semicolon_needed == old(self).semicolon_needed,
            final(self).reports@.len() == old(self).reports@.len() + 1,
            forall|i: int|
                0 <= i < old(self).reports@.len() ==> final(self).reports@[i] == old(self).reports@[i],
            final(self).reports@.last().node_type@ == node_type@,
            final(self).reports@.last().start == start,
            final(self).reports@.last().end == end,
    {
        self.reports.push(UnsupportedSyntax { node_type: node_type.to_owned(), start, end });
    }

    /// Blank `[start, end)`.
    pub fn blank_range(&mut self, start: u32, end: u32)
        requires
            old(self).well_formed(),
        ensures
            final(self).well_formed(),
            final(self).output.texts() == old(self).output.texts(),
            final(self).output.edits() == old(self).output.edits().push(
                (REPLACE_WITH_BLANK, start, end, NO_TEXT),
            ),
            final(self).semicolon_needed == old(self).semicolon_needed,
            final(self).reports == old(self).reports,
    {
        self.output.blank(start, end);
    }

    /// Blank a node's span `[start, end)`.
    pub fn blank_span(&mut self, span: (u32, u32))
        requires
            old(self).well_formed(),
        ensures
            final(self).well_formed(),
            final(self).output.texts() == old(self).output.texts(),
            final(self).output.edits() == old(self).output.edits().push(
                (REPLACE_WITH_BLANK, span.0, span.1, NO_TEXT),
            ),
            final(self).semicolon_needed == old(self).semicolon_needed,
            final(self).reports == old(self).reports,
    {
        self.output.blank(span.0, span.1);
    }

    /// Blank a type annotation; the annotation's span includes its leading
    /// `:`.
    pub fn blank_type_annotation(&mut self, span: (u32, u32))
        requires
            old(self).well_formed(),
        ensures
            final(self).well_formed(),
            final(self).output.texts() == old(self).output.texts(),
            final(self).output.edits() == old(self).output.edits().push(
                (REPLACE_WITH_BLANK, span.0, span.1, NO_TEXT),
            ),
            final(self).semicolon_needed == old(self).semicolon_needed,
            final(self).reports == old(self).reports,
    {
        self.output.blank(span.0, span.1);
    }

    /// Blank a statement-like node being fully erased, emitting a leading
    /// `;` when the previous emitted JS lacks one, so a following statement
    /// cannot merge into it (ASI protection).
    pub fn blank_statement(&mut self, start: u32, end: u32)
        requires
            old(self).well_formed(),
        ensures
            final(self).well_formed(),
            final(self).output.texts() == old(self).output.texts(),
            final(self).output.edits() == old(self).output.edits().push(
                (
                    if old(self).semicolon_needed {
                        REPLACE_WITH_SEMI
                    } else {
                        REPLACE_WITH_BLANK
                    },
                    start,
                    end,
                    NO_TEXT,
                ),
            ),
            final(self).semicolon_needed == old(self).semicolon_needed,
            final(self).reports == old(self).reports,
    {
        if self.semicolon_needed {
            self.output.blank_but_start_with_semi(start, end);
        } else {
            self.output.blank(start, end);
        }
    }

    /// Blank `[start, end)` plus the token that follows when it is a comma;
    /// `next_comma_end` is where that comma ends, if the next token is one.
    pub fn blank_exact_and_optional_trailing_comma(
        &mut self,
        start: u32,
        end: u32,
        next_comma_end: Option<u32>,
    )
        requires
            old(self).well_formed(),
        ensures
            final(self).well_formed(),
            final(self).output.texts() == old(self).output.texts(),
            final(self).output.edits() == old(self).output.edits().push(
                (
                    REPLACE_WITH_BLANK,
                    start,
                    match next_comma_end {
                        Some(e) => e,
                        None => end,
                    },
                    NO_TEXT,
                ),
            ),
            final(self).semicolon_needed == old(self).semicolon_needed,
            final(self).reports == old(self).reports,
    {
        let stop = match next_comma_end {
            Some(e) => e,
            None => end,
        };
        self.output.blank(start, stop);
    }

    /// Blank the marker token found before an anchor (`?`, `!`), if any.
    pub fn blank_marker_char(&mut self, marker: Option<(u32, u32)>)
        requires
            old(self).well_formed(),
        ensures
            final(self).well_formed(),
            final(self).output.texts() == old(self).output.texts(),
            final(self).output.edits() == match marker {
                Some((s, e)) => old(self).output.edits().push((REPLACE_WITH_BLANK, s, e, NO_TEXT)),
                None => old(self).output.edits(),
            },
            final(self).semicolon_needed == old(self).semicolon_needed,
            final(self).reports == old(self).reports,
    {
        if let Some((s, e)) = marker {
            self.output.blank(s, e);
        }
    }
}

} // verus!
