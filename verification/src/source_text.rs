//! The source a string value is read from: the parse copy, plus the
//! original code units with their byte map on the UTF-16 path.

use vstd::prelude::*;
use vstd::utf8::{decode_utf8, encode_utf8, is_char_boundary};

use crate::literal_text::{decode_units, decoded};
use crate::search::{count_below, lemma_count_below_monotone, strictly_increasing, unit_at};
use crate::unicode::encode_utf16;

verus! {

/// The source decoding context: the parse copy, plus the original code
/// units with their byte map on the UTF-16 path.
#[derive(Clone, Copy)]
pub struct SourceText<'a> {
    pub src: &'a str,
    pub units: Option<&'a [u16]>,
    pub byte_to_unit: Option<&'a [u32]>,
}

impl<'a> SourceText<'a> {
    /// Whether both original units and their byte map are at hand.
    pub open spec fn lossless(&self) -> bool {
        self.units is Some && self.byte_to_unit is Some
    }

    /// Whether `[start, end)` is a span this source can read: inside the
    /// parse copy on the UTF-16 path, between character boundaries of the
    /// text otherwise.
    pub open spec fn span_ok(&self, start: u32, end: u32) -> bool {
        if self.lossless() {
            let map = self.byte_to_unit->0@;
            &&& strictly_increasing(map)
            &&& map.len() == self.units->0@.len() + 1
            &&& start <= end <= map.last()
        } else {
            let bytes = encode_utf8(self.src@);
            &&& start <= end <= bytes.len()
            &&& is_char_boundary(bytes, start as int)
            &&& is_char_boundary(bytes, end as int)
        }
    }

    /// The UTF-16 units a span covers, as this source reads them.
    pub open spec fn span_units(&self, start: u32, end: u32) -> Seq<u16> {
        if self.lossless() {
            let map = self.byte_to_unit->0@;
            self.units->0@.subrange(count_below(map, start), count_below(map, end))
        } else {
            encode_utf16(decode_utf8(encode_utf8(self.src@).subrange(start as int, end as int)))
        }
    }

    /// The UTF-16 units of `[start, end)` — original units on the UTF-16
    /// path (lossless for lone surrogates), parse copy characters otherwise.
    pub fn original_span_units(&self, start: u32, end: u32) -> (r: Vec<u16>)
        requires
            self.span_ok(start, end),
        ensures
            r@ == self.span_units(start, end),
    {
        if let Some(units) = self.units {
            if let Some(map) = self.byte_to_unit {
                let u0 = unit_at(map, start);
                let u1 = unit_at(map, end);
                proof {
                    lemma_count_below_monotone(map@, start, end);
                    lemma_count_below_monotone(map@.drop_last(), end, end);
                    assert(map@.drop_last().len() == units@.len());
                }
                return vstd::slice::slice_to_vec(vstd::slice::slice_subrange(units, u0, u1));
            }
        }
        let bytes = self.src.as_bytes();
        proof {
            vstd::utf8::encode_utf8_valid_utf8(self.src@);
            crate::utf8_lemmas::lemma_valid_subrange(encode_utf8(self.src@), start as int, end as int);
        }
        let sub = vstd::slice::slice_to_vec(
            vstd::slice::slice_subrange(bytes, start as usize, end as usize),
        );
        let text = crate::unicode::string_from_utf8(sub).unwrap();
        crate::unicode::encode_utf16_units(text.as_str())
    }

    /// The decoded value of the string literal spanning `[start, end)`,
    /// quotes included — from the original code units on the UTF-16 path,
    /// where the lossy parse copy would corrupt raw lone surrogates.
    pub fn string_literal_value_units(&self, start: u32, end: u32) -> (r: Vec<u16>)
        requires
            start < end,
            self.span_ok((start + 1) as u32, (end - 1) as u32),
        ensures
            r@ == decoded(self.span_units((start + 1) as u32, (end - 1) as u32), false, 0),
    {
        let inner = self.original_span_units(start + 1, end - 1);
        decode_units(inner.as_slice())
    }
}

} // verus!
