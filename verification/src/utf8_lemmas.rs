//! Facts about UTF-8 byte sequences used by the edit builders.

use vstd::prelude::*;
use vstd::utf8::{
    is_char_boundary, is_char_boundary_iff_not_is_continuation_byte,
    is_char_boundary_start_end_of_seq, is_continuation_byte, partial_valid_utf8,
    partial_valid_utf8_extend_ascii_block, valid_utf8, valid_utf8_concat, valid_utf8_split,
};

verus! {

/// Whether every byte is ASCII.
pub open spec fn all_ascii(b: Seq<u8>) -> bool {
    forall|i: int| 0 <= i < b.len() ==> #[trigger] b[i] < 0x80
}

/// An all-ASCII byte sequence is well-formed UTF-8.
pub proof fn lemma_ascii_valid(b: Seq<u8>)
    requires
        all_ascii(b),
    ensures
        valid_utf8(b),
{
    assert(b.subrange(0, 0) =~= Seq::<u8>::empty());
    assert(partial_valid_utf8(b, 0));
    partial_valid_utf8_extend_ascii_block(b, 0, b.len() as int);
    assert(b.subrange(0, b.len() as int) =~= b);
}

/// The bytes between two character boundaries of well-formed UTF-8 are
/// themselves well-formed UTF-8.
pub proof fn lemma_valid_subrange(bytes: Seq<u8>, a: int, b: int)
    requires
        valid_utf8(bytes),
        0 <= a <= b <= bytes.len(),
        is_char_boundary(bytes, a),
        is_char_boundary(bytes, b),
    ensures
        valid_utf8(bytes.subrange(a, b)),
{
    valid_utf8_split(bytes, a);
    let tail = bytes.subrange(a, bytes.len() as int);
    let k = b - a;
    if b == bytes.len() {
        is_char_boundary_start_end_of_seq(tail);
        assert(tail.subrange(0, k) =~= tail);
    } else {
        is_char_boundary_iff_not_is_continuation_byte(bytes, b);
        assert(tail[k] == bytes[b]);
        is_char_boundary_iff_not_is_continuation_byte(tail, k);
    }
    assert(is_char_boundary(tail, k));
    valid_utf8_split(tail, k);
    assert(tail.subrange(0, k) =~= bytes.subrange(a, b));
}

/// Concatenating well-formed UTF-8 keeps it well-formed.
pub proof fn lemma_valid_concat(a: Seq<u8>, b: Seq<u8>)
    requires
        valid_utf8(a),
        valid_utf8(b),
    ensures
        valid_utf8(a + b),
{
    valid_utf8_concat(a, b);
}

} // verus!
