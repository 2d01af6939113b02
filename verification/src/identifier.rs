//! The parser's own identifier character classes, so key validation never
//! disagrees with what the parser accepts as an identifier.

use vstd::prelude::*;

verus! {

/// What `oxc_syntax::identifier::is_identifier_start` answers for `c`.
pub uninterp spec fn identifier_start(c: char) -> bool;

/// What `oxc_syntax::identifier::is_identifier_part` answers for `c`.
pub uninterp spec fn identifier_part(c: char) -> bool;

/// The ASCII identifier-start class: letters, `$` and `_`.
pub open spec fn ascii_identifier_start(c: char) -> bool {
    let v = c as u32;
    (0x61 <= v <= 0x7A) || (0x41 <= v <= 0x5A) || v == 0x24 || v == 0x5F
}

/// The ASCII identifier-part class: the start class plus the digits.
pub open spec fn ascii_identifier_part(c: char) -> bool {
    ascii_identifier_start(c) || (0x30 <= (c as u32) <= 0x39)
}

/// `oxc_syntax::identifier::is_identifier_start`: an ASCII character is
/// judged by the crate's flag table (letters, `$`, `_`), any other by the
/// Unicode `ID_Start` table. Claimed here: the ASCII answer exactly; the
/// Unicode answer only as the named result [`identifier_start`].
#[verifier::external_body]
pub(crate) fn is_identifier_start(c: char) -> (r: bool)
    ensures
        r == identifier_start(c),
        (c as u32) < 0x80 ==> (r == ascii_identifier_start(c)),
{
    oxc_syntax::identifier::is_identifier_start(c)
}

/// `oxc_syntax::identifier::is_identifier_part`: an ASCII character is
/// judged by the crate's flag table (letters, digits, `$`, `_`), any other
/// by the Unicode `ID_Continue` table plus ZWNJ and ZWJ. Claimed here: the
/// ASCII answer exactly and that both joiners are accepted; the rest of the
/// Unicode answer only as the named result [`identifier_part`].
#[verifier::external_body]
pub(crate) fn is_identifier_part(c: char) -> (r: bool)
    ensures
        r == identifier_part(c),
        (c as u32) < 0x80 ==> (r == ascii_identifier_part(c)),
        (c as u32) == 0x200C || (c as u32) == 0x200D ==> r,
{
    oxc_syntax::identifier::is_identifier_part(c)
}

} // verus!
