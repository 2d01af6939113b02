//! Character-level helpers shared by the text passes: a string's characters
//! with their UTF-8 offsets, code-point order over character sequences, and
//! sorting a collection of keys into a set.

use vstd::prelude::*;
use vstd::utf8::{encode_scalar, encode_utf8};

verus! {

/// Appending a character appends its UTF-8 encoding.
pub proof fn lemma_encode_utf8_push(cs: Seq<char>, c: char)
    ensures
        encode_utf8(cs.push(c)) == encode_utf8(cs) + encode_scalar(c as u32),
    decreases cs.len(),
{
    if cs.len() == 0 {
        assert(cs.push(c).drop_first() =~= Seq::<char>::empty());
        assert(encode_utf8(cs.push(c)) =~= encode_scalar(c as u32) + encode_utf8(
            Seq::<char>::empty(),
        ));
        assert(encode_utf8(cs) =~= Seq::<u8>::empty());
    } else {
        lemma_encode_utf8_push(cs.drop_first(), c);
        assert(cs.push(c).drop_first() =~= cs.drop_first().push(c));
        assert(encode_utf8(cs.push(c)) =~= encode_utf8(cs) + encode_scalar(c as u32));
    }
}

/// Encoding distributes over concatenation.
pub proof fn lemma_encode_utf8_concat(a: Seq<char>, b: Seq<char>)
    ensures
        encode_utf8(a + b) == encode_utf8(a) + encode_utf8(b),
    decreases b.len(),
{
    if b.len() == 0 {
        assert(a + b =~= a);
        assert(encode_utf8(b) =~= Seq::<u8>::empty());
        assert(encode_utf8(a) + encode_utf8(b) =~= encode_utf8(a));
    } else {
        let init = b.drop_last();
        let c = b.last();
        lemma_encode_utf8_concat(a, init);
        assert(a + b =~= (a + init).push(c));
        assert(b =~= init.push(c));
        lemma_encode_utf8_push(a + init, c);
        lemma_encode_utf8_push(init, c);
        assert(encode_utf8(a + b) =~= encode_utf8(a) + encode_utf8(b));
    }
}

/// The UTF-8 width of one character.
pub fn char_utf8_width(c: char) -> (w: usize)
    ensures
        w == encode_scalar(c as u32).len(),
        1 <= w <= 4,
{
    proof {
        vstd::utf8::char_is_scalar(c);
    }
    let v = c as u32;
    if v < 0x80 {
        1
    } else if v < 0x800 {
        2
    } else if v < 0x10000 {
        3
    } else {
        4
    }
}

/// The characters of `s`, with the UTF-8 offset of each character and of
/// the end.
pub fn chars_with_offsets(s: &str) -> (r: (Vec<char>, Vec<usize>))
    ensures
        r.0@ == s@,
        r.1@.len() == s@.len() + 1,
        forall|i: int| 0 <= i <= s@.len() ==> #[trigger] r.1@[i] == encode_utf8(s@.take(i)).len(),
{
    let total = s.as_bytes().len();
    let ghost chars = s@;
    let mut out: Vec<char> = Vec::new();
    let mut offsets: Vec<usize> = Vec::new();
    let mut offset: usize = 0;
    proof {
        assert(chars.take(0) =~= Seq::<char>::empty());
    }
    offsets.push(0);
    for c in it: s.chars()
        invariant
            it.seq() == chars,
            total == encode_utf8(chars).len(),
            out@ == chars.take(it.index() as int),
            offsets@.len() == it.index() + 1,
            offset == encode_utf8(chars.take(it.index() as int)).len(),
            forall|i: int|
                0 <= i <= it.index() ==> #[trigger] offsets@[i] == encode_utf8(chars.take(i)).len(),
    {
        let ghost i = it.index() as int;
        let w = char_utf8_width(c);
        proof {
            assert(chars.take(i + 1) =~= chars.take(i).push(c));
            lemma_encode_utf8_push(chars.take(i), c);
            assert(chars =~= chars.take(i + 1) + chars.skip(i + 1));
            lemma_encode_utf8_concat(chars.take(i + 1), chars.skip(i + 1));
        }
        offset = offset + w;
        out.push(c);
        offsets.push(offset);
    }
    proof {
        assert(chars.take(chars.len() as int) =~= chars);
    }
    (out, offsets)
}

/// Code-point order over character sequences — the order of their UTF-8
/// encodings, compared bytewise.
pub open spec fn chars_lt(a: Seq<char>, b: Seq<char>) -> bool
    decreases a.len(),
{
    if a.len() == 0 {
        b.len() > 0
    } else if b.len() == 0 {
        false
    } else if a[0] != b[0] {
        (a[0] as u32) < (b[0] as u32)
    } else {
        chars_lt(a.drop_first(), b.drop_first())
    }
}

/// No sequence precedes itself.
pub proof fn lemma_chars_lt_irreflexive(a: Seq<char>)
    ensures
        !chars_lt(a, a),
    decreases a.len(),
{
    if a.len() > 0 {
        lemma_chars_lt_irreflexive(a.drop_first());
    }
}

/// The order is transitive.
pub proof fn lemma_chars_lt_transitive(a: Seq<char>, b: Seq<char>, c: Seq<char>)
    requires
        chars_lt(a, b),
        chars_lt(b, c),
    ensures
        chars_lt(a, c),
    decreases a.len(),
{
    if a.len() > 0 && b.len() > 0 && c.len() > 0 && a[0] == b[0] && b[0] == c[0] {
        lemma_chars_lt_transitive(a.drop_first(), b.drop_first(), c.drop_first());
    }
}

/// Of two different sequences, one precedes the other.
pub proof fn lemma_chars_lt_total(a: Seq<char>, b: Seq<char>)
    requires
        a != b,
    ensures
        chars_lt(a, b) || chars_lt(b, a),
    decreases a.len(),
{
    if a.len() > 0 && b.len() > 0 && a[0] == b[0] {
        if a.drop_first() == b.drop_first() {
            assert(a =~= seq![a[0]] + a.drop_first());
            assert(b =~= seq![b[0]] + b.drop_first());
        }
        lemma_chars_lt_total(a.drop_first(), b.drop_first());
    } else if a.len() > 0 && b.len() > 0 {
        vstd::utf8::char_u32_cast(a[0], a[0] as u32);
        vstd::utf8::char_u32_cast(b[0], b[0] as u32);
        assert((a[0] as u32) != (b[0] as u32));
    } else if a.len() == 0 && b.len() == 0 {
        assert(a =~= b);
    }
}

/// Whether `a` precedes `b` in code-point order.
pub fn seq_lt(a: &[char], b: &[char]) -> (r: bool)
    ensures
        r == chars_lt(a@, b@),
{
    let mut i: usize = 0;
    proof {
        assert(a@.skip(0) =~= a@);
        assert(b@.skip(0) =~= b@);
    }
    while i < a.len() && i < b.len()
        invariant
            i <= a@.len(),
            i <= b@.len(),
            chars_lt(a@, b@) == chars_lt(a@.skip(i as int), b@.skip(i as int)),
        decreases a@.len() - i,
    {
        if a[i] != b[i] {
            return (a[i] as u32) < (b[i] as u32);
        }
        proof {
            assert(a@.skip(i as int).drop_first() =~= a@.skip(i + 1));
            assert(b@.skip(i as int).drop_first() =~= b@.skip(i + 1));
        }
        i += 1;
    }
    i < b.len()
}

/// Whether two character sequences are equal.
pub fn seq_eq(a: &[char], b: &[char]) -> (r: bool)
    ensures
        r == (a@ == b@),
{
    if a.len() != b.len() {
        return false;
    }
    let mut i: usize = 0;
    while i < a.len()
        invariant
            i <= a@.len(),
            a@.len() == b@.len(),
            a@.take(i as int) == b@.take(i as int),
        decreases a@.len() - i,
    {
        if a[i] != b[i] {
            return false;
        }
        proof {
            assert(a@.take(i + 1) =~= a@.take(i as int).push(a[i as int]));
            assert(b@.take(i + 1) =~= b@.take(i as int).push(b[i as int]));
        }
        i += 1;
    }
    proof {
        assert(a@ =~= a@.take(i as int));
        assert(b@ =~= b@.take(i as int));
    }
    true
}

/// The character sequences held by a list of character vectors.
pub open spec fn views(list: Seq<Vec<char>>) -> Seq<Seq<char>> {
    list.map_values(|v: Vec<char>| v@)
}

/// Whether a list of sequences is strictly increasing in code-point order.
pub open spec fn strictly_sorted(list: Seq<Seq<char>>) -> bool {
    forall|i: int, j: int| 0 <= i < j < list.len() ==> chars_lt(#[trigger] list[i], #[trigger] list[j])
}

/// Insert `item` into the strictly increasing `list`, unless it is there.
fn insert_sorted(list: &mut Vec<Vec<char>>, item: Vec<char>)
    requires
        strictly_sorted(views(old(list)@)),
    ensures
        strictly_sorted(views(final(list)@)),
        forall|x: Seq<char>|
            views(final(list)@).contains(x) <==> (views(old(list)@).contains(x) || x == item@),
        final(list)@.len() <= old(list)@.len() + 1,
{
    let ghost old_list = views(list@);
    let mut p: usize = 0;
    while p < list.len()
        invariant_except_break
            forall|k: int| 0 <= k < p ==> chars_lt(#[trigger] old_list[k], item@),
        invariant
            p <= old_list.len(),
            views(list@) == old_list,
            list@.len() == old_list.len(),
            strictly_sorted(old_list),
        ensures
            p <= old_list.len(),
            forall|k: int| 0 <= k < p ==> chars_lt(#[trigger] old_list[k], item@),
            p < old_list.len() ==> !chars_lt(old_list[p as int], item@),
        decreases old_list.len() - p,
    {
        assert(old_list[p as int] == list@[p as int]@);
        if !seq_lt(list[p].as_slice(), item.as_slice()) {
            break;
        }
        p += 1;
    }
    if p < list.len() {
        assert(old_list[p as int] == list@[p as int]@);
        if seq_eq(list[p].as_slice(), item.as_slice()) {
            proof {
                assert forall|x: Seq<char>|
                    views(list@).contains(x) <==> (old_list.contains(x) || x == item@) by {
                    if x == item@ {
                        assert(old_list[p as int] == x);
                    }
                }
            }
            return;
        }
    }
    let ghost item_view = item@;
    proof {
        assert forall|k: int| p <= k < old_list.len() implies chars_lt(
            item_view,
            #[trigger] old_list[k],
        ) by {
            let at_p = old_list[p as int];
            if at_p != item_view {
                lemma_chars_lt_total(at_p, item_view);
            }
            if k > p {
                lemma_chars_lt_transitive(item_view, at_p, old_list[k]);
            }
        }
    }
    list.insert(p, item);
    proof {
        let nl = views(list@);
        assert(nl =~= old_list.insert(p as int, item_view));
        assert forall|i: int, j: int| 0 <= i < j < nl.len() implies chars_lt(
            #[trigger] nl[i],
            #[trigger] nl[j],
        ) by {
            if j < p {
                assert(nl[i] == old_list[i] && nl[j] == old_list[j]);
            } else if j == p {
                assert(nl[i] == old_list[i]);
            } else if i < p {
                assert(nl[i] == old_list[i] && nl[j] == old_list[j - 1]);
                lemma_chars_lt_transitive(old_list[i], item_view, old_list[j - 1]);
            } else if i == p {
                assert(nl[j] == old_list[j - 1]);
            } else {
                assert(nl[i] == old_list[i - 1] && nl[j] == old_list[j - 1]);
            }
        }
        assert forall|x: Seq<char>| nl.contains(x) <==> (old_list.contains(x) || x == item_view) by {
            if old_list.contains(x) {
                let k = choose|k: int| 0 <= k < old_list.len() && old_list[k] == x;
                if k < p {
                    assert(nl[k] == x);
                } else {
                    assert(nl[k + 1] == x);
                }
            }
            if x == item_view {
                assert(nl[p as int] == x);
            }
            if nl.contains(x) {
                let k = choose|k: int| 0 <= k < nl.len() && nl[k] == x;
                if k < p {
                    assert(old_list[k] == x);
                } else if k > p {
                    assert(old_list[k - 1] == x);
                }
            }
        }
    }
}

/// The distinct sequences among `items`, in strictly increasing code-point
/// order.
pub fn sorted_set(items: Vec<Vec<char>>) -> (out: Vec<Vec<char>>)
    ensures
        strictly_sorted(views(out@)),
        forall|x: Seq<char>| views(out@).contains(x) <==> views(items@).contains(x),
        out@.len() <= items@.len(),
{
    let mut out: Vec<Vec<char>> = Vec::new();
    let ghost all = views(items@);
    for item in it: items
        invariant
            it.seq() == items@,
            all == views(items@),
            strictly_sorted(views(out@)),
            out@.len() <= it.index(),
            forall|x: Seq<char>|
                views(out@).contains(x) <==> views(items@.take(it.index() as int)).contains(x),
    {
        let ghost i = it.index() as int;
        let ghost before = views(out@);
        proof {
            assert(views(out@) =~= views(out@));
        }
        insert_sorted(&mut out, item);
        proof {
            let taken = views(items@.take(i + 1));
            assert(taken =~= views(items@.take(i)).push(items@[i]@));
            assert forall|x: Seq<char>| views(out@).contains(x) <==> taken.contains(x) by {
                if x == items@[i]@ {
                    assert(taken[i] == x);
                }
                if taken.contains(x) && x != items@[i]@ {
                    let k = choose|k: int| 0 <= k < taken.len() && taken[k] == x;
                    assert(views(items@.take(i))[k] == x);
                }
                if views(items@.take(i)).contains(x) {
                    let k = choose|k: int| 0 <= k < views(items@.take(i)).len() && views(items@.take(i))[k] == x;
                    assert(taken[k] == x);
                }
            }
        }
    }
    proof {
        assert(items@.take(items@.len() as int) =~= items@);
    }
    out
}

/// `String`'s `FromIterator<char>`: per its documentation, collecting
/// characters builds the string of exactly those characters in order.
#[verifier::external_body]
pub(crate) fn string_from_chars(chars: &[char]) -> (s: String)
    ensures
        s@ == chars@,
{
    chars.iter().collect()
}

} // verus!
