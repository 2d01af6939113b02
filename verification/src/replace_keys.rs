//! The `objectGuards` key derivation: which replace keys are member chains,
//! their proper dotted prefixes, and the `typeof prefix` guard keys.

use vstd::prelude::*;

use crate::chars::{seq_eq, sorted_set, strictly_sorted, views};
use crate::identifier::{identifier_part, identifier_start, is_identifier_part, is_identifier_start};

verus! {

/// `typeof ` as characters.
pub open spec fn typeof_prefix() -> Seq<char> {
    seq!['t', 'y', 'p', 'e', 'o', 'f', ' ']
}

/// The guard value: the quoted string literal `"object"`.
pub open spec fn object_literal() -> Seq<char> {
    seq!['"', 'o', 'b', 'j', 'e', 'c', 't', '"']
}

/// Whether the character at `i` is allowed where it stands in a member
/// chain: a dot must close a nonempty segment; a segment's first character
/// must start an identifier and every later one continue it.
pub open spec fn chain_char_ok(key: Seq<char>, i: int) -> bool {
    if key[i] == '.' {
        i > 0 && key[i - 1] != '.'
    } else if i == 0 || key[i - 1] == '.' {
        identifier_start(key[i])
    } else {
        identifier_part(key[i])
    }
}

/// Whether `key` is a legal member chain — at least two dot-separated
/// segments, every segment nonempty and spelled like an identifier.
pub open spec fn is_member_chain(key: Seq<char>) -> bool {
    &&& exists|i: int| 0 <= i < key.len() && key[i] == '.'
    &&& key.last() != '.'
    &&& forall|i: int| 0 <= i < key.len() ==> #[trigger] chain_char_ok(key, i)
}

/// Whether `g` is a guard key derived from `key`: `typeof ` followed by a
/// proper dotted prefix of a member-chain key.
pub open spec fn guard_of(key: Seq<char>, g: Seq<char>) -> bool {
    &&& is_member_chain(key)
    &&& exists|d: int| 0 < d < key.len() && key[d] == '.' && g == typeof_prefix() + key.take(d)
}

/// Whether `g` is derived from any of `keys`.
pub open spec fn derived_guard(keys: Seq<Seq<char>>, g: Seq<char>) -> bool {
    exists|k: Seq<char>| keys.contains(k) && #[trigger] guard_of(k, g)
}

/// Whether `key` is a legal member chain (see [`is_member_chain`]).
pub fn member_chain(key: &[char]) -> (r: bool)
    ensures
        r == is_member_chain(key@),
{
    let mut i: usize = 0;
    let mut dots = false;
    while i < key.len()
        invariant
            i <= key@.len(),
            forall|j: int| 0 <= j < i ==> #[trigger] chain_char_ok(key@, j),
            dots <==> exists|j: int| 0 <= j < i && key@[j] == '.',
        decreases key@.len() - i,
    {
        let c = key[i];
        let ok = if c == '.' {
            i > 0 && key[i - 1] != '.'
        } else if i == 0 || key[i - 1] == '.' {
            is_identifier_start(c)
        } else {
            is_identifier_part(c)
        };
        if !ok {
            assert(!chain_char_ok(key@, i as int));
            return false;
        }
        if c == '.' {
            dots = true;
        }
        i += 1;
    }
    dots && key[key.len() - 1] != '.'
}

/// Every proper dotted prefix of `key`, shortest first (`a.b.c` → `a`,
/// `a.b`).
pub fn dotted_prefixes(key: &[char]) -> (out: Vec<Vec<char>>)
    ensures
        out@.len() <= key@.len(),
        forall|x: Seq<char>|
            views(out@).contains(x) <==> exists|d: int|
                0 < d < key@.len() && key@[d] == '.' && x == key@.take(d),
        forall|k1: int, k2: int|
            0 <= k1 < k2 < out@.len() ==> (#[trigger] out@[k1])@.len() < (#[trigger] out@[k2])@.len(),
{
    let mut out: Vec<Vec<char>> = Vec::new();
    let mut d: usize = 0;
    while d < key.len()
        invariant
            d <= key@.len(),
            out@.len() <= d,
            forall|x: Seq<char>|
                views(out@).contains(x) <==> exists|e: int|
                    0 < e < d && key@[e] == '.' && x == key@.take(e),
            forall|k: int| 0 <= k < out@.len() ==> (#[trigger] out@[k])@.len() < d,
            forall|k1: int, k2: int|
                0 <= k1 < k2 < out@.len() ==> (#[trigger] out@[k1])@.len() < (#[trigger] out@[k2])@.len(),
        decreases key@.len() - d,
    {
        let ghost before = views(out@);
        if d > 0 && key[d] == '.' {
            let prefix = vstd::slice::slice_to_vec(vstd::slice::slice_subrange(key, 0, d));
            proof {
                assert(prefix@ =~= key@.take(d as int));
            }
            out.push(prefix);
            proof {
                assert(views(out@) =~= before.push(key@.take(d as int)));
                assert forall|x: Seq<char>|
                    views(out@).contains(x) <==> exists|e: int|
                        0 < e < d + 1 && key@[e] == '.' && x == key@.take(e) by {
                    if x == key@.take(d as int) {
                        assert(views(out@)[before.len() as int] == x);
                    }
                    if views(out@).contains(x) && x != key@.take(d as int) {
                        let k = choose|k: int| 0 <= k < views(out@).len() && views(out@)[k] == x;
                        assert(before[k] == x);
                    }
                    if before.contains(x) {
                        let k = choose|k: int| 0 <= k < before.len() && before[k] == x;
                        assert(views(out@)[k] == x);
                    }
                }
            }
        } else {
            proof {
                assert forall|x: Seq<char>|
                    views(out@).contains(x) <==> exists|e: int|
                        0 < e < d + 1 && key@[e] == '.' && x == key@.take(e) by {
                    if exists|e: int| 0 < e < d + 1 && key@[e] == '.' && x == key@.take(e) {
                        let e = choose|e: int| 0 < e < d + 1 && key@[e] == '.' && x == key@.take(e);
                        assert(e < d);
                    }
                }
            }
        }
        d += 1;
    }
    out
}

/// `typeof ` followed by `prefix`.
pub fn guard_key(prefix: &[char]) -> (g: Vec<char>)
    ensures
        g@ == typeof_prefix() + prefix@,
{
    let mut g: Vec<char> = vec!['t', 'y', 'p', 'e', 'o', 'f', ' '];
    let mut i: usize = 0;
    while i < prefix.len()
        invariant
            i <= prefix@.len(),
            g@ == typeof_prefix() + prefix@.take(i as int),
        decreases prefix@.len() - i,
    {
        proof {
            assert(prefix@.take(i + 1) =~= prefix@.take(i as int).push(prefix@[i as int]));
        }
        g.push(prefix[i]);
        i += 1;
    }
    proof {
        assert(prefix@.take(i as int) =~= prefix@);
    }
    g
}

/// The guard keys derived from `keys`, deduplicated, in increasing
/// code-point order.
pub fn derive_guards(keys: &Vec<Vec<char>>) -> (out: Vec<Vec<char>>)
    ensures
        strictly_sorted(views(out@)),
        forall|x: Seq<char>| views(out@).contains(x) <==> derived_guard(views(keys@), x),
{
    let mut cands: Vec<Vec<char>> = Vec::new();
    let mut k: usize = 0;
    while k < keys.len()
        invariant
            k <= keys@.len(),
            forall|x: Seq<char>|
                views(cands@).contains(x) <==> derived_guard(views(keys@).take(k as int), x),
        decreases keys@.len() - k,
    {
        let key = keys[k].as_slice();
        let ghost before = views(cands@);
        let ghost kv = key@;
        proof {
            assert(views(keys@).take(k + 1) =~= views(keys@).take(k as int).push(kv));
        }
        if member_chain(key) {
            let prefixes = dotted_prefixes(key);
            let mut p: usize = 0;
            while p < prefixes.len()
                invariant
                    p <= prefixes@.len(),
                    views(cands@) =~= before + Seq::new(
                        p as nat,
                        |q: int| typeof_prefix() + views(prefixes@)[q],
                    ),
                decreases prefixes@.len() - p,
            {
                let ghost mid = views(cands@);
                let g = guard_key(prefixes[p].as_slice());
                cands.push(g);
                proof {
                    assert(views(cands@) =~= mid.push(typeof_prefix() + views(prefixes@)[p as int]));
                    assert(views(cands@) =~= before + Seq::new(
                        (p + 1) as nat,
                        |q: int| typeof_prefix() + views(prefixes@)[q],
                    ));
                }
                p += 1;
            }
            let ghost added = Seq::new(p as nat, |q: int| typeof_prefix() + views(prefixes@)[q]);
            proof {
                let taken = views(keys@).take(k + 1);
                assert forall|x: Seq<char>| views(cands@).contains(x) <==> derived_guard(taken, x) by {
                    if views(cands@).contains(x) && !before.contains(x) {
                        let i = choose|i: int| 0 <= i < views(cands@).len() && views(cands@)[i] == x;
                        let q = i - before.len();
                        assert(added[q] == x);
                        assert(views(prefixes@).contains(views(prefixes@)[q]));
                        let d = choose|d: int| 0 < d < kv.len() && kv[d] == '.' && views(prefixes@)[q] == kv.take(d);
                        assert(guard_of(kv, x));
                        assert(taken[k as int] == kv);
                    }
                    if before.contains(x) {
                        let w = choose|w: Seq<char>| views(keys@).take(k as int).contains(w) && #[trigger] guard_of(w, x);
                        let i = choose|i: int| 0 <= i < k && views(keys@).take(k as int)[i] == w;
                        assert(taken[i] == w);
                        let j = choose|j: int| 0 <= j < before.len() && before[j] == x;
                        assert(views(cands@)[j] == x);
                    }
                    if derived_guard(taken, x) {
                        let w = choose|w: Seq<char>| taken.contains(w) && #[trigger] guard_of(w, x);
                        let i = choose|i: int| 0 <= i < taken.len() && taken[i] == w;
                        if i < k {
                            assert(views(keys@).take(k as int)[i] == w);
                            assert(before.contains(x));
                            let j = choose|j: int| 0 <= j < before.len() && before[j] == x;
                            assert(views(cands@)[j] == x);
                        } else {
                            let d = choose|d: int| 0 < d < w.len() && w[d] == '.' && x == typeof_prefix() + w.take(d);
                            assert(views(prefixes@).contains(w.take(d)));
                            let q = choose|q: int| 0 <= q < views(prefixes@).len() && views(prefixes@)[q] == w.take(d);
                            assert(x == added[q]);
                            assert(views(cands@)[before.len() + q] == x);
                        }
                    }
                }
            }
        } else {
            proof {
                let taken = views(keys@).take(k + 1);
                assert forall|x: Seq<char>| views(cands@).contains(x) <==> derived_guard(taken, x) by {
                    if before.contains(x) {
                        let w = choose|w: Seq<char>| views(keys@).take(k as int).contains(w) && #[trigger] guard_of(w, x);
                        let i = choose|i: int| 0 <= i < k && views(keys@).take(k as int)[i] == w;
                        assert(taken[i] == w);
                    }
                    if derived_guard(taken, x) {
                        let w = choose|w: Seq<char>| taken.contains(w) && #[trigger] guard_of(w, x);
                        let i = choose|i: int| 0 <= i < taken.len() && taken[i] == w;
                        if i < k {
                            assert(views(keys@).take(k as int)[i] == w);
                        }
                    }
                }
            }
        }
        k += 1;
    }
    proof {
        assert(views(keys@).take(k as int) =~= views(keys@));
    }
    sorted_set(cands)
}

/// Whether `x` is one of `list`.
pub fn contains_chars(list: &Vec<Vec<char>>, x: &[char]) -> (r: bool)
    ensures
        r == views(list@).contains(x@),
{
    let mut i: usize = 0;
    while i < list.len()
        invariant
            i <= list@.len(),
            forall|j: int| 0 <= j < i ==> (#[trigger] list@[j])@ != x@,
        decreases list@.len() - i,
    {
        if seq_eq(list[i].as_slice(), x) {
            assert(views(list@)[i as int] == x@);
            return true;
        }
        i += 1;
    }
    proof {
        if views(list@).contains(x@) {
            let j = choose|j: int| 0 <= j < views(list@).len() && views(list@)[j] == x@;
            assert(list@[j]@ == x@);
        }
    }
    false
}

} // verus!
