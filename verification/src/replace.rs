//! `@rollup/plugin-replace`-compatible plain-text replacement, run over the
//! raw source before it is parsed. Keys match verbatim — no regex, no scope
//! awareness, hits inside strings/comments/templates included —
//! leftmost-longest, at identifier boundaries; a `.` after the match also
//! kills it, so `typeof window` cannot hit inside `typeof window.document`.
//! Values splice verbatim with no padding. One scan core serves the String
//! path (over the characters, positions in UTF-8 bytes) and the lossless
//! path (over the original UTF-16 units).

use vstd::prelude::*;
use vstd::utf8::encode_utf8;

use crate::haystack::{
    assignment_blocked_at, bucket_of, candidate_end, elem_bucket, elem_units, elems_ok,
    left_bounded_at, match_end, match_end_at, right_bounded_at,
};
use crate::chars::{chars_lt, lemma_chars_lt_irreflexive, lemma_chars_lt_transitive, seq_eq, sorted_set, strictly_sorted, views};
use crate::replace_keys::{contains_chars, derive_guards, derived_guard, guard_of, object_literal, typeof_prefix};
use crate::unicode::encode_utf16;

verus! {

/// The `replaceOptions` flags beyond the key→value map; both default false.
#[derive(Clone, Copy)]
pub struct ReplaceOptions {
    /// Skip matches that look like an assignment (`KEY = x`, `KEY => x`) or
    /// a declaration (`const|let|var KEY`).
    pub prevent_assignment: bool,
    /// Derive `typeof prefix` guard keys for every legal member-chain key;
    /// the guard value is the quoted string literal `"object"`.
    pub object_guards: bool,
}

impl Default for ReplaceOptions {
    fn default() -> (o: Self)
        ensures
            !o.prevent_assignment,
            !o.object_guards,
    {
        ReplaceOptions { prevent_assignment: false, object_guards: false }
    }
}

/// The raw `replace` configuration: the key→value entries (each key at most
/// once) plus the flags.
pub struct ReplaceParams {
    pub entries: Vec<(String, String)>,
    pub prevent_assignment: bool,
    pub object_guards: bool,
}

/// One replacement: the key in both spellings the scan needs, plus the
/// value spliced over the key.
struct ReplaceEntry {
    key: String,
    key_units: Vec<u16>,
    value: String,
}

/// One scanned match: an element span in the haystack's own addressing
/// (UTF-8 bytes on the String path, UTF-16 units on the lossless path) plus
/// the table entry it came from.
#[derive(Clone, Copy, PartialEq, Eq, Debug)]
pub struct ReplaceHit {
    pub start: u32,
    pub end: u32,
    pub entry: usize,
}

/// The lookup table: entries indexed by first-element buckets, each bucket
/// ordered longest-key-first, so the first textual hit in a bucket is the
/// leftmost-longest match.
pub struct Replaces {
    entries: Vec<ReplaceEntry>,
    buckets: Vec<Vec<usize>>,
    prevent_assignment: bool,
}

/// The UTF-8 length of a key — the measure the buckets order by.
pub open spec fn key_len(key: Seq<char>) -> nat {
    encode_utf8(key).len()
}

/// The bucket a key is filed under: its first UTF-16 unit, masked.
pub open spec fn key_bucket(key: Seq<char>) -> int {
    (encode_utf16(key)[0] as int) % 256
}

/// Whether index `i` occurs in `list`.
pub open spec fn listed(list: Seq<usize>, i: int) -> bool {
    exists|k: int| 0 <= k < list.len() && list[k] == i
}

/// Whether the key at `i` is tried before the key at `j`: longer first,
/// then in table order.
pub open spec fn tried_before(keys: Seq<Seq<char>>, i: int, j: int) -> bool {
    key_len(keys[i]) > key_len(keys[j]) || (key_len(keys[i]) == key_len(keys[j]) && i < j)
}

/// Where the key at `i` is a hit at element `at`, if it is.
pub open spec fn hit_end(
    keys: Seq<Seq<char>>,
    hay: Seq<u32>,
    wide: bool,
    prevent: bool,
    at: int,
    i: int,
) -> Option<int> {
    candidate_end(hay, wide, prevent, at, encode_utf16(keys[i]))
}

/// The key that wins at element `at` among the first `n` keys: of the
/// keys that are hits there, the one tried first.
pub open spec fn pick(
    keys: Seq<Seq<char>>,
    hay: Seq<u32>,
    wide: bool,
    prevent: bool,
    at: int,
    n: nat,
) -> Option<int>
    decreases n,
{
    if n == 0 {
        None
    } else {
        let i = n - 1;
        let best = pick(keys, hay, wide, prevent, at, (n - 1) as nat);
        if hit_end(keys, hay, wide, prevent, at, i) is Some && (best is None || tried_before(
            keys,
            i,
            best->0,
        )) {
            Some(i)
        } else {
            best
        }
    }
}

/// The hits of a scan starting at element `at`, as (start, end, key index)
/// in element positions: leftmost first, the winning key at each position,
/// resuming after each hit.
pub open spec fn scan_from(
    keys: Seq<Seq<char>>,
    hay: Seq<u32>,
    wide: bool,
    prevent: bool,
    at: int,
) -> Seq<(int, int, int)>
    decreases hay.len() - at,
{
    if at < 0 || at >= hay.len() {
        seq![]
    } else {
        match pick(keys, hay, wide, prevent, at, keys.len()) {
            Some(i) => {
                let end = hit_end(keys, hay, wide, prevent, at, i)->0;
                if at < end <= hay.len() {
                    seq![(at, end, i)] + scan_from(keys, hay, wide, prevent, end)
                } else {
                    scan_from(keys, hay, wide, prevent, at + 1)
                }
            },
            None => scan_from(keys, hay, wide, prevent, at + 1),
        }
    }
}

/// A nonempty key that matches at `at` consumes at least one element and
/// starts with the units of the element at `at`.
pub proof fn lemma_match_end_shape(hay: Seq<u32>, wide: bool, at: int, key: Seq<u16>)
    requires
        key.len() > 0,
        match_end(hay, wide, at, key) is Some,
    ensures
        0 <= at < hay.len(),
        at < match_end(hay, wide, at, key)->0 <= hay.len(),
        key[0] == elem_units(hay[at], wide)[0],
    decreases key.len(),
{
    let u = elem_units(hay[at], wide);
    assert(key.subrange(0, u.len() as int)[0] == key[0]);
    let rest = key.subrange(u.len() as int, key.len() as int);
    if rest.len() > 0 {
        lemma_match_end_shape(hay, wide, at + 1, rest);
    }
}

/// What [`pick`] answers: nothing when no key is a hit, otherwise a hit
/// tried before every other hit.
pub proof fn lemma_pick(
    keys: Seq<Seq<char>>,
    hay: Seq<u32>,
    wide: bool,
    prevent: bool,
    at: int,
    n: nat,
)
    ensures
        pick(keys, hay, wide, prevent, at, n) is None ==> forall|j: int|
            0 <= j < n ==> #[trigger] hit_end(keys, hay, wide, prevent, at, j) is None,
        pick(keys, hay, wide, prevent, at, n) matches Some(i) ==> {
            &&& 0 <= i < n
            &&& hit_end(keys, hay, wide, prevent, at, i) is Some
            &&& forall|j: int|
                0 <= j < n && j != i && #[trigger] hit_end(keys, hay, wide, prevent, at, j) is Some
                    ==> tried_before(keys, i, j)
        },
    decreases n,
{
    if n > 0 {
        lemma_pick(keys, hay, wide, prevent, at, (n - 1) as nat);
    }
}

/// The tried-first order never holds both ways.
pub proof fn lemma_tried_before_asymmetric(keys: Seq<Seq<char>>, i: int, j: int)
    ensures
        !(tried_before(keys, i, j) && tried_before(keys, j, i)),
{
}

impl Replaces {
    /// The keys, in table order.
    pub closed spec fn keys(&self) -> Seq<Seq<char>> {
        self.entries@.map_values(|e: ReplaceEntry| e.key@)
    }

    /// The values, in table order.
    pub closed spec fn values(&self) -> Seq<Seq<char>> {
        self.entries@.map_values(|e: ReplaceEntry| e.value@)
    }

    /// A well-formed table pairs every key with a value, and no key is
    /// empty.
    pub proof fn lemma_table_shape(&self)
        requires
            self.well_formed(),
        ensures
            self.keys().len() == self.values().len(),
            forall|j: int| 0 <= j < self.keys().len() ==> (#[trigger] self.keys()[j]).len() > 0,
    {
        assert forall|j: int| 0 <= j < self.keys().len() implies (#[trigger] self.keys()[j]).len() > 0 by {
            assert(self.keys()[j] == self.entries@[j].key@);
        }
    }

    /// Whether `preventAssignment` is on.
    pub closed spec fn prevents_assignment(&self) -> bool {
        self.prevent_assignment
    }

    /// The table invariant: every key is nonempty and stored with its UTF-16
    /// spelling; every bucket lists exactly the keys filed under it, longest
    /// first and in table order among equals.
    pub closed spec fn well_formed(&self) -> bool {
        &&& self.buckets@.len() == 256
        &&& forall|i: int|
            0 <= i < self.entries@.len() ==> {
                &&& (#[trigger] self.entries@[i]).key@.len() > 0
                &&& self.entries@[i].key_units@ == encode_utf16(self.entries@[i].key@)
            }
        &&& forall|b: int, k: int|
            0 <= b < 256 && 0 <= k < self.buckets@[b]@.len() ==> {
                let i = #[trigger] self.buckets@[b]@[k] as int;
                &&& 0 <= i < self.entries@.len()
                &&& key_bucket(self.keys()[i]) == b
            }
        &&& forall|i: int|
            0 <= i < self.entries@.len() ==> #[trigger] listed(self.buckets@[key_bucket(
                self.keys()[i],
            )]@, i)
        &&& forall|b: int, k1: int, k2: int|
            0 <= b < 256 && 0 <= k1 < k2 < self.buckets@[b]@.len() ==> tried_before(
                self.keys(),
                #[trigger] self.buckets@[b]@[k1] as int,
                #[trigger] self.buckets@[b]@[k2] as int,
            )
    }
}

impl Replaces {
    /// An empty table.
    fn empty(prevent_assignment: bool) -> (r: Self)
        ensures
            r.well_formed(),
            r.keys() == Seq::<Seq<char>>::empty(),
            r.values() == Seq::<Seq<char>>::empty(),
            r.prevents_assignment() == prevent_assignment,
    {
        let mut buckets: Vec<Vec<usize>> = Vec::new();
        let mut b: usize = 0;
        while b < 256
            invariant
                b <= 256,
                buckets@.len() == b,
                forall|k: int| 0 <= k < b ==> (#[trigger] buckets@[k])@.len() == 0,
            decreases 256 - b,
        {
            buckets.push(Vec::new());
            b += 1;
        }
        let r = Replaces { entries: Vec::new(), buckets, prevent_assignment };
        assert(r.keys() =~= Seq::<Seq<char>>::empty());
        assert(r.values() =~= Seq::<Seq<char>>::empty());
        r
    }

    /// Add one entry, filing it in its bucket after every key at least as
    /// long (so the bucket stays longest-first, table order among equals).
    fn insert(&mut self, key: &str, value: &str)
        requires
            old(self).well_formed(),
            key@.len() > 0,
        ensures
            final(self).well_formed(),
            final(self).keys() == old(self).keys().push(key@),
            final(self).values() == old(self).values().push(value@),
            final(self).prevents_assignment() == old(self).prevents_assignment(),
    {
        let ghost old_keys = self.keys();
        let ghost old_values = self.values();
        let ghost old_buckets = self.buckets@;
        proof {
            self.lemma_wf_facts();
        }
        let key_units = crate::unicode::encode_utf16_units(key);
        proof {
            crate::unicode::lemma_encode_utf16_nonempty(key@);
        }
        let index = self.entries.len();
        let b = (key_units[0] as usize) % 256;
        let new_len = key.as_bytes().len();
        let ghost list = old_buckets[b as int]@;
        self.entries.push(ReplaceEntry { key: key.to_owned(), key_units, value: value.to_owned() });
        let ghost keys = self.keys();
        proof {
            assert(keys =~= old_keys.push(key@));
            assert(self.values() =~= old_values.push(value@));
        }
        let mut bucket: Vec<usize> = Vec::new();
        self.buckets.set_and_swap(b, &mut bucket);
        proof {
            assert forall|k1: int, k2: int| 0 <= k1 < k2 < list.len() implies tried_before(
                old_keys,
                #[trigger] list[k1] as int,
                #[trigger] list[k2] as int,
            ) by {
                assert(list[k1] == old_buckets[b as int]@[k1]);
            }
        }
        let mut p: usize = 0;
        while p < bucket.len()
            invariant_except_break
                forall|k: int| 0 <= k < p ==> key_len(old_keys[#[trigger] list[k] as int]) >= key_len(key@),
            invariant
                p <= list.len(),
                bucket@ == list,
                keys == self.keys(),
                keys == old_keys.push(key@),
                index == old_keys.len(),
                self.entries@.len() == index + 1,
                b < 256,
                new_len == key_len(key@),
                forall|k: int| 0 <= k < list.len() ==> 0 <= #[trigger] list[k] < index,
                forall|k1: int, k2: int| 0 <= k1 < k2 < list.len() ==> tried_before(
                    old_keys,
                    #[trigger] list[k1] as int,
                    #[trigger] list[k2] as int,
                ),
            ensures
                forall|k: int| 0 <= k < p ==> key_len(old_keys[#[trigger] list[k] as int]) >= key_len(key@),
                forall|k: int| p <= k < list.len() ==> key_len(old_keys[#[trigger] list[k] as int]) < key_len(key@),
            decreases list.len() - p,
        {
            let here = bucket[p];
            let here_len = self.entries[here].key.as_str().as_bytes().len();
            proof {
                assert(keys[here as int] == self.entries@[here as int].key@);
                assert(keys[here as int] == old_keys[here as int]);
            }
            if here_len < new_len {
                proof {
                    assert forall|k: int| p <= k < list.len() implies key_len(
                        old_keys[#[trigger] list[k] as int],
                    ) < key_len(key@) by {
                        if k > p {
                            assert(tried_before(old_keys, here as int, list[k] as int));
                        }
                    }
                }
                break;
            }
            p += 1;
        }
        bucket.insert(p, index);
        self.buckets.set(b, bucket);
        proof {
            self.lemma_insert_wf(old_keys, old_buckets, key@, b as int, p as int, index);
        }
    }

    /// The table invariant, restated over the keys and buckets as values.
    proof fn lemma_wf_facts(&self)
        requires
            self.well_formed(),
        ensures
            forall|i: int|
                0 <= i < self.keys().len() ==> #[trigger] listed(self.buckets@[key_bucket(
                    self.keys()[i],
                )]@, i),
            forall|b2: int, k: int|
                0 <= b2 < 256 && 0 <= k < self.buckets@[b2]@.len() ==> {
                    let i = #[trigger] self.buckets@[b2]@[k] as int;
                    &&& 0 <= i < self.keys().len()
                    &&& key_bucket(self.keys()[i]) == b2
                },
            forall|b2: int, k1: int, k2: int|
                0 <= b2 < 256 && 0 <= k1 < k2 < self.buckets@[b2]@.len() ==> tried_before(
                    self.keys(),
                    #[trigger] self.buckets@[b2]@[k1] as int,
                    #[trigger] self.buckets@[b2]@[k2] as int,
                ),
    {
    }

    /// The table invariant survives filing entry `n` (the new last key) at
    /// position `p` of bucket `b`.
    proof fn lemma_insert_wf(
        &self,
        old_keys: Seq<Seq<char>>,
        old_buckets: Seq<Vec<usize>>,
        key: Seq<char>,
        b: int,
        p: int,
        index: usize,
    )
        requires
            index == old_keys.len(),
            old_buckets.len() == 256,
            forall|b2: int, k: int|
                0 <= b2 < 256 && 0 <= k < old_buckets[b2]@.len() ==> {
                    let i = #[trigger] old_buckets[b2]@[k] as int;
                    &&& 0 <= i < old_keys.len()
                    &&& key_bucket(old_keys[i]) == b2
                },
            forall|i: int|
                0 <= i < old_keys.len() ==> #[trigger] listed(old_buckets[key_bucket(
                    old_keys[i],
                )]@, i),
            forall|b2: int, k1: int, k2: int|
                0 <= b2 < 256 && 0 <= k1 < k2 < old_buckets[b2]@.len() ==> tried_before(
                    old_keys,
                    #[trigger] old_buckets[b2]@[k1] as int,
                    #[trigger] old_buckets[b2]@[k2] as int,
                ),
            self.keys() == old_keys.push(key),
            self.entries@.len() == old_keys.len() + 1,
            forall|i: int|
                0 <= i < self.entries@.len() ==> {
                    &&& (#[trigger] self.entries@[i]).key@.len() > 0
                    &&& self.entries@[i].key_units@ == encode_utf16(self.entries@[i].key@)
                },
            0 <= b < 256,
            key_bucket(key) == b,
            0 <= p <= old_buckets[b]@.len(),
            self.buckets@.len() == 256,
            forall|b2: int| 0 <= b2 < 256 && b2 != b ==> #[trigger] self.buckets@[b2] == old_buckets[b2],
            self.buckets@[b]@ == old_buckets[b]@.insert(p, index),
            forall|k: int|
                0 <= k < p ==> key_len(old_keys[#[trigger] old_buckets[b]@[k] as int]) >= key_len(
                    key,
                ),
            forall|k: int|
                p <= k < old_buckets[b]@.len() ==> key_len(
                    old_keys[#[trigger] old_buckets[b]@[k] as int],
                ) < key_len(key),
        ensures
            self.well_formed(),
    {
        let keys = self.keys();
        let n = old_keys.len() as int;
        let list = old_buckets[b]@;
        let nl = self.buckets@[b]@;
        assert forall|i: int| 0 <= i < n implies #[trigger] keys[i] == old_keys[i] by {}
        assert(keys[n] == key);
        assert forall|b2: int, k: int| 0 <= b2 < 256 && 0 <= k < self.buckets@[b2]@.len() implies {
            let i = #[trigger] self.buckets@[b2]@[k] as int;
            &&& 0 <= i < self.entries@.len()
            &&& key_bucket(self.keys()[i]) == b2
        } by {
            if b2 == b {
                if k < p {
                    assert(nl[k] == list[k]);
                } else if k > p {
                    assert(nl[k] == list[k - 1]);
                }
            } else {
                assert(self.buckets@[b2] == old_buckets[b2]);
            }
        }
        assert forall|i: int| 0 <= i < self.entries@.len() implies #[trigger] listed(self.buckets@[key_bucket(
            self.keys()[i],
        )]@, i) by {
            if i == n {
                assert(nl[p] == n);
            } else {
                assert(keys[i] == old_keys[i]);
                let bi = key_bucket(old_keys[i]);
                assert(listed(old_buckets[bi]@, i));
                let k = choose|k: int| 0 <= k < old_buckets[bi]@.len() && old_buckets[bi]@[k] == i;
                assert(0 <= bi < 256) by {
                    assert(0 <= old_buckets[bi]@[k]);
                }
                if bi == b {
                    if k < p {
                        assert(nl[k] == i);
                    } else {
                        assert(nl[k + 1] == i);
                    }
                } else {
                    assert(self.buckets@[bi] == old_buckets[bi]);
                    assert(self.buckets@[bi]@[k] == i);
                }
            }
        }
        assert forall|b2: int, k1: int, k2: int|
            0 <= b2 < 256 && 0 <= k1 < k2 < self.buckets@[b2]@.len() implies tried_before(
                self.keys(),
                #[trigger] self.buckets@[b2]@[k1] as int,
                #[trigger] self.buckets@[b2]@[k2] as int,
            ) by {
            if b2 != b {
                assert(self.buckets@[b2] == old_buckets[b2]);
                let i = old_buckets[b2]@[k1] as int;
                let j = old_buckets[b2]@[k2] as int;
                assert(tried_before(old_keys, i, j));
                assert(keys[i] == old_keys[i]);
                assert(keys[j] == old_keys[j]);
            } else {
                let i = nl[k1] as int;
                let j = nl[k2] as int;
                if k2 < p {
                    assert(tried_before(old_keys, list[k1] as int, list[k2] as int));
                    assert(keys[i] == old_keys[i]);
                    assert(keys[j] == old_keys[j]);
                } else if k2 == p {
                    assert(i == list[k1]);
                    assert(keys[i] == old_keys[i]);
                    assert(key_len(old_keys[list[k1] as int]) >= key_len(key));
                } else if k1 < p {
                    assert(i == list[k1]);
                    assert(j == list[k2 - 1]);
                    assert(tried_before(old_keys, list[k1] as int, list[k2 - 1] as int));
                    assert(keys[i] == old_keys[i]);
                    assert(keys[j] == old_keys[j]);
                } else if k1 == p {
                    assert(j == list[k2 - 1]);
                    assert(keys[j] == old_keys[j]);
                    assert(key_len(old_keys[list[k2 - 1] as int]) < key_len(key));
                } else {
                    assert(tried_before(old_keys, list[k1 - 1] as int, list[k2 - 1] as int));
                    assert(keys[i] == old_keys[i]);
                    assert(keys[j] == old_keys[j]);
                }
            }
        }
    }
}

/// The keys of the raw entries, in their given order.
pub open spec fn user_keys(entries: Seq<(String, String)>) -> Seq<Seq<char>> {
    entries.map_values(|e: (String, String)| e.0@)
}

/// Whether no key occurs twice among the raw entries.
pub open spec fn distinct_keys(entries: Seq<(String, String)>) -> bool {
    forall|i: int, j: int|
        0 <= i < j < entries.len() ==> (#[trigger] entries[i]).0@ != (#[trigger] entries[j]).0@
}

/// What a table built from `entries` holds: first every user key, in
/// increasing code-point order, each with its own value; then, when guards
/// are derived, every derived `typeof` guard that no user key spells, in
/// increasing order, each with the value `"object"`.
#[verifier::opaque]
pub open spec fn table_from(
    keys: Seq<Seq<char>>,
    values: Seq<Seq<char>>,
    entries: Seq<(String, String)>,
    object_guards: bool,
) -> bool {
    let user = user_keys(entries);
    let n = entries.len() as int;
    &&& keys.len() == values.len()
    &&& n <= keys.len()
    &&& strictly_sorted(keys.take(n))
    &&& forall|x: Seq<char>|
        #![trigger keys.take(n).contains(x)]
        keys.take(n).contains(x) <==> user.contains(x)
    &&& forall|i: int, j: int|
        0 <= i < n && 0 <= j < n && keys[i] == (#[trigger] entries[j]).0@ ==> #[trigger] values[i]
            == entries[j].1@
    &&& strictly_sorted(keys.skip(n))
    &&& forall|x: Seq<char>|
        #![trigger keys.skip(n).contains(x)]
        keys.skip(n).contains(x) <==> (object_guards && derived_guard(user, x) && !user.contains(x))
    &&& forall|i: int| n <= i < keys.len() ==> #[trigger] values[i] == object_literal()
}

/// A strictly increasing list holds no element twice.
pub proof fn lemma_sorted_no_duplicates(s: Seq<Seq<char>>)
    requires
        strictly_sorted(s),
    ensures
        s.no_duplicates(),
{
    assert forall|i: int, j: int| 0 <= i < s.len() && 0 <= j < s.len() && i != j implies s[i]
        != s[j] by {
        if i < j {
            assert(chars_lt(s[i], s[j]));
        } else {
            assert(chars_lt(s[j], s[i]));
        }
        lemma_chars_lt_irreflexive(s[i]);
    }
}

/// Two duplicate-free lists with the same elements have the same length.
pub proof fn lemma_same_elements_same_len(a: Seq<Seq<char>>, b: Seq<Seq<char>>)
    requires
        a.no_duplicates(),
        b.no_duplicates(),
        forall|x: Seq<char>| a.contains(x) <==> b.contains(x),
    ensures
        a.len() == b.len(),
{
    a.unique_seq_to_set();
    b.unique_seq_to_set();
    assert(a.to_set() =~= b.to_set());
}

/// The position of `x` in `list`, which holds it.
pub fn find_chars(list: &Vec<Vec<char>>, x: &[char]) -> (j: usize)
    requires
        views(list@).contains(x@),
    ensures
        j < list@.len(),
        list@[j as int]@ == x@,
{
    let mut j: usize = 0;
    while j < list.len()
        invariant
            j <= list@.len(),
            views(list@).contains(x@),
            forall|k: int| 0 <= k < j ==> (#[trigger] list@[k])@ != x@,
        decreases list@.len() - j,
    {
        if seq_eq(list[j].as_slice(), x) {
            return j;
        }
        j += 1;
    }
    proof {
        let k = choose|k: int| 0 <= k < views(list@).len() && views(list@)[k] == x@;
        assert(list@[k]@ == x@);
    }
    j
}

impl Replaces {
    /// Validate every key (an empty key is rejected outright), derive the
    /// `objectGuards` keys, and file everything longest-first. Keys are
    /// added in sorted order, so bucket order and the derived keys do not
    /// depend on the order the entries come in.
    pub fn new(entries: &Vec<(String, String)>, options: ReplaceOptions) -> (r: Result<Self, String>)
        requires
            distinct_keys(entries@),
        ensures
            r is Err <==> exists|i: int|
                0 <= i < entries@.len() && (#[trigger] entries@[i]).0@.len() == 0,
            r matches Err(e) ==> e@ == "invalid replace key \"\": must not be empty"@,
            r matches Ok(t) ==> {
                &&& t.well_formed()
                &&& t.prevents_assignment() == options.prevent_assignment
                &&& table_from(t.keys(), t.values(), entries@, options.object_guards)
            },
    {
        let n = entries.len();
        let mut i: usize = 0;
        while i < n
            invariant
                n == entries@.len(),
                i <= n,
                forall|j: int| 0 <= j < i ==> (#[trigger] entries@[j]).0@.len() > 0,
            decreases n - i,
        {
            if entries[i].0.as_str().is_empty() {
                return Err("invalid replace key \"\": must not be empty".to_owned());
            }
            i += 1;
        }
        let ghost user = user_keys(entries@);
        let mut key_chars: Vec<Vec<char>> = Vec::new();
        let mut to_sort: Vec<Vec<char>> = Vec::new();
        let mut i: usize = 0;
        while i < n
            invariant
                n == entries@.len(),
                user == user_keys(entries@),
                i <= n,
                views(key_chars@) =~= user.take(i as int),
                views(to_sort@) =~= user.take(i as int),
            decreases n - i,
        {
            let (cs, _) = crate::chars::chars_with_offsets(entries[i].0.as_str());
            let ghost kv = key_chars@;
            let ghost tv = to_sort@;
            to_sort.push(vstd::slice::slice_to_vec(cs.as_slice()));
            key_chars.push(cs);
            proof {
                assert(user[i as int] == entries@[i as int].0@);
                assert(user.take(i + 1) =~= user.take(i as int).push(user[i as int]));
                assert(views(key_chars@) =~= views(kv).push(user[i as int]));
                assert(views(to_sort@) =~= views(tv).push(user[i as int]));
            }
            i += 1;
        }
        proof {
            assert(user.take(n as int) =~= user);
        }
        let sorted = sorted_set(to_sort);
        proof {
            lemma_sorted_no_duplicates(views(sorted@));
            assert forall|a: int, b: int| 0 <= a < user.len() && 0 <= b < user.len() && a != b implies user[a] != user[b] by {
                if a < b {
                    assert(entries@[a].0@ != entries@[b].0@);
                } else {
                    assert(entries@[b].0@ != entries@[a].0@);
                }
            }
            lemma_same_elements_same_len(views(sorted@), user);
        }
        let mut table = Replaces::empty(options.prevent_assignment);
        let ghost mut source: Seq<int> = Seq::empty();
        let mut k: usize = 0;
        while k < sorted.len()
            invariant
                n == entries@.len(),
                user == user_keys(entries@),
                views(key_chars@) == user,
                sorted@.len() == n,
                forall|x: Seq<char>| views(sorted@).contains(x) <==> user.contains(x),
                forall|j: int| 0 <= j < n ==> (#[trigger] entries@[j]).0@.len() > 0,
                k <= n,
                table.well_formed(),
                table.prevents_assignment() == options.prevent_assignment,
                table.keys() =~= views(sorted@).take(k as int),
                table.values().len() == k,
                source.len() == k,
                forall|a: int|
                    0 <= a < k ==> {
                        &&& 0 <= #[trigger] source[a] < n
                        &&& entries@[source[a]].0@ == views(sorted@)[a]
                        &&& table.values()[a] == entries@[source[a]].1@
                    },
            decreases n - k,
        {
            proof {
                assert(views(sorted@).contains(views(sorted@)[k as int]));
            }
            let j = find_chars(&key_chars, sorted[k].as_slice());
            proof {
                assert(key_chars@.len() == views(key_chars@).len());
                assert(user[j as int] == entries@[j as int].0@);
            }
            let ghost before_values = table.values();
            table.insert(entries[j].0.as_str(), entries[j].1.as_str());
            proof {
                source = source.push(j as int);
                assert(views(sorted@).take(k + 1) =~= views(sorted@).take(k as int).push(
                    views(sorted@)[k as int],
                ));
                assert forall|a: int| 0 <= a < k + 1 implies {
                    &&& 0 <= #[trigger] source[a] < n
                    &&& entries@[source[a]].0@ == views(sorted@)[a]
                    &&& table.values()[a] == entries@[source[a]].1@
                } by {
                    if a < k {
                        assert(table.values()[a] == before_values[a]);
                    }
                }
            }
            k += 1;
        }
        let ghost base_keys = table.keys();
        let ghost base_values = table.values();
        proof {
            assert(base_keys =~= views(sorted@));
            assert forall|a: int, b: int|
                0 <= a < n && 0 <= b < n && base_keys[a] == (#[trigger] entries@[b]).0@ implies #[trigger] base_values[a]
                    == entries@[b].1@ by {
                let s = source[a];
                if s != b {
                    if s < b {
                        assert(entries@[s].0@ != entries@[b].0@);
                    } else {
                        assert(entries@[b].0@ != entries@[s].0@);
                    }
                }
            }
        }
        if options.object_guards {
            let guards = derive_guards(&sorted);
            let object = "\"object\"";
            proof {
                reveal_strlit("\"object\"");
                assert(object@ =~= object_literal());
            }
            let mut g: usize = 0;
            while g < guards.len()
                invariant
                    n == entries@.len(),
                    user == user_keys(entries@),
                    views(key_chars@) == user,
                    object@ == object_literal(),
                    strictly_sorted(views(guards@)),
                    forall|x: Seq<char>| views(guards@).contains(x) <==> derived_guard(views(sorted@), x),
                    forall|x: Seq<char>| views(sorted@).contains(x) <==> user.contains(x),
                    g <= guards@.len(),
                    table.well_formed(),
                    table.prevents_assignment() == options.prevent_assignment,
                    n <= table.keys().len(),
                    base_keys.len() == n,
                    table.keys().take(n as int) == base_keys,
                    table.values().take(n as int) == base_values,
                    table.values().len() == table.keys().len(),
                    strictly_sorted(table.keys().skip(n as int)),
                    forall|a: int, b: int|
                        0 <= a < table.keys().len() - n && g <= b < guards@.len() ==> chars_lt(
                            #[trigger] table.keys().skip(n as int)[a],
                            #[trigger] views(guards@)[b],
                        ),
                    forall|x: Seq<char>|
                        #![trigger table.keys().skip(n as int).contains(x)]
                        #![trigger views(guards@).take(g as int).contains(x)]
                        table.keys().skip(n as int).contains(x) <==> (views(guards@).take(
                            g as int,
                        ).contains(x) && !user.contains(x)),
                    forall|a: int| n <= a < table.keys().len() ==> #[trigger] table.values()[a] == object_literal(),
                decreases guards@.len() - g,
            {
                let ghost before_keys = table.keys();
                let ghost before_values = table.values();
                let ghost old_part = table.keys().skip(n as int);
                proof {
                    assert forall|x: Seq<char>| old_part.contains(x) implies views(guards@).take(
                        g as int,
                    ).contains(x) && !user.contains(x) by {
                        assert(table.keys().skip(n as int).contains(x));
                    }
                    assert forall|x: Seq<char>|
                        views(guards@).take(g as int).contains(x) && !user.contains(x) implies old_part.contains(x) by {
                        assert(table.keys().skip(n as int).contains(x));
                    }
                }
                let gv = guards[g].as_slice();
                let ghost gs = gv@;
                proof {
                    assert(views(guards@).take(g + 1) =~= views(guards@).take(g as int).push(gs));
                }
                if !contains_chars(&key_chars, gv) {
                    let key = crate::chars::string_from_chars(gv);
                    proof {
                        assert(views(guards@)[g as int] == gs);
                        assert(views(guards@).contains(gs));
                        assert(derived_guard(views(sorted@), gs));
                        assert(gs.len() > 0) by {
                            let w = choose|w: Seq<char>| views(sorted@).contains(w) && #[trigger] guard_of(w, gs);
                            assert(guard_of(w, gs));
                            let d = choose|d: int| 0 < d < w.len() && w[d] == '.' && gs == typeof_prefix() + w.take(d);
                            assert(typeof_prefix().len() == 7);
                            assert(gs.len() == 7 + d);
                        }
                    }
                    table.insert(key.as_str(), object);
                    proof {
                        let part = table.keys().skip(n as int);
                        assert(part =~= old_part.push(gs));
                        assert(table.keys().take(n as int) =~= before_keys.take(n as int));
                        assert(table.values().take(n as int) =~= before_values.take(n as int));
                        assert forall|a: int, b: int| 0 <= a < b < part.len() implies chars_lt(
                            #[trigger] part[a],
                            #[trigger] part[b],
                        ) by {
                            if b == old_part.len() {
                                assert(chars_lt(old_part[a], views(guards@)[g as int]));
                            } else {
                                assert(part[a] == old_part[a] && part[b] == old_part[b]);
                            }
                        }
                        assert forall|a: int, b: int|
                            0 <= a < part.len() && g + 1 <= b < guards@.len() implies chars_lt(
                                #[trigger] part[a],
                                #[trigger] views(guards@)[b],
                            ) by {
                            if a == old_part.len() {
                                assert(part[a] == views(guards@)[g as int]);
                            } else {
                                assert(part[a] == old_part[a]);
                            }
                        }
                        assert forall|x: Seq<char>|
                            part.contains(x) <==> (views(guards@).take(g + 1).contains(x)
                                && !user.contains(x)) by {
                            let tk = views(guards@).take(g + 1);
                            if part.contains(x) {
                                let a = choose|a: int| 0 <= a < part.len() && part[a] == x;
                                if a < old_part.len() {
                                    assert(old_part[a] == x);
                                    assert(old_part.contains(x));
                                    assert(views(guards@).take(g as int).contains(x));
                                    let b = choose|b: int| 0 <= b < g && views(guards@).take(g as int)[b] == x;
                                    assert(tk[b] == x);
                                } else {
                                    assert(tk[g as int] == x);
                                }
                            }
                            if tk.contains(x) && !user.contains(x) {
                                let b = choose|b: int| 0 <= b < tk.len() && tk[b] == x;
                                if b < g {
                                    assert(views(guards@).take(g as int)[b] == x);
                                    let a = choose|a: int| 0 <= a < old_part.len() && old_part[a] == x;
                                    assert(part[a] == x);
                                } else {
                                    assert(part[old_part.len() as int] == x);
                                }
                            }
                        }
                        assert forall|a: int| n <= a < table.keys().len() implies #[trigger] table.values()[a]
                            == object_literal() by {
                            if a < before_keys.len() {
                                assert(table.values()[a] == before_values[a]);
                            }
                        }
                    }
                } else {
                    proof {
                        let part = table.keys().skip(n as int);
                        assert forall|a: int, b: int|
                            0 <= a < part.len() && g + 1 <= b < guards@.len() implies chars_lt(
                                #[trigger] part[a],
                                #[trigger] views(guards@)[b],
                            ) by {
                            assert(chars_lt(part[a], views(guards@)[g as int]));
                            lemma_chars_lt_transitive(part[a], views(guards@)[g as int], views(guards@)[b]);
                        }
                        assert forall|x: Seq<char>|
                            part.contains(x) <==> (views(guards@).take(g + 1).contains(x)
                                && !user.contains(x)) by {
                            let tk = views(guards@).take(g + 1);
                            if part.contains(x) {
                                assert(views(guards@).take(g as int).contains(x));
                                let b = choose|b: int| 0 <= b < g && views(guards@).take(g as int)[b] == x;
                                assert(tk[b] == x);
                            }
                            if tk.contains(x) && !user.contains(x) {
                                let b = choose|b: int| 0 <= b < tk.len() && tk[b] == x;
                                if b < g {
                                    assert(views(guards@).take(g as int)[b] == x);
                                }
                            }
                        }
                    }
                }
                g += 1;
            }
            proof {
                assert(views(guards@).take(g as int) =~= views(guards@));
                let keys = table.keys();
                assert(keys.take(n as int) =~= views(sorted@));
                assert forall|x: Seq<char>| derived_guard(views(sorted@), x) <==> derived_guard(user, x) by {
                    if derived_guard(views(sorted@), x) {
                        let w = choose|w: Seq<char>| views(sorted@).contains(w) && #[trigger] guard_of(w, x);
                        assert(user.contains(w));
                    }
                    if derived_guard(user, x) {
                        let w = choose|w: Seq<char>| user.contains(w) && #[trigger] guard_of(w, x);
                        assert(views(sorted@).contains(w));
                    }
                }
                assert forall|a: int, b: int|
                    0 <= a < n && 0 <= b < n && keys[a] == (#[trigger] entries@[b]).0@ implies #[trigger] table.values()[a]
                        == entries@[b].1@ by {
                    assert(keys[a] == base_keys[a]);
                    assert(table.values()[a] == base_values[a]);
                }
            }
        } else {
            proof {
                let keys = table.keys();
                assert(keys.take(n as int) =~= keys);
                assert(keys.skip(n as int) =~= Seq::<Seq<char>>::empty());
            }
        }
        proof {
            reveal(table_from);
        }
        Ok(table)
    }
}

/// What [`table_from`] says, clause by clause.
pub proof fn lemma_table_parts(
    keys: Seq<Seq<char>>,
    values: Seq<Seq<char>>,
    entries: Seq<(String, String)>,
    object_guards: bool,
)
    requires
        table_from(keys, values, entries, object_guards),
    ensures
        keys.len() == values.len(),
        entries.len() <= keys.len(),
        strictly_sorted(keys.take(entries.len() as int)),
        strictly_sorted(keys.skip(entries.len() as int)),
        forall|x: Seq<char>|
            #[trigger] keys.take(entries.len() as int).contains(x) <==> user_keys(entries).contains(x),
        forall|x: Seq<char>|
            #[trigger] keys.skip(entries.len() as int).contains(x) <==> (object_guards && derived_guard(
                user_keys(entries),
                x,
            ) && !user_keys(entries).contains(x)),
        forall|i: int, j: int|
            0 <= i < entries.len() && 0 <= j < entries.len() && keys[i] == (#[trigger] entries[j]).0@
                ==> #[trigger] values[i] == entries[j].1@,
        forall|i: int| entries.len() <= i < keys.len() ==> #[trigger] values[i] == object_literal(),
{
    reveal(table_from);
}

/// Two strictly increasing lists with the same elements are the same list.
pub proof fn lemma_sorted_same_elements(a: Seq<Seq<char>>, b: Seq<Seq<char>>)
    requires
        strictly_sorted(a),
        strictly_sorted(b),
        forall|x: Seq<char>| a.contains(x) <==> b.contains(x),
    ensures
        a == b,
    decreases a.len(),
{
    if a.len() == 0 {
        if b.len() > 0 {
            assert(b.contains(b[0]));
        }
        assert(a =~= b);
    } else {
        assert(a.contains(a[0]));
        assert(b.len() > 0);
        assert(b.contains(b[0]));
        let m = choose|m: int| 0 <= m < b.len() && b[m] == a[0];
        let l = choose|l: int| 0 <= l < a.len() && a[l] == b[0];
        if m > 0 {
            assert(chars_lt(b[0], b[m]));
            if l > 0 {
                assert(chars_lt(a[0], a[l]));
                lemma_chars_lt_transitive(b[0], a[0], b[0]);
            }
            lemma_chars_lt_irreflexive(b[0]);
        }
        assert(a[0] == b[0]);
        let a1 = a.drop_first();
        let b1 = b.drop_first();
        assert forall|x: Seq<char>| a1.contains(x) <==> b1.contains(x) by {
            if a1.contains(x) {
                let i = choose|i: int| 0 <= i < a1.len() && a1[i] == x;
                assert(a[i + 1] == x);
                assert(chars_lt(a[0], a[i + 1]));
                lemma_chars_lt_irreflexive(x);
                assert(a.contains(x));
                let j = choose|j: int| 0 <= j < b.len() && b[j] == x;
                assert(j != 0);
                assert(b1[j - 1] == x);
            }
            if b1.contains(x) {
                let i = choose|i: int| 0 <= i < b1.len() && b1[i] == x;
                assert(b[i + 1] == x);
                assert(chars_lt(b[0], b[i + 1]));
                lemma_chars_lt_irreflexive(x);
                assert(b.contains(x));
                let j = choose|j: int| 0 <= j < a.len() && a[j] == x;
                assert(j != 0);
                assert(a1[j - 1] == x);
            }
        }
        lemma_sorted_same_elements(a1, b1);
        assert(a =~= seq![a[0]] + a1);
        assert(b =~= seq![b[0]] + b1);
    }
}

/// The (key, value) pairs of the raw entries.
pub open spec fn entry_pairs(entries: Seq<(String, String)>) -> Seq<(Seq<char>, Seq<char>)> {
    entries.map_values(|e: (String, String)| (e.0@, e.1@))
}

/// The table does not depend on the order the entries come in: two entry
/// lists holding the same (key, value) pairs build the same keys with the
/// same values.
#[verifier::rlimit(50)]
#[verifier::spinoff_prover]
pub proof fn lemma_table_order_independent(
    keys1: Seq<Seq<char>>,
    values1: Seq<Seq<char>>,
    entries1: Seq<(String, String)>,
    keys2: Seq<Seq<char>>,
    values2: Seq<Seq<char>>,
    entries2: Seq<(String, String)>,
    object_guards: bool,
)
    requires
        distinct_keys(entries1),
        distinct_keys(entries2),
        forall|x: (Seq<char>, Seq<char>)|
            entry_pairs(entries1).contains(x) <==> entry_pairs(entries2).contains(x),
        table_from(keys1, values1, entries1, object_guards),
        table_from(keys2, values2, entries2, object_guards),
    ensures
        keys1 == keys2,
        values1 == values2,
{
    lemma_table_parts(keys1, values1, entries1, object_guards);
    lemma_table_parts(keys2, values2, entries2, object_guards);
    let u1 = user_keys(entries1);
    let u2 = user_keys(entries2);
    assert forall|x: Seq<char>| u1.contains(x) <==> u2.contains(x) by {
        if u1.contains(x) {
            let i = choose|i: int| 0 <= i < u1.len() && u1[i] == x;
            assert(entry_pairs(entries1)[i] == (x, entries1[i].1@));
            assert(entry_pairs(entries1).contains((x, entries1[i].1@)));
            let j = choose|j: int| 0 <= j < entries2.len() && entry_pairs(entries2)[j] == (x, entries1[i].1@);
            assert(u2[j] == x);
        }
        if u2.contains(x) {
            let i = choose|i: int| 0 <= i < u2.len() && u2[i] == x;
            assert(entry_pairs(entries2)[i] == (x, entries2[i].1@));
            assert(entry_pairs(entries2).contains((x, entries2[i].1@)));
            let j = choose|j: int| 0 <= j < entries1.len() && entry_pairs(entries1)[j] == (x, entries2[i].1@);
            assert(u1[j] == x);
        }
    }
    let n1 = entries1.len() as int;
    let n2 = entries2.len() as int;
    lemma_sorted_no_duplicates(keys1.take(n1));
    lemma_sorted_no_duplicates(keys2.take(n2));
    assert forall|x: Seq<char>| keys1.take(n1).contains(x) <==> keys2.take(n2).contains(x) by {
        assert(keys1.take(n1).contains(x) <==> u1.contains(x));
        assert(keys2.take(n2).contains(x) <==> u2.contains(x));
    }
    lemma_same_elements_same_len(keys1.take(n1), keys2.take(n2));
    lemma_sorted_same_elements(keys1.take(n1), keys2.take(n2));
    assert forall|x: Seq<char>| derived_guard(u1, x) <==> derived_guard(u2, x) by {
        if derived_guard(u1, x) {
            let w = choose|w: Seq<char>| u1.contains(w) && #[trigger] guard_of(w, x);
            assert(u2.contains(w));
        }
        if derived_guard(u2, x) {
            let w = choose|w: Seq<char>| u2.contains(w) && #[trigger] guard_of(w, x);
            assert(u1.contains(w));
        }
    }
    assert forall|x: Seq<char>| keys1.skip(n1).contains(x) <==> keys2.skip(n2).contains(x) by {
        assert(keys1.skip(n1).contains(x) <==> (object_guards && derived_guard(u1, x) && !u1.contains(x)));
        assert(keys2.skip(n2).contains(x) <==> (object_guards && derived_guard(u2, x) && !u2.contains(x)));
    }
    lemma_sorted_same_elements(keys1.skip(n1), keys2.skip(n2));
    assert(keys1 =~= keys1.take(n1) + keys1.skip(n1));
    assert(keys2 =~= keys2.take(n2) + keys2.skip(n2));
    assert forall|i: int| 0 <= i < values1.len() implies values1[i] == values2[i] by {
        if i < n1 {
            assert(keys1.take(n1)[i] == keys1[i]);
            assert(keys1.take(n1).contains(keys1[i]));
            assert(u1.contains(keys1[i]));
            let j = choose|j: int| 0 <= j < u1.len() && u1[j] == keys1[i];
            assert(values1[i] == entries1[j].1@);
            assert(entry_pairs(entries1)[j] == (keys1[i], values1[i]));
            assert(entry_pairs(entries1).contains((keys1[i], values1[i])));
            let j2 = choose|j2: int| 0 <= j2 < entries2.len() && entry_pairs(entries2)[j2] == (keys1[i], values1[i]);
            assert(entries2[j2].0@ == keys2[i]);
            assert(values2[i] == entries2[j2].1@);
        }
    }
    assert(values1 =~= values2);
}

/// The element-position view of scan hits.
pub open spec fn hits_view(hits: Seq<(usize, usize, usize)>) -> Seq<(int, int, int)> {
    hits.map_values(|h: (usize, usize, usize)| (h.0 as int, h.1 as int, h.2 as int))
}

impl Replaces {
    /// The winning key at element `at`, tried in the order of its bucket.
    fn hit_at(&self, hay: &[u32], wide: bool, at: usize) -> (r: Option<(usize, usize)>)
        requires
            self.well_formed(),
            at < hay@.len(),
            elems_ok(hay@, wide),
        ensures
            r matches Some((i, end)) ==> pick(
                self.keys(),
                hay@,
                wide,
                self.prevents_assignment(),
                at as int,
                self.keys().len(),
            ) == Some(i as int) && hit_end(
                self.keys(),
                hay@,
                wide,
                self.prevents_assignment(),
                at as int,
                i as int,
            ) == Some(end as int),
            r is None ==> pick(
                self.keys(),
                hay@,
                wide,
                self.prevents_assignment(),
                at as int,
                self.keys().len(),
            ) is None,
    {
        let ghost keys = self.keys();
        let ghost prevent = self.prevent_assignment;
        let ghost n = keys.len();
        let b = bucket_of(hay, wide, at);
        let bucket = &self.buckets[b];
        let mut k: usize = 0;
        while k < bucket.len()
            invariant
                self.well_formed(),
                keys == self.keys(),
                prevent == self.prevent_assignment,
                b < 256,
                b == elem_bucket(hay@[at as int], wide),
                bucket == self.buckets@[b as int],
                at < hay@.len(),
                elems_ok(hay@, wide),
                k <= bucket@.len(),
                forall|k2: int|
                    0 <= k2 < k ==> hit_end(keys, hay@, wide, prevent, at as int, #[trigger] bucket@[k2] as int) is None,
            decreases bucket@.len() - k,
        {
            let index = bucket[k];
            proof {
                assert(0 <= index < self.entries@.len());
            }
            let entry = &self.entries[index];
            assert(keys[index as int] == entry.key@);
            match match_end_at(hay, wide, at, entry.key_units.as_slice()) {
                Some(end) => {
                    if left_bounded_at(hay, at) && right_bounded_at(hay, end)
                        && !assignment_blocked_at(hay, self.prevent_assignment, at, end) {
                        proof {
                            lemma_match_end_shape(hay@, wide, at as int, entry.key_units@);
                            self.lemma_first_hit(hay@, wide, at as int, b as int, k as int);
                        }
                        return Some((index, end));
                    }
                },
                None => {},
            }
            k += 1;
        }
        proof {
            self.lemma_no_hit(hay@, wide, at as int, b as int);
        }
        None
    }

    /// Every key that is a hit at `at` is filed in the bucket of the
    /// element at `at`.
    proof fn lemma_hit_in_bucket(&self, hay: Seq<u32>, wide: bool, at: int, j: int)
        requires
            self.well_formed(),
            0 <= at < hay.len(),
            0 <= j < self.keys().len(),
            hit_end(self.keys(), hay, wide, self.prevent_assignment, at, j) is Some,
        ensures
            exists|k: int|
                0 <= k < self.buckets@[elem_bucket(hay[at], wide)]@.len()
                    && #[trigger] self.buckets@[elem_bucket(hay[at], wide)]@[k] == j,
    {
        let key = self.keys()[j];
        assert(self.entries@[j].key@.len() > 0);
        assert(encode_utf16(key).len() > 0) by {
            crate::unicode::lemma_encode_utf16_nonempty(key);
        }
        lemma_match_end_shape(hay, wide, at, encode_utf16(key));
        assert(key_bucket(key) == elem_bucket(hay[at], wide));
        assert(listed(self.buckets@[key_bucket(self.keys()[j])]@, j));
    }

    /// The first hit in bucket order is [`pick`]'s answer.
    proof fn lemma_first_hit(&self, hay: Seq<u32>, wide: bool, at: int, b: int, k: int)
        requires
            self.well_formed(),
            0 <= at < hay.len(),
            b == elem_bucket(hay[at], wide),
            0 <= b < 256,
            0 <= k < self.buckets@[b]@.len(),
            hit_end(self.keys(), hay, wide, self.prevent_assignment, at, self.buckets@[b]@[k] as int) is Some,
            forall|k2: int|
                0 <= k2 < k ==> hit_end(
                    self.keys(),
                    hay,
                    wide,
                    self.prevent_assignment,
                    at,
                    #[trigger] self.buckets@[b]@[k2] as int,
                ) is None,
        ensures
            pick(self.keys(), hay, wide, self.prevent_assignment, at, self.keys().len()) == Some(
                self.buckets@[b]@[k] as int,
            ),
    {
        let keys = self.keys();
        let i = self.buckets@[b]@[k] as int;
        let n = keys.len();
        lemma_pick(keys, hay, wide, self.prevent_assignment, at, n);
        assert(0 <= i < n);
        match pick(keys, hay, wide, self.prevent_assignment, at, n) {
            Some(p) => {
                if p != i {
                    self.lemma_hit_in_bucket(hay, wide, at, p);
                    let kp = choose|kp: int|
                        0 <= kp < self.buckets@[b]@.len() && #[trigger] self.buckets@[b]@[kp] == p;
                    if kp < k {
                        assert(hit_end(keys, hay, wide, self.prevent_assignment, at, self.buckets@[b]@[kp] as int) is None);
                    } else if kp > k {
                        assert(tried_before(keys, i, p));
                        assert(tried_before(keys, p, i));
                        lemma_tried_before_asymmetric(keys, i, p);
                    }
                }
            },
            None => {
                assert(hit_end(keys, hay, wide, self.prevent_assignment, at, i) is None);
            },
        }
    }

    /// With no hit in the bucket, no key is a hit at all.
    proof fn lemma_no_hit(&self, hay: Seq<u32>, wide: bool, at: int, b: int)
        requires
            self.well_formed(),
            0 <= at < hay.len(),
            b == elem_bucket(hay[at], wide),
            0 <= b < 256,
            forall|k2: int|
                0 <= k2 < self.buckets@[b]@.len() ==> hit_end(
                    self.keys(),
                    hay,
                    wide,
                    self.prevent_assignment,
                    at,
                    #[trigger] self.buckets@[b]@[k2] as int,
                ) is None,
        ensures
            pick(self.keys(), hay, wide, self.prevent_assignment, at, self.keys().len()) is None,
    {
        let keys = self.keys();
        let n = keys.len();
        lemma_pick(keys, hay, wide, self.prevent_assignment, at, n);
        if let Some(p) = pick(keys, hay, wide, self.prevent_assignment, at, n) {
            self.lemma_hit_in_bucket(hay, wide, at, p);
            let kp = choose|kp: int|
                0 <= kp < self.buckets@[b]@.len() && #[trigger] self.buckets@[b]@[kp] == p;
            assert(hit_end(keys, hay, wide, self.prevent_assignment, at, self.buckets@[b]@[kp] as int) is None);
        }
    }

    /// The scan core, written once over the element view so the String
    /// path and the units path get the identical leftmost-longest
    /// behavior: ascending, non-overlapping hits in element positions.
    fn scan_over(&self, hay: &[u32], wide: bool) -> (hits: Vec<(usize, usize, usize)>)
        requires
            self.well_formed(),
            elems_ok(hay@, wide),
        ensures
            hits_view(hits@) == scan_from(self.keys(), hay@, wide, self.prevents_assignment(), 0),
    {
        let ghost keys = self.keys();
        let ghost prevent = self.prevent_assignment;
        let mut found: Vec<(usize, usize, usize)> = Vec::new();
        let mut at: usize = 0;
        proof {
            assert(hits_view(found@) + scan_from(keys, hay@, wide, prevent, 0) =~= scan_from(keys, hay@, wide, prevent, 0));
        }
        while at < hay.len()
            invariant
                self.well_formed(),
                keys == self.keys(),
                prevent == self.prevent_assignment,
                elems_ok(hay@, wide),
                at <= hay@.len(),
                hits_view(found@) + scan_from(keys, hay@, wide, prevent, at as int) == scan_from(
                    keys,
                    hay@,
                    wide,
                    prevent,
                    0,
                ),
            decreases hay@.len() - at,
        {
            let ghost before = found@;
            match self.hit_at(hay, wide, at) {
                Some((index, end)) => {
                    proof {
                        lemma_pick(keys, hay@, wide, prevent, at as int, keys.len());
                        let key = keys[index as int];
                        assert(self.entries@[index as int].key@.len() > 0);
                        crate::unicode::lemma_encode_utf16_nonempty(key);
                        lemma_match_end_shape(hay@, wide, at as int, encode_utf16(key));
                    }
                    found.push((at, end, index));
                    proof {
                        assert(hits_view(found@) =~= hits_view(before).push((at as int, end as int, index as int)));
                        assert(scan_from(keys, hay@, wide, prevent, at as int) == seq![(at as int, end as int, index as int)] + scan_from(keys, hay@, wide, prevent, end as int));
                        assert(hits_view(found@) + scan_from(keys, hay@, wide, prevent, end as int) =~= hits_view(before) + scan_from(keys, hay@, wide, prevent, at as int));
                    }
                    at = end;
                },
                None => {
                    at += 1;
                },
            }
        }
        proof {
            assert(hits_view(found@) + scan_from(keys, hay@, wide, prevent, at as int) =~= hits_view(found@));
        }
        found
    }
}


/// Whether scan hits lie in `[from, len)`, name keys below `n`, and come in
/// ascending, non-overlapping order.
pub open spec fn hits_ordered(hits: Seq<(int, int, int)>, from: int, len: int, n: int) -> bool {
    &&& forall|k: int|
        0 <= k < hits.len() ==> from <= (#[trigger] hits[k]).0 < hits[k].1 <= len && 0 <= hits[k].2
            < n
    &&& forall|j: int, k: int| 0 <= j < k < hits.len() ==> (#[trigger] hits[j]).1 <= (#[trigger] hits[k]).0
}

/// A scan's hits are ascending and non-overlapping, each a nonempty span
/// inside the text, each naming a key of the table.
pub proof fn lemma_scan_ordered(
    keys: Seq<Seq<char>>,
    hay: Seq<u32>,
    wide: bool,
    prevent: bool,
    at: int,
)
    requires
        0 <= at,
    ensures
        hits_ordered(scan_from(keys, hay, wide, prevent, at), at, hay.len() as int, keys.len() as int),
    decreases hay.len() - at,
{
    if at < hay.len() {
        lemma_pick(keys, hay, wide, prevent, at, keys.len());
        match pick(keys, hay, wide, prevent, at, keys.len()) {
            Some(i) => {
                let end = hit_end(keys, hay, wide, prevent, at, i)->0;
                if at < end <= hay.len() {
                    lemma_scan_ordered(keys, hay, wide, prevent, end);
                    let rest = scan_from(keys, hay, wide, prevent, end);
                    let all = scan_from(keys, hay, wide, prevent, at);
                    assert(all == seq![(at, end, i)] + rest);
                    assert forall|j: int, k: int| 0 <= j < k < all.len() implies (#[trigger] all[j]).1
                        <= (#[trigger] all[k]).0 by {
                        if j > 0 {
                            assert(all[j] == rest[j - 1] && all[k] == rest[k - 1]);
                        } else {
                            assert(all[k] == rest[k - 1]);
                        }
                    }
                    assert forall|k: int| 0 <= k < all.len() implies at <= (#[trigger] all[k]).0
                        < all[k].1 <= hay.len() && 0 <= all[k].2 < keys.len() by {
                        if k > 0 {
                            assert(all[k] == rest[k - 1]);
                        }
                    }
                } else {
                    lemma_scan_ordered(keys, hay, wide, prevent, at + 1);
                }
            },
            None => {
                lemma_scan_ordered(keys, hay, wide, prevent, at + 1);
            },
        }
    }
}

/// Whether no key is a hit at element `p`.
pub open spec fn no_hit_at(keys: Seq<Seq<char>>, hay: Seq<u32>, wide: bool, prevent: bool, p: int) -> bool {
    forall|j: int| 0 <= j < keys.len() ==> #[trigger] hit_end(keys, hay, wide, prevent, p, j) is None
}

/// Where the stretch the scan passed over before hit `k` begins: the scan's
/// start for the first hit, the previous hit's end otherwise (and, for
/// `k == hits.len()`, the stretch after the last hit).
pub open spec fn gap_start(hits: Seq<(int, int, int)>, at: int, k: int) -> int {
    if k == 0 {
        at
    } else {
        hits[k - 1].1
    }
}

/// The scan is leftmost-longest: no key is a hit anywhere the scan passed
/// over (before, between and after its hits), each hit is where its key
/// matches, and no key that is a hit at the same position is longer.
pub proof fn lemma_scan_leftmost_longest(
    keys: Seq<Seq<char>>,
    hay: Seq<u32>,
    wide: bool,
    prevent: bool,
    at: int,
)
    requires
        0 <= at,
        forall|j: int| 0 <= j < keys.len() ==> (#[trigger] keys[j]).len() > 0,
    ensures
        ({
            let hits = scan_from(keys, hay, wide, prevent, at);
            &&& forall|k: int, p: int|
                0 <= k <= hits.len() && (#[trigger] gap_start(hits, at, k)) <= p && (k == hits.len()
                    ==> p < hay.len()) && (k < hits.len() ==> p < hits[k].0) ==> #[trigger] no_hit_at(
                    keys,
                    hay,
                    wide,
                    prevent,
                    p,
                )
            &&& forall|k: int|
                0 <= k < hits.len() ==> hit_end(keys, hay, wide, prevent, (#[trigger] hits[k]).0, hits[k].2)
                    == Some(hits[k].1)
            &&& forall|k: int, j: int|
                0 <= k < hits.len() && 0 <= j < keys.len() && (#[trigger] hit_end(
                    keys,
                    hay,
                    wide,
                    prevent,
                    (#[trigger] hits[k]).0,
                    j,
                )) is Some ==> key_len(keys[j]) <= key_len(keys[hits[k].2])
        }),
    decreases hay.len() - at,
{
    let hits = scan_from(keys, hay, wide, prevent, at);
    if at >= hay.len() {
        assert(hits.len() == 0);
    } else {
        lemma_pick(keys, hay, wide, prevent, at, keys.len());
        match pick(keys, hay, wide, prevent, at, keys.len()) {
            Some(i) => {
                let end = hit_end(keys, hay, wide, prevent, at, i)->0;
                crate::unicode::lemma_encode_utf16_nonempty(keys[i]);
                lemma_match_end_shape(hay, wide, at, encode_utf16(keys[i]));
                lemma_scan_leftmost_longest(keys, hay, wide, prevent, end);
                let rest = scan_from(keys, hay, wide, prevent, end);
                assert(hits == seq![(at, end, i)] + rest);
                assert forall|k: int, p: int|
                    0 <= k <= hits.len() && (#[trigger] gap_start(hits, at, k)) <= p && (k == hits.len()
                        ==> p < hay.len()) && (k < hits.len() ==> p < hits[k].0) implies #[trigger] no_hit_at(
                        keys,
                        hay,
                        wide,
                        prevent,
                        p,
                    ) by {
                    if k > 0 {
                        assert(gap_start(hits, at, k) == gap_start(rest, end, k - 1));
                        if k - 1 < rest.len() {
                            assert(hits[k] == rest[k - 1]);
                        }
                        assert(gap_start(rest, end, k - 1) <= p);
                    }
                }
                assert forall|k: int|
                    0 <= k < hits.len() implies hit_end(keys, hay, wide, prevent, (#[trigger] hits[k]).0, hits[k].2)
                        == Some(hits[k].1) by {
                    if k > 0 {
                        assert(hits[k] == rest[k - 1]);
                    }
                }
                assert forall|k: int, j: int|
                    0 <= k < hits.len() && 0 <= j < keys.len() && (#[trigger] hit_end(
                        keys,
                        hay,
                        wide,
                        prevent,
                        (#[trigger] hits[k]).0,
                        j,
                    )) is Some implies key_len(keys[j]) <= key_len(keys[hits[k].2]) by {
                    if k > 0 {
                        assert(hits[k] == rest[k - 1]);
                    } else if j != i {
                        assert(tried_before(keys, i, j));
                    }
                }
            },
            None => {
                lemma_scan_leftmost_longest(keys, hay, wide, prevent, at + 1);
                let rest = scan_from(keys, hay, wide, prevent, at + 1);
                assert(hits == rest);
                assert(no_hit_at(keys, hay, wide, prevent, at));
                assert forall|k: int, p: int|
                    0 <= k <= hits.len() && (#[trigger] gap_start(hits, at, k)) <= p && (k == hits.len()
                        ==> p < hay.len()) && (k < hits.len() ==> p < hits[k].0) implies #[trigger] no_hit_at(
                        keys,
                        hay,
                        wide,
                        prevent,
                        p,
                    ) by {
                    if k > 0 {
                        assert(gap_start(hits, at, k) == gap_start(rest, at + 1, k));
                    } else if p > at {
                        assert(gap_start(rest, at + 1, 0) <= p);
                    }
                }
            },
        }
    }
}

/// `src` with each hit's span, from `cursor` on, replaced by the value of
/// its key.
pub open spec fn splice<A>(src: Seq<A>, hits: Seq<(int, int, int)>, vals: Seq<Seq<A>>, cursor: int) -> Seq<A>
    decreases hits.len(),
{
    if hits.len() == 0 {
        src.subrange(cursor, src.len() as int)
    } else {
        src.subrange(cursor, hits[0].0) + vals[hits[0].2] + splice(
            src,
            hits.drop_first(),
            vals,
            hits[0].1,
        )
    }
}

/// Positions survive where the splice is length-equal: when every hit's
/// value is as long as the span it replaces, the spliced text is as long
/// as the source text.
pub proof fn lemma_splice_keeps_length<A>(
    src: Seq<A>,
    hits: Seq<(int, int, int)>,
    vals: Seq<Seq<A>>,
    cursor: int,
)
    requires
        hits_ordered(hits, cursor, src.len() as int, vals.len() as int),
        0 <= cursor <= src.len(),
        forall|k: int|
            0 <= k < hits.len() ==> vals[(#[trigger] hits[k]).2].len() == hits[k].1 - hits[k].0,
    ensures
        splice(src, hits, vals, cursor).len() == src.len() - cursor,
    decreases hits.len(),
{
    if hits.len() > 0 {
        let rest = hits.drop_first();
        assert forall|k: int| 0 <= k < rest.len() implies hits[0].1 <= (#[trigger] rest[k]).0 < rest[k].1
            <= src.len() && 0 <= rest[k].2 < vals.len() by {
            assert(rest[k] == hits[k + 1]);
        }
        assert forall|j: int, k: int| 0 <= j < k < rest.len() implies (#[trigger] rest[j]).1 <= (#[trigger] rest[k]).0 by {
            assert(rest[j] == hits[j + 1] && rest[k] == hits[k + 1]);
        }
        assert forall|k: int|
            0 <= k < rest.len() implies vals[(#[trigger] rest[k]).2].len() == rest[k].1 - rest[k].0 by {
            assert(rest[k] == hits[k + 1]);
        }
        assert(hits[0] == hits[0]);
        lemma_splice_keeps_length(src, rest, vals, hits[0].1);
    }
}

/// The code points of a character sequence.
pub open spec fn char_codes(s: Seq<char>) -> Seq<u32> {
    s.map_values(|c: char| c as u32)
}

/// The code units of a UTF-16 sequence, widened.
pub open spec fn unit_codes(u: Seq<u16>) -> Seq<u32> {
    u.map_values(|x: u16| x as u32)
}

/// The UTF-8 offset of character `i` of `s`.
pub open spec fn byte_offset(s: Seq<char>, i: int) -> int {
    encode_utf8(s.take(i)).len() as int
}

/// The hits of a scan of text, in character positions.
pub open spec fn text_hits(keys: Seq<Seq<char>>, s: Seq<char>, prevent: bool) -> Seq<(int, int, int)> {
    scan_from(keys, char_codes(s), true, prevent, 0)
}

/// The hits of a scan of UTF-16 units, in unit positions.
pub open spec fn unit_hits(keys: Seq<Seq<char>>, u: Seq<u16>, prevent: bool) -> Seq<(int, int, int)> {
    scan_from(keys, unit_codes(u), false, prevent, 0)
}

/// The values spelled in UTF-16.
pub open spec fn values_utf16(values: Seq<Seq<char>>) -> Seq<Seq<u16>> {
    values.map_values(|v: Seq<char>| encode_utf16(v))
}

/// The code points of `chars`, as the scan reads them.
fn char_hay(chars: &[char]) -> (hay: Vec<u32>)
    ensures
        hay@ == char_codes(chars@),
        elems_ok(hay@, true),
{
    let mut hay: Vec<u32> = Vec::new();
    let mut i: usize = 0;
    while i < chars.len()
        invariant
            i <= chars@.len(),
            hay@ =~= char_codes(chars@.take(i as int)),
        decreases chars@.len() - i,
    {
        proof {
            assert(chars@.take(i + 1) =~= chars@.take(i as int).push(chars@[i as int]));
        }
        hay.push(chars[i] as u32);
        i += 1;
    }
    proof {
        assert(chars@.take(i as int) =~= chars@);
        assert forall|i: int| 0 <= i < hay@.len() implies ((#[trigger] hay@[i] as char) as u32) == hay@[i] by {
            vstd::utf8::char_u32_cast(chars@[i], chars@[i] as u32);
        }
    }
    hay
}

/// The code units of `units`, widened, as the scan reads them.
fn unit_hay(units: &[u16]) -> (hay: Vec<u32>)
    ensures
        hay@ == unit_codes(units@),
{
    let mut hay: Vec<u32> = Vec::new();
    let mut i: usize = 0;
    while i < units.len()
        invariant
            i <= units@.len(),
            hay@ =~= unit_codes(units@.take(i as int)),
        decreases units@.len() - i,
    {
        proof {
            assert(units@.take(i + 1) =~= units@.take(i as int).push(units@[i as int]));
        }
        hay.push(units[i] as u32);
        i += 1;
    }
    proof {
        assert(units@.take(i as int) =~= units@);
    }
    hay
}

/// Append `src[from..to]` to `out`.
fn push_range<T: Copy>(out: &mut Vec<T>, src: &[T], from: usize, to: usize)
    requires
        from <= to <= src@.len(),
    ensures
        final(out)@ == old(out)@ + src@.subrange(from as int, to as int),
{
    let mut i: usize = from;
    while i < to
        invariant
            from <= i <= to <= src@.len(),
            out@ == old(out)@ + src@.subrange(from as int, i as int),
        decreases to - i,
    {
        proof {
            assert(src@.subrange(from as int, i + 1) =~= src@.subrange(from as int, i as int).push(
                src@[i as int],
            ));
        }
        out.push(src[i]);
        i += 1;
    }
}

/// One step of [`splice`]: the first remaining hit.
proof fn lemma_splice_step<A>(src: Seq<A>, hits: Seq<(int, int, int)>, vals: Seq<Seq<A>>, k: int, cursor: int)
    requires
        0 <= k < hits.len(),
    ensures
        splice(src, hits.skip(k), vals, cursor) == src.subrange(cursor, hits[k].0) + vals[hits[k].2]
            + splice(src, hits.skip(k + 1), vals, hits[k].1),
{
    assert(hits.skip(k)[0] == hits[k]);
    assert(hits.skip(k).drop_first() =~= hits.skip(k + 1));
}

/// Write `src` with each hit replaced by the value of its key.
fn splice_hits<T: Copy>(src: &[T], hits: &Vec<(usize, usize, usize)>, vals: &Vec<Vec<T>>) -> (out: Vec<T>)
    requires
        hits_ordered(hits_view(hits@), 0, src@.len() as int, vals@.len() as int),
    ensures
        out@ == splice(src@, hits_view(hits@), vals@.map_values(|v: Vec<T>| v@), 0),
{
    let ghost hv = hits_view(hits@);
    let ghost vv = vals@.map_values(|v: Vec<T>| v@);
    let mut out: Vec<T> = Vec::new();
    let mut cursor: usize = 0;
    let mut k: usize = 0;
    proof {
        assert(hv.skip(0) =~= hv);
    }
    while k < hits.len()
        invariant
            hv == hits_view(hits@),
            vv == vals@.map_values(|v: Vec<T>| v@),
            hits_ordered(hv, 0, src@.len() as int, vals@.len() as int),
            k <= hits@.len(),
            cursor <= src@.len(),
            k < hits@.len() ==> cursor <= hv[k as int].0,
            out@ + splice(src@, hv.skip(k as int), vv, cursor as int) == splice(src@, hv, vv, 0),
        decreases hits@.len() - k,
    {
        let (start, end, entry) = hits[k];
        proof {
            assert(hv[k as int] == (start as int, end as int, entry as int));
            lemma_splice_step(src@, hv, vv, k as int, cursor as int);
            if k + 1 < hits@.len() {
                assert(hv[k as int].1 <= hv[k + 1].0);
            }
        }
        let ghost before = out@;
        push_range(&mut out, src, cursor, start);
        push_range(&mut out, vals[entry].as_slice(), 0, vals[entry].len());
        proof {
            assert(vals@[entry as int]@.subrange(0, vals@[entry as int]@.len() as int) =~= vv[entry as int]);
            assert(out@ =~= before + src@.subrange(cursor as int, start as int) + vv[entry as int]);
        }
        cursor = end;
        k += 1;
    }
    proof {
        assert(hv.skip(k as int) =~= Seq::<(int, int, int)>::empty());
    }
    push_range(&mut out, src, cursor, src.len());
    out
}

impl Replaces {
    /// The keys, in table order.
    pub fn entry_keys(&self) -> (r: Vec<String>)
        ensures
            r@.len() == self.keys().len(),
            forall|i: int| 0 <= i < r@.len() ==> (#[trigger] r@[i])@ == self.keys()[i],
    {
        let mut r: Vec<String> = Vec::new();
        let mut i: usize = 0;
        while i < self.entries.len()
            invariant
                i <= self.entries@.len(),
                r@.len() == i,
                forall|j: int| 0 <= j < i ==> (#[trigger] r@[j])@ == self.keys()[j],
            decreases self.entries@.len() - i,
        {
            r.push(self.entries[i].key.clone());
            i += 1;
        }
        r
    }

    /// Whether the table holds no key.
    pub fn is_empty(&self) -> (r: bool)
        ensures
            r == (self.keys().len() == 0),
    {
        self.entries.len() == 0
    }

    /// The scan of the String path, over the characters of `src`: the hits
    /// in UTF-8 byte offsets.
    pub fn scan_hits(&self, src: &str) -> (hits: Vec<ReplaceHit>)
        requires
            self.well_formed(),
            encode_utf8(src@).len() <= u32::MAX,
        ensures
            hits@.len() == text_hits(self.keys(), src@, self.prevents_assignment()).len(),
            forall|k: int|
                0 <= k < hits@.len() ==> {
                    let h = text_hits(self.keys(), src@, self.prevents_assignment())[k];
                    &&& (#[trigger] hits@[k]).start == byte_offset(src@, h.0)
                    &&& hits@[k].end == byte_offset(src@, h.1)
                    &&& hits@[k].entry == h.2
                },
    {
        let (chars, offsets) = crate::chars::chars_with_offsets(src);
        let hay = char_hay(chars.as_slice());
        let found = self.scan_over(hay.as_slice(), true);
        let ghost th = text_hits(self.keys(), src@, self.prevents_assignment());
        proof {
            lemma_scan_ordered(self.keys(), hay@, true, self.prevents_assignment(), 0);
            assert(hits_view(found@) == th);
            assert(src@.take(src@.len() as int) =~= src@);
        }
        let mut hits: Vec<ReplaceHit> = Vec::new();
        let mut k: usize = 0;
        while k < found.len()
            invariant
                hits_view(found@) == th,
                hits_ordered(th, 0, src@.len() as int, self.keys().len() as int),
                offsets@.len() == src@.len() + 1,
                forall|i: int| 0 <= i <= src@.len() ==> #[trigger] offsets@[i] == encode_utf8(src@.take(i)).len(),
                encode_utf8(src@).len() <= u32::MAX,
                k <= found@.len(),
                hits@.len() == k,
                forall|j: int|
                    0 <= j < k ==> {
                        &&& (#[trigger] hits@[j]).start == byte_offset(src@, th[j].0)
                        &&& hits@[j].end == byte_offset(src@, th[j].1)
                        &&& hits@[j].entry == th[j].2
                    },
            decreases found@.len() - k,
        {
            let (start, end, entry) = found[k];
            proof {
                assert(th[k as int] == (start as int, end as int, entry as int));
                crate::chars::lemma_encode_utf8_concat(src@.take(start as int), src@.skip(start as int));
                assert(src@.take(start as int) + src@.skip(start as int) =~= src@);
                crate::chars::lemma_encode_utf8_concat(src@.take(end as int), src@.skip(end as int));
                assert(src@.take(end as int) + src@.skip(end as int) =~= src@);
            }
            hits.push(ReplaceHit { start: offsets[start] as u32, end: offsets[end] as u32, entry });
            k += 1;
        }
        hits
    }

    /// [`Self::scan_hits`] with each hit's value: (start, end, value).
    pub fn scan(&self, src: &str) -> (r: Vec<(u32, u32, String)>)
        requires
            self.well_formed(),
            encode_utf8(src@).len() <= u32::MAX,
        ensures
            r@.len() == text_hits(self.keys(), src@, self.prevents_assignment()).len(),
            forall|k: int|
                0 <= k < r@.len() ==> {
                    let h = text_hits(self.keys(), src@, self.prevents_assignment())[k];
                    &&& (#[trigger] r@[k]).0 == byte_offset(src@, h.0)
                    &&& r@[k].1 == byte_offset(src@, h.1)
                    &&& r@[k].2@ == self.values()[h.2]
                },
    {
        let hits = self.scan_hits(src);
        let ghost th = text_hits(self.keys(), src@, self.prevents_assignment());
        proof {
            let hay = char_codes(src@);
            lemma_scan_ordered(self.keys(), hay, true, self.prevents_assignment(), 0);
        }
        let mut r: Vec<(u32, u32, String)> = Vec::new();
        let mut k: usize = 0;
        while k < hits.len()
            invariant
                self.well_formed(),
                hits_ordered(th, 0, src@.len() as int, self.keys().len() as int),
                hits@.len() == th.len(),
                forall|j: int|
                    0 <= j < hits@.len() ==> {
                        &&& (#[trigger] hits@[j]).start == byte_offset(src@, th[j].0)
                        &&& hits@[j].end == byte_offset(src@, th[j].1)
                        &&& hits@[j].entry == th[j].2
                    },
                k <= hits@.len(),
                r@.len() == k,
                forall|j: int|
                    0 <= j < k ==> {
                        &&& (#[trigger] r@[j]).0 == byte_offset(src@, th[j].0)
                        &&& r@[j].1 == byte_offset(src@, th[j].1)
                        &&& r@[j].2@ == self.values()[th[j].2]
                    },
            decreases hits@.len() - k,
        {
            let hit = hits[k];
            proof {
                assert(0 <= th[k as int].2 < self.keys().len());
            }
            let value = self.entries[hit.entry].value.clone();
            r.push((hit.start, hit.end, value));
            k += 1;
        }
        r
    }

    /// Rewrite the String path's source: scan and splice each value verbatim
    /// over its match. With no hits the text is empty and the caller keeps
    /// `src`.
    pub fn rewrite(&self, src: &str) -> (r: (String, usize))
        requires
            self.well_formed(),
        ensures
            r.1 == text_hits(self.keys(), src@, self.prevents_assignment()).len(),
            r.1 == 0 ==> r.0@ == Seq::<char>::empty(),
            r.1 > 0 ==> r.0@ == splice(src@, text_hits(self.keys(), src@, self.prevents_assignment()), self.values(), 0),
    {
        let (chars, _) = crate::chars::chars_with_offsets(src);
        let hay = char_hay(chars.as_slice());
        let hits = self.scan_over(hay.as_slice(), true);
        if hits.len() == 0 {
            return (String::new(), 0);
        }
        proof {
            lemma_scan_ordered(self.keys(), hay@, true, self.prevents_assignment(), 0);
        }
        let mut vals: Vec<Vec<char>> = Vec::new();
        let mut e: usize = 0;
        while e < self.entries.len()
            invariant
                e <= self.entries@.len(),
                vals@.map_values(|v: Vec<char>| v@) =~= self.values().take(e as int),
            decreases self.entries@.len() - e,
        {
            let (value_chars, _) = crate::chars::chars_with_offsets(self.entries[e].value.as_str());
            proof {
                assert(self.values().take(e + 1) =~= self.values().take(e as int).push(self.values()[e as int]));
            }
            vals.push(value_chars);
            e += 1;
        }
        proof {
            assert(self.values().take(e as int) =~= self.values());
        }
        let out = splice_hits(chars.as_slice(), &hits, &vals);
        (crate::chars::string_from_chars(out.as_slice()), hits.len())
    }

    /// The lossless UTF-16 variant of [`Self::rewrite`]: the scan and the
    /// splice run on the original code units.
    pub fn rewrite_units(&self, units: &[u16]) -> (r: (Vec<u16>, usize))
        requires
            self.well_formed(),
        ensures
            r.1 == unit_hits(self.keys(), units@, self.prevents_assignment()).len(),
            r.1 == 0 ==> r.0@ == Seq::<u16>::empty(),
            r.1 > 0 ==> r.0@ == splice(units@, unit_hits(self.keys(), units@, self.prevents_assignment()), values_utf16(self.values()), 0),
    {
        let hay = unit_hay(units);
        let hits = self.scan_over(hay.as_slice(), false);
        if hits.len() == 0 {
            return (Vec::new(), 0);
        }
        proof {
            lemma_scan_ordered(self.keys(), hay@, false, self.prevents_assignment(), 0);
        }
        let mut vals: Vec<Vec<u16>> = Vec::new();
        let mut e: usize = 0;
        while e < self.entries.len()
            invariant
                e <= self.entries@.len(),
                vals@.map_values(|v: Vec<u16>| v@) =~= values_utf16(self.values()).take(e as int),
            decreases self.entries@.len() - e,
        {
            let value_units = crate::unicode::encode_utf16_units(self.entries[e].value.as_str());
            proof {
                assert(values_utf16(self.values()).take(e + 1) =~= values_utf16(self.values()).take(e as int).push(
                    encode_utf16(self.values()[e as int]),
                ));
            }
            vals.push(value_units);
            e += 1;
        }
        proof {
            assert(values_utf16(self.values()).take(e as int) =~= values_utf16(self.values()));
        }
        let out = splice_hits(units, &hits, &vals);
        (out, hits.len())
    }
}

/// Every hit of a scan is a whole word: the element before it and the
/// element after it are no identifier characters (ASCII letters and
/// digits, `_`, `$`, anything from U+A0 on), and the element after it is no
/// member-access `.` — a key never matches inside a longer identifier such
/// as `DEBUG2` or `_DEBUG`.
pub proof fn lemma_hits_are_whole_words(
    keys: Seq<Seq<char>>,
    hay: Seq<u32>,
    wide: bool,
    prevent: bool,
    at: int,
)
    requires
        0 <= at,
    ensures
        forall|k: int|
            0 <= k < scan_from(keys, hay, wide, prevent, at).len() ==> {
                let h = #[trigger] scan_from(keys, hay, wide, prevent, at)[k];
                &&& h.0 == 0 || {
                    let v = hay[h.0 - 1];
                    !(v == 0x5F || v == 0x24 || (0x30 <= v && v <= 0x39) || (0x41 <= v && v <= 0x5A)
                        || (0x61 <= v && v <= 0x7A) || v >= 0xA0)
                }
                &&& h.1 >= hay.len() || {
                    let v = hay[h.1];
                    !(v == 0x5F || v == 0x24 || (0x30 <= v && v <= 0x39) || (0x41 <= v && v <= 0x5A)
                        || (0x61 <= v && v <= 0x7A) || v >= 0xA0 || v == 0x2E)
                }
            },
    decreases hay.len() - at,
{
    if at < hay.len() {
        lemma_pick(keys, hay, wide, prevent, at, keys.len());
        match pick(keys, hay, wide, prevent, at, keys.len()) {
            Some(i) => {
                let end = hit_end(keys, hay, wide, prevent, at, i)->0;
                if at < end <= hay.len() {
                    lemma_hits_are_whole_words(keys, hay, wide, prevent, end);
                    let rest = scan_from(keys, hay, wide, prevent, end);
                    let all = scan_from(keys, hay, wide, prevent, at);
                    assert(all == seq![(at, end, i)] + rest);
                    assert(crate::haystack::left_bounded(hay, at));
                    assert(crate::haystack::right_bounded(hay, end));
                    assert forall|k: int| 0 <= k < all.len() implies {
                        let h = #[trigger] all[k];
                        &&& h.0 == 0 || {
                            let v = hay[h.0 - 1];
                            !(v == 0x5F || v == 0x24 || (0x30 <= v && v <= 0x39) || (0x41 <= v
                                && v <= 0x5A) || (0x61 <= v && v <= 0x7A) || v >= 0xA0)
                        }
                        &&& h.1 >= hay.len() || {
                            let v = hay[h.1];
                            !(v == 0x5F || v == 0x24 || (0x30 <= v && v <= 0x39) || (0x41 <= v
                                && v <= 0x5A) || (0x61 <= v && v <= 0x7A) || v >= 0xA0 || v
                                == 0x2E)
                        }
                    } by {
                        if k > 0 {
                            assert(all[k] == rest[k - 1]);
                        } else {
                            assert(all[k] == (at, end, i));
                        }
                    }
                } else {
                    lemma_hits_are_whole_words(keys, hay, wide, prevent, at + 1);
                    assert(scan_from(keys, hay, wide, prevent, at) == scan_from(
                        keys,
                        hay,
                        wide,
                        prevent,
                        at + 1,
                    ));
                }
            },
            None => {
                lemma_hits_are_whole_words(keys, hay, wide, prevent, at + 1);
                assert(scan_from(keys, hay, wide, prevent, at) == scan_from(
                    keys,
                    hay,
                    wide,
                    prevent,
                    at + 1,
                ));
            },
        }
    }
}

} // verus!
