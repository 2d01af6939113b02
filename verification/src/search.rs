//! Partition-point searches over sorted offset tables.

use vstd::prelude::*;

verus! {

/// The predicate a range-start search splits on: the start lies before
/// `bound` (strictly, or at most `bound`).
pub open spec fn start_before(start: u32, bound: u32, strict: bool) -> bool {
    if strict {
        start < bound
    } else {
        start <= bound
    }
}

/// Whether the starts of `ranges` are partitioned by `start_before`: every
/// entry satisfying it precedes every entry that does not.
pub open spec fn starts_partitioned(
    ranges: Seq<(u8, u32, u32, u32)>,
    bound: u32,
    strict: bool,
) -> bool {
    forall|i: int, j: int|
        0 <= i < j < ranges.len() && #[trigger] start_before(ranges[j].1, bound, strict)
            ==> #[trigger] start_before(ranges[i].1, bound, strict)
}

/// The partition point of `ranges` under `start_before(_, bound, strict)`:
/// the number of leading entries whose start satisfies the predicate.
/// Meaningful when the entries are partitioned (e.g. sorted by start).
pub fn range_partition_point(ranges: &Vec<(u8, u32, u32, u32)>, bound: u32, strict: bool) -> (r:
    usize)
    ensures
        r <= ranges@.len(),
        starts_partitioned(ranges@, bound, strict) ==> {
            &&& forall|i: int| 0 <= i < r ==> start_before(#[trigger] ranges@[i].1, bound, strict)
            &&& forall|i: int|
                r <= i < ranges@.len() ==> !start_before(#[trigger] ranges@[i].1, bound, strict)
        },
{
    let mut lo: usize = 0;
    let mut hi: usize = ranges.len();
    while lo < hi
        invariant
            lo <= hi <= ranges@.len(),
            starts_partitioned(ranges@, bound, strict) ==> {
                &&& forall|i: int|
                    0 <= i < lo ==> start_before(#[trigger] ranges@[i].1, bound, strict)
                &&& forall|i: int|
                    hi <= i < ranges@.len() ==> !start_before(
                        #[trigger] ranges@[i].1,
                        bound,
                        strict,
                    )
            },
        decreases hi - lo,
    {
        let mid = lo + (hi - lo) / 2;
        let s = ranges[mid].1;
        let before = if strict {
            s < bound
        } else {
            s <= bound
        };
        if before {
            proof {
                if starts_partitioned(ranges@, bound, strict) {
                    assert forall|i: int| 0 <= i < mid + 1 implies start_before(
                        #[trigger] ranges@[i].1,
                        bound,
                        strict,
                    ) by {
                        if i < mid {
                            assert(start_before(ranges@[mid as int].1, bound, strict));
                        }
                    }
                }
            }
            lo = mid + 1;
        } else {
            proof {
                if starts_partitioned(ranges@, bound, strict) {
                    assert forall|i: int| mid <= i < ranges@.len() implies !start_before(
                        #[trigger] ranges@[i].1,
                        bound,
                        strict,
                    ) by {
                        if i > mid && start_before(ranges@[i].1, bound, strict) {
                            assert(start_before(ranges@[mid as int].1, bound, strict));
                        }
                    }
                }
            }
            hi = mid;
        }
    }
    lo
}

/// The index of the last entry whose start satisfies
/// `start_before(_, bound, strict)`, or -1 when none does.
pub open spec fn last_start_before(ranges: Seq<(u8, u32, u32, u32)>, bound: u32, strict: bool) -> int
    decreases ranges.len(),
{
    if ranges.len() == 0 {
        -1
    } else if start_before(ranges.last().1, bound, strict) {
        ranges.len() - 1
    } else {
        last_start_before(ranges.drop_last(), bound, strict)
    }
}

/// On partitioned entries, the last entry before the partition point is
/// the last entry satisfying the predicate.
pub proof fn lemma_last_start_before(
    ranges: Seq<(u8, u32, u32, u32)>,
    bound: u32,
    strict: bool,
    r: int,
)
    requires
        0 <= r <= ranges.len(),
        forall|i: int| 0 <= i < r ==> start_before(#[trigger] ranges[i].1, bound, strict),
        forall|i: int| r <= i < ranges.len() ==> !start_before(#[trigger] ranges[i].1, bound, strict),
    ensures
        last_start_before(ranges, bound, strict) == r - 1,
    decreases ranges.len(),
{
    if ranges.len() > 0 {
        let m = ranges.drop_last();
        if r == ranges.len() {
            assert(start_before(ranges[ranges.len() - 1].1, bound, strict));
        } else {
            assert(!start_before(ranges[ranges.len() - 1].1, bound, strict));
            assert forall|i: int| 0 <= i < r implies start_before(#[trigger] m[i].1, bound, strict) by {
                assert(m[i] == ranges[i]);
            }
            assert forall|i: int| r <= i < m.len() implies !start_before(#[trigger] m[i].1, bound, strict) by {
                assert(m[i] == ranges[i]);
            }
            lemma_last_start_before(m, bound, strict, r);
        }
    }
}

/// Whether `map` is strictly increasing.
pub open spec fn strictly_increasing(map: Seq<u32>) -> bool {
    forall|i: int, j: int| 0 <= i < j < map.len() ==> map[i] < map[j]
}

/// The number of entries of an increasing offset map that lie before
/// `pos` — the index of the unit that starts at byte offset `pos`.
pub open spec fn count_below(map: Seq<u32>, pos: u32) -> int
    decreases map.len(),
{
    if map.len() == 0 {
        0
    } else if map.last() < pos {
        count_below(map.drop_last(), pos) + 1
    } else {
        count_below(map.drop_last(), pos)
    }
}

/// The unit index of the unit starting at byte offset `pos`, given a
/// strictly increasing byte-offset-to-unit map: the partition point of
/// `map` under `entry < pos`.
pub fn unit_at(map: &[u32], pos: u32) -> (r: usize)
    requires
        strictly_increasing(map@),
    ensures
        r <= map@.len(),
        forall|i: int| 0 <= i < r ==> map@[i] < pos,
        forall|i: int| r <= i < map@.len() ==> map@[i] >= pos,
        r == count_below(map@, pos),
{
    let mut lo: usize = 0;
    let mut hi: usize = map.len();
    while lo < hi
        invariant
            lo <= hi <= map@.len(),
            strictly_increasing(map@),
            forall|i: int| 0 <= i < lo ==> map@[i] < pos,
            forall|i: int| hi <= i < map@.len() ==> map@[i] >= pos,
        decreases hi - lo,
    {
        let mid = lo + (hi - lo) / 2;
        if map[mid] < pos {
            lo = mid + 1;
        } else {
            hi = mid;
        }
    }
    proof {
        lemma_count_below_split(map@, pos, lo as int);
    }
    lo
}

/// `count_below` of a map split at its partition point is that point.
pub proof fn lemma_count_below_split(map: Seq<u32>, pos: u32, r: int)
    requires
        0 <= r <= map.len(),
        forall|i: int| 0 <= i < r ==> map[i] < pos,
        forall|i: int| r <= i < map.len() ==> map[i] >= pos,
    ensures
        count_below(map, pos) == r,
    decreases map.len(),
{
    if map.len() > 0 {
        let m = map.drop_last();
        if r == map.len() {
            lemma_count_below_split(m, pos, r - 1);
        } else {
            lemma_count_below_split(m, pos, r);
        }
    }
}

/// `count_below` is monotone in the position.
pub proof fn lemma_count_below_monotone(map: Seq<u32>, p: u32, q: u32)
    requires
        p <= q,
    ensures
        count_below(map, p) <= count_below(map, q),
        count_below(map, q) <= map.len(),
    decreases map.len(),
{
    if map.len() > 0 {
        lemma_count_below_monotone(map.drop_last(), p, q);
    }
}

} // verus!
