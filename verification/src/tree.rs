//! The flattened tree's parent links, derived from its child links.

use vstd::prelude::*;

verus! {

/// Whether `c` lies on the sibling chain that starts at `start`.
pub open spec fn in_chain(next_sibling: Seq<u32>, start: int, c: int) -> bool
    decreases next_sibling.len() - start,
{
    if start < 0 || start >= next_sibling.len() {
        false
    } else if start == c {
        true
    } else if start < next_sibling[start] < next_sibling.len() {
        in_chain(next_sibling, next_sibling[start] as int, c)
    } else {
        false
    }
}

/// Everything on a chain comes at or after its start.
proof fn lemma_in_chain_ge(next_sibling: Seq<u32>, start: int, c: int)
    requires
        in_chain(next_sibling, start, c),
    ensures
        start <= c,
    decreases next_sibling.len() - start,
{
    if start != c {
        lemma_in_chain_ge(next_sibling, next_sibling[start] as int, c);
    }
}

/// The last node below `upto` whose children include `c`, or `u32::MAX`.
pub open spec fn last_parent(first_child: Seq<u32>, next_sibling: Seq<u32>, c: int, upto: int) -> u32
    decreases upto,
{
    if upto <= 0 {
        u32::MAX
    } else if in_chain(next_sibling, first_child[upto - 1] as int, c) {
        (upto - 1) as u32
    } else {
        last_parent(first_child, next_sibling, c, upto - 1)
    }
}

/// Whether the child links describe a preorder forest: every first child
/// and next sibling comes after its node (or is `u32::MAX`, none) and
/// names a node.
pub open spec fn links_ok(first_child: Seq<u32>, next_sibling: Seq<u32>) -> bool {
    &&& first_child.len() == next_sibling.len()
    &&& first_child.len() < u32::MAX
    &&& forall|i: int|
        0 <= i < first_child.len() ==> (#[trigger] first_child[i] == u32::MAX || (i
            < first_child[i] < first_child.len()))
    &&& forall|i: int|
        0 <= i < next_sibling.len() ==> (#[trigger] next_sibling[i] == u32::MAX || (i
            < next_sibling[i] < next_sibling.len()))
}

/// Fill the parent array from the tree links — one sequential pass: each
/// node's parent is the node whose child chain holds it (the last such,
/// should several).
pub fn derive_parents(first_child: &[u32], next_sibling: &[u32]) -> (parent: Vec<u32>)
    requires
        links_ok(first_child@, next_sibling@),
    ensures
        parent@.len() == first_child@.len(),
        forall|c: int|
            0 <= c < parent@.len() ==> #[trigger] parent@[c] == last_parent(
                first_child@,
                next_sibling@,
                c,
                first_child@.len() as int,
            ),
{
    let n = first_child.len();
    let mut parent: Vec<u32> = Vec::new();
    let mut k: usize = 0;
    while k < n
        invariant
            k <= n,
            parent@.len() == k,
            forall|c: int| 0 <= c < k ==> #[trigger] parent@[c] == u32::MAX,
        decreases n - k,
    {
        parent.push(u32::MAX);
        k += 1;
    }
    let mut idx: usize = 0;
    while idx < n
        invariant
            n == first_child@.len(),
            links_ok(first_child@, next_sibling@),
            idx <= n,
            parent@.len() == n,
            forall|c: int|
                0 <= c < n ==> #[trigger] parent@[c] == last_parent(
                    first_child@,
                    next_sibling@,
                    c,
                    idx as int,
                ),
        decreases n - idx,
    {
        let first = first_child[idx];
        let mut child = first;
        while child != u32::MAX
            invariant
                n == first_child@.len(),
                links_ok(first_child@, next_sibling@),
                idx < n,
                first == first_child@[idx as int],
                parent@.len() == n,
                child == u32::MAX || child < n,
                forall|c: int|
                    0 <= c < n ==> #[trigger] parent@[c] == if in_chain(next_sibling@, first as int, c)
                        && !in_chain(next_sibling@, child as int, c) {
                        idx as u32
                    } else {
                        last_parent(first_child@, next_sibling@, c, idx as int)
                    },
                forall|c: int|
                    in_chain(next_sibling@, child as int, c) ==> in_chain(next_sibling@, first as int, c),
            decreases if child == u32::MAX { 0 } else { n - child + 1 },
        {
            let next = next_sibling[child as usize];
            proof {
                assert forall|c: int| in_chain(next_sibling@, child as int, c) <==> (c == child || in_chain(next_sibling@, next as int, c)) by {
                    if next != u32::MAX {
                        assert(next > child);
                    }
                }
                assert(in_chain(next_sibling@, child as int, child as int));
                if in_chain(next_sibling@, next as int, child as int) {
                    lemma_in_chain_ge(next_sibling@, next as int, child as int);
                }
            }
            parent.set(child as usize, idx as u32);
            child = next;
        }
        idx += 1;
    }
    parent
}

} // verus!
