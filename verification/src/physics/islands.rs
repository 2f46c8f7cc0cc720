//! Union-find over body indices, with the smallest index as each set's root
//! so that islands do not depend on the order of unions.

use vstd::prelude::*;

verus! {

/// Every node points at itself or at a smaller node inside the slice.
pub open spec fn uf_wf(parent: Seq<u32>) -> bool {
    forall|i: int| 0 <= i < parent.len() ==> #[trigger] parent[i] <= i
}

/// The root of node `i`: follow parents until a node is its own parent.
pub open spec fn root(parent: Seq<u32>, i: int) -> int
    decreases i,
{
    if i < 0 || i >= parent.len() || parent[i] >= i {
        i
    } else {
        root(parent, parent[i] as int)
    }
}

/// A root is its own parent, no larger than the node.
pub proof fn lemma_root(parent: Seq<u32>, i: int)
    requires
        uf_wf(parent),
        0 <= i < parent.len(),
    ensures
        0 <= root(parent, i) <= i,
        parent[root(parent, i)] == root(parent, i),
    decreases i,
{
    if parent[i] < i {
        lemma_root(parent, parent[i] as int);
    }
}

/// Pointing a node at one of its ancestors keeps every root.
proof fn lemma_shortcut(parent: Seq<u32>, i: int, a: int, j: int)
    requires
        uf_wf(parent),
        0 <= i < parent.len(),
        0 <= a < i,
        a <= u32::MAX,
        root(parent, a) == root(parent, i),
        0 <= j < parent.len(),
    ensures
        uf_wf(parent.update(i, a as u32)),
        root(parent.update(i, a as u32), j) == root(parent, j),
    decreases j,
{
    let p2 = parent.update(i, a as u32);
    if j == i {
        lemma_shortcut(parent, i, a, a);
    } else if parent[j] < j {
        lemma_shortcut(parent, i, a, parent[j] as int);
    }
}

/// The root of `i`, halving the path on the way.
pub fn uf_find(parent: &mut [u32], i: u32) -> (r: u32)
    requires
        uf_wf(old(parent)@),
        i < old(parent)@.len(),
    ensures
        uf_wf(final(parent)@),
        final(parent)@.len() == old(parent)@.len(),
        r == root(old(parent)@, i as int),
        forall|j: int| 0 <= j < old(parent)@.len() ==> root(final(parent)@, j) == root(old(parent)@, j),
{
    let ghost start = parent@;
    let ghost i0 = i as int;
    let mut i = i;
    while parent[i as usize] != i
        invariant
            uf_wf(parent@),
            parent@.len() == start.len(),
            i < parent@.len(),
            i0 < start.len(),
            root(parent@, i as int) == root(start, i0),
            forall|j: int| 0 <= j < start.len() ==> root(parent@, j) == root(start, j),
        decreases i,
    {
        let p = parent[i as usize];
        let grandparent = parent[p as usize];
        proof {
            assert(p < i);
            assert(root(parent@, p as int) == root(parent@, i as int));
            assert(root(parent@, grandparent as int) == root(parent@, p as int));
            assert forall|j: int| 0 <= j < start.len() implies root(parent@.update(i as int, grandparent), j) == root(start, j) by {
                lemma_shortcut(parent@, i as int, grandparent as int, j);
            }
            lemma_shortcut(parent@, i as int, grandparent as int, grandparent as int);
        }
        parent[i as usize] = grandparent;
        i = grandparent;
    }
    proof {
        lemma_root(parent@, i as int);
    }
    i
}


/// Hanging root `hi` under the smaller root `lo` sends the nodes of `hi`'s
/// set to `lo` and leaves the others alone.
proof fn lemma_link(parent: Seq<u32>, lo: int, hi: int, j: int)
    requires
        uf_wf(parent),
        0 <= lo < hi < parent.len(),
        lo <= u32::MAX,
        parent[lo] == lo,
        parent[hi] == hi,
        0 <= j < parent.len(),
    ensures
        uf_wf(parent.update(hi, lo as u32)),
        root(parent.update(hi, lo as u32), j) == (if root(parent, j) == hi { lo } else { root(parent, j) }),
    decreases j,
{
    let p2 = parent.update(hi, lo as u32);
    assert(root(p2, lo) == lo);
    if j == hi {
        assert(root(p2, hi) == root(p2, lo));
    } else if parent[j] < j {
        lemma_link(parent, lo, hi, parent[j] as int);
    }
}

/// The set root after joining the sets of `a` and `b`: the smaller of
/// their roots stands for both.
pub open spec fn joined_root(parent: Seq<u32>, a: int, b: int, j: int) -> int {
    let ra = root(parent, a);
    let rb = root(parent, b);
    let r = root(parent, j);
    if ra != rb && (r == ra || r == rb) {
        if ra < rb { ra } else { rb }
    } else {
        r
    }
}

/// Join the sets of `a` and `b` under the smaller of their roots.
pub fn uf_union(parent: &mut [u32], a: u32, b: u32)
    requires
        uf_wf(old(parent)@),
        a < old(parent)@.len(),
        b < old(parent)@.len(),
    ensures
        uf_wf(final(parent)@),
        final(parent)@.len() == old(parent)@.len(),
        forall|j: int| 0 <= j < old(parent)@.len() ==> root(final(parent)@, j) == joined_root(old(parent)@, a as int, b as int, j),
{
    let root_a = uf_find(parent, a);
    let root_b = uf_find(parent, b);
    proof {
        lemma_root(parent@, a as int);
        lemma_root(parent@, b as int);
    }
    if root_a != root_b {
        let (lo, hi) = if root_a < root_b { (root_a, root_b) } else { (root_b, root_a) };
        let ghost p1 = parent@;
        parent[hi as usize] = lo;
        proof {
            assert forall|j: int| 0 <= j < p1.len() implies root(parent@, j) == joined_root(old(parent)@, a as int, b as int, j) by {
                lemma_link(p1, lo as int, hi as int, j);
            }
            lemma_link(p1, lo as int, hi as int, 0);
        }
    }
}

/// After joining the sets of `a` and `b`, both have the same root.
pub proof fn lemma_union_joins(parent: Seq<u32>, a: int, b: int)
    requires
        uf_wf(parent),
        0 <= a < parent.len(),
        0 <= b < parent.len(),
    ensures
        joined_root(parent, a, b, a) == joined_root(parent, a, b, b),
{
}

} // verus!
