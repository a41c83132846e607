//! The global guarantees of the engine, each proved from the contracts and
//! the invariant alone: the partition of the region, the accounting
//! identity, the round trip of an allocation (of the free byte total, and
//! exactly, node for node), and full coalescing of three neighbouring
//! blocks released out of order.

use crate::heap::Heap;
use crate::model::{
    alloc_case, dealloc_case, dealloc_rel, eff_size, node_in_region, nodes_disjoint, FreeNode,
    MIN_NODE_SIZE,
};
use crate::sums::sum_sizes;
use vstd::prelude::*;

verus! {

/// Partition invariant: in every reachable ready state the free nodes and
/// the handed-out blocks all lie inside the region, overlap nowhere, and
/// their sizes sum to the region size — so together they cover the region
/// exactly, with no gap and no overlap.
pub proof fn lemma_partition(h: Heap)
    requires
        h.wf(),
        h.is_ready(),
    ensures
        sum_sizes(h.free_nodes()) + sum_sizes(h.alloc_blocks()) == h.region_size(),
        forall|i: int|
            0 <= i < h.free_nodes().len() ==> node_in_region(
                #[trigger] h.free_nodes()[i],
                h.region_base(),
                h.region_size(),
            ),
        forall|i: int|
            0 <= i < h.alloc_blocks().len() ==> node_in_region(
                #[trigger] h.alloc_blocks()[i],
                h.region_base(),
                h.region_size(),
            ),
        forall|i: int, j: int|
            #![trigger h.free_nodes()[i], h.free_nodes()[j]]
            0 <= i < j < h.free_nodes().len() ==> nodes_disjoint(
                h.free_nodes()[i],
                h.free_nodes()[j],
            ),
        forall|i: int, j: int|
            #![trigger h.alloc_blocks()[i], h.alloc_blocks()[j]]
            0 <= i < h.alloc_blocks().len() && 0 <= j < h.alloc_blocks().len() && i != j
                ==> nodes_disjoint(h.alloc_blocks()[i], h.alloc_blocks()[j]),
        forall|i: int, j: int|
            #![trigger h.alloc_blocks()[i], h.free_nodes()[j]]
            0 <= i < h.alloc_blocks().len() && 0 <= j < h.free_nodes().len() ==> nodes_disjoint(
                h.alloc_blocks()[i],
                h.free_nodes()[j],
            ),
{
    assert forall|i: int, j: int|
        #![trigger h.free_nodes()[i], h.free_nodes()[j]]
        0 <= i < j < h.free_nodes().len() implies nodes_disjoint(
        h.free_nodes()[i],
        h.free_nodes()[j],
    ) by {
        assert(h.free_nodes()[i].end() < h.free_nodes()[j].addr);
    }
}

/// Monotonic accounting: `used() + free()` is always the region size.
pub proof fn lemma_accounting(h: Heap)
    requires
        h.wf(),
        h.is_ready(),
    ensures
        h.spec_used() + h.spec_free() == h.region_size(),
{
}

/// Round trip: a block allocated and immediately released with the same
/// size and alignment restores the total of free bytes — `allocate`
/// removes exactly the consumed size from the free total, and `deallocate`
/// with the same request puts exactly that size back.
pub proof fn lemma_round_trip(h0: Heap, h1: Heap, h2: Heap, size: usize)
    requires
        h1.spec_free() == h0.spec_free() - eff_size(size as int),
        h2.spec_free() == h1.spec_free() + eff_size(size as int),
    ensures
        h2.spec_free() == h0.spec_free(),
{
}

/// Exact round trip: a block carved out of a well-formed free list and
/// released before any other operation restores the free list node for
/// node, not only its byte total — whatever the serving node donated to
/// the block comes back and merges with the node's surviving parts.
#[verifier::rlimit(100)]
pub proof fn lemma_round_trip_exact(
    s0: Seq<FreeNode>,
    s1: Seq<FreeNode>,
    s2: Seq<FreeNode>,
    p: int,
    e: int,
    i: int,
)
    requires
        1 <= e,
        forall|x: int|
            0 <= x < s0.len() ==> 1 <= (#[trigger] s0[x]).size && s0[x].end() <= usize::MAX,
        forall|x: int, y: int|
            #![trigger s0[x], s0[y]]
            0 <= x < y < s0.len() ==> s0[x].end() < s0[y].addr,
        alloc_case(s0, p, e, s1, i),
        dealloc_rel(s1, p, e, s2),
    ensures
        s2 == s0,
{
    let h = s0[i];
    let front = p - h.addr;
    let back = h.end() - (p + e);
    let fnode = FreeNode { addr: h.addr, size: (front as usize) };
    let bnode = FreeNode { addr: ((p + e) as usize), size: (back as usize) };
    let i2 = choose|j: int| #[trigger] dealloc_case(s1, p, e, s2, j);
    assert(dealloc_case(s1, p, e, s2, i2));

    // the neighbours of the carved node bound the insertion point
    assert(forall|x: int| 0 <= x < i ==> (#[trigger] s0[x]).addr < h.addr);
    assert(forall|x: int| i < x < s0.len() ==> h.end() < (#[trigger] s0[x]).addr);

    if front == 0 && back == 0 {
        // the node was consumed whole and comes back whole
        assert(s1 == s0.remove(i));
        assert(forall|k: int| 0 <= k < i ==> s1[k] == s0[k]);
        assert(forall|k: int| i <= k < s1.len() ==> s1[k] == s0[k + 1]);
        assert(i2 == i) by {
            if i2 < i {
                assert(p < s1[i2].addr);
                assert(s1[i2].end() < h.addr);
                assert(false);
            }
            if i2 > i {
                assert(s1[i2 - 1].addr < p);
                assert(h.end() < s0[i2].addr);
                assert(false);
            }
        }
        assert(!(i2 > 0 && s1[i2 - 1].end() == p));
        assert(!(i2 < s1.len() && p + e == s1[i2].addr));
        assert(s2 == s1.insert(i, (FreeNode { addr: (p as usize), size: (e as usize) })));
        assert(s2 =~= s0);
    } else if front == 0 {
        // the surviving tail part absorbs the block again
        assert(s1 == s0.update(i, bnode));
        assert(forall|k: int| 0 <= k < s1.len() && k != i ==> s1[k] == s0[k]);
        assert(i2 == i) by {
            if i2 < i {
                assert(p < s1[i2].addr);
                assert(s1[i2].end() < h.addr);
                assert(false);
            }
            if i2 > i {
                assert(s1[i2 - 1].addr < p);
                assert(bnode.addr > p);
                if i2 - 1 > i {
                    assert(h.end() < s0[i2 - 1].addr);
                }
                assert(false);
            }
        }
        assert(!(i2 > 0 && s1[i2 - 1].end() == p));
        assert(i2 < s1.len() && p + e == s1[i2].addr);
        assert(s2 == s1.update(i, (FreeNode { addr: (p as usize), size: ((e + back) as usize) })));
        assert(s2 =~= s0);
    } else if back == 0 {
        // the surviving front part absorbs the block again
        assert(s1 == s0.update(i, fnode));
        assert(forall|k: int| 0 <= k < s1.len() && k != i ==> s1[k] == s0[k]);
        assert(i2 == i + 1) by {
            if i2 <= i {
                assert(p < s1[i2].addr);
                if i2 < i {
                    assert(s1[i2].end() < h.addr);
                }
                assert(false);
            }
            if i2 > i + 1 {
                assert(s1[i2 - 1].addr < p);
                assert(h.end() < s0[i2 - 1].addr);
                assert(false);
            }
        }
        assert(i2 > 0 && s1[i2 - 1].end() == p);
        assert(!(i2 < s1.len() && p + e == s1[i2].addr)) by {
            if i2 < s1.len() {
                assert(s1[i2] == s0[i2]);
                assert(h.end() < s0[i2].addr);
            }
        }
        assert(s2 == s1.update(
            i,
            (FreeNode { addr: fnode.addr, size: ((fnode.size + e) as usize) }),
        ));
        assert(s2 =~= s0);
    } else {
        // the block bridges both surviving parts: they merge back into one
        assert(s1 == s0.update(i, fnode).insert(i + 1, bnode));
        assert(forall|k: int| 0 <= k < i ==> s1[k] == s0[k]);
        assert(s1[i] == fnode && s1[i + 1] == bnode);
        assert(forall|k: int| i + 1 < k < s1.len() ==> s1[k] == s0[k - 1]);
        assert(i2 == i + 1) by {
            if i2 <= i {
                assert(p < s1[i2].addr);
                if i2 < i {
                    assert(s1[i2].end() < h.addr);
                }
                assert(false);
            }
            if i2 > i + 1 {
                assert(s1[i2 - 1].addr < p);
                if i2 - 1 > i + 1 {
                    assert(h.end() < s0[i2 - 2].addr);
                }
                assert(false);
            }
        }
        assert(i2 > 0 && s1[i2 - 1].end() == p);
        assert(i2 < s1.len() && p + e == s1[i2].addr);
        assert(s2 == s1.update(
            i,
            (FreeNode { addr: fnode.addr, size: ((fnode.size + e + bnode.size) as usize) }),
        ).remove(i + 1));
        assert(s2 =~= s0);
    }
}

/// Full coalescing: three neighbouring equal-size blocks `[a, a + sz)`,
/// `[a + sz, a + 2 sz)`, `[a + 2 sz, a + 3 sz)` released in the order
/// first, third, second collapse into a single free node spanning all
/// three ranges, provided no free node already touches that span (else the
/// merge would swallow it too). The release order is the hardest one: the
/// middle block bridges both neighbours at once.
#[verifier::rlimit(100)]
pub proof fn lemma_coalesce_three(
    h0: Seq<FreeNode>,
    h1: Seq<FreeNode>,
    h2: Seq<FreeNode>,
    h3: Seq<FreeNode>,
    a: usize,
    sz: usize,
)
    requires
        MIN_NODE_SIZE <= sz,
        a + 3 * sz <= usize::MAX,
        forall|x: int, y: int|
            #![trigger h0[x], h0[y]]
            0 <= x < y < h0.len() ==> h0[x].end() < h0[y].addr,
        forall|k: int|
            0 <= k < h0.len() ==> ((#[trigger] h0[k]).end() < a || a + 3 * sz < h0[k].addr),
        dealloc_rel(h0, a as int, sz as int, h1),
        dealloc_rel(h1, a + 2 * sz, sz as int, h2),
        dealloc_rel(h2, a + sz, sz as int, h3),
    ensures
        exists|j: int|
            0 <= j <= h0.len() && h3 == #[trigger] h0.insert(
                j,
                (FreeNode { addr: a, size: ((3 * sz) as usize) }),
            ),
{
    let na = FreeNode { addr: a, size: sz };
    let nc = FreeNode { addr: ((a + 2 * sz) as usize), size: sz };
    let nd = FreeNode { addr: a, size: ((3 * sz) as usize) };

    // releasing the first block: nothing touches it, so it becomes a node
    let i1 = choose|i: int| #[trigger] dealloc_case(h0, a as int, sz as int, h1, i);
    assert(dealloc_case(h0, a as int, sz as int, h1, i1));
    assert forall|k: int| 0 <= k < i1 implies (#[trigger] h0[k]).end() < a by {
        assert(h0[i1 - 1].addr < a);
        if k < i1 - 1 {
            assert(h0[k].end() < h0[i1 - 1].addr);
        }
    }
    assert forall|k: int| i1 <= k < h0.len() implies a + 3 * sz < (#[trigger] h0[k]).addr by {
        assert(a < h0[i1].addr);
        if k > i1 {
            assert(h0[i1].end() < h0[k].addr);
        }
    }
    assert(h1 == h0.insert(i1, na));

    // releasing the third block: the gap of one block keeps it a node too
    let i2 = choose|i: int| #[trigger] dealloc_case(h1, a + 2 * sz, sz as int, h2, i);
    assert(dealloc_case(h1, a + 2 * sz, sz as int, h2, i2));
    assert(h1.len() == h0.len() + 1);
    assert(forall|k: int| 0 <= k < i1 ==> h1[k] == h0[k]);
    assert(h1[i1] == na);
    assert(forall|k: int| i1 < k < h1.len() ==> h1[k] == h0[k - 1]);
    assert(i2 == i1 + 1) by {
        if i2 <= i1 {
            assert(h1[i2].addr > a + 2 * sz);
            assert(false);
        }
        if i2 >= i1 + 2 {
            assert(h1[i2 - 1].addr < a + 2 * sz);
            assert(a + 3 * sz < h0[i2 - 2].addr);
            assert(false);
        }
    }
    assert(h2 == h1.insert(i1 + 1, nc)) by {
        assert(!(i2 > 0 && h1[i2 - 1].end() == a + 2 * sz));
        assert(!(i2 < h1.len() && a + 2 * sz + sz == h1[i2].addr));
    }

    // releasing the middle block bridges both: one node spans all three
    let i3 = choose|i: int| #[trigger] dealloc_case(h2, a + sz, sz as int, h3, i);
    assert(dealloc_case(h2, a + sz, sz as int, h3, i3));
    assert(h2.len() == h0.len() + 2);
    assert(forall|k: int| 0 <= k < i1 ==> h2[k] == h0[k]);
    assert(h2[i1] == na);
    assert(h2[i1 + 1] == nc);
    assert(forall|k: int| i1 + 1 < k < h2.len() ==> h2[k] == h0[k - 2]);
    assert(i3 == i1 + 1) by {
        if i3 <= i1 {
            assert(h2[i3].addr > a + sz);
            assert(false);
        }
        if i3 >= i1 + 2 {
            assert(h2[i3 - 1].addr < a + sz);
            assert(false);
        }
    }
    assert(i3 > 0 && h2[i3 - 1].end() == a + sz);
    assert(i3 < h2.len() && a + sz + sz == h2[i3].addr);
    assert(h3 == h2.update(
        i3 - 1,
        (FreeNode { addr: h2[i3 - 1].addr, size: ((h2[i3 - 1].size + sz + h2[i3].size) as usize) }),
    ).remove(i3));
    assert(h2[i3 - 1].size + sz + h2[i3].size == 3 * sz);
    assert(h3 =~= h0.insert(i1, nd));
    assert(0 <= i1 <= h0.len() && h3 == h0.insert(i1, nd));
}

} // verus!
