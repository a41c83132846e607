//! The allocator itself: one fixed managed region, the address-ordered free
//! list carved from it, and the allocate / deallocate engine over them.

use crate::model::{
    alloc_case, chosen_addr, dealloc_case, dealloc_rel, eff_size, is_power_of_two,
    lemma_chosen_addr, lemma_eff_size, node_fits, node_in_region, nodes_disjoint, FreeNode,
    MIN_NODE_SIZE, NODE_ALIGN,
};
use crate::sums::{
    lemma_sum_element_le, lemma_sum_insert, lemma_sum_nonneg, lemma_sum_push, lemma_sum_remove,
    lemma_sum_take_le, lemma_sum_update, sum_sizes,
};
use vstd::prelude::*;

verus! {

/// A free-list allocator over the byte region `[base, base + size)`.
///
/// Only the free ranges are stored; `blocks` is the ghost record of the
/// ranges currently handed out, kept so that the partition invariant — every
/// byte of the region is free or handed out, never both — can be stated and
/// maintained.
pub struct Heap {
    pub base: usize,
    pub size: usize,
    pub ready: bool,
    pub holes: Vec<FreeNode>,
    pub blocks: Ghost<Seq<FreeNode>>,
}

impl Heap {
    /// Whether `init` has run: before that, no other operation is allowed.
    pub open spec fn is_ready(self) -> bool {
        self.ready
    }

    pub open spec fn region_base(self) -> int {
        self.base as int
    }

    pub open spec fn region_size(self) -> int {
        self.size as int
    }

    /// The free list, in address order.
    pub open spec fn free_nodes(self) -> Seq<FreeNode> {
        self.holes@
    }

    /// The ranges currently handed out to callers.
    pub open spec fn alloc_blocks(self) -> Seq<FreeNode> {
        self.blocks@
    }

    /// Total free bytes.
    pub open spec fn spec_free(self) -> int {
        sum_sizes(self.holes@)
    }

    /// Total bytes handed out, including padding consumed by a request.
    pub open spec fn spec_used(self) -> int {
        self.size - sum_sizes(self.holes@)
    }

    /// Free nodes lie in the region, can each host their own bookkeeping,
    /// and are address-ordered with at least one byte between consecutive
    /// nodes: physically adjacent free ranges are always merged.
    pub open spec fn wf_free_list(self) -> bool {
        &&& forall|i: int|
            0 <= i < self.holes@.len() ==> MIN_NODE_SIZE <= (#[trigger] self.holes@[i]).size
                && node_in_region(self.holes@[i], self.base as int, self.size as int)
        &&& forall|i: int, j: int|
            #![trigger self.holes@[i], self.holes@[j]]
            0 <= i < j < self.holes@.len() ==> self.holes@[i].end() < self.holes@[j].addr
    }

    /// Handed-out ranges lie in the region and overlap neither each other
    /// nor any free node.
    pub open spec fn wf_blocks(self) -> bool {
        &&& forall|i: int|
            0 <= i < self.blocks@.len() ==> MIN_NODE_SIZE <= (#[trigger] self.blocks@[i]).size
                && node_in_region(self.blocks@[i], self.base as int, self.size as int)
        &&& forall|i: int, j: int|
            #![trigger self.blocks@[i], self.blocks@[j]]
            0 <= i < self.blocks@.len() && 0 <= j < self.blocks@.len() && i != j
                ==> nodes_disjoint(self.blocks@[i], self.blocks@[j])
        &&& forall|i: int, j: int|
            #![trigger self.blocks@[i], self.holes@[j]]
            0 <= i < self.blocks@.len() && 0 <= j < self.holes@.len() ==> nodes_disjoint(
                self.blocks@[i],
                self.holes@[j],
            )
    }

    /// The allocator's invariant. In the ready state the free nodes and the
    /// handed-out ranges are disjoint, lie in the region, and their sizes
    /// sum to the region size — together: they partition the region.
    pub open spec fn wf(self) -> bool {
        if self.ready {
            &&& self.base + self.size <= usize::MAX
            &&& MIN_NODE_SIZE <= self.size
            &&& self.wf_free_list()
            &&& self.wf_blocks()
            &&& sum_sizes(self.holes@) + sum_sizes(self.blocks@) == self.size
        } else {
            self.holes@.len() == 0 && self.blocks@.len() == 0
        }
    }

    /// A fresh, uninitialized allocator: no region yet, nothing tracked.
    pub fn empty() -> (h: Heap)
        ensures
            h.wf(),
            !h.is_ready(),
    {
        Heap {
            base: 0,
            size: 0,
            ready: false,
            holes: Vec::new(),
            blocks: Ghost(Seq::empty()),
        }
    }

    /// Seeds the allocator with the region `[start_addr, start_addr + size)`:
    /// one free node spanning the whole region. Must run exactly once, before
    /// any other operation; the region must be able to host at least its own
    /// bookkeeping and must fit in the address space.
    pub fn init(&mut self, start_addr: usize, size: usize)
        requires
            old(self).wf(),
            !old(self).is_ready(),
            MIN_NODE_SIZE <= size,
            start_addr + size <= usize::MAX,
        ensures
            final(self).wf(),
            final(self).is_ready(),
            final(self).region_base() == start_addr,
            final(self).region_size() == size,
            final(self).free_nodes() == seq![(FreeNode { addr: start_addr, size })],
            final(self).alloc_blocks() == Seq::<FreeNode>::empty(),
            final(self).spec_free() == size,
    {
        self.base = start_addr;
        self.size = size;
        self.holes.push(FreeNode { addr: start_addr, size });
        self.ready = true;
        proof {
            lemma_sum_push(old(self).holes@, FreeNode { addr: start_addr, size });
            assert(self.holes@ =~= seq![FreeNode { addr: start_addr, size }]);
            assert(self.blocks@ =~= Seq::<FreeNode>::empty());
            assert(sum_sizes(old(self).holes@) == 0);
        }
    }

    /// The number of free bytes: the sum over the free list. Advisory, like
    /// `used`; the engine itself never consults it.
    pub fn free(&self) -> (r: usize)
        requires
            self.wf(),
            self.is_ready(),
        ensures
            r as int == self.spec_free(),
    {
        let n = self.holes.len();
        let mut acc: usize = 0;
        let mut i: usize = 0;
        while i < n
            invariant
                self.wf(),
                self.is_ready(),
                n == self.holes@.len(),
                i <= n,
                acc as int == sum_sizes(self.holes@.take(i as int)),
            decreases n - i,
        {
            proof {
                assert(self.holes@.take(i + 1).drop_last() =~= self.holes@.take(i as int));
                assert(self.holes@.take(i + 1).last() == self.holes@[i as int]);
                lemma_sum_take_le(self.holes@, i + 1);
                lemma_sum_nonneg(self.blocks@);
            }
            acc = acc + self.holes[i].size;
            i = i + 1;
        }
        proof {
            assert(self.holes@.take(n as int) =~= self.holes@);
        }
        acc
    }

    /// The number of bytes currently handed out: the region size less the
    /// free bytes.
    pub fn used(&self) -> (r: usize)
        requires
            self.wf(),
            self.is_ready(),
        ensures
            r as int == self.spec_used(),
    {
        proof {
            lemma_sum_nonneg(self.holes@);
            lemma_sum_nonneg(self.blocks@);
        }
        self.size - self.free()
    }

    /// Serves a request for `size` bytes aligned to `align` by first fit:
    /// the first free node, in address order, that can hold the consumed
    /// range is split. A leading part stays on the list when the chosen
    /// address was bumped past the node's start (the bump keeps it at least
    /// a node footprint); a trailing part stays on the list exactly when it
    /// can host a node of its own. Returns the aligned address, or `None`
    /// when no node fits — in particular whenever the request exceeds the
    /// total of free bytes.
    pub fn allocate(&mut self, size: usize, align: usize) -> (r: Option<usize>)
        requires
            old(self).wf(),
            old(self).is_ready(),
            0 < size,
            is_power_of_two(align as int),
        ensures
            final(self).wf(),
            final(self).is_ready(),
            final(self).region_base() == old(self).region_base(),
            final(self).region_size() == old(self).region_size(),
            match r {
                Some(p) => {
                    &&& exists|i: int|
                        {
                            &&& 0 <= i < old(self).free_nodes().len()
                            &&& #[trigger] node_fits(
                                old(self).free_nodes()[i],
                                size as int,
                                align as int,
                            )
                            &&& forall|j: int|
                                0 <= j < i ==> !node_fits(
                                    old(self).free_nodes()[j],
                                    size as int,
                                    align as int,
                                )
                            &&& p as int == chosen_addr(old(self).free_nodes()[i], align as int)
                            &&& alloc_case(
                                old(self).free_nodes(),
                                p as int,
                                eff_size(size as int),
                                final(self).free_nodes(),
                                i,
                            )
                        }
                    &&& p as int % align as int == 0
                    &&& old(self).region_base() <= p
                    &&& p + eff_size(size as int) <= old(self).region_base()
                        + old(self).region_size()
                    &&& final(self).spec_free() == old(self).spec_free() - eff_size(size as int)
                    &&& final(self).alloc_blocks().len() == old(self).alloc_blocks().len() + 1
                    &&& final(self).alloc_blocks().drop_last() == old(self).alloc_blocks()
                    &&& final(self).alloc_blocks().last().addr == p
                    &&& final(self).alloc_blocks().last().size as int == eff_size(size as int)
                },
                None => {
                    &&& final(self).free_nodes() == old(self).free_nodes()
                    &&& final(self).alloc_blocks() == old(self).alloc_blocks()
                    &&& forall|j: int|
                        0 <= j < old(self).free_nodes().len() ==> !node_fits(
                            old(self).free_nodes()[j],
                            size as int,
                            align as int,
                        )
                },
            },
            size as int > old(self).spec_free() ==> r is None,
    {
        proof {
            // a power of two is positive: unfolding one step rules out 0
            assert(1 <= align);
            lemma_eff_size(size as int);
        }
        // The consumed size; if rounding it up leaves the machine word, no
        // node can fit the request at all.
        let m = if size < MIN_NODE_SIZE {
            MIN_NODE_SIZE
        } else {
            size
        };
        let rem = m % NODE_ALIGN;
        if rem != 0 && m > usize::MAX - (NODE_ALIGN - rem) {
            proof {
                assert forall|j: int|
                    0 <= j < self.holes@.len() implies !node_fits(
                    self.holes@[j],
                    size as int,
                    align as int,
                ) by {
                    let h = self.holes@[j];
                    lemma_chosen_addr(h, align as int);
                    assert(h.end() <= usize::MAX);
                    assert(eff_size(size as int) > usize::MAX);
                }
            }
            return None;
        }
        let e = if rem == 0 {
            m
        } else {
            m + (NODE_ALIGN - rem)
        };
        proof {
            assert(e as int == eff_size(size as int));
        }

        let n = self.holes.len();
        let mut i: usize = 0;
        while i < n
            invariant
                self.wf(),
                self.is_ready(),
                old(self).wf(),
                old(self).is_ready(),
                self.base == old(self).base,
                self.size == old(self).size,
                self.holes@ == old(self).holes@,
                self.blocks@ == old(self).blocks@,
                n == self.holes@.len(),
                i <= n,
                0 < size,
                1 <= align,
                is_power_of_two(align as int),
                e as int == eff_size(size as int),
                MIN_NODE_SIZE <= e,
                size <= e,
                forall|j: int|
                    0 <= j < i ==> !node_fits(self.holes@[j], size as int, align as int),
            decreases n - i,
        {
            let h = self.holes[i];
            proof {
                assert(MIN_NODE_SIZE <= h.size && node_in_region(
                    h,
                    self.base as int,
                    self.size as int,
                ));
                lemma_chosen_addr(h, align as int);
            }
            // the address this node would hand out, when it exists in a
            // machine word
            let mut chosen: usize = 0;
            let mut have_addr = false;
            if h.addr % align == 0 {
                chosen = h.addr;
                have_addr = true;
            } else {
                let x = h.addr + MIN_NODE_SIZE;
                let xr = x % align;
                if xr == 0 {
                    chosen = x;
                    have_addr = true;
                } else if x <= usize::MAX - (align - xr) {
                    chosen = x + (align - xr);
                    have_addr = true;
                }
            }
            proof {
                if have_addr {
                    assert(chosen as int == chosen_addr(h, align as int));
                } else {
                    assert(chosen_addr(h, align as int) > usize::MAX);
                }
            }
            let hole_end = h.addr + h.size;
            let mut served = false;
            let mut back: usize = 0;
            if have_addr && chosen <= hole_end && e <= hole_end - chosen {
                back = (hole_end - chosen) - e;
                if back == 0 || back >= MIN_NODE_SIZE {
                    served = true;
                }
            }
            if served {
                let front = chosen - h.addr;
                proof {
                    assert(node_fits(h, size as int, align as int));
                    assert(front == 0 || front >= MIN_NODE_SIZE);
                }
                let ghost s = self.holes@;
                let ghost hi = i as int;
                if front == 0 && back == 0 {
                    self.holes.remove(i);
                } else if front == 0 {
                    self.holes[i] = FreeNode { addr: chosen + e, size: back };
                } else if back == 0 {
                    self.holes[i] = FreeNode { addr: h.addr, size: front };
                } else {
                    self.holes[i] = FreeNode { addr: h.addr, size: front };
                    self.holes.insert(i + 1, FreeNode { addr: chosen + e, size: back });
                }
                let nb = FreeNode { addr: chosen, size: e };
                proof {
                    self.blocks@ = self.blocks@.push(nb);
                }
                proof {
                    self.lemma_after_split(*old(self), s, hi, h, nb, front, back);
                    lemma_sum_element_le(s, hi);
                    assert(self.blocks@.drop_last() =~= old(self).blocks@);
                    assert(old(self).free_nodes() == s);
                    assert(node_fits(old(self).free_nodes()[hi], size as int, align as int));
                    assert(forall|j: int|
                        0 <= j < hi ==> !node_fits(
                            old(self).free_nodes()[j],
                            size as int,
                            align as int,
                        ));
                    assert(chosen as int == chosen_addr(old(self).free_nodes()[hi], align as int));
                    assert(alloc_case(s, chosen as int, e as int, self.holes@, hi));
                }
                return Some(chosen);
            }
            proof {
                assert(!node_fits(h, size as int, align as int));
            }
            i = i + 1;
        }
        proof {
            assert forall|j: int|
                0 <= j < old(self).free_nodes().len() implies !node_fits(
                old(self).free_nodes()[j],
                size as int,
                align as int,
            ) by {
            }
        }
        None
    }

    /// After a successful split of hole `s[i] == h` into an optional front
    /// node, the handed-out block `nb`, and an optional back node, the
    /// invariant holds again and the free bytes went down by the block.
    proof fn lemma_after_split(
        self,
        prev: Heap,
        s: Seq<FreeNode>,
        i: int,
        h: FreeNode,
        nb: FreeNode,
        front: usize,
        back: usize,
    )
        requires
            prev.wf(),
            prev.ready,
            self.ready,
            self.base == prev.base,
            self.size == prev.size,
            s == prev.holes@,
            0 <= i < s.len(),
            h == s[i],
            front == 0 || MIN_NODE_SIZE <= front,
            back == 0 || MIN_NODE_SIZE <= back,
            MIN_NODE_SIZE <= nb.size,
            nb.addr == h.addr + front,
            nb.addr + nb.size + back == h.end(),
            self.blocks@ == prev.blocks@.push(nb),
            self.holes@ == (if front == 0 && back == 0 {
                s.remove(i)
            } else if front == 0 {
                s.update(i, (FreeNode { addr: ((nb.addr + nb.size) as usize), size: back }))
            } else if back == 0 {
                s.update(i, (FreeNode { addr: h.addr, size: front }))
            } else {
                s.update(i, (FreeNode { addr: h.addr, size: front })).insert(
                    i + 1,
                    (FreeNode { addr: ((nb.addr + nb.size) as usize), size: back }),
                )
            }),
        ensures
            self.wf(),
            sum_sizes(self.holes@) == sum_sizes(s) - nb.size,
    {
        let base = self.base as int;
        let size = self.size as int;
        let fnode = FreeNode { addr: h.addr, size: front };
        let bnode = FreeNode { addr: ((nb.addr + nb.size) as usize), size: back };
        let v = self.holes@;
        assert(node_in_region(h, base, size));
        assert(h.size == front + nb.size + back);
        assert(bnode.addr == nb.addr + nb.size);

        // how the free byte total moved
        lemma_sum_push(prev.blocks@, nb);
        if front == 0 && back == 0 {
            lemma_sum_remove(s, i);
        } else if front == 0 {
            lemma_sum_update(s, i, bnode);
        } else if back == 0 {
            lemma_sum_update(s, i, fnode);
        } else {
            lemma_sum_update(s, i, fnode);
            lemma_sum_insert(s.update(i, fnode), i + 1, bnode);
        }
        assert(sum_sizes(v) == sum_sizes(s) - nb.size);

        // every new hole is an untouched old hole, or a part of `h`
        assert forall|a: int| 0 <= a < v.len() implies MIN_NODE_SIZE <= (#[trigger] v[a]).size
            && node_in_region(v[a], base, size) by {
            if front == 0 && back == 0 {
                let k = if a < i {
                    a
                } else {
                    a + 1
                };
                assert(v[a] == s[k]);
            } else if front == 0 || back == 0 {
                if a != i {
                    assert(v[a] == s[a]);
                }
            } else {
                if a < i {
                    assert(v[a] == s[a]);
                } else if a >= i + 2 {
                    assert(v[a] == s[a - 1]);
                }
            }
        }

        // address order with separation is preserved
        assert forall|a: int, b: int|
            #![trigger v[a], v[b]]
            0 <= a < b < v.len() implies v[a].end() < v[b].addr by {
            if front == 0 && back == 0 {
                let ka = if a < i {
                    a
                } else {
                    a + 1
                };
                let kb = if b < i {
                    b
                } else {
                    b + 1
                };
                assert(v[a] == s[ka] && v[b] == s[kb]);
                assert(s[ka].end() < s[kb].addr);
            } else if front == 0 || back == 0 {
                if a != i && b != i {
                    assert(v[a] == s[a] && v[b] == s[b]);
                } else if a == i {
                    assert(v[b] == s[b]);
                    assert(s[i].end() < s[b].addr);
                    assert(v[a].end() <= h.end());
                } else {
                    assert(v[a] == s[a]);
                    assert(s[a].end() < s[i].addr);
                    assert(h.addr <= v[b].addr);
                }
            } else {
                let ka = if a < i {
                    a
                } else if a >= i + 2 {
                    a - 1
                } else {
                    i
                };
                let kb = if b < i {
                    b
                } else if b >= i + 2 {
                    b - 1
                } else {
                    i
                };
                if a < i {
                    assert(v[a] == s[a]);
                }
                if a >= i + 2 {
                    assert(v[a] == s[a - 1]);
                }
                if b < i {
                    assert(v[b] == s[b]);
                }
                if b >= i + 2 {
                    assert(v[b] == s[b - 1]);
                }
                if a == i {
                    assert(v[a] == fnode);
                }
                if a == i + 1 {
                    assert(v[a] == bnode);
                }
                if b == i {
                    assert(v[b] == fnode);
                }
                if b == i + 1 {
                    assert(v[b] == bnode);
                }
                if ka < kb {
                    assert(s[ka].end() < s[kb].addr);
                }
            }
        }

        // the new block lies inside `h`, so it stays clear of everything the
        // old holes and blocks were clear of
        assert(h.addr <= nb.addr && nb.addr + nb.size <= h.end());
        let w = self.blocks@;
        assert forall|a: int| 0 <= a < w.len() implies MIN_NODE_SIZE <= (#[trigger] w[a]).size
            && node_in_region(w[a], base, size) by {
            if a < prev.blocks@.len() {
                assert(w[a] == prev.blocks@[a]);
            } else {
                assert(w[a] == nb);
            }
        }
        assert forall|a: int, b: int|
            #![trigger w[a], w[b]]
            0 <= a < w.len() && 0 <= b < w.len() && a != b implies nodes_disjoint(
            w[a],
            w[b],
        ) by {
            let pl = prev.blocks@.len() as int;
            if a < pl && b < pl {
                assert(nodes_disjoint(prev.blocks@[a], prev.blocks@[b]));
            } else if a < pl {
                assert(w[b] == nb);
                assert(nodes_disjoint(prev.blocks@[a], s[i]));
            } else {
                assert(w[a] == nb);
                assert(nodes_disjoint(prev.blocks@[b], s[i]));
            }
        }
        assert forall|a: int, b: int|
            #![trigger w[a], v[b]]
            0 <= a < w.len() && 0 <= b < v.len() implies nodes_disjoint(w[a], v[b]) by {
            let pl = prev.blocks@.len() as int;
            // the old hole the new one comes from, or `i` for a fragment
            let k = if front == 0 && back == 0 {
                if b < i {
                    b
                } else {
                    b + 1
                }
            } else if front == 0 || back == 0 {
                b
            } else {
                if b < i {
                    b
                } else if b >= i + 2 {
                    b - 1
                } else {
                    i
                }
            };
            if k != i {
                assert(v[b] == s[k]);
                if a < pl {
                    assert(nodes_disjoint(prev.blocks@[a], s[k]));
                } else {
                    // `nb` lies inside `h`, which is separated from `s[k]`
                    assert(w[a] == nb);
                    assert(s[k].end() < s[i].addr || s[i].end() < s[k].addr);
                }
            } else {
                // a fragment of `h`: the front padding ends where the block
                // starts, the back padding starts where it ends
                assert(v[b] == fnode || v[b] == bnode);
                assert(h.addr <= v[b].addr && v[b].end() <= h.end());
                if a < pl {
                    assert(nodes_disjoint(prev.blocks@[a], s[i]));
                } else {
                    assert(w[a] == nb);
                    assert(fnode.end() == nb.addr);
                    assert(bnode.addr == nb.addr + nb.size);
                }
            }
        }
        lemma_sum_nonneg(prev.blocks@);
    }

    /// Releases the block at `ptr` that was obtained from `allocate` with
    /// the identical `size` and `align` and not released since — the ghost
    /// record of handed-out blocks states exactly that. The range the block
    /// consumed is put back as a free node at its address-sorted position
    /// and merged with the neighbouring free node on either side wherever
    /// the ranges touch.
    pub fn deallocate(&mut self, ptr: usize, size: usize, align: usize)
        requires
            old(self).wf(),
            old(self).is_ready(),
            0 < size,
            is_power_of_two(align as int),
            exists|k: int|
                0 <= k < old(self).alloc_blocks().len() && (#[trigger] old(
                    self,
                ).alloc_blocks()[k]).addr == ptr && old(self).alloc_blocks()[k].size as int
                    == eff_size(size as int),
        ensures
            final(self).wf(),
            final(self).is_ready(),
            final(self).region_base() == old(self).region_base(),
            final(self).region_size() == old(self).region_size(),
            final(self).spec_free() == old(self).spec_free() + eff_size(size as int),
            dealloc_rel(
                old(self).free_nodes(),
                ptr as int,
                eff_size(size as int),
                final(self).free_nodes(),
            ),
            exists|k: int|
                0 <= k < old(self).alloc_blocks().len() && (#[trigger] old(
                    self,
                ).alloc_blocks()[k]).addr == ptr && old(self).alloc_blocks()[k].size as int
                    == eff_size(size as int) && final(self).alloc_blocks() == old(
                    self,
                ).alloc_blocks().remove(k),
    {
        let ghost bi = choose|k: int|
            0 <= k < old(self).alloc_blocks().len() && (#[trigger] old(self).alloc_blocks()[k]).addr
                == ptr && old(self).alloc_blocks()[k].size as int == eff_size(size as int);
        let ghost blk = self.blocks@[bi];
        proof {
            assert(node_in_region(blk, self.base as int, self.size as int));
            lemma_eff_size(size as int);
        }
        // the consumed size of the block, recomputed from the request
        let m = if size < MIN_NODE_SIZE {
            MIN_NODE_SIZE
        } else {
            size
        };
        let rem = m % NODE_ALIGN;
        let e = if rem == 0 {
            m
        } else {
            m + (NODE_ALIGN - rem)
        };
        proof {
            assert(e as int == eff_size(size as int));
            assert(blk == (FreeNode { addr: ptr, size: e }));
        }

        // find the address-sorted insertion point
        let n = self.holes.len();
        let mut i: usize = 0;
        while i < n && self.holes[i].addr < ptr
            invariant
                self == old(self),
                old(self).wf(),
                old(self).is_ready(),
                n == self.holes@.len(),
                i <= n,
                forall|k: int| 0 <= k < i ==> (#[trigger] self.holes@[k]).addr < ptr,
            decreases n - i,
        {
            i = i + 1;
        }
        proof {
            assert forall|k: int| i <= k < n implies ptr < (#[trigger] self.holes@[k]).addr by {
                assert(nodes_disjoint(self.blocks@[bi], self.holes@[k]));
                if k > i {
                    assert(self.holes@[i as int].end() < self.holes@[k].addr);
                }
                assert(nodes_disjoint(self.blocks@[bi], self.holes@[i as int]));
            }
            assert forall|k: int| 0 <= k < i implies (#[trigger] self.holes@[k]).end() <= ptr by {
                assert(nodes_disjoint(self.blocks@[bi], self.holes@[k]));
            }
        }
        let ghost s = self.holes@;
        let ghost hi = i as int;
        let pred = i > 0 && self.holes[i - 1].addr + self.holes[i - 1].size == ptr;
        let succ = i < n && ptr + e == self.holes[i].addr;
        if pred && succ {
            let pn = self.holes[i - 1];
            let sn = self.holes[i];
            proof {
                assert(nodes_disjoint(self.blocks@[bi], self.holes@[hi]));
                assert(sn.end() <= self.base + self.size);
            }
            self.holes[i - 1] = FreeNode { addr: pn.addr, size: pn.size + e + sn.size };
            self.holes.remove(i);
        } else if pred {
            let pn = self.holes[i - 1];
            self.holes[i - 1] = FreeNode { addr: pn.addr, size: pn.size + e };
        } else if succ {
            let sn = self.holes[i];
            proof {
                assert(sn.end() <= self.base + self.size);
            }
            self.holes[i] = FreeNode { addr: ptr, size: e + sn.size };
        } else {
            self.holes.insert(i, FreeNode { addr: ptr, size: e });
        }
        proof {
            self.blocks@ = self.blocks@.remove(bi);
            self.lemma_after_insert(*old(self), s, hi, bi, ptr, e, pred, succ);
            assert(dealloc_case(s, ptr as int, e as int, self.holes@, hi));
            assert(0 <= bi < old(self).alloc_blocks().len() && old(self).alloc_blocks()[bi].addr
                == ptr && old(self).alloc_blocks()[bi].size as int == eff_size(size as int)
                && self.blocks@ == old(self).alloc_blocks().remove(bi));
        }
    }

    /// After the block `[p, p + e)` comes back to the free list — merged
    /// into a touching neighbour node or inserted at position `i` — the
    /// invariant holds again and the free bytes went up by the block.
    #[verifier::rlimit(60)]
    proof fn lemma_after_insert(
        self,
        prev: Heap,
        s: Seq<FreeNode>,
        i: int,
        bi: int,
        p: usize,
        e: usize,
        pred: bool,
        succ: bool,
    )
        requires
            prev.wf(),
            prev.ready,
            self.ready,
            self.base == prev.base,
            self.size == prev.size,
            s == prev.holes@,
            0 <= i <= s.len(),
            0 <= bi < prev.blocks@.len(),
            prev.blocks@[bi] == (FreeNode { addr: p, size: e }),
            MIN_NODE_SIZE <= e,
            forall|k: int| 0 <= k < i ==> (#[trigger] s[k]).end() <= p,
            forall|k: int| 0 <= k < i ==> (#[trigger] s[k]).addr < p,
            forall|k: int| i <= k < s.len() ==> p + e <= (#[trigger] s[k]).addr,
            pred <==> (i > 0 && s[i - 1].end() == p),
            succ <==> (i < s.len() && p + e == s[i].addr),
            self.blocks@ == prev.blocks@.remove(bi),
            self.holes@ == (if pred && succ {
                s.update(
                    i - 1,
                    (FreeNode {
                        addr: s[i - 1].addr,
                        size: ((s[i - 1].size + e + s[i].size) as usize),
                    }),
                ).remove(i)
            } else if pred {
                s.update(
                    i - 1,
                    (FreeNode { addr: s[i - 1].addr, size: ((s[i - 1].size + e) as usize) }),
                )
            } else if succ {
                s.update(i, (FreeNode { addr: p, size: ((e + s[i].size) as usize) }))
            } else {
                s.insert(i, (FreeNode { addr: p, size: e }))
            }),
        ensures
            self.wf(),
            sum_sizes(self.holes@) == sum_sizes(s) + e,
    {
        let base = self.base as int;
        let size = self.size as int;
        let v = self.holes@;
        let blk = FreeNode { addr: p, size: e };
        assert(node_in_region(blk, base, size));

        // where the merged node begins and ends
        let lo: int = if pred {
            s[i - 1].addr as int
        } else {
            p as int
        };
        let hi: int = if succ {
            s[i].end()
        } else {
            p + e
        };
        if pred {
            assert(node_in_region(s[i - 1], base, size));
        }
        if succ {
            assert(node_in_region(s[i], base, size));
        }

        // the free byte total
        if pred && succ {
            lemma_sum_update(
                s,
                i - 1,
                (FreeNode {
                    addr: s[i - 1].addr,
                    size: ((s[i - 1].size + e + s[i].size) as usize),
                }),
            );
            lemma_sum_remove(
                s.update(
                    i - 1,
                    (FreeNode {
                        addr: s[i - 1].addr,
                        size: ((s[i - 1].size + e + s[i].size) as usize),
                    }),
                ),
                i,
            );
        } else if pred {
            lemma_sum_update(
                s,
                i - 1,
                (FreeNode { addr: s[i - 1].addr, size: ((s[i - 1].size + e) as usize) }),
            );
        } else if succ {
            lemma_sum_update(s, i, (FreeNode { addr: p, size: ((e + s[i].size) as usize) }));
        } else {
            lemma_sum_insert(s, i, (FreeNode { addr: p, size: e }));
        }
        assert(sum_sizes(v) == sum_sizes(s) + e);
        lemma_sum_remove(prev.blocks@, bi);

        // every new hole is an untouched old hole or the merged node
        // `[lo, hi)`; index arithmetic settles which
        let merged_at: int = if pred {
            i - 1
        } else {
            i
        };
        assert(v[merged_at].addr == lo && v[merged_at].end() == hi && MIN_NODE_SIZE <= v[
            merged_at].size);
        assert forall|a: int| 0 <= a < v.len() implies MIN_NODE_SIZE <= (#[trigger] v[a]).size
            && node_in_region(v[a], base, size) by {
            if a != merged_at {
                assert(v[a] == s[(Self::old_index(a, i, pred, succ))]);
            }
        }
        assert forall|a: int, b: int|
            #![trigger v[a], v[b]]
            0 <= a < b < v.len() implies v[a].end() < v[b].addr by {
            let ka = Self::old_index(a, i, pred, succ);
            let kb = Self::old_index(b, i, pred, succ);
            if a != merged_at {
                assert(v[a] == s[ka]);
            }
            if b != merged_at {
                assert(v[b] == s[kb]);
            }
            if a == merged_at {
                // the node after the merge begins past `hi`, with a gap:
                // it did not merge, so it does not touch
                assert(v[b] == s[kb] && i <= kb);
                if succ {
                    assert(s[i].end() < s[kb].addr);
                } else {
                    if i < kb {
                        assert(s[i].end() < s[kb].addr);
                        assert(p + e <= s[i].addr);
                    }
                    assert(p + e <= s[kb].addr && p + e != s[kb].addr);
                }
            } else if b == merged_at {
                assert(v[a] == s[ka] && ka < i);
                if pred {
                    assert(s[ka].end() < s[i - 1].addr);
                } else {
                    if ka < i - 1 {
                        assert(s[ka].end() < s[i - 1].addr);
                        assert(s[i - 1].addr < p);
                    }
                    assert(s[ka].end() <= p && s[ka].end() != p);
                }
            } else {
                assert(s[ka].end() < s[kb].addr);
            }
        }

        // the remaining blocks still avoid each other and every free byte
        let w = self.blocks@;
        assert forall|a: int| 0 <= a < w.len() implies MIN_NODE_SIZE <= (#[trigger] w[a]).size
            && node_in_region(w[a], base, size) by {
            let ka = if a < bi {
                a
            } else {
                a + 1
            };
            assert(w[a] == prev.blocks@[ka]);
        }
        assert forall|a: int, b: int|
            #![trigger w[a], w[b]]
            0 <= a < w.len() && 0 <= b < w.len() && a != b implies nodes_disjoint(
            w[a],
            w[b],
        ) by {
            let ka = if a < bi {
                a
            } else {
                a + 1
            };
            let kb = if b < bi {
                b
            } else {
                b + 1
            };
            assert(w[a] == prev.blocks@[ka] && w[b] == prev.blocks@[kb]);
            assert(nodes_disjoint(prev.blocks@[ka], prev.blocks@[kb]));
        }
        assert forall|a: int, b: int|
            #![trigger w[a], v[b]]
            0 <= a < w.len() && 0 <= b < v.len() implies nodes_disjoint(w[a], v[b]) by {
            let ka = if a < bi {
                a
            } else {
                a + 1
            };
            assert(w[a] == prev.blocks@[ka] && ka != bi);
            let x = prev.blocks@[ka];
            if b == merged_at {
                // disjoint from the released block and from both old
                // neighbours, hence from the whole merged range
                assert(nodes_disjoint(x, prev.blocks@[bi]));
                if pred {
                    assert(nodes_disjoint(x, s[i - 1]));
                }
                if succ {
                    assert(nodes_disjoint(x, s[i]));
                }
                assert(MIN_NODE_SIZE <= x.size);
                assert(x.end() <= lo || hi <= x.addr);
            } else {
                let kb = Self::old_index(b, i, pred, succ);
                assert(v[b] == s[kb]);
                assert(nodes_disjoint(x, s[kb]));
            }
        }
    }

    /// Which old hole stands at position `a` of the new free list after a
    /// release at insertion point `i` merged (`pred`, `succ`) or not; for
    /// the merged node's own position the result is meaningless.
    spec fn old_index(a: int, i: int, pred: bool, succ: bool) -> int {
        if pred && succ {
            if a < i {
                a
            } else {
                a + 1
            }
        } else if pred || succ {
            a
        } else {
            if a < i {
                a
            } else {
                a - 1
            }
        }
    }

    /// How many nodes the free list holds right now.
    pub fn node_count(&self) -> (r: usize)
        ensures
            r == self.free_nodes().len(),
    {
        self.holes.len()
    }

    /// The `i`-th free node in address order, if the list is that long.
    pub fn node_at(&self, i: usize) -> (r: Option<FreeNode>)
        ensures
            i < self.free_nodes().len() ==> r == Some(self.free_nodes()[i as int]),
            self.free_nodes().len() <= i ==> r is None,
    {
        if i < self.holes.len() {
            Some(self.holes[i])
        } else {
            None
        }
    }

    /// Whether the allocator has been initialized.
    pub fn ready(&self) -> (r: bool)
        ensures
            r == self.is_ready(),
    {
        self.ready
    }
}

} // verus!
