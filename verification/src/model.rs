//! The mathematical model of the free list: nodes, the minimum node
//! footprint, alignment arithmetic, and the first-fit admission rule.

use vstd::arithmetic::div_mod::{
    lemma_fundamental_div_mod, lemma_mod_add_multiples_vanish,
    lemma_mod_division_less_than_divisor,
};
use vstd::prelude::*;

verus! {

/// Smallest byte range the free list can track: a node header needs one word
/// for the range's size and one for the link to the next node.
pub const MIN_NODE_SIZE: usize = 16;

/// Granularity kept by every consumed range, so that whatever follows it can
/// start a node header of its own.
pub const NODE_ALIGN: usize = 8;

/// One entry of the free list: a run of unused bytes `[addr, addr + size)`
/// inside the managed region.
#[derive(Clone, Copy, Debug, PartialEq, Eq, Structural)]
pub struct FreeNode {
    pub addr: usize,
    pub size: usize,
}

impl FreeNode {
    /// One past the last byte of the range.
    pub open spec fn end(self) -> int {
        self.addr + self.size
    }
}

/// Two byte ranges share no byte (touching ends are allowed).
pub open spec fn nodes_disjoint(a: FreeNode, b: FreeNode) -> bool {
    a.end() <= b.addr || b.end() <= a.addr
}

/// The range lies inside the region `[base, base + size)`.
pub open spec fn node_in_region(n: FreeNode, base: int, size: int) -> bool {
    base <= n.addr && n.end() <= base + size
}

/// The smallest multiple of `align` that is `>= a`.
pub open spec fn align_up(a: int, align: int) -> int {
    if a % align == 0 {
        a
    } else {
        a + align - a % align
    }
}

/// How many bytes a request for `size` bytes actually consumes: at least one
/// node footprint, rounded up to the node granularity so the bytes after the
/// block can host a node header.
pub open spec fn eff_size(size: int) -> int {
    let m = if size < MIN_NODE_SIZE as int {
        MIN_NODE_SIZE as int
    } else {
        size
    };
    align_up(m, NODE_ALIGN as int)
}

/// The address handed out when node `n` serves a request with alignment
/// `align`: the node's own start when already aligned, else the first aligned
/// address that leaves room for a front padding range of node size.
pub open spec fn chosen_addr(n: FreeNode, align: int) -> int {
    if n.addr as int % align == 0 {
        n.addr as int
    } else {
        align_up(n.addr + MIN_NODE_SIZE, align)
    }
}

/// Whether node `n` can serve a request of `size` bytes aligned to `align`:
/// the consumed range fits behind the chosen address, and the trailing
/// remainder is either empty or big enough to stay a node of its own.
/// The front padding, when present, is at least a node footprint by the
/// choice of address, so it always stays on the list.
pub open spec fn node_fits(n: FreeNode, size: int, align: int) -> bool {
    let a = chosen_addr(n, align);
    let e = eff_size(size);
    let back = n.end() - (a + e);
    a + e <= n.end() && (back == 0 || back >= MIN_NODE_SIZE as int)
}

/// The split `allocate` performs on the serving node `s[i]` when it hands
/// out the range `[p, p + e)`, turning the free list `s` into `v`: the
/// parts of the node before and after the block stay on the list exactly
/// when they are not empty, and a fully consumed node leaves the list.
pub open spec fn alloc_case(s: Seq<FreeNode>, p: int, e: int, v: Seq<FreeNode>, i: int) -> bool {
    let h = s[i];
    let front = p - h.addr;
    let back = h.end() - (p + e);
    &&& 0 <= i < s.len()
    &&& h.addr <= p
    &&& p + e <= h.end()
    &&& if front == 0 && back == 0 {
        v == s.remove(i)
    } else if front == 0 {
        v == s.update(i, (FreeNode { addr: ((p + e) as usize), size: (back as usize) }))
    } else if back == 0 {
        v == s.update(i, (FreeNode { addr: h.addr, size: (front as usize) }))
    } else {
        v == s.update(i, (FreeNode { addr: h.addr, size: (front as usize) })).insert(
            i + 1,
            (FreeNode { addr: ((p + e) as usize), size: (back as usize) }),
        )
    }
}

/// One possible outcome of handing the range `[p, p + e)` back to the free
/// list `s`, giving `v`, when the sorted insertion point is `i`: the range
/// merges with its predecessor node and/or its successor node wherever the
/// ranges touch, and otherwise becomes a node of its own.
pub open spec fn dealloc_case(s: Seq<FreeNode>, p: int, e: int, v: Seq<FreeNode>, i: int) -> bool {
    &&& 0 <= i <= s.len()
    &&& (i == 0 || s[i - 1].addr < p)
    &&& (i == s.len() || p < s[i].addr)
    &&& {
        let pred = i > 0 && s[i - 1].end() == p;
        let succ = i < s.len() && p + e == s[i].addr;
        if pred && succ {
            v == s.update(
                i - 1,
                (FreeNode {
                    addr: s[i - 1].addr,
                    size: ((s[i - 1].size + e + s[i].size) as usize),
                }),
            ).remove(i)
        } else if pred {
            v == s.update(
                i - 1,
                (FreeNode { addr: s[i - 1].addr, size: ((s[i - 1].size + e) as usize) }),
            )
        } else if succ {
            v == s.update(i, (FreeNode { addr: (p as usize), size: ((e + s[i].size) as usize) }))
        } else {
            v == s.insert(i, (FreeNode { addr: (p as usize), size: (e as usize) }))
        }
    }
}

/// How the free list changes when the range `[p, p + e)` is handed back:
/// `dealloc_case` at the (unique) address-sorted insertion point.
pub open spec fn dealloc_rel(s: Seq<FreeNode>, p: int, e: int, v: Seq<FreeNode>) -> bool {
    exists|i: int| #[trigger] dealloc_case(s, p, e, v, i)
}

pub open spec fn is_power_of_two(a: int) -> bool
    decreases a,
{
    if a <= 0 {
        false
    } else if a == 1 {
        true
    } else {
        a % 2 == 0 && is_power_of_two(a / 2)
    }
}

/// `align_up` lands on a multiple of `align`, at or above `a`, and less than
/// one full `align` above it.
pub proof fn lemma_align_up(a: int, align: int)
    requires
        0 <= a,
        1 <= align,
    ensures
        align_up(a, align) % align == 0,
        a <= align_up(a, align) < a + align,
{
    let r = a % align;
    lemma_mod_division_less_than_divisor(a, align);
    if r != 0 {
        lemma_fundamental_div_mod(a, align);
        assert(a - r == (a / align) * align);
        assert((a - r) % align == 0) by {
            lemma_mod_multiple(a / align, align);
        }
        lemma_mod_add_multiples_vanish(a - r, align);
    }
}

/// A multiple of `m` leaves no remainder.
pub proof fn lemma_mod_multiple(k: int, m: int)
    requires
        1 <= m,
    ensures
        (k * m) % m == 0,
{
    vstd::arithmetic::div_mod::lemma_mod_multiples_basic(k, m);
}

/// The chosen address is aligned and does not lie before its node.
pub proof fn lemma_chosen_addr(n: FreeNode, align: int)
    requires
        1 <= align,
    ensures
        chosen_addr(n, align) % align == 0,
        n.addr <= chosen_addr(n, align),
        n.addr as int % align != 0 ==> n.addr + MIN_NODE_SIZE <= chosen_addr(n, align),
{
    if n.addr as int % align != 0 {
        lemma_align_up(n.addr + MIN_NODE_SIZE, align);
    }
}

/// The consumed size covers the request and is itself at least a node
/// footprint, aligned to the node granularity.
pub proof fn lemma_eff_size(size: int)
    requires
        0 <= size,
    ensures
        size <= eff_size(size),
        MIN_NODE_SIZE <= eff_size(size),
        eff_size(size) < size + MIN_NODE_SIZE + NODE_ALIGN,
        eff_size(size) % (NODE_ALIGN as int) == 0,
{
    let m = if size < MIN_NODE_SIZE as int {
        MIN_NODE_SIZE as int
    } else {
        size
    };
    lemma_align_up(m, NODE_ALIGN as int);
}

} // verus!
