//! Summing the sizes of a sequence of free nodes, and how the sum moves
//! under the sequence edits the engine performs.

use crate::model::FreeNode;
use vstd::prelude::*;

verus! {

/// Total number of bytes held by the nodes of `s`.
pub open spec fn sum_sizes(s: Seq<FreeNode>) -> int
    decreases s.len(),
{
    if s.len() == 0 {
        0
    } else {
        sum_sizes(s.drop_last()) + s.last().size
    }
}

pub proof fn lemma_sum_append(a: Seq<FreeNode>, b: Seq<FreeNode>)
    ensures
        sum_sizes(a + b) == sum_sizes(a) + sum_sizes(b),
    decreases b.len(),
{
    if b.len() == 0 {
        assert(a + b =~= a);
    } else {
        assert((a + b).drop_last() =~= a + b.drop_last());
        assert((a + b).last() == b.last());
        lemma_sum_append(a, b.drop_last());
    }
}

pub proof fn lemma_sum_nonneg(s: Seq<FreeNode>)
    ensures
        0 <= sum_sizes(s),
    decreases s.len(),
{
    if s.len() > 0 {
        lemma_sum_nonneg(s.drop_last());
    }
}

pub proof fn lemma_sum_singleton(n: FreeNode)
    ensures
        sum_sizes(seq![n]) == n.size,
{
    assert(seq![n].len() == 1);
    assert(seq![n].last() == n);
    assert(seq![n].drop_last() =~= Seq::<FreeNode>::empty());
    assert(sum_sizes(Seq::<FreeNode>::empty()) == 0);
}

/// Splitting a sequence at any point splits its sum.
pub proof fn lemma_sum_parts(s: Seq<FreeNode>, i: int)
    requires
        0 <= i <= s.len(),
    ensures
        sum_sizes(s) == sum_sizes(s.take(i)) + sum_sizes(s.skip(i)),
{
    assert(s =~= s.take(i) + s.skip(i));
    lemma_sum_append(s.take(i), s.skip(i));
}

pub proof fn lemma_sum_push(s: Seq<FreeNode>, n: FreeNode)
    ensures
        sum_sizes(s.push(n)) == sum_sizes(s) + n.size,
{
    assert(s.push(n).drop_last() =~= s);
    assert(s.push(n).last() == n);
}

pub proof fn lemma_sum_insert(s: Seq<FreeNode>, i: int, n: FreeNode)
    requires
        0 <= i <= s.len(),
    ensures
        sum_sizes(s.insert(i, n)) == sum_sizes(s) + n.size,
{
    assert(s.insert(i, n) =~= s.take(i) + (seq![n] + s.skip(i)));
    lemma_sum_append(s.take(i), seq![n] + s.skip(i));
    lemma_sum_append(seq![n], s.skip(i));
    lemma_sum_singleton(n);
    lemma_sum_parts(s, i);
}

pub proof fn lemma_sum_remove(s: Seq<FreeNode>, i: int)
    requires
        0 <= i < s.len(),
    ensures
        sum_sizes(s.remove(i)) == sum_sizes(s) - s[i].size,
{
    assert(s.remove(i) =~= s.take(i) + s.skip(i + 1));
    lemma_sum_append(s.take(i), s.skip(i + 1));
    assert(s.skip(i) =~= seq![s[i]] + s.skip(i + 1));
    lemma_sum_append(seq![s[i]], s.skip(i + 1));
    lemma_sum_singleton(s[i]);
    lemma_sum_parts(s, i);
}

pub proof fn lemma_sum_update(s: Seq<FreeNode>, i: int, n: FreeNode)
    requires
        0 <= i < s.len(),
    ensures
        sum_sizes(s.update(i, n)) == sum_sizes(s) - s[i].size + n.size,
{
    assert(s.update(i, n) =~= s.remove(i).insert(i, n));
    lemma_sum_remove(s, i);
    lemma_sum_insert(s.remove(i), i, n);
}

/// No single node holds more bytes than the whole list.
pub proof fn lemma_sum_element_le(s: Seq<FreeNode>, i: int)
    requires
        0 <= i < s.len(),
    ensures
        s[i].size <= sum_sizes(s),
{
    lemma_sum_remove(s, i);
    lemma_sum_nonneg(s.remove(i));
}

/// A prefix never sums to more than the whole list.
pub proof fn lemma_sum_take_le(s: Seq<FreeNode>, i: int)
    requires
        0 <= i <= s.len(),
    ensures
        sum_sizes(s.take(i)) <= sum_sizes(s),
{
    lemma_sum_parts(s, i);
    lemma_sum_nonneg(s.skip(i));
}

} // verus!
