//! Pupil masks: which samples of the grid belong to a segment.
//!
//! A mask is a sequence of booleans, one per sample. The samples it selects
//! are always taken in the order in which the mask meets them, so the `k`-th
//! selected sample is the one at the `k`-th `true` entry.

use vstd::prelude::*;

verus! {

/// The number of `true` entries of `mask`.
pub open spec fn count(mask: Seq<bool>) -> nat
    decreases mask.len(),
{
    if mask.len() == 0 {
        0
    } else {
        count(mask.drop_last()) + if mask.last() {
            1nat
        } else {
            0nat
        }
    }
}

/// The number of `true` entries of `mask` before position `i`: the place that
/// sample `i` takes among the selected samples.
pub open spec fn rank(mask: Seq<bool>, i: int) -> nat {
    count(mask.take(i))
}

/// Whether every entry of `mask` is `true`.
pub open spec fn all_true(mask: Seq<bool>) -> bool {
    forall|i: int| 0 <= i < mask.len() ==> mask[i]
}

/// The samples of `data` that `mask` selects, in order.
pub open spec fn gather<T>(mask: Seq<bool>, data: Seq<T>) -> Seq<T>
    recommends
        mask.len() <= data.len(),
    decreases mask.len(),
{
    if mask.len() == 0 {
        Seq::empty()
    } else if mask.last() {
        gather(mask.drop_last(), data).push(data[mask.len() - 1])
    } else {
        gather(mask.drop_last(), data)
    }
}

/// `global` with the selected samples replaced, in order, by those of `local`.
pub open spec fn scatter<T>(mask: Seq<bool>, global: Seq<T>, local: Seq<T>) -> Seq<T>
    recommends
        mask.len() == global.len(),
        local.len() == count(mask),
{
    Seq::new(
        global.len(),
        |i: int|
            if mask[i] {
                local[rank(mask, i) as int]
            } else {
                global[i]
            },
    )
}

/// The samples that `a` or `b` selects.
pub open spec fn either(a: Seq<bool>, b: Seq<bool>) -> Seq<bool>
    recommends
        a.len() == b.len(),
{
    Seq::new(a.len(), |i: int| a[i] || b[i])
}

/// Taking one more entry into account adds one to the count exactly when
/// that entry is `true`.
pub proof fn lemma_rank_step(mask: Seq<bool>, i: int)
    requires
        0 <= i < mask.len(),
    ensures
        rank(mask, i + 1) == rank(mask, i) + if mask[i] {
            1nat
        } else {
            0nat
        },
{
    assert(mask.take(i + 1).drop_last() =~= mask.take(i));
}

/// The rank never decreases, and never exceeds the position.
pub proof fn lemma_rank_bounds(mask: Seq<bool>, i: int, j: int)
    requires
        0 <= i <= j <= mask.len(),
    ensures
        rank(mask, i) <= rank(mask, j),
        rank(mask, j) - rank(mask, i) <= j - i,
        rank(mask, mask.len() as int) == count(mask),
        rank(mask, 0) == 0,
    decreases j - i,
{
    assert(mask.take(mask.len() as int) =~= mask);
    assert(mask.take(0).len() == 0);
    if i < j {
        lemma_rank_bounds(mask, i, j - 1);
        lemma_rank_step(mask, j - 1);
    }
}

/// A mask selects no more samples than it has entries, and a selected sample
/// has a place among them.
pub proof fn lemma_rank_of_selected(mask: Seq<bool>, i: int)
    requires
        0 <= i < mask.len(),
        mask[i],
    ensures
        rank(mask, i) < count(mask),
        count(mask) <= mask.len(),
{
    lemma_rank_step(mask, i);
    lemma_rank_bounds(mask, i + 1, mask.len() as int);
    lemma_rank_bounds(mask, 0, mask.len() as int);
}

/// A mask selects no more samples than it has entries.
pub proof fn lemma_count_bound(mask: Seq<bool>)
    ensures
        count(mask) <= mask.len(),
{
    lemma_rank_bounds(mask, 0, mask.len() as int);
}

/// What a prefix of the mask selects does not depend on the rest of it.
pub proof fn lemma_gather_prefix<T>(mask: Seq<bool>, data: Seq<T>, n: int)
    requires
        0 <= n <= mask.len(),
    ensures
        gather(mask.take(n), data).len() == rank(mask, n),
        forall|i: int|
            0 <= i < n && mask[i] ==> #[trigger] gather(mask.take(n), data)[rank(mask, i) as int]
                == data[i],
    decreases n,
{
    if n > 0 {
        lemma_gather_prefix(mask, data, n - 1);
        lemma_rank_step(mask, n - 1);
        assert(mask.take(n).drop_last() =~= mask.take(n - 1));
        assert forall|i: int| 0 <= i < n && mask[i] implies #[trigger] gather(
            mask.take(n),
            data,
        )[rank(mask, i) as int] == data[i] by {
            if i < n - 1 {
                lemma_rank_step(mask, i);
                lemma_rank_bounds(mask, i + 1, n - 1);
            }
        }
    }
}

/// As many samples are gathered as the mask selects, and the sample at a
/// selected position is found at its rank.
pub proof fn lemma_gather<T>(mask: Seq<bool>, data: Seq<T>)
    ensures
        gather(mask, data).len() == count(mask),
        forall|i: int|
            0 <= i < mask.len() && mask[i] ==> #[trigger] gather(mask, data)[rank(mask, i) as int]
                == data[i],
{
    lemma_gather_prefix(mask, data, mask.len() as int);
    assert(mask.take(mask.len() as int) =~= mask);
}

/// Two gathers agree when the data agree wherever the mask selects.
pub proof fn lemma_gather_agree<T>(mask: Seq<bool>, a: Seq<T>, b: Seq<T>)
    requires
        forall|i: int| 0 <= i < mask.len() && mask[i] ==> a[i] == b[i],
    ensures
        gather(mask, a) == gather(mask, b),
    decreases mask.len(),
{
    if mask.len() > 0 {
        lemma_gather_agree(mask.drop_last(), a, b);
    }
}

/// Writing samples into a field and reading them back through the same mask
/// returns the samples unchanged.
pub proof fn lemma_gather_scatter<T>(mask: Seq<bool>, global: Seq<T>, local: Seq<T>)
    requires
        mask.len() == global.len(),
        local.len() == count(mask),
    ensures
        gather(mask, scatter(mask, global, local)) == local,
{
    let written = scatter(mask, global, local);
    lemma_gather(mask, written);
    assert forall|k: int| 0 <= k < local.len() implies gather(mask, written)[k] == local[k] by {
        let i = lemma_selected_at(mask, k);
        assert(gather(mask, written)[rank(mask, i) as int] == written[i]);
    }
    assert(gather(mask, written) =~= local);
}

/// Every place among the selected samples belongs to one selected position.
pub proof fn lemma_selected_at(mask: Seq<bool>, k: int) -> (i: int)
    requires
        0 <= k < count(mask),
    ensures
        0 <= i < mask.len(),
        mask[i],
        rank(mask, i) == k,
    decreases mask.len(),
{
    let n = mask.len() as int;
    assert(mask.take(n) =~= mask);
    lemma_rank_step(mask, n - 1);
    if mask[n - 1] && rank(mask, n - 1) == k {
        n - 1
    } else {
        let head = mask.drop_last();
        assert(head =~= mask.take(n - 1));
        let i = lemma_selected_at(head, k);
        assert(head.take(i) =~= mask.take(i));
        i
    }
}

/// Writing back what was read through a mask leaves the field unchanged.
pub proof fn lemma_scatter_gather<T>(mask: Seq<bool>, global: Seq<T>)
    requires
        mask.len() == global.len(),
    ensures
        scatter(mask, global, gather(mask, global)) == global,
{
    lemma_gather(mask, global);
    assert(scatter(mask, global, gather(mask, global)) =~= global);
}

/// A mask that selects everything gathers the whole field.
pub proof fn lemma_gather_all<T>(mask: Seq<bool>, data: Seq<T>)
    requires
        mask.len() == data.len(),
        all_true(mask),
    ensures
        gather(mask, data) == data,
        count(mask) == mask.len(),
    decreases mask.len(),
{
    if mask.len() > 0 {
        let head = mask.drop_last();
        lemma_gather_all(head, data.drop_last());
        lemma_gather_agree(head, data, data.drop_last());
        assert(gather(mask, data) =~= data);
    } else {
        assert(gather(mask, data) =~= data);
    }
}

/// A mask that selects nothing counts no sample.
pub proof fn lemma_count_none(mask: Seq<bool>)
    requires
        forall|i: int| 0 <= i < mask.len() ==> !mask[i],
    ensures
        count(mask) == 0,
    decreases mask.len(),
{
    if mask.len() > 0 {
        lemma_count_none(mask.drop_last());
    }
}

/// Two masks that select no sample in common select, taken together, as many
/// samples as the one and the other.
pub proof fn lemma_count_either(a: Seq<bool>, b: Seq<bool>)
    requires
        a.len() == b.len(),
        forall|i: int| 0 <= i < a.len() ==> !(a[i] && b[i]),
    ensures
        count(either(a, b)) == count(a) + count(b),
    decreases a.len(),
{
    if a.len() > 0 {
        lemma_count_either(a.drop_last(), b.drop_last());
        assert(either(a, b).drop_last() =~= either(a.drop_last(), b.drop_last()));
    }
}

/// Counts the samples that `mask` selects.
pub fn n_selected(mask: &[bool]) -> (n: usize)
    ensures
        n == count(mask@),
{
    let mut n: usize = 0;
    let mut i: usize = 0;
    while i < mask.len()
        invariant
            i <= mask.len(),
            n == rank(mask@, i as int),
            n <= i,
        decreases mask.len() - i,
    {
        proof {
            lemma_rank_step(mask@, i as int);
        }
        if mask[i] {
            n += 1;
        }
        i += 1;
    }
    proof {
        lemma_rank_bounds(mask@, 0, mask@.len() as int);
    }
    n
}

/// Copies out the samples of `data` that `mask` selects, in order.
pub fn select<T: Copy>(mask: &[bool], data: &[T]) -> (out: Vec<T>)
    requires
        mask.len() == data.len(),
    ensures
        out@ == gather(mask@, data@),
{
    let mut out: Vec<T> = Vec::new();
    let mut i: usize = 0;
    while i < mask.len()
        invariant
            i <= mask.len(),
            mask.len() == data.len(),
            out@ == gather(mask@.take(i as int), data@),
        decreases mask.len() - i,
    {
        proof {
            assert(mask@.take(i + 1).drop_last() =~= mask@.take(i as int));
        }
        if mask[i] {
            out.push(data[i]);
        }
        i += 1;
    }
    proof {
        assert(mask@.take(i as int) =~= mask@);
    }
    out
}

/// Replaces the samples of `global` that `mask` selects by those of `local`,
/// in order, and leaves the others as they are.
pub fn replace<T: Copy>(mask: &[bool], global: &mut [T], local: &[T])
    requires
        mask.len() == old(global).len(),
        local.len() == count(mask@),
    ensures
        final(global)@ == scatter(mask@, old(global)@, local@),
{
    let mut k: usize = 0;
    let mut i: usize = 0;
    while i < mask.len()
        invariant
            i <= mask.len(),
            mask.len() == global.len(),
            global.len() == old(global).len(),
            local.len() == count(mask@),
            k == rank(mask@, i as int),
            forall|j: int|
                0 <= j < i ==> global@[j] == scatter(mask@, old(global)@, local@)[j],
            forall|j: int| i <= j < global.len() ==> global@[j] == old(global)@[j],
        decreases mask.len() - i,
    {
        proof {
            lemma_rank_step(mask@, i as int);
        }
        if mask[i] {
            proof {
                lemma_rank_of_selected(mask@, i as int);
            }
            global[i] = local[k];
            k += 1;
        }
        i += 1;
    }
    proof {
        assert(global@ =~= scatter(mask@, old(global)@, local@));
    }
}

/// Adds to `mask` the samples that `other` selects.
pub fn merge(mask: &mut [bool], other: &[bool])
    requires
        old(mask).len() == other.len(),
    ensures
        final(mask)@ == either(old(mask)@, other@),
{
    let mut i: usize = 0;
    while i < other.len()
        invariant
            i <= other.len(),
            mask.len() == other.len(),
            mask.len() == old(mask).len(),
            forall|j: int| 0 <= j < i ==> #[trigger] mask@[j] == (old(mask)@[j] || other@[j]),
            forall|j: int| i <= j < mask.len() ==> #[trigger] mask@[j] == old(mask)@[j],
        decreases other.len() - i,
    {
        if other[i] {
            mask[i] = true;
        }
        i += 1;
    }
    proof {
        assert(mask@ =~= either(old(mask)@, other@));
    }
}

} // verus!
