//! The mirror: its seven segments taken together.

use crate::assembly::ASM;
use crate::mask::{
    count, either, lemma_count_bound, lemma_count_either, lemma_count_none, merge, rank,
    scatter,
};
use crate::opd::OPD;
use crate::scalar::{
    is_count, is_infinity, is_minus, is_neg_infinity, is_over, is_undefined, Scalar,
};
use crate::segment::{
    is_basis, is_inverse, is_solution, is_subtracted, KarhunenLoeve, PseudoInverse,
};
use crate::{GlaoError, GRID, SEGMENTS};
use vstd::prelude::*;

verus! {

/// The mirror: its seven segments, in the order of their identifiers.
#[derive(Debug)]
pub struct ASMS<T, P> {
    /// The segments, the one with the identifier 1 first.
    pub segments: Vec<ASM<T, P>>,
}

/// The number of points of the first `k` of `segments`, taken together.
pub open spec fn points_of<T: Scalar, P: PseudoInverse<T>>(
    segments: Seq<ASM<T, P>>,
    k: nat,
) -> nat
    decreases k,
{
    if k == 0 {
        0
    } else {
        points_of(segments, (k - 1) as nat) + segments[k - 1].segment.points()
    }
}

/// `r` is the count `points` over `whole`.
pub open spec fn is_share<T: Scalar>(points: usize, whole: T, r: T) -> bool {
    exists|part: T| is_count(points, part) && #[trigger] is_over(part, whole, r)
}

/// `tagged` holds the basis `kl`, with the pseudo-inverse of its modes and
/// without coefficients.
pub open spec fn is_made_of<T: Scalar, P: PseudoInverse<T>>(
    tagged: ASM<T, P>,
    kl: KarhunenLoeve<T>,
) -> bool {
    &&& tagged.segment.modes == kl.modes
    &&& tagged.segment.n_mode == kl.n_mode
    &&& tagged.segment.mask == kl.mask
    &&& tagged.segment.coefficients@.len() == 0
    &&& is_inverse(kl.modes, kl.n_mode, Ok::<P, String>(tagged.segment.modes_pinv))
}

/// The computation of the pseudo-inverse of the modes of `kl` failed, and
/// `why` tells the reason.
pub open spec fn has_no_inverse<T: Scalar, P: PseudoInverse<T>>(
    kl: KarhunenLoeve<T>,
    why: String,
) -> bool {
    is_inverse(kl.modes, kl.n_mode, Err::<P, String>(why))
}

/// A field over the grid with every sample undefined.
pub open spec fn is_blank<T: Scalar>(field: Seq<T>) -> bool {
    &&& field.len() == GRID
    &&& forall|i: int| 0 <= i < GRID ==> is_undefined(#[trigger] field[i])
}

/// `base` after the shapes of the first `k` of `segments` have been written
/// into it, one segment after the other, each at the samples of its mask.
pub open spec fn painted<T: Scalar, P: PseudoInverse<T>>(
    segments: Seq<ASM<T, P>>,
    shapes: Seq<Seq<T>>,
    base: Seq<T>,
    k: nat,
) -> Seq<T>
    decreases k,
{
    if k == 0 {
        base
    } else {
        scatter(
            segments[k - 1].segment.mask@,
            painted(segments, shapes, base, (k - 1) as nat),
            shapes[k - 1],
        )
    }
}

/// `field` is `base` after the shapes of the first `k` of `segments` have
/// been subtracted from it, one segment after the other, each at the samples
/// of its mask.
pub open spec fn is_carved<T: Scalar, P: PseudoInverse<T>>(
    segments: Seq<ASM<T, P>>,
    shapes: Seq<Seq<T>>,
    base: Seq<T>,
    k: nat,
    field: Seq<T>,
) -> bool
    decreases k,
{
    if k == 0 {
        field == base
    } else {
        exists|previous: Seq<T>|
            is_carved(segments, shapes, base, (k - 1) as nat, previous) && #[trigger] is_subtracted(
                segments[k - 1].segment.mask@,
                previous,
                shapes[k - 1],
                field,
            )
    }
}

/// What is written into a field depends on the shapes of the segments that
/// write only.
pub proof fn lemma_painted_agree<T: Scalar, P: PseudoInverse<T>>(
    segments: Seq<ASM<T, P>>,
    shapes: Seq<Seq<T>>,
    others: Seq<Seq<T>>,
    base: Seq<T>,
    k: nat,
)
    requires
        k <= shapes.len(),
        k <= others.len(),
        forall|j: int| 0 <= j < k ==> shapes[j] == others[j],
    ensures
        painted(segments, shapes, base, k) == painted(segments, others, base, k),
    decreases k,
{
    if k > 0 {
        lemma_painted_agree(segments, shapes, others, base, (k - 1) as nat);
    }
}

/// What is subtracted from a field depends on the shapes of the segments
/// that subtract only.
pub proof fn lemma_carved_agree<T: Scalar, P: PseudoInverse<T>>(
    segments: Seq<ASM<T, P>>,
    shapes: Seq<Seq<T>>,
    others: Seq<Seq<T>>,
    base: Seq<T>,
    k: nat,
    field: Seq<T>,
)
    requires
        k <= shapes.len(),
        k <= others.len(),
        forall|j: int| 0 <= j < k ==> shapes[j] == others[j],
        is_carved(segments, shapes, base, k, field),
    ensures
        is_carved(segments, others, base, k, field),
    decreases k,
{
    if k > 0 {
        let previous = choose|previous: Seq<T>|
            is_carved(segments, shapes, base, (k - 1) as nat, previous) && #[trigger] is_subtracted(
                segments[k - 1].segment.mask@,
                previous,
                shapes[k - 1],
                field,
            );
        lemma_carved_agree(segments, shapes, others, base, (k - 1) as nat, previous);
        assert(is_subtracted(segments[k - 1].segment.mask@, previous, others[k - 1], field));
    }
}

/// `after` is `before` once it has been handed `opd` for a fit by
/// projection: where it takes the map it holds the coefficients of the fit,
/// and else it is unchanged.
pub open spec fn is_projected_on<T: Scalar, P: PseudoInverse<T>>(
    before: ASM<T, P>,
    opd: Seq<T>,
    after: ASM<T, P>,
) -> bool {
    &&& after.sid == before.sid
    &&& after.segment.same_basis(&before.segment)
    &&& if before.segment.accepts(opd.len()) {
        before.segment.is_projected(before.segment.samples(opd), after.segment.coefficients@)
    } else {
        after.segment.coefficients == before.segment.coefficients
    }
}

/// `after` is `before` once it has been handed `opd` for a fit by least
/// squares: where it takes the map it holds the coefficients of the fit, and
/// else it is unchanged.
pub open spec fn is_solved_on<T: Scalar, P: PseudoInverse<T>>(
    before: ASM<T, P>,
    opd: Seq<T>,
    after: ASM<T, P>,
) -> bool {
    &&& after.sid == before.sid
    &&& after.segment.same_basis(&before.segment)
    &&& if before.segment.accepts(opd.len()) {
        is_solution(
            before.segment.modes_pinv,
            before.segment.samples(opd),
            after.segment.coefficients,
        )
    } else {
        after.segment.coefficients == before.segment.coefficients
    }
}

/// Whether each of `segments` takes a map of `len` samples for a fit.
pub open spec fn all_accept<T: Scalar, P: PseudoInverse<T>>(
    segments: Seq<ASM<T, P>>,
    len: nat,
) -> bool {
    forall|k: int| 0 <= k < segments.len() ==> (#[trigger] segments[k]).segment.accepts(len)
}

/// The contents of each of `parts`.
pub open spec fn views<T>(parts: Seq<Vec<T>>) -> Seq<Seq<T>> {
    Seq::new(parts.len(), |j: int| parts[j]@)
}

/// The first `k` of `parts`, one after the other.
pub open spec fn joined<T>(parts: Seq<Seq<T>>, k: nat) -> Seq<T>
    decreases k,
{
    if k == 0 {
        Seq::empty()
    } else {
        joined(parts, (k - 1) as nat) + parts[k - 1]
    }
}

/// What is joined depends on the parts that are joined only.
pub proof fn lemma_joined_agree<T>(parts: Seq<Seq<T>>, others: Seq<Seq<T>>, k: nat)
    requires
        k <= parts.len(),
        k <= others.len(),
        forall|j: int| 0 <= j < k ==> parts[j] == others[j],
    ensures
        joined(parts, k) == joined(others, k),
    decreases k,
{
    if k > 0 {
        lemma_joined_agree(parts, others, (k - 1) as nat);
    }
}

/// Parts of `n` samples each, `k` of them, are `k` times `n` samples when
/// joined, and sample `p` of part `j` is found at `j` times `n` plus `p`.
pub proof fn lemma_joined_layout<T>(parts: Seq<Seq<T>>, k: nat, n: nat, j: int, p: int)
    requires
        k <= parts.len(),
        forall|i: int| 0 <= i < k ==> (#[trigger] parts[i]).len() == n,
        0 <= j < k,
        0 <= p < n,
    ensures
        joined(parts, k).len() == k * n,
        0 <= j * n + p < k * n,
        joined(parts, k)[j * n + p] == parts[j][p],
    decreases k,
{
    let head = (k - 1) as nat;
    let front = joined(parts, head);
    assert(k * n == head * n + n) by (nonlinear_arith)
        requires
            k == head + 1,
    ;
    assert(0 <= j * n && j * n + n <= k * n) by (nonlinear_arith)
        requires
            0 <= j < k,
            n >= 0,
    ;
    if head > 0 {
        lemma_joined_layout(parts, head, n, 0, p);
    }
    assert(front.len() == head * n);
    assert(joined(parts, k) == front + parts[k - 1]);
    if j < head {
        lemma_joined_layout(parts, head, n, j, p);
        assert(joined(parts, k)[j * n + p] == front[j * n + p]);
    } else {
        assert(joined(parts, k)[head * n + p] == parts[k - 1][p]);
    }
}

/// Whether one of the first `k` of `segments` holds sample `i` of the grid.
pub open spec fn covered_by<T: Scalar, P: PseudoInverse<T>>(
    segments: Seq<ASM<T, P>>,
    k: int,
    i: int,
) -> bool {
    exists|j: int| 0 <= j < k && #[trigger] segments[j].segment.mask@[i]
}

/// Whether segment `j` of `segments` holds sample `i` of the grid.
pub open spec fn holds<T: Scalar, P: PseudoInverse<T>>(
    segments: Seq<ASM<T, P>>,
    j: int,
    i: int,
) -> bool {
    segments[j].segment.mask@[i]
}

/// No sample of the grid belongs to two of `segments`.
pub open spec fn are_disjoint<T: Scalar, P: PseudoInverse<T>>(segments: Seq<ASM<T, P>>) -> bool {
    forall|a: int, b: int, i: int|
        0 <= a < b < segments.len() && #[trigger] holds(segments, a, i) ==> !#[trigger] holds(
            segments,
            b,
            i,
        )
}

/// The samples of the grid that one of the first `k` of `segments` holds.
pub open spec fn pupil<T: Scalar, P: PseudoInverse<T>>(
    segments: Seq<ASM<T, P>>,
    k: int,
) -> Seq<bool> {
    Seq::new(GRID as nat, |i: int| covered_by(segments, k, i))
}

/// Where no sample belongs to two segments, the mirror has as many points as
/// its pupil mask selects samples: the areas of the segments add up to the
/// area of the pupil.
pub proof fn lemma_points_of_partition<T: Scalar, P: PseudoInverse<T>>(
    segments: Seq<ASM<T, P>>,
    k: nat,
)
    requires
        k <= segments.len(),
        forall|j: int| 0 <= j < k ==> (#[trigger] segments[j]).segment.wf(),
        are_disjoint(segments),
    ensures
        points_of(segments, k) == count(pupil(segments, k as int)),
    decreases k,
{
    if k == 0 {
        let none = pupil(segments, 0);
        assert forall|i: int| 0 <= i < none.len() implies !none[i] by {}
        lemma_count_none(none);
    } else {
        lemma_points_of_partition(segments, (k - 1) as nat);
        let before = pupil(segments, k - 1);
        let mask = segments[k - 1].segment.mask@;
        assert(segments[k - 1].segment.wf());
        assert forall|i: int| 0 <= i < GRID implies !(before[i] && mask[i]) by {
            if before[i] && mask[i] {
                let j = choose|j: int| 0 <= j < k - 1 && #[trigger] segments[j].segment.mask@[i];
                assert(holds(segments, j, i));
                assert(!holds(segments, k - 1, i));
            }
        }
        lemma_count_either(before, mask);
        assert forall|i: int| 0 <= i < GRID implies pupil(segments, k as int)[i] == (before[i]
            || mask[i]) by {
            if before[i] {
                let j = choose|j: int| 0 <= j < k - 1 && #[trigger] segments[j].segment.mask@[i];
                assert(segments[j].segment.mask@[i]);
            }
            if mask[i] {
                assert(segments[k - 1].segment.mask@[i]);
            }
            if covered_by(segments, k as int, i) {
                let j = choose|j: int| 0 <= j < k && #[trigger] segments[j].segment.mask@[i];
                if j < k - 1 {
                    assert(covered_by(segments, k - 1, i));
                }
            }
        }
        assert(pupil(segments, k as int) =~= either(before, mask));
    }
}

/// `after` is `before` minus `shape` at every sample of the mirror made of
/// `segments`; elsewhere, `after` and `shape` are undefined.
pub open spec fn is_difference<T: Scalar, P: PseudoInverse<T>>(
    segments: Seq<ASM<T, P>>,
    before: Seq<T>,
    shape: Seq<T>,
    after: Seq<T>,
) -> bool {
    &&& after.len() == before.len()
    &&& shape.len() == before.len()
    &&& forall|i: int|
        0 <= i < before.len() ==> if covered_by(segments, segments.len() as int, i) {
            is_minus(before[i], shape[i], #[trigger] after[i])
        } else {
            is_undefined(after[i]) && is_undefined(shape[i])
        }
}

/// A sample that none of the first `k` segments holds is left as it was
/// when their shapes are written.
pub proof fn lemma_painted_outside<T: Scalar, P: PseudoInverse<T>>(
    segments: Seq<ASM<T, P>>,
    shapes: Seq<Seq<T>>,
    base: Seq<T>,
    k: nat,
    i: int,
)
    requires
        0 <= i < base.len(),
        !covered_by(segments, k as int, i),
    ensures
        painted(segments, shapes, base, k).len() == base.len(),
        painted(segments, shapes, base, k)[i] == base[i],
    decreases k,
{
    if k > 0 {
        assert(!covered_by(segments, k - 1, i)) by {
            if covered_by(segments, k - 1, i) {
                let j = choose|j: int| 0 <= j < k - 1 && #[trigger] segments[j].segment.mask@[i];
                assert(segments[j].segment.mask@[i]);
            }
        }
        lemma_painted_outside(segments, shapes, base, (k - 1) as nat, i);
        assert(!segments[k - 1].segment.mask@[i]);
    }
}

/// Where several segments hold a sample, the last of them has written it:
/// the sample of the shape of the mirror is the sample of the shape of
/// segment `j` if none of the segments after `j` holds it.
pub proof fn lemma_painted_last<T: Scalar, P: PseudoInverse<T>>(
    segments: Seq<ASM<T, P>>,
    shapes: Seq<Seq<T>>,
    base: Seq<T>,
    k: nat,
    j: int,
    i: int,
)
    requires
        0 <= i < base.len(),
        0 <= j < k,
        segments[j].segment.mask@[i],
        forall|l: int| j < l < k ==> !#[trigger] segments[l].segment.mask@[i],
    ensures
        painted(segments, shapes, base, k).len() == base.len(),
        painted(segments, shapes, base, k)[i] == shapes[j][rank(
            segments[j].segment.mask@,
            i,
        ) as int],
    decreases k,
{
    lemma_painted_len(segments, shapes, base, (k - 1) as nat);
    if j < k - 1 {
        lemma_painted_last(segments, shapes, base, (k - 1) as nat, j, i);
        assert(!segments[k - 1].segment.mask@[i]);
    }
}

/// Writing shapes into a field leaves it as long as it was.
pub proof fn lemma_painted_len<T: Scalar, P: PseudoInverse<T>>(
    segments: Seq<ASM<T, P>>,
    shapes: Seq<Seq<T>>,
    base: Seq<T>,
    k: nat,
)
    ensures
        painted(segments, shapes, base, k).len() == base.len(),
    decreases k,
{
    if k > 0 {
        lemma_painted_len(segments, shapes, base, (k - 1) as nat);
    }
}

/// A sample that none of the first `k` segments holds is left as it was
/// when their shapes are subtracted.
pub proof fn lemma_carved_outside<T: Scalar, P: PseudoInverse<T>>(
    segments: Seq<ASM<T, P>>,
    shapes: Seq<Seq<T>>,
    base: Seq<T>,
    k: nat,
    field: Seq<T>,
    i: int,
)
    requires
        is_carved(segments, shapes, base, k, field),
        0 <= i < base.len(),
        !covered_by(segments, k as int, i),
    ensures
        field.len() == base.len(),
        field[i] == base[i],
    decreases k,
{
    if k > 0 {
        let previous = choose|previous: Seq<T>|
            is_carved(segments, shapes, base, (k - 1) as nat, previous) && #[trigger] is_subtracted(
                segments[k - 1].segment.mask@,
                previous,
                shapes[k - 1],
                field,
            );
        assert(!covered_by(segments, k - 1, i)) by {
            if covered_by(segments, k - 1, i) {
                let j = choose|j: int| 0 <= j < k - 1 && #[trigger] segments[j].segment.mask@[i];
                assert(segments[j].segment.mask@[i]);
            }
        }
        lemma_carved_outside(segments, shapes, base, (k - 1) as nat, previous, i);
        assert(!segments[k - 1].segment.mask@[i]);
    }
}

/// A sample that segment `j` alone holds among the first `k` segments has
/// the sample of the shape of that segment subtracted from it, once.
pub proof fn lemma_carved_once<T: Scalar, P: PseudoInverse<T>>(
    segments: Seq<ASM<T, P>>,
    shapes: Seq<Seq<T>>,
    base: Seq<T>,
    k: nat,
    field: Seq<T>,
    j: int,
    i: int,
)
    requires
        is_carved(segments, shapes, base, k, field),
        0 <= i < base.len(),
        0 <= j < k,
        segments[j].segment.mask@[i],
        forall|l: int| 0 <= l < k && l != j ==> !#[trigger] segments[l].segment.mask@[i],
    ensures
        field.len() == base.len(),
        is_minus(base[i], shapes[j][rank(segments[j].segment.mask@, i) as int], field[i]),
    decreases k,
{
    let previous = choose|previous: Seq<T>|
        is_carved(segments, shapes, base, (k - 1) as nat, previous) && #[trigger] is_subtracted(
            segments[k - 1].segment.mask@,
            previous,
            shapes[k - 1],
            field,
        );
    if j < k - 1 {
        lemma_carved_once(segments, shapes, base, (k - 1) as nat, previous, j, i);
        assert(!segments[k - 1].segment.mask@[i]);
    } else {
        assert(!covered_by(segments, k - 1, i)) by {
            if covered_by(segments, k - 1, i) {
                let l = choose|l: int| 0 <= l < k - 1 && #[trigger] segments[l].segment.mask@[i];
                assert(!segments[l].segment.mask@[i]);
            }
        }
        lemma_carved_outside(segments, shapes, base, (k - 1) as nat, previous, i);
    }
}

impl<T: Scalar, P: PseudoInverse<T>> ASMS<T, P> {
    /// There are seven segments, each holds a basis, and their identifiers
    /// run from 1 to 7.
    pub open spec fn wf(&self) -> bool {
        &&& self.segments.len() == SEGMENTS
        &&& forall|k: int|
            0 <= k < SEGMENTS ==> (#[trigger] self.segments[k]).wf() && self.segments[k].sid == k
                + 1
    }

    /// Whether sample `i` of the grid belongs to the mirror.
    pub open spec fn covers(&self, i: int) -> bool {
        covered_by(self.segments@, self.segments.len() as int, i)
    }

    /// The number of points of the mirror: those of its segments, taken
    /// together.
    pub open spec fn points(&self) -> nat {
        points_of(self.segments@, self.segments.len() as nat)
    }

    /// `ratios` holds, segment by segment, the number of points of the
    /// segment over the number of points of the mirror.
    pub open spec fn is_area_ratios(&self, ratios: Seq<T>) -> bool {
        &&& ratios.len() == self.segments.len()
        &&& exists|whole: T|
            #[trigger] is_count(self.points() as usize, whole) && forall|k: int|
                0 <= k < self.segments.len() ==> is_share(
                    self.segments[k].segment.points() as usize,
                    whole,
                    #[trigger] ratios[k],
                )
    }

    /// Every segment has each of the chosen modes, with a coefficient.
    pub open spec fn has_modes(&self, idx: Option<&[usize]>) -> bool {
        idx matches Some(chosen) ==> forall|k: int|
            0 <= k < self.segments.len() ==> (#[trigger] self.segments[k]).segment.has_modes(
                chosen@,
            )
    }

    /// `shapes` holds the shape of each of the first `k` segments, made of
    /// the modes `idx`.
    pub open spec fn are_shapes(
        &self,
        idx: Option<&[usize]>,
        shapes: Seq<Seq<T>>,
        k: int,
    ) -> bool {
        &&& shapes.len() == k
        &&& forall|j: int|
            0 <= j < k ==> self.segments[j].segment.is_shape(
                self.segments[j].segment.used_modes(idx),
                #[trigger] shapes[j],
            )
    }

    /// `field` is the shape of the mirror over the grid: undefined outside
    /// of the segments, and within each segment the shape of that segment,
    /// made of the modes `idx`. Where two segments hold the same sample, the
    /// later one has written last.
    pub open spec fn is_mirror_shape(&self, idx: Option<&[usize]>, field: Seq<T>) -> bool {
        exists|base: Seq<T>, shapes: Seq<Seq<T>>|
            is_blank(base) && self.are_shapes(idx, shapes, self.segments.len() as int) && field
                == #[trigger] painted(self.segments@, shapes, base, self.segments.len() as nat)
    }

    /// `after` is `before` with every sample outside of the mirror made
    /// undefined.
    pub open spec fn is_clipped(&self, before: Seq<T>, after: Seq<T>) -> bool {
        &&& after.len() == before.len()
        &&& forall|i: int|
            0 <= i < before.len() ==> if self.covers(i) {
                #[trigger] after[i] == before[i]
            } else {
                is_undefined(after[i])
            }
    }

    /// `after` is what the mirror leaves of `before`: the samples outside of
    /// the mirror made undefined, then the shape of each segment, made of the
    /// modes `idx`, subtracted at the samples of its mask.
    pub open spec fn is_residual(
        &self,
        idx: Option<&[usize]>,
        before: Seq<T>,
        after: Seq<T>,
    ) -> bool {
        exists|base: Seq<T>, shapes: Seq<Seq<T>>|
            self.is_clipped(before, base) && self.are_shapes(
                idx,
                shapes,
                self.segments.len() as int,
            ) && #[trigger] is_carved(
                self.segments@,
                shapes,
                base,
                self.segments.len() as nat,
                after,
            )
    }

    /// Whether the identifiers of `segments` run from 1 to 7.
    pub open spec fn in_order(segments: Seq<ASM<T, P>>) -> bool {
        &&& segments.len() == SEGMENTS
        &&& forall|k: int| 0 <= k < SEGMENTS ==> (#[trigger] segments[k]).sid == k + 1
    }

    /// Tells whether there are seven segments, each with a basis, with
    /// identifiers that run from 1 to 7.
    pub fn is_valid(&self) -> (ok: bool)
        ensures
            ok == self.wf(),
    {
        if self.segments.len() != SEGMENTS {
            return false;
        }
        let mut k: usize = 0;
        while k < SEGMENTS
            invariant
                k <= SEGMENTS,
                self.segments.len() == SEGMENTS,
                forall|j: int|
                    0 <= j < k ==> (#[trigger] self.segments[j]).wf() && self.segments[j].sid == j
                        + 1,
            decreases SEGMENTS - k,
        {
            if !self.segments[k].is_valid() || self.segments[k].sid != k + 1 {
                assert(!((self.segments[k as int]).wf() && self.segments[k as int].sid == k + 1));
                return false;
            }
            k += 1;
        }
        true
    }

    /// Makes the mirror of its segments, which must be seven, with
    /// identifiers that run from 1 to 7.
    pub fn new(segments: Vec<ASM<T, P>>) -> (r: Result<Self, GlaoError>)
        requires
            forall|k: int| 0 <= k < segments.len() ==> (#[trigger] segments[k]).segment.wf(),
        ensures
            match r {
                Ok(mirror) => Self::in_order(segments@) && mirror.segments == segments
                    && mirror.wf(),
                Err(error) => error == GlaoError::Bin2Asm && !Self::in_order(segments@),
            },
    {
        if segments.len() != SEGMENTS {
            return Err(GlaoError::Bin2Asm);
        }
        let mut k: usize = 0;
        while k < SEGMENTS
            invariant
                k <= SEGMENTS,
                segments.len() == SEGMENTS,
                forall|j: int| 0 <= j < k ==> (#[trigger] segments[j]).sid == j + 1,
            decreases SEGMENTS - k,
        {
            if segments[k].sid != k + 1 {
                return Err(GlaoError::Bin2Asm);
            }
            k += 1;
        }
        Ok(Self { segments })
    }

    /// Makes the mirror of the stored bases of its seven segments, the one
    /// of the segment with the identifier 1 first. The first basis whose
    /// modes have no pseudo-inverse stops the work.
    pub fn from_kls(kls: Vec<KarhunenLoeve<T>>) -> (r: Result<Self, GlaoError>)
        requires
            kls.len() == SEGMENTS,
            forall|k: int|
                0 <= k < SEGMENTS ==> is_basis(
                    (#[trigger] kls[k]).modes@,
                    kls[k].n_mode,
                    kls[k].mask@,
                ),
        ensures
            match r {
                Ok(mirror) => mirror.wf() && forall|k: int|
                    0 <= k < SEGMENTS ==> is_made_of(#[trigger] mirror.segments[k], kls[k]),
                Err(error) => exists|k: int, why: String|
                    0 <= k < SEGMENTS && #[trigger] has_no_inverse::<T, P>(kls[k], why) && error
                        == GlaoError::PseudoInverse(why),
            },
    {
        let mut rest = kls;
        let mut segments: Vec<ASM<T, P>> = Vec::with_capacity(SEGMENTS);
        let mut k: usize = 0;
        while k < SEGMENTS
            invariant
                k <= SEGMENTS,
                kls.len() == SEGMENTS,
                rest@ == kls@.skip(k as int),
                segments.len() == k,
                forall|j: int|
                    0 <= j < SEGMENTS ==> is_basis(
                        (#[trigger] kls[j]).modes@,
                        kls[j].n_mode,
                        kls[j].mask@,
                    ),
                forall|j: int|
                    0 <= j < k ==> is_made_of(#[trigger] segments[j], kls[j]) && segments[j].wf()
                        && segments[j].sid == j + 1,
            decreases SEGMENTS - k,
        {
            let kl = rest.remove(0);
            proof {
                assert(kl == kls[k as int]);
                assert(rest@ =~= kls@.skip(k + 1));
            }
            match ASM::from_kl(k + 1, kl) {
                Ok(tagged) => {
                    segments.push(tagged);
                },
                Err(error) => {
                    proof {
                        let why = choose|why: String|
                            is_inverse(kl.modes, kl.n_mode, Err::<P, String>(why)) && error
                                == GlaoError::PseudoInverse(why);
                        assert(has_no_inverse::<T, P>(kls[k as int], why));
                    }
                    return Err(error);
                },
            }
            k += 1;
        }
        Ok(Self { segments })
    }

    /// Whether every segment takes a map of `len` samples for a fit: the map
    /// covers the grid, or every segment has `len` points.
    pub open spec fn accepts(&self, len: nat) -> bool {
        all_accept(self.segments@, len)
    }

    /// `coefficients` holds the coefficients of the fit of `opd` by projection
    /// on each segment, one segment after the other.
    pub open spec fn is_projected(&self, opd: Seq<T>, coefficients: Seq<T>) -> bool {
        exists|parts: Seq<Seq<T>>|
            self.are_projections(opd, parts, self.segments.len() as int) && coefficients
                == #[trigger] joined(parts, self.segments.len() as nat)
    }

    /// `parts` holds, for each of the first `k` segments, the coefficients of
    /// the fit of `opd` by projection.
    pub open spec fn are_projections(&self, opd: Seq<T>, parts: Seq<Seq<T>>, k: int) -> bool {
        &&& parts.len() == k
        &&& forall|j: int|
            0 <= j < k ==> self.segments[j].segment.is_projected(
                self.segments[j].segment.samples(opd),
                #[trigger] parts[j],
            )
    }

    /// `coefficients` holds the coefficients of the fit of `opd` by least
    /// squares on each segment, one segment after the other.
    pub open spec fn is_solved(&self, opd: Seq<T>, coefficients: Seq<T>) -> bool {
        exists|parts: Seq<Vec<T>>|
            self.are_solutions(opd, parts, self.segments.len() as int) && coefficients
                == #[trigger] joined(views(parts), self.segments.len() as nat)
    }

    /// `parts` holds, for each of the first `k` segments, the coefficients of
    /// the fit of `opd` by least squares.
    pub open spec fn are_solutions(&self, opd: Seq<T>, parts: Seq<Vec<T>>, k: int) -> bool {
        &&& parts.len() == k
        &&& forall|j: int|
            0 <= j < k ==> is_solution(
                self.segments[j].segment.modes_pinv,
                self.segments[j].segment.samples(opd),
                #[trigger] parts[j],
            )
    }

    /// The pupil mask of the mirror: the samples of the grid that belong to
    /// one segment or another.
    pub fn mask(&self) -> (union: Vec<bool>)
        requires
            self.wf(),
        ensures
            union@ == pupil(self.segments@, self.segments.len() as int),
            union.len() == GRID,
            forall|i: int| 0 <= i < GRID ==> #[trigger] union@[i] == self.covers(i),
    {
        let mut union: Vec<bool> = Vec::with_capacity(GRID);
        let mut i: usize = 0;
        while i < GRID
            invariant
                i <= GRID,
                union.len() == i,
                forall|j: int| 0 <= j < i ==> !#[trigger] union@[j],
            decreases GRID - i,
        {
            union.push(false);
            i += 1;
        }
        let mut k: usize = 0;
        while k < self.segments.len()
            invariant
                k <= self.segments.len(),
                self.wf(),
                union.len() == GRID,
                forall|j: int|
                    0 <= j < GRID ==> #[trigger] union@[j] == covered_by(
                        self.segments@,
                        k as int,
                        j,
                    ),
            decreases self.segments.len() - k,
        {
            let ghost before = union@;
            assert(self.segments[k as int].wf());
            merge(&mut union, self.segments[k].segment.mask.as_slice());
            proof {
                assert forall|j: int| 0 <= j < GRID implies #[trigger] union@[j] == covered_by(
                    self.segments@,
                    k + 1,
                    j,
                ) by {
                    if before[j] {
                        let w = choose|w: int|
                            0 <= w < k && #[trigger] self.segments@[w].segment.mask@[j];
                        assert(self.segments@[w].segment.mask@[j]);
                    }
                    if self.segments@[k as int].segment.mask@[j] {
                        assert(covered_by(self.segments@, k + 1, j));
                    }
                    if covered_by(self.segments@, k + 1, j) {
                        let w = choose|w: int|
                            0 <= w < k + 1 && #[trigger] self.segments@[w].segment.mask@[j];
                        if w < k {
                            assert(covered_by(self.segments@, k as int, j));
                        }
                    }
                }
            }
            k += 1;
        }
        assert(union@ =~= pupil(self.segments@, self.segments.len() as int));
        union
    }

    /// The number of points of the mirror.
    pub fn n_point(&self) -> (n: usize)
        requires
            self.wf(),
        ensures
            n == self.points(),
            n <= SEGMENTS * GRID,
    {
        let mut n: usize = 0;
        let mut k: usize = 0;
        while k < self.segments.len()
            invariant
                k <= self.segments.len(),
                self.wf(),
                n == points_of(self.segments@, k as nat),
                n <= k * GRID,
            decreases self.segments.len() - k,
        {
            assert(self.segments[k as int].wf());
            proof {
                lemma_count_bound(self.segments[k as int].segment.mask@);
            }
            n += self.segments[k].segment.n_point();
            k += 1;
        }
        n
    }

    /// The area of each segment over the area of the mirror, the areas
    /// counted in points.
    pub fn area_ratios(&self) -> (ratios: Vec<T>)
        requires
            self.wf(),
        ensures
            self.is_area_ratios(ratios@),
    {
        let whole = T::from_count(self.n_point());
        let mut ratios: Vec<T> = Vec::with_capacity(self.segments.len());
        let mut k: usize = 0;
        while k < self.segments.len()
            invariant
                k <= self.segments.len(),
                self.wf(),
                ratios.len() == k,
                forall|j: int|
                    0 <= j < k ==> is_share(
                        self.segments[j].segment.points() as usize,
                        whole,
                        #[trigger] ratios@[j],
                    ),
            decreases self.segments.len() - k,
        {
            assert(self.segments[k as int].wf());
            let part = T::from_count(self.segments[k].segment.n_point());
            let ratio = part.over(whole);
            ratios.push(ratio);
            proof {
                assert(is_count(self.segments[k as int].segment.points() as usize, part) && is_over(
                    part,
                    whole,
                    ratio,
                ));
            }
            k += 1;
        }
        assert(is_count(self.points() as usize, whole));
        ratios
    }
    /// Tells whether every segment has each of the chosen modes, with a
    /// coefficient, so that the shape of the mirror can be made of them.
    pub fn can_shape(&self, idx: Option<&[usize]>) -> (ok: bool)
        ensures
            ok == self.has_modes(idx),
    {
        match idx {
            None => true,
            Some(chosen) => {
                let mut k: usize = 0;
                while k < self.segments.len()
                    invariant
                        k <= self.segments.len(),
                        idx == Some(chosen),
                        forall|j: int|
                            0 <= j < k ==> (#[trigger] self.segments[j]).segment.has_modes(
                                chosen@,
                            ),
                    decreases self.segments.len() - k,
                {
                    if !self.segments[k].segment.can_shape(chosen) {
                        assert(!(self.segments[k as int]).segment.has_modes(chosen@));
                        return false;
                    }
                    k += 1;
                }
                true
            },
        }
    }

    /// The shape of the mirror over the grid, made of the modes `idx` of
    /// each segment, or of every mode that has a coefficient where no mode
    /// is chosen. The samples outside of the segments are undefined.
    pub fn mirror_shape(&self, idx: Option<&[usize]>) -> (opd: OPD<T>)
        requires
            self.wf(),
            self.has_modes(idx),
        ensures
            self.is_mirror_shape(idx, opd@),
            is_infinity(opd.upper()),
            is_neg_infinity(opd.lower()),
    {
        let mut field: Vec<T> = Vec::with_capacity(GRID);
        let mut i: usize = 0;
        while i < GRID
            invariant
                i <= GRID,
                field.len() == i,
                forall|j: int| 0 <= j < i ==> is_undefined(#[trigger] field@[j]),
            decreases GRID - i,
        {
            field.push(T::nan());
            i += 1;
        }
        let ghost base = field@;
        let ghost mut shapes: Seq<Seq<T>> = Seq::empty();
        let mut k: usize = 0;
        while k < self.segments.len()
            invariant
                k <= self.segments.len(),
                self.wf(),
                self.has_modes(idx),
                field.len() == GRID,
                self.are_shapes(idx, shapes, k as int),
                field@ == painted(self.segments@, shapes, base, k as nat),
            decreases self.segments.len() - k,
        {
            assert(self.segments[k as int].wf());
            let segment_shape = self.segments[k].segment.shape(idx);
            proof {
                let more = shapes.push(segment_shape@);
                lemma_painted_agree(self.segments@, shapes, more, base, k as nat);
                shapes = more;
            }
            self.segments[k].segment.masked_replace(&mut field, segment_shape);
            k += 1;
        }
        OPD::new(field)
    }

    /// Makes every sample of `data` outside of the mirror undefined.
    fn clip(&self, data: &mut [T])
        requires
            self.wf(),
            old(data).len() == GRID,
        ensures
            self.is_clipped(old(data)@, final(data)@),
    {
        let union = self.mask();
        let mut i: usize = 0;
        while i < GRID
            invariant
                i <= GRID,
                data.len() == GRID,
                union.len() == GRID,
                old(data).len() == GRID,
                forall|j: int| 0 <= j < GRID ==> #[trigger] union@[j] == self.covers(j),
                forall|j: int|
                    0 <= j < i ==> if self.covers(j) {
                        #[trigger] data@[j] == old(data)@[j]
                    } else {
                        is_undefined(data@[j])
                    },
                forall|j: int| i <= j < GRID ==> #[trigger] data@[j] == old(data)@[j],
            decreases GRID - i,
        {
            if !union[i] {
                data[i] = T::nan();
            }
            i += 1;
        }
    }

    /// Subtracts from `data` the shape of each segment, at the samples of its
    /// mask.
    fn carve(&self, data: &mut [T], idx: Option<&[usize]>)
        requires
            self.wf(),
            self.has_modes(idx),
            old(data).len() == GRID,
        ensures
            exists|shapes: Seq<Seq<T>>|
                self.are_shapes(idx, shapes, self.segments.len() as int) && #[trigger] is_carved(
                    self.segments@,
                    shapes,
                    old(data)@,
                    self.segments.len() as nat,
                    final(data)@,
                ),
    {
        let ghost mut shapes: Seq<Seq<T>> = Seq::empty();
        let mut k: usize = 0;
        while k < self.segments.len()
            invariant
                k <= self.segments.len(),
                self.wf(),
                self.has_modes(idx),
                data.len() == GRID,
                self.are_shapes(idx, shapes, k as int),
                is_carved(self.segments@, shapes, old(data)@, k as nat, data@),
            decreases self.segments.len() - k,
        {
            assert(self.segments[k as int].wf());
            let segment_shape = self.segments[k].segment.shape(idx);
            let ghost previous = data@;
            proof {
                let more = shapes.push(segment_shape@);
                lemma_carved_agree(self.segments@, shapes, more, old(data)@, k as nat, previous);
                shapes = more;
            }
            self.segments[k].segment.masked_sub(data, segment_shape);
            proof {
                let done = (k + 1) as nat;
                assert(is_carved(self.segments@, shapes, old(data)@, (done - 1) as nat, previous));
                assert(is_subtracted(
                    self.segments@[done - 1].segment.mask@,
                    previous,
                    shapes[done - 1],
                    data@,
                ));
                assert(is_carved(self.segments@, shapes, old(data)@, done, data@));
            }
            k += 1;
        }
    }

    /// Subtracts the shape of the mirror from `opd`: the samples outside of
    /// the mirror are made undefined, then the shape of each segment, made of
    /// the modes `idx`, is subtracted at the samples of its mask.
    pub fn mirror_shape_sub(&self, opd: &mut OPD<T>, idx: Option<&[usize]>)
        requires
            self.wf(),
            self.has_modes(idx),
            old(opd)@.len() == GRID,
        ensures
            self.is_residual(idx, old(opd)@, final(opd)@),
            final(opd).upper() == old(opd).upper(),
            final(opd).lower() == old(opd).lower(),
    {
        let data = opd.mut_map();
        self.clip(data);
        let ghost base = data@;
        self.carve(data, idx);
        proof {
            let shapes = choose|shapes: Seq<Seq<T>>|
                self.are_shapes(idx, shapes, self.segments.len() as int) && #[trigger] is_carved(
                    self.segments@,
                    shapes,
                    base,
                    self.segments.len() as nat,
                    data@,
                );
            assert(self.is_clipped(old(opd)@, base));
            assert(is_carved(self.segments@, shapes, base, self.segments.len() as nat, data@));
        }
    }
    /// Fits `opd` by projection on every segment. The segments are
    /// independent of each other: each one that takes the map keeps the
    /// coefficients of its fit, whatever the others do.
    pub fn project(&mut self, opd: &OPD<T>) -> (r: Result<&mut Self, GlaoError>)
        requires
            old(self).wf(),
        ensures
            match r {
                Ok(mirror) => {
                    &&& old(self).accepts(opd@.len())
                    &&& mirror.segments.len() == old(self).segments.len()
                    &&& forall|k: int|
                        0 <= k < mirror.segments.len() ==> is_projected_on(
                            old(self).segments[k],
                            opd@,
                            #[trigger] mirror.segments[k],
                        )
                    &&& mirror.wf()
                    &&& *final(mirror) == *final(self)
                },
                Err(error) => {
                    &&& error == GlaoError::Projection
                    &&& !old(self).accepts(opd@.len())
                    &&& final(self).segments.len() == old(self).segments.len()
                    &&& forall|k: int|
                        0 <= k < old(self).segments.len() ==> is_projected_on(
                            old(self).segments[k],
                            opd@,
                            #[trigger] final(self).segments[k],
                        )
                    &&& final(self).wf()
                },
            },
    {
        let mut all: bool = true;
        let mut k: usize = 0;
        while k < self.segments.len()
            invariant
                k <= self.segments.len(),
                old(self).wf(),
                self.segments.len() == old(self).segments.len(),
                all == all_accept(old(self).segments@.take(k as int), opd@.len()),
                forall|j: int|
                    0 <= j < k ==> is_projected_on(
                        old(self).segments[j],
                        opd@,
                        #[trigger] self.segments[j],
                    ),
                forall|j: int|
                    k <= j < self.segments.len() ==> #[trigger] self.segments[j] == old(
                        self,
                    ).segments[j],
            decreases self.segments.len() - k,
        {
            assert(old(self).segments[k as int].wf());
            let accepted = self.segments[k].project(opd.map()).is_ok();
            proof {
                let before = old(self).segments@.take(k as int);
                let after = old(self).segments@.take(k + 1);
                assert(after[k as int] == old(self).segments[k as int]);
                assert forall|j: int| 0 <= j < k implies before[j] == after[j] by {}
                if all && accepted {
                    assert forall|j: int| 0 <= j < k + 1 implies (
                    #[trigger] after[j]).segment.accepts(opd@.len()) by {
                        if j < k {
                            assert(before[j].segment.accepts(opd@.len()));
                        }
                    }
                } else if !all {
                    let j = choose|j: int|
                        0 <= j < k && !(#[trigger] before[j]).segment.accepts(opd@.len());
                    assert(!after[j].segment.accepts(opd@.len()));
                } else {
                    assert(!after[k as int].segment.accepts(opd@.len()));
                }
            }
            all = all && accepted;
            k += 1;
        }
        proof {
            assert(old(self).segments@.take(k as int) =~= old(self).segments@);
        }
        if all {
            Ok(self)
        } else {
            Err(GlaoError::Projection)
        }
    }

    /// Fits the modes of every segment to `opd` by least squares. The
    /// segments are independent of each other: each one that takes the map
    /// keeps the coefficients of its fit, whatever the others do.
    pub fn least_square(&mut self, opd: &OPD<T>) -> (r: Result<&mut Self, GlaoError>)
        requires
            old(self).wf(),
        ensures
            match r {
                Ok(mirror) => {
                    &&& old(self).accepts(opd@.len())
                    &&& mirror.segments.len() == old(self).segments.len()
                    &&& forall|k: int|
                        0 <= k < mirror.segments.len() ==> is_solved_on(
                            old(self).segments[k],
                            opd@,
                            #[trigger] mirror.segments[k],
                        )
                    &&& mirror.wf()
                    &&& *final(mirror) == *final(self)
                },
                Err(error) => {
                    &&& error == GlaoError::Projection
                    &&& !old(self).accepts(opd@.len())
                    &&& final(self).segments.len() == old(self).segments.len()
                    &&& forall|k: int|
                        0 <= k < old(self).segments.len() ==> is_solved_on(
                            old(self).segments[k],
                            opd@,
                            #[trigger] final(self).segments[k],
                        )
                    &&& final(self).wf()
                },
            },
    {
        let mut all: bool = true;
        let mut k: usize = 0;
        while k < self.segments.len()
            invariant
                k <= self.segments.len(),
                old(self).wf(),
                self.segments.len() == old(self).segments.len(),
                all == all_accept(old(self).segments@.take(k as int), opd@.len()),
                forall|j: int|
                    0 <= j < k ==> is_solved_on(
                        old(self).segments[j],
                        opd@,
                        #[trigger] self.segments[j],
                    ),
                forall|j: int|
                    k <= j < self.segments.len() ==> #[trigger] self.segments[j] == old(
                        self,
                    ).segments[j],
            decreases self.segments.len() - k,
        {
            assert(old(self).segments[k as int].wf());
            let accepted = self.segments[k].least_square(opd.map()).is_ok();
            proof {
                let before = old(self).segments@.take(k as int);
                let after = old(self).segments@.take(k + 1);
                assert(after[k as int] == old(self).segments[k as int]);
                assert forall|j: int| 0 <= j < k implies before[j] == after[j] by {}
                if all && accepted {
                    assert forall|j: int| 0 <= j < k + 1 implies (
                    #[trigger] after[j]).segment.accepts(opd@.len()) by {
                        if j < k {
                            assert(before[j].segment.accepts(opd@.len()));
                        }
                    }
                } else if !all {
                    let j = choose|j: int|
                        0 <= j < k && !(#[trigger] before[j]).segment.accepts(opd@.len());
                    assert(!after[j].segment.accepts(opd@.len()));
                } else {
                    assert(!after[k as int].segment.accepts(opd@.len()));
                }
            }
            all = all && accepted;
            k += 1;
        }
        proof {
            assert(old(self).segments@.take(k as int) =~= old(self).segments@);
        }
        if all {
            Ok(self)
        } else {
            Err(GlaoError::Projection)
        }
    }

    /// The coefficients of the fit of `opd` by projection on every segment,
    /// one segment after the other. The mirror is left as it is.
    pub fn project_out(&self, opd: &OPD<T>) -> (r: Result<Vec<T>, GlaoError>)
        requires
            self.wf(),
        ensures
            match r {
                Ok(coefficients) => self.accepts(opd@.len()) && self.is_projected(
                    opd@,
                    coefficients@,
                ),
                Err(error) => error == GlaoError::Projection && !self.accepts(opd@.len()),
            },
    {
        let mut coefficients: Vec<T> = Vec::new();
        let ghost mut parts: Seq<Seq<T>> = Seq::empty();
        let mut k: usize = 0;
        while k < self.segments.len()
            invariant
                k <= self.segments.len(),
                self.wf(),
                all_accept(self.segments@.take(k as int), opd@.len()),
                self.are_projections(opd@, parts, k as int),
                coefficients@ == joined(parts, k as nat),
            decreases self.segments.len() - k,
        {
            assert(self.segments[k as int].wf());
            let mut part = self.segments[k].project_out(opd.map())?;
            proof {
                let more = parts.push(part@);
                lemma_joined_agree(parts, more, k as nat);
                parts = more;
                let before = self.segments@.take(k as int);
                let after = self.segments@.take(k + 1);
                assert forall|j: int| 0 <= j < k + 1 implies (#[trigger] after[j]).segment.accepts(
                    opd@.len(),
                ) by {
                    if j < k {
                        assert(before[j].segment.accepts(opd@.len()));
                    }
                }
            }
            coefficients.append(&mut part);
            k += 1;
        }
        proof {
            assert(self.segments@.take(k as int) =~= self.segments@);
        }
        Ok(coefficients)
    }

    /// The coefficients of the fit of the modes of every segment to `opd` by
    /// least squares, one segment after the other. The mirror is left as it
    /// is.
    pub fn least_square_out(&self, opd: &OPD<T>) -> (r: Result<Vec<T>, GlaoError>)
        requires
            self.wf(),
        ensures
            match r {
                Ok(coefficients) => self.accepts(opd@.len()) && self.is_solved(opd@, coefficients@),
                Err(error) => error == GlaoError::Projection && !self.accepts(opd@.len()),
            },
    {
        let mut coefficients: Vec<T> = Vec::new();
        let ghost mut parts: Seq<Vec<T>> = Seq::empty();
        let mut k: usize = 0;
        while k < self.segments.len()
            invariant
                k <= self.segments.len(),
                self.wf(),
                all_accept(self.segments@.take(k as int), opd@.len()),
                self.are_solutions(opd@, parts, k as int),
                coefficients@ == joined(views(parts), k as nat),
            decreases self.segments.len() - k,
        {
            assert(self.segments[k as int].wf());
            let mut part = self.segments[k].least_square_out(opd.map())?;
            proof {
                let more = parts.push(part);
                lemma_joined_agree(views(parts), views(more), k as nat);
                parts = more;
                let before = self.segments@.take(k as int);
                let after = self.segments@.take(k + 1);
                assert forall|j: int| 0 <= j < k + 1 implies (#[trigger] after[j]).segment.accepts(
                    opd@.len(),
                ) by {
                    if j < k {
                        assert(before[j].segment.accepts(opd@.len()));
                    }
                }
            }
            coefficients.append(&mut part);
            k += 1;
        }
        proof {
            assert(self.segments@.take(k as int) =~= self.segments@);
        }
        Ok(coefficients)
    }
}

/// Where no sample belongs to two segments, the residual map is the map
/// minus the shape of the mirror at every sample of the mirror, and
/// undefined elsewhere: for any field `blank` of undefined samples there is
/// a shape of the mirror, written into `blank`, that makes up the
/// difference.
pub proof fn lemma_residual_is_difference<T: Scalar, P: PseudoInverse<T>>(
    mirror: ASMS<T, P>,
    idx: Option<&[usize]>,
    before: Seq<T>,
    after: Seq<T>,
    blank: Seq<T>,
)
    requires
        before.len() == GRID,
        is_blank(blank),
        are_disjoint(mirror.segments@),
        mirror.is_residual(idx, before, after),
    ensures
        exists|shape: Seq<T>|
            mirror.is_mirror_shape(idx, shape) && #[trigger] is_difference(
                mirror.segments@,
                before,
                shape,
                after,
            ),
{
    let segments = mirror.segments@;
    let n = segments.len();
    let (base, shapes) = choose|base: Seq<T>, shapes: Seq<Seq<T>>|
        mirror.is_clipped(before, base) && mirror.are_shapes(idx, shapes, n as int)
            && #[trigger] is_carved(segments, shapes, base, n, after);
    let shape = painted(segments, shapes, blank, n);
    lemma_painted_len(segments, shapes, blank, n);
    assert(mirror.is_mirror_shape(idx, shape));
    assert forall|i: int| 0 <= i < before.len() implies if covered_by(segments, n as int, i) {
        is_minus(before[i], shape[i], #[trigger] after[i])
    } else {
        is_undefined(after[i]) && is_undefined(shape[i])
    } by {
        if covered_by(segments, n as int, i) {
            let j = choose|j: int| 0 <= j < n && #[trigger] segments[j].segment.mask@[i];
            assert forall|l: int| 0 <= l < n && l != j implies !#[trigger] segments[l]
                .segment.mask@[i] by {
                assert(holds(segments, j, i));
                if holds(segments, l, i) {
                    if l < j {
                        assert(!holds(segments, j, i));
                    } else {
                        assert(!holds(segments, l, i));
                    }
                }
            }
            lemma_carved_once(segments, shapes, base, n, after, j, i);
            lemma_painted_last(segments, shapes, blank, n, j, i);
            assert(mirror.covers(i));
            assert(base[i] == before[i]);
        } else {
            lemma_carved_outside(segments, shapes, base, n, after, i);
            lemma_painted_outside(segments, shapes, blank, n, i);
            assert(!mirror.covers(i));
            assert(is_undefined(base[i]));
        }
    }
    if n == 0 {
        assert(after == base);
    } else {
        lemma_carved_len(segments, shapes, base, n, after);
    }
    assert(is_difference(segments, before, shape, after));
}

/// Subtracting shapes from a field leaves it as long as it was.
pub proof fn lemma_carved_len<T: Scalar, P: PseudoInverse<T>>(
    segments: Seq<ASM<T, P>>,
    shapes: Seq<Seq<T>>,
    base: Seq<T>,
    k: nat,
    field: Seq<T>,
)
    requires
        is_carved(segments, shapes, base, k, field),
    ensures
        field.len() == base.len(),
    decreases k,
{
    if k > 0 {
        let previous = choose|previous: Seq<T>|
            is_carved(segments, shapes, base, (k - 1) as nat, previous) && #[trigger] is_subtracted(
                segments[k - 1].segment.mask@,
                previous,
                shapes[k - 1],
                field,
            );
        lemma_carved_len(segments, shapes, base, (k - 1) as nat, previous);
    }
}

impl<T: Scalar> OPD<T> {
    /// Subtracts the shape of the mirror `rhs` from the map, every mode
    /// taken.
    pub fn sub_assign<P: PseudoInverse<T>>(&mut self, rhs: &ASMS<T, P>)
        requires
            rhs.wf(),
            old(self)@.len() == GRID,
        ensures
            rhs.is_residual(None, old(self)@, final(self)@),
            final(self).upper() == old(self).upper(),
            final(self).lower() == old(self).lower(),
    {
        rhs.mirror_shape_sub(self, None)
    }

    /// The residual map: what the mirror `rhs` leaves of the map, every mode
    /// taken. The map itself is left as it is.
    pub fn sub<P: PseudoInverse<T>>(&self, rhs: &ASMS<T, P>) -> (residual: Self)
        requires
            rhs.wf(),
            self@.len() == GRID,
        ensures
            rhs.is_residual(None, self@, residual@),
            residual.upper() == self.upper(),
            residual.lower() == self.lower(),
    {
        let mut residual = self.duplicate();
        residual.sub_assign(rhs);
        residual
    }
}

} // verus!
