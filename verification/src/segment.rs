//! The segments of the mirror and their modal bases.

use crate::mask::{
    count, gather, lemma_gather, lemma_rank_of_selected, lemma_rank_step, n_selected, rank,
    replace, scatter, select,
};
use crate::scalar::{
    is_count, is_minus, is_plus, is_recip, is_root, is_times, is_zero, Scalar,
};
use crate::stats::{dot, is_dot, is_sum_of_squares, sum_of_squares};
use crate::{GlaoError, GRID};
use vstd::prelude::*;
use vstd::slice::{slice_subrange, slice_to_vec};

verus! {

/// The pseudo-inverse of the matrix of the modes of a segment.
///
/// The matrix has one row per point and one column per mode, and is stored
/// column after column.
pub trait PseudoInverse<T>: Sized {
    /// The pseudo-inverse of the `n_point` by `n_mode` matrix `modes`, or the
    /// reason why there is none.
    fn pseudo_inverse(modes: &Vec<T>, n_point: usize, n_mode: usize) -> Result<Self, String>;

    /// The product of the pseudo-inverse with `samples`: the coefficients of
    /// the least-squares fit of the modes to the samples.
    fn solve(&self, samples: &Vec<T>) -> Vec<T>;
}

/// Whether `modes`, `n_mode` and `mask` make up the basis of a segment:
/// there is at least one mode and one point, every mode has as many samples
/// as the segment has points, the mask covers the grid and selects exactly
/// the points of the segment.
pub open spec fn is_basis<T>(modes: Seq<T>, n_mode: usize, mask: Seq<bool>) -> bool {
    &&& n_mode > 0
    &&& modes.len() > 0
    &&& (modes.len() as int) % (n_mode as int) == 0
    &&& mask.len() == GRID
    &&& count(mask) == (modes.len() as int) / (n_mode as int)
}

/// The samples of mode `j`, where every mode has `n_point` samples.
pub open spec fn chunk<T>(modes: Seq<T>, n_point: int, j: int) -> Seq<T> {
    modes.subrange(j * n_point, (j + 1) * n_point)
}

/// `after` is `before` with the samples of `local` subtracted, in order, from
/// the samples that `mask` selects.
pub open spec fn is_subtracted<T: Scalar>(
    mask: Seq<bool>,
    before: Seq<T>,
    local: Seq<T>,
    after: Seq<T>,
) -> bool {
    &&& after.len() == before.len()
    &&& forall|i: int|
        0 <= i < before.len() ==> if mask[i] {
            is_minus(before[i], local[rank(mask, i) as int], #[trigger] after[i])
        } else {
            after[i] == before[i]
        }
}

/// `r` is the factor that brings `mode` to unit norm: one over the square
/// root of the sum of the squares of its samples times their number.
pub open spec fn is_norm_factor<T: Scalar>(mode: Seq<T>, r: T) -> bool {
    exists|s: T, c: T, p: T, q: T|
        is_sum_of_squares(mode, s) && is_count(mode.len() as usize, c) && #[trigger] is_times(
            s,
            c,
            p,
        ) && #[trigger] is_root(p, q) && is_recip(q, r)
}

/// `r` is the projection of `samples` on `mode`: the sum of the products of
/// their samples, times the factor that brings the mode to unit norm.
pub open spec fn is_projection<T: Scalar>(mode: Seq<T>, samples: Seq<T>, r: T) -> bool {
    exists|f: T, d: T|
        is_norm_factor(mode, f) && is_dot(mode, samples, d) && #[trigger] is_times(f, d, r)
}

/// `outcome` is what the computation of the pseudo-inverse of the `n_mode`
/// modes `modes` gives.
pub open spec fn is_inverse<T, P: PseudoInverse<T>>(
    modes: Vec<T>,
    n_mode: usize,
    outcome: Result<P, String>,
) -> bool {
    call_ensures(P::pseudo_inverse, (&modes, (modes.len() / n_mode) as usize, n_mode), outcome)
}

/// `r` is what the pseudo-inverse `pinv` gives for `samples`.
pub open spec fn is_solution<T, P: PseudoInverse<T>>(pinv: P, samples: Seq<T>, r: Vec<T>) -> bool {
    exists|v: Vec<T>| v@ == samples && #[trigger] call_ensures(P::solve, (&pinv, &v), r)
}

/// `after` holds the samples of `before`, each multiplied by `factor`.
pub open spec fn is_rescaled<T: Scalar>(before: Seq<T>, factor: T, after: Seq<T>) -> bool {
    &&& after.len() == before.len()
    &&& forall|p: int| 0 <= p < before.len() ==> is_times(before[p], factor, #[trigger] after[p])
}

/// Mode `j` of `after` is mode `j` of `before`, brought to unit norm.
pub open spec fn is_unit_mode<T: Scalar>(
    before: Seq<T>,
    after: Seq<T>,
    n_point: int,
    j: int,
) -> bool {
    exists|factor: T|
        is_norm_factor(chunk(before, n_point, j), factor) && #[trigger] is_rescaled(
            chunk(before, n_point, j),
            factor,
            chunk(after, n_point, j),
        )
}

/// `after` holds the `n_mode` modes of `before`, each brought to unit norm.
pub open spec fn is_unit_norm<T: Scalar>(
    before: Seq<T>,
    after: Seq<T>,
    n_point: int,
    n_mode: int,
) -> bool {
    &&& after.len() == before.len()
    &&& forall|j: int| 0 <= j < n_mode ==> #[trigger] is_unit_mode(before, after, n_point, j)
}

/// The factor that brings `mode` to unit norm.
pub fn norm_factor<T: Scalar>(mode: &[T]) -> (r: T)
    ensures
        is_norm_factor(mode@, r),
{
    let s = sum_of_squares(mode);
    let c = T::from_count(mode.len());
    let p = s.times(c);
    let q = p.root();
    let r = q.recip();
    assert(is_count(mode@.len() as usize, c) && is_times(s, c, p) && is_root(p, q));
    r
}

/// The projection of `samples` on `mode`.
pub fn projection<T: Scalar>(mode: &[T], samples: &[T]) -> (r: T)
    requires
        mode.len() <= samples.len(),
    ensures
        is_projection(mode@, samples@, r),
{
    let f = norm_factor(mode);
    let d = dot(mode, samples);
    let r = f.times(d);
    assert(is_times(f, d, r));
    r
}

/// The samples of `mode`, each multiplied by `factor`.
pub fn rescale<T: Scalar>(mode: &[T], factor: T) -> (scaled: Vec<T>)
    ensures
        is_rescaled(mode@, factor, scaled@),
{
    let mut scaled: Vec<T> = Vec::with_capacity(mode.len());
    let mut p: usize = 0;
    while p < mode.len()
        invariant
            p <= mode.len(),
            scaled.len() == p,
            forall|q: int| 0 <= q < p ==> is_times(mode@[q], factor, #[trigger] scaled@[q]),
        decreases mode.len() - p,
    {
        scaled.push(mode[p].times(factor));
        p += 1;
    }
    scaled
}

/// The modal basis of a segment, as it is stored.
#[derive(Debug)]
pub struct KarhunenLoeve<T> {
    /// The modes, one after the other.
    pub modes: Vec<T>,
    /// The number of modes.
    pub n_mode: usize,
    /// The pupil mask of the segment.
    pub mask: Vec<bool>,
}

impl<T> KarhunenLoeve<T> {
    /// Tells whether the basis can make a segment.
    pub fn is_valid(&self) -> (ok: bool)
        ensures
            ok == is_basis(self.modes@, self.n_mode, self.mask@),
    {
        self.n_mode > 0 && self.modes.len() > 0 && self.modes.len() % self.n_mode == 0
            && self.mask.len() == GRID && n_selected(self.mask.as_slice()) == self.modes.len()
            / self.n_mode
    }
}

/// A segment of the mirror.
///
/// The segment holds `n_mode` modes, one after the other in `modes`. Each
/// mode has one sample per point of the segment, and `mask` tells which
/// samples of the grid these points are.
#[derive(Debug)]
pub struct Segment<T, P> {
    /// The modes, one after the other.
    pub modes: Vec<T>,
    /// The number of modes.
    pub n_mode: usize,
    /// The pupil mask of the segment.
    pub mask: Vec<bool>,
    /// The coefficients of the last fit.
    pub coefficients: Vec<T>,
    /// The pseudo-inverse of the modes.
    pub modes_pinv: P,
}

impl<T: Scalar, P: PseudoInverse<T>> Segment<T, P> {
    /// The number of points of the segment.
    pub open spec fn points(&self) -> nat {
        (self.modes.len() / self.n_mode) as nat
    }

    /// The segment holds a basis.
    pub open spec fn wf(&self) -> bool {
        is_basis(self.modes@, self.n_mode, self.mask@)
    }

    /// The samples of mode `j`.
    pub open spec fn mode(&self, j: int) -> Seq<T> {
        chunk(self.modes@, self.points() as int, j)
    }

    /// The two segments have the same modes, mask and pseudo-inverse.
    pub open spec fn same_basis(&self, other: &Self) -> bool {
        &&& self.modes == other.modes
        &&& self.n_mode == other.n_mode
        &&& self.mask == other.mask
        &&& self.modes_pinv == other.modes_pinv
    }

    /// Whether a fit takes a map of `len` samples: one that covers the grid,
    /// or one that holds the points of the segment only.
    pub open spec fn accepts(&self, len: nat) -> bool {
        len == GRID || len == self.points()
    }

    /// The samples of `opd` that a fit works on: those that the mask selects
    /// where the map covers the grid, all of them otherwise.
    pub open spec fn samples(&self, opd: Seq<T>) -> Seq<T> {
        if opd.len() == GRID {
            gather(self.mask@, opd)
        } else {
            opd
        }
    }

    /// `coefficients` holds, mode by mode, the projection of `samples`.
    pub open spec fn is_projected(&self, samples: Seq<T>, coefficients: Seq<T>) -> bool {
        &&& coefficients.len() == self.n_mode
        &&& forall|j: int|
            0 <= j < self.n_mode ==> is_projection(
                self.mode(j),
                samples,
                #[trigger] coefficients[j],
            )
    }

    /// Every mode of `idx` is a mode of the segment and has a coefficient.
    pub open spec fn has_modes(&self, idx: Seq<usize>) -> bool {
        forall|k: int|
            0 <= k < idx.len() ==> #[trigger] idx[k] < self.n_mode && idx[k]
                < self.coefficients.len()
    }

    /// The modes that a shape is made of: the chosen ones, in the order
    /// given, or else every mode that has a coefficient.
    pub open spec fn used_modes(&self, idx: Option<&[usize]>) -> Seq<usize> {
        match idx {
            Some(chosen) => chosen@,
            None => Seq::new(
                if self.n_mode <= self.coefficients.len() {
                    self.n_mode as nat
                } else {
                    self.coefficients.len() as nat
                },
                |k: int| k as usize,
            ),
        }
    }

    /// Sample `p` of each of the modes `idx`.
    pub open spec fn column(&self, idx: Seq<usize>, p: int) -> Seq<T> {
        Seq::new(idx.len(), |k: int| self.mode(idx[k] as int)[p])
    }

    /// The coefficient of each of the modes `idx`.
    pub open spec fn weights(&self, idx: Seq<usize>) -> Seq<T> {
        Seq::new(idx.len(), |k: int| self.coefficients@[idx[k] as int])
    }

    /// `shape` holds, point by point, the sum over the modes `idx` of the
    /// mode times its coefficient.
    pub open spec fn is_shape(&self, idx: Seq<usize>, shape: Seq<T>) -> bool {
        &&& shape.len() == self.points()
        &&& forall|p: int|
            0 <= p < self.points() ==> is_dot(
                self.column(idx, p),
                self.weights(idx),
                #[trigger] shape[p],
            )
    }

    /// Makes a segment of a basis and of what the computation of the
    /// pseudo-inverse of its modes gave. No fit has been made yet: the segment
    /// has no coefficients.
    pub fn assemble(
        n_mode: usize,
        modes: Vec<T>,
        mask: Vec<bool>,
        pinv: Result<P, String>,
    ) -> (r: Result<Self, GlaoError>)
        requires
            is_basis(modes@, n_mode, mask@),
        ensures
            match r {
                Ok(segment) => {
                    &&& pinv == Ok::<P, String>(segment.modes_pinv)
                    &&& segment.modes == modes
                    &&& segment.n_mode == n_mode
                    &&& segment.mask == mask
                    &&& segment.coefficients@.len() == 0
                    &&& segment.wf()
                },
                Err(error) => exists|why: String|
                    pinv == Err::<P, String>(why) && error == GlaoError::PseudoInverse(why),
            },
    {
        match pinv {
            Ok(modes_pinv) => Ok(
                Self { modes, n_mode, mask, coefficients: Vec::new(), modes_pinv },
            ),
            Err(why) => Err(GlaoError::PseudoInverse(why)),
        }
    }

    /// Makes a segment of a basis, with the pseudo-inverse of its modes.
    pub fn new(n_mode: usize, modes: Vec<T>, mask: Vec<bool>) -> (r: Result<Self, GlaoError>)
        requires
            is_basis(modes@, n_mode, mask@),
        ensures
            match r {
                Ok(segment) => {
                    &&& is_inverse(modes, n_mode, Ok::<P, String>(segment.modes_pinv))
                    &&& segment.modes == modes
                    &&& segment.n_mode == n_mode
                    &&& segment.mask == mask
                    &&& segment.coefficients@.len() == 0
                    &&& segment.wf()
                },
                Err(error) => exists|why: String|
                    is_inverse(modes, n_mode, Err::<P, String>(why)) && error
                        == GlaoError::PseudoInverse(why),
            },
    {
        let pinv = P::pseudo_inverse(&modes, modes.len() / n_mode, n_mode);
        assert(is_inverse(modes, n_mode, pinv));
        Self::assemble(n_mode, modes, mask, pinv)
    }

    /// Makes a segment of a stored basis.
    pub fn from_kl(kl: KarhunenLoeve<T>) -> (r: Result<Self, GlaoError>)
        requires
            is_basis(kl.modes@, kl.n_mode, kl.mask@),
        ensures
            match r {
                Ok(segment) => {
                    &&& is_inverse(kl.modes, kl.n_mode, Ok::<P, String>(segment.modes_pinv))
                    &&& segment.modes == kl.modes
                    &&& segment.n_mode == kl.n_mode
                    &&& segment.mask == kl.mask
                    &&& segment.coefficients@.len() == 0
                    &&& segment.wf()
                },
                Err(error) => exists|why: String|
                    is_inverse(kl.modes, kl.n_mode, Err::<P, String>(why)) && error
                        == GlaoError::PseudoInverse(why),
            },
    {
        Self::new(kl.n_mode, kl.modes, kl.mask)
    }

    /// Tells whether the segment holds a basis.
    pub fn is_valid(&self) -> (ok: bool)
        ensures
            ok == self.wf(),
    {
        self.n_mode > 0 && self.modes.len() > 0 && self.modes.len() % self.n_mode == 0
            && self.mask.len() == GRID && n_selected(self.mask.as_slice()) == self.modes.len()
            / self.n_mode
    }

    /// The number of points of the segment.
    pub fn n_point(&self) -> (n: usize)
        requires
            self.n_mode > 0,
        ensures
            n == self.points(),
    {
        self.modes.len() / self.n_mode
    }

    /// The number of samples of the grid that the mask selects.
    pub fn n_in_mask(&self) -> (n: usize)
        ensures
            n == count(self.mask@),
    {
        n_selected(self.mask.as_slice())
    }

    /// The samples of `data` that belong to the segment, in the order of the
    /// mask.
    pub fn masked(&self, data: &[T]) -> (local: Vec<T>)
        requires
            data.len() == self.mask.len(),
        ensures
            local@ == gather(self.mask@, data@),
    {
        select(self.mask.as_slice(), data)
    }

    /// Replaces the samples of `old_data` that belong to the segment by those
    /// of `new_data`, in the order of the mask.
    pub fn masked_replace(&self, old_data: &mut [T], new_data: Vec<T>)
        requires
            old(old_data).len() == self.mask.len(),
            new_data.len() == count(self.mask@),
        ensures
            final(old_data)@ == scatter(self.mask@, old(old_data)@, new_data@),
    {
        replace(self.mask.as_slice(), old_data, new_data.as_slice())
    }

    /// Subtracts the samples of `new_data` from the samples of `old_data` that
    /// belong to the segment, in the order of the mask.
    pub fn masked_sub(&self, old_data: &mut [T], new_data: Vec<T>)
        requires
            old(old_data).len() == self.mask.len(),
            new_data.len() == count(self.mask@),
        ensures
            is_subtracted(self.mask@, old(old_data)@, new_data@, final(old_data)@),
    {
        let mut k: usize = 0;
        let mut i: usize = 0;
        while i < self.mask.len()
            invariant
                i <= self.mask.len(),
                old_data.len() == self.mask.len(),
                old_data.len() == old(old_data).len(),
                new_data.len() == count(self.mask@),
                k == rank(self.mask@, i as int),
                forall|j: int|
                    0 <= j < i ==> if self.mask@[j] {
                        is_minus(
                            old(old_data)@[j],
                            new_data@[rank(self.mask@, j) as int],
                            #[trigger] old_data@[j],
                        )
                    } else {
                        old_data@[j] == old(old_data)@[j]
                    },
                forall|j: int|
                    i <= j < old_data.len() ==> #[trigger] old_data@[j] == old(old_data)@[j],
            decreases self.mask.len() - i,
        {
            proof {
                lemma_rank_step(self.mask@, i as int);
            }
            if self.mask[i] {
                proof {
                    lemma_rank_of_selected(self.mask@, i as int);
                }
                let difference = old_data[i].minus(new_data[k]);
                old_data[i] = difference;
                k += 1;
            }
            i += 1;
        }
    }

    /// The samples of `opd` that a fit works on, or an error where the map
    /// has neither the length of the grid nor that of the segment.
    pub fn local_samples(&self, opd: &[T]) -> (r: Result<Vec<T>, GlaoError>)
        requires
            self.wf(),
        ensures
            match r {
                Ok(samples) => {
                    &&& self.accepts(opd@.len())
                    &&& samples@ == self.samples(opd@)
                    &&& samples@.len() == self.points()
                },
                Err(error) => error == GlaoError::Projection && !self.accepts(opd@.len()),
            },
    {
        let n = self.n_point();
        if opd.len() == GRID {
            proof {
                lemma_gather(self.mask@, opd@);
            }
            Ok(select(self.mask.as_slice(), opd))
        } else if opd.len() == n {
            Ok(slice_to_vec(opd))
        } else {
            Err(GlaoError::Projection)
        }
    }

    /// The samples of mode `j`.
    pub fn mode_samples(&self, j: usize) -> (mode: &[T])
        requires
            self.wf(),
            j < self.n_mode,
        ensures
            mode@ == self.mode(j as int),
            mode@.len() == self.points(),
    {
        let n = self.n_point();
        proof {
            lemma_mode_bounds(self.modes@.len() as int, self.n_mode as int, j as int);
        }
        slice_subrange(self.modes.as_slice(), j * n, (j + 1) * n)
    }

    /// The projection of `opd` on every mode: the coefficients of the fit.
    /// The segment is left as it is.
    pub fn project_out(&self, opd: &[T]) -> (r: Result<Vec<T>, GlaoError>)
        requires
            self.wf(),
        ensures
            match r {
                Ok(coefficients) => {
                    &&& self.accepts(opd@.len())
                    &&& self.is_projected(self.samples(opd@), coefficients@)
                },
                Err(error) => error == GlaoError::Projection && !self.accepts(opd@.len()),
            },
    {
        let samples = self.local_samples(opd)?;
        let mut coefficients: Vec<T> = Vec::with_capacity(self.n_mode);
        let mut j: usize = 0;
        while j < self.n_mode
            invariant
                j <= self.n_mode,
                self.wf(),
                samples@ == self.samples(opd@),
                samples@.len() == self.points(),
                coefficients.len() == j,
                forall|k: int|
                    0 <= k < j ==> is_projection(
                        self.mode(k),
                        samples@,
                        #[trigger] coefficients@[k],
                    ),
            decreases self.n_mode - j,
        {
            let mode = self.mode_samples(j);
            coefficients.push(projection(mode, samples.as_slice()));
            j += 1;
        }
        Ok(coefficients)
    }

    /// Fits `opd` by projection on the modes, and keeps the coefficients.
    pub fn project(&mut self, opd: &[T]) -> (r: Result<&mut Self, GlaoError>)
        requires
            old(self).wf(),
        ensures
            match r {
                Ok(segment) => {
                    &&& old(self).accepts(opd@.len())
                    &&& old(self).is_projected(old(self).samples(opd@), segment.coefficients@)
                    &&& segment.same_basis(old(self))
                    &&& *final(segment) == *final(self)
                },
                Err(error) => {
                    &&& error == GlaoError::Projection
                    &&& !old(self).accepts(opd@.len())
                    &&& *final(self) == *old(self)
                },
            },
    {
        let coefficients = self.project_out(opd)?;
        self.coefficients = coefficients;
        Ok(self)
    }

    /// The least-squares fit of the modes to `opd`: the product of the
    /// pseudo-inverse of the modes with the samples. The segment is left as
    /// it is.
    pub fn least_square_out(&self, opd: &[T]) -> (r: Result<Vec<T>, GlaoError>)
        requires
            self.wf(),
        ensures
            match r {
                Ok(coefficients) => {
                    &&& self.accepts(opd@.len())
                    &&& is_solution(self.modes_pinv, self.samples(opd@), coefficients)
                },
                Err(error) => error == GlaoError::Projection && !self.accepts(opd@.len()),
            },
    {
        let samples = self.local_samples(opd)?;
        let coefficients = self.modes_pinv.solve(&samples);
        assert(call_ensures(P::solve, (&self.modes_pinv, &samples), coefficients));
        Ok(coefficients)
    }

    /// Fits the modes to `opd` by least squares, and keeps the coefficients.
    pub fn least_square(&mut self, opd: &[T]) -> (r: Result<&mut Self, GlaoError>)
        requires
            old(self).wf(),
        ensures
            match r {
                Ok(segment) => {
                    &&& old(self).accepts(opd@.len())
                    &&& is_solution(
                        old(self).modes_pinv,
                        old(self).samples(opd@),
                        segment.coefficients,
                    )
                    &&& segment.same_basis(old(self))
                    &&& *final(segment) == *final(self)
                },
                Err(error) => {
                    &&& error == GlaoError::Projection
                    &&& !old(self).accepts(opd@.len())
                    &&& *final(self) == *old(self)
                },
            },
    {
        let coefficients = self.least_square_out(opd)?;
        self.coefficients = coefficients;
        Ok(self)
    }

    /// Tells whether every mode of `idx` is a mode of the segment and has a
    /// coefficient, so that a shape can be made of these modes.
    pub fn can_shape(&self, idx: &[usize]) -> (ok: bool)
        ensures
            ok == self.has_modes(idx@),
    {
        let mut k: usize = 0;
        while k < idx.len()
            invariant
                k <= idx.len(),
                self.has_modes(idx@.take(k as int)),
            decreases idx.len() - k,
        {
            if idx[k] >= self.n_mode || idx[k] >= self.coefficients.len() {
                return false;
            }
            proof {
                let head = idx@.take(k as int);
                let more = idx@.take(k + 1);
                assert forall|i: int| 0 <= i < more.len() implies #[trigger] more[i] < self.n_mode
                    && more[i] < self.coefficients.len() by {
                    if i < k {
                        assert(head[i] == more[i]);
                    }
                }
            }
            k += 1;
        }
        proof {
            assert(idx@.take(k as int) =~= idx@);
        }
        true
    }

    /// Adds mode `j` times its coefficient to `shape`, which holds the sum
    /// over the modes `done`.
    fn add_mode(&self, shape: &mut Vec<T>, j: usize, Ghost(done): Ghost<Seq<usize>>)
        requires
            self.wf(),
            j < self.n_mode,
            j < self.coefficients.len(),
            self.is_shape(done, old(shape)@),
        ensures
            self.is_shape(done.push(j), final(shape)@),
    {
        let mode = self.mode_samples(j);
        let c = self.coefficients[j];
        let ghost more = done.push(j);
        let mut p: usize = 0;
        while p < mode.len()
            invariant
                p <= mode.len(),
                mode@ == self.mode(j as int),
                mode@.len() == self.points(),
                shape.len() == self.points(),
                more == done.push(j),
                c == self.coefficients@[j as int],
                forall|q: int|
                    0 <= q < p ==> is_dot(
                        self.column(more, q),
                        self.weights(more),
                        #[trigger] shape@[q],
                    ),
                forall|q: int|
                    p <= q < self.points() ==> is_dot(
                        self.column(done, q),
                        self.weights(done),
                        #[trigger] shape@[q],
                    ),
            decreases mode.len() - p,
        {
            let acc = shape[p];
            let t = mode[p].times(c);
            let next = acc.plus(t);
            proof {
                let xs = self.column(more, p as int);
                let ys = self.weights(more);
                assert(xs.drop_last() =~= self.column(done, p as int));
                lemma_dot_agree(xs.drop_last(), self.weights(done), ys, acc);
                assert(is_times(xs.last(), ys[xs.len() - 1], t));
                assert(is_plus(acc, t, next));
            }
            shape[p] = next;
            p += 1;
        }
    }

    /// The shape of the segment: point by point, the sum of the modes times
    /// their coefficients, over the modes `idx` in the order given, or over
    /// every mode that has a coefficient where no mode is chosen.
    pub fn shape(&self, idx: Option<&[usize]>) -> (shape: Vec<T>)
        requires
            self.wf(),
            idx matches Some(chosen) ==> self.has_modes(chosen@),
        ensures
            self.is_shape(self.used_modes(idx), shape@),
    {
        let n = self.n_point();
        let mut shape: Vec<T> = Vec::with_capacity(n);
        let mut p: usize = 0;
        while p < n
            invariant
                p <= n,
                shape.len() == p,
                forall|q: int| 0 <= q < p ==> is_zero(#[trigger] shape@[q]),
            decreases n - p,
        {
            shape.push(T::zero());
            p += 1;
        }
        let ghost none: Seq<usize> = Seq::empty();
        assert(self.is_shape(none, shape@));
        match idx {
            Some(chosen) => {
                let mut k: usize = 0;
                while k < chosen.len()
                    invariant
                        k <= chosen.len(),
                        self.wf(),
                        self.has_modes(chosen@),
                        self.is_shape(chosen@.take(k as int), shape@),
                    decreases chosen.len() - k,
                {
                    proof {
                        let head = chosen@.take(k as int);
                        assert(chosen@.take(k + 1) =~= head.push(chosen@[k as int]));
                    }
                    self.add_mode(&mut shape, chosen[k], Ghost(chosen@.take(k as int)));
                    k += 1;
                }
                proof {
                    assert(chosen@.take(k as int) =~= chosen@);
                }
            },
            None => {
                let m = if self.n_mode <= self.coefficients.len() {
                    self.n_mode
                } else {
                    self.coefficients.len()
                };
                let ghost all = self.used_modes(idx);
                let mut k: usize = 0;
                while k < m
                    invariant
                        k <= m,
                        self.wf(),
                        m <= self.n_mode,
                        m <= self.coefficients.len(),
                        all.len() == m,
                        forall|i: int| 0 <= i < m ==> all[i] == i,
                        self.is_shape(all.take(k as int), shape@),
                    decreases m - k,
                {
                    proof {
                        assert(all.take(k + 1) =~= all.take(k as int).push(k));
                    }
                    self.add_mode(&mut shape, k, Ghost(all.take(k as int)));
                    k += 1;
                }
                proof {
                    assert(all.take(k as int) =~= all);
                }
            },
        }
        shape
    }

    /// Brings every mode to unit norm: each mode is multiplied by one over
    /// the square root of the sum of its squares times the number of points.
    /// The coefficients and the pseudo-inverse are left as they are.
    pub fn unit_norm(&mut self) -> (r: &mut Self)
        requires
            old(self).wf(),
        ensures
            is_unit_norm(
                old(self).modes@,
                r.modes@,
                old(self).points() as int,
                old(self).n_mode as int,
            ),
            r.n_mode == old(self).n_mode,
            r.mask == old(self).mask,
            r.coefficients == old(self).coefficients,
            r.modes_pinv == old(self).modes_pinv,
            r.wf(),
            *final(r) == *final(self),
    {
        let n = self.n_point();
        let ghost before = self.modes@;
        let ghost np = n as int;
        let mut scaled: Vec<T> = Vec::with_capacity(self.modes.len());
        let mut j: usize = 0;
        while j < self.n_mode
            invariant
                j <= self.n_mode,
                self.wf(),
                *self == *old(self),
                before == self.modes@,
                np == self.points(),
                n == np,
                scaled.len() == j * np,
                forall|k: int| 0 <= k < j ==> #[trigger] is_unit_mode(before, scaled@, np, k),
            decreases self.n_mode - j,
        {
            let mode = self.mode_samples(j);
            let factor = norm_factor(mode);
            let mut part = rescale(mode, factor);
            let ghost so_far = scaled@;
            let ghost added = part@;
            scaled.append(&mut part);
            proof {
                lemma_mode_bounds(before.len() as int, self.n_mode as int, j as int);
                assert(chunk(scaled@, np, j as int) =~= added);
                assert(is_rescaled(
                    chunk(before, np, j as int),
                    factor,
                    chunk(scaled@, np, j as int),
                ));
                assert forall|k: int| 0 <= k < j implies #[trigger] is_unit_mode(
                    before,
                    scaled@,
                    np,
                    k,
                ) by {
                    lemma_mode_bounds(before.len() as int, self.n_mode as int, k);
                    assert((k + 1) * np <= j * np) by (nonlinear_arith)
                        requires
                            0 <= k < j,
                            np >= 0,
                    ;
                    assert(chunk(scaled@, np, k) =~= chunk(so_far, np, k));
                    assert(is_unit_mode(before, so_far, np, k));
                }
            }
            j += 1;
        }
        proof {
            lemma_mode_bounds(before.len() as int, self.n_mode as int, 0);
        }
        self.modes = scaled;
        self
    }
}

/// A sum of products depends on the second factors only as far as the first
/// ones reach.
pub proof fn lemma_dot_agree<T: Scalar>(xs: Seq<T>, ys: Seq<T>, zs: Seq<T>, r: T)
    requires
        xs.len() <= ys.len(),
        xs.len() <= zs.len(),
        forall|i: int| 0 <= i < xs.len() ==> ys[i] == zs[i],
        is_dot(xs, ys, r),
    ensures
        is_dot(xs, zs, r),
    decreases xs.len(),
{
    if xs.len() > 0 {
        let (acc, p) = choose|acc: T, p: T|
            is_dot(xs.drop_last(), ys, acc) && is_times(xs.last(), ys[xs.len() - 1], p)
                && #[trigger] is_plus(acc, p, r);
        lemma_dot_agree(xs.drop_last(), ys, zs, acc);
        assert(is_times(xs.last(), zs[xs.len() - 1], p));
        assert(is_plus(acc, p, r));
    }
}

/// Mode `j` of `n_mode` modes lies within the samples of the modes.
pub proof fn lemma_mode_bounds(len: int, n_mode: int, j: int)
    requires
        n_mode > 0,
        len >= 0,
        len % n_mode == 0,
        0 <= j < n_mode,
    ensures
        0 <= j * (len / n_mode) <= (j + 1) * (len / n_mode) <= len,
        (j + 1) * (len / n_mode) == j * (len / n_mode) + len / n_mode,
        n_mode * (len / n_mode) == len,
{
    let n = len / n_mode;
    assert(len == n_mode * n) by (nonlinear_arith)
        requires
            n_mode > 0,
            len % n_mode == 0,
            n == len / n_mode,
    ;
    assert(0 <= j * n <= (j + 1) * n <= n_mode * n && (j + 1) * n == j * n + n)
        by (nonlinear_arith)
        requires
            0 <= j < n_mode,
            n >= 0,
    ;
}

} // verus!
