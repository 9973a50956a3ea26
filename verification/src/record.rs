//! The summary of the fit of one map, and averages over many summaries.

use crate::mirror::{views, ASMS};
use crate::mask::gather;
use crate::opd::{is_defined_variance, OPD};
use crate::scalar::{is_abs, is_minus, is_plus, is_root, is_times, is_zero, Scalar};
use crate::segment::{chunk, PseudoInverse};
use crate::stats::{is_mean, is_ratio, is_sum_of_squares, mean, ratio, sum_of_squares};
use crate::{GRID, SEGMENTS};
use vstd::pervasive::unreached;
use vstd::prelude::*;
use vstd::slice::slice_subrange;

verus! {

/// The number of modes per segment that the averages over records expect.
pub const N_MODE: usize = 500;

/// The number of coefficients of a record: those of the seven segments.
pub const N_COEFFICIENT: usize = 3500;

/// What is kept of the fit of one map.
#[derive(Debug)]
pub struct OpdRecord<T> {
    /// The name of the file that the map came from.
    pub file: String,
    /// The variance of the map.
    pub var: T,
    /// For each segment, the sum of the squares of the map over the segment.
    pub segment_sum_square: Vec<T>,
    /// The coefficients of the fit, one segment after the other.
    pub modal_coefficients: Vec<T>,
    /// For each segment, its area over the area of the mirror.
    pub ratios: Vec<T>,
}

/// `sums` holds, for each of the first `k` segments of `mirror`, the sum of
/// the squares of the samples of `opd` over the segment.
pub open spec fn are_segment_sums<T: Scalar, P: PseudoInverse<T>>(
    mirror: ASMS<T, P>,
    opd: Seq<T>,
    sums: Seq<T>,
    k: int,
) -> bool {
    &&& sums.len() == k
    &&& forall|j: int|
        0 <= j < k ==> is_sum_of_squares(
            gather(mirror.segments[j].segment.mask@, opd),
            #[trigger] sums[j],
        )
}

/// `r` is the mean of the squares of `xs`.
pub open spec fn is_mean_square<T: Scalar>(xs: Seq<T>, r: T) -> bool {
    exists|s: T| is_sum_of_squares(xs, s) && #[trigger] is_ratio(s, xs.len() as usize, r)
}

/// `r` is the sum of the squares of the first `n` samples of `b`, where each
/// square is added to the sum of those before it, the first one to zero.
pub open spec fn is_cumulated<T: Scalar>(b: Seq<T>, n: nat, r: T) -> bool
    decreases n,
{
    if n == 0 {
        is_zero(r)
    } else {
        exists|before: T, square: T|
            is_cumulated(b, (n - 1) as nat, before) && is_times(b[n - 1], b[n - 1], square)
                && #[trigger] is_plus(square, before, r)
    }
}

/// `r` is the distance between `total` and the sum of the squares of the
/// samples of `b` up to sample `j`.
pub open spec fn is_residual_at<T: Scalar>(b: Seq<T>, total: T, j: int, r: T) -> bool {
    exists|sum: T, difference: T|
        is_cumulated(b, (j + 1) as nat, sum) && #[trigger] is_minus(total, sum, difference)
            && is_abs(difference, r)
}

/// `residuals` holds, for each sample of `b`, the distance between `total`
/// and the sum of the squares of `b` up to that sample.
pub open spec fn are_residuals<T: Scalar>(b: Seq<T>, total: T, residuals: Seq<T>) -> bool {
    &&& residuals.len() == b.len()
    &&& forall|j: int| 0 <= j < b.len() ==> is_residual_at(b, total, j, #[trigger] residuals[j])
}

/// The variance of each of `records`.
pub open spec fn variances<T>(records: Seq<OpdRecord<T>>) -> Seq<T> {
    Seq::new(records.len(), |k: int| records[k].var)
}

/// The sum of squares over segment `i` of each of `records`.
pub open spec fn segment_sums<T>(records: Seq<OpdRecord<T>>, i: int) -> Seq<T> {
    Seq::new(records.len(), |k: int| records[k].segment_sum_square@[i])
}

/// Coefficient `i` of each of `records`.
pub open spec fn coefficients_at<T>(records: Seq<OpdRecord<T>>, i: int) -> Seq<T> {
    Seq::new(records.len(), |k: int| records[k].modal_coefficients@[i])
}

/// Sample `i` of each of `rows`.
pub open spec fn column<T>(rows: Seq<Seq<T>>, i: int) -> Seq<T> {
    Seq::new(rows.len(), |k: int| rows[k][i])
}

/// Every one of `records` has seven sums of squares and the coefficients of
/// seven segments of 500 modes.
pub open spec fn are_complete<T: Scalar>(records: Seq<OpdRecord<T>>) -> bool {
    forall|k: int| 0 <= k < records.len() ==> (#[trigger] records[k]).is_complete()
}

/// `power` holds, segment after segment and for each number of modes, what
/// the fit of `record` leaves of the sum of squares over the segment once
/// that many modes are taken off.
pub open spec fn is_residual_power<T: Scalar>(record: OpdRecord<T>, power: Seq<T>) -> bool {
    &&& power.len() == N_COEFFICIENT
    &&& forall|s: int|
        0 <= s < SEGMENTS ==> are_residuals(
            chunk(record.modal_coefficients@, N_MODE as int, s),
            record.segment_sum_square@[s],
            #[trigger] chunk(power, N_MODE as int, s),
        )
}

/// `powers` holds the residual power of each of the first `k` of `records`.
pub open spec fn are_residual_powers<T: Scalar>(
    records: Seq<OpdRecord<T>>,
    powers: Seq<Seq<T>>,
    k: int,
) -> bool {
    &&& powers.len() == k
    &&& forall|j: int| 0 <= j < k ==> is_residual_power(records[j], #[trigger] powers[j])
}

/// `means` holds, for each of the first `n` samples, the mean of that sample
/// over `rows`.
pub open spec fn are_column_means<T: Scalar>(rows: Seq<Seq<T>>, means: Seq<T>, n: int) -> bool {
    &&& means.len() == n
    &&& forall|i: int| 0 <= i < n ==> is_mean(column(rows, i), #[trigger] means[i])
}

/// `roots` holds the square root of each of `xs`.
pub open spec fn are_roots<T: Scalar>(xs: Seq<T>, roots: Seq<T>) -> bool {
    &&& roots.len() == xs.len()
    &&& forall|i: int| 0 <= i < xs.len() ==> is_root(xs[i], #[trigger] roots[i])
}

impl<T: Scalar> OpdRecord<T> {
    /// The record has seven sums of squares and the coefficients of seven
    /// segments of 500 modes.
    pub open spec fn is_complete(&self) -> bool {
        &&& self.segment_sum_square.len() == SEGMENTS
        &&& self.modal_coefficients.len() == N_COEFFICIENT
    }

    /// Tells whether the record has seven sums of squares and the
    /// coefficients of seven segments of 500 modes.
    pub fn is_valid(&self) -> (ok: bool)
        ensures
            ok == self.is_complete(),
    {
        self.segment_sum_square.len() == SEGMENTS && self.modal_coefficients.len()
            == N_COEFFICIENT
    }

    /// The record of the fit by projection of the map `opd`, of the file
    /// `file`, on the segments of `mirror`.
    pub fn new<P: PseudoInverse<T>>(file: String, opd: &OPD<T>, mirror: &ASMS<T, P>) -> (record:
        Self)
        requires
            mirror.wf(),
            opd@.len() == GRID,
        ensures
            record.file == file,
            is_defined_variance(opd@, record.var),
            are_segment_sums(*mirror, opd@, record.segment_sum_square@, SEGMENTS as int),
            mirror.is_projected(opd@, record.modal_coefficients@),
            mirror.is_area_ratios(record.ratios@),
    {
        let mut segment_sum_square: Vec<T> = Vec::with_capacity(SEGMENTS);
        let mut k: usize = 0;
        while k < mirror.segments.len()
            invariant
                k <= mirror.segments.len(),
                mirror.wf(),
                opd@.len() == GRID,
                are_segment_sums(*mirror, opd@, segment_sum_square@, k as int),
            decreases mirror.segments.len() - k,
        {
            assert(mirror.segments[k as int].wf());
            segment_sum_square.push(opd.masked_sum_of_squares(mirror.segments[k].mask()));
            k += 1;
        }
        assert forall|j: int| 0 <= j < mirror.segments.len() implies (
        #[trigger] mirror.segments@[j]).segment.accepts(opd@.len()) by {}
        let modal_coefficients = match mirror.project_out(opd) {
            Ok(coefficients) => coefficients,
            Err(_) => unreached(),
        };
        Self {
            file,
            var: opd.var(),
            segment_sum_square,
            modal_coefficients,
            ratios: mirror.area_ratios(),
        }
    }

    /// What the fit leaves of the sum of squares over each segment, for each
    /// number of modes taken off.
    pub fn residual_power(&self) -> (power: Vec<T>)
        requires
            self.is_complete(),
        ensures
            is_residual_power(*self, power@),
    {
        let mut power: Vec<T> = Vec::with_capacity(N_COEFFICIENT);
        let mut s: usize = 0;
        while s < SEGMENTS
            invariant
                s <= SEGMENTS,
                self.is_complete(),
                power.len() == s * N_MODE,
                forall|t: int|
                    0 <= t < s ==> are_residuals(
                        chunk(self.modal_coefficients@, N_MODE as int, t),
                        self.segment_sum_square@[t],
                        #[trigger] chunk(power@, N_MODE as int, t),
                    ),
            decreases SEGMENTS - s,
        {
            let coefficients = self.modal_coefficients.as_slice();
            let b = slice_subrange(coefficients, s * N_MODE, (s + 1) * N_MODE);
            let mut part = residuals(b, self.segment_sum_square[s]);
            let ghost so_far = power@;
            let ghost added = part@;
            power.append(&mut part);
            proof {
                assert(chunk(power@, N_MODE as int, s as int) =~= added);
                assert forall|t: int| 0 <= t < s implies are_residuals(
                    chunk(self.modal_coefficients@, N_MODE as int, t),
                    self.segment_sum_square@[t],
                    #[trigger] chunk(power@, N_MODE as int, t),
                ) by {
                    assert(chunk(power@, N_MODE as int, t) =~= chunk(so_far, N_MODE as int, t));
                }
            }
            s += 1;
        }
        power
    }
}

/// For each sample of `b`, the distance between `total` and the sum of the
/// squares of `b` up to that sample.
pub fn residuals<T: Scalar>(b: &[T], total: T) -> (out: Vec<T>)
    ensures
        are_residuals(b@, total, out@),
{
    let mut out: Vec<T> = Vec::with_capacity(b.len());
    let mut sum = T::zero();
    let mut j: usize = 0;
    while j < b.len()
        invariant
            j <= b.len(),
            out.len() == j,
            is_cumulated(b@, j as nat, sum),
            forall|i: int| 0 <= i < j ==> is_residual_at(b@, total, i, #[trigger] out@[i]),
        decreases b.len() - j,
    {
        let square = b[j].times(b[j]);
        let next = square.plus(sum);
        let difference = total.minus(next);
        let distance = difference.abs();
        proof {
            let n = (j + 1) as nat;
            assert(is_cumulated(b@, (n - 1) as nat, sum));
            assert(is_times(b@[n - 1], b@[n - 1], square));
            assert(is_plus(square, sum, next));
            assert(is_cumulated(b@, n, next));
            assert(is_minus(total, next, difference));
        }
        out.push(distance);
        sum = next;
        j += 1;
    }
    out
}

/// The square root of each of `xs`.
pub fn roots<T: Scalar>(xs: Vec<T>) -> (roots: Vec<T>)
    ensures
        are_roots(xs@, roots@),
{
    let mut roots: Vec<T> = Vec::with_capacity(xs.len());
    let mut i: usize = 0;
    while i < xs.len()
        invariant
            i <= xs.len(),
            roots.len() == i,
            forall|j: int| 0 <= j < i ==> is_root(xs@[j], #[trigger] roots@[j]),
        decreases xs.len() - i,
    {
        roots.push(xs[i].root());
        i += 1;
    }
    roots
}

/// For each of the first `n` samples, the mean of that sample over `rows`.
pub fn column_means<T: Scalar>(rows: &Vec<Vec<T>>, n: usize) -> (means: Vec<T>)
    requires
        forall|k: int| 0 <= k < rows.len() ==> (#[trigger] rows[k]).len() >= n,
    ensures
        are_column_means(views(rows@), means@, n as int),
{
    let mut means: Vec<T> = Vec::with_capacity(n);
    let mut i: usize = 0;
    while i < n
        invariant
            i <= n,
            forall|k: int| 0 <= k < rows.len() ==> (#[trigger] rows[k]).len() >= n,
            are_column_means(views(rows@), means@, i as int),
        decreases n - i,
    {
        let mut samples: Vec<T> = Vec::with_capacity(rows.len());
        let mut k: usize = 0;
        while k < rows.len()
            invariant
                k <= rows.len(),
                i < n,
                forall|k: int| 0 <= k < rows.len() ==> (#[trigger] rows[k]).len() >= n,
                samples@ == column(views(rows@), i as int).take(k as int),
            decreases rows.len() - k,
        {
            assert(rows[k as int].len() >= n);
            samples.push(rows[k][i]);
            proof {
                let whole = column(views(rows@), i as int);
                assert(whole.take(k + 1) =~= whole.take(k as int).push(whole[k as int]));
            }
            k += 1;
        }
        proof {
            let whole = column(views(rows@), i as int);
            assert(whole.take(k as int) =~= whole);
        }
        means.push(mean(samples.as_slice()));
        i += 1;
    }
    means
}

/// Averages over the records of many maps.
pub trait OpdStats<T: Scalar> {
    /// The records that the averages are taken over.
    spec fn records(&self) -> Seq<OpdRecord<T>>;

    /// The mean of the variances of the maps.
    fn mean_var(&self) -> (r: T)
        ensures
            is_mean(variances(self.records()), r),
    ;

    /// For each segment, the mean over the maps of the sum of squares over
    /// the segment.
    fn mean_segment_sum_square(&self) -> (means: Vec<T>)
        requires
            are_complete(self.records()),
        ensures
            means.len() == SEGMENTS,
            forall|i: int|
                0 <= i < SEGMENTS ==> is_mean(segment_sums(self.records(), i), #[trigger] means[i]),
    ;

    /// Segment after segment and for each number of modes, the mean over the
    /// maps of what the fit leaves of the sum of squares over the segment
    /// once that many modes are taken off.
    fn mean_segment_residual_sum_square(&self) -> (means: Vec<T>)
        requires
            are_complete(self.records()),
        ensures
            exists|powers: Seq<Seq<T>>|
                are_residual_powers(self.records(), powers, self.records().len() as int)
                    && #[trigger] are_column_means(powers, means@, N_COEFFICIENT as int),
    ;

    /// The square root of the mean of the variances of the maps.
    fn mean_std(&self) -> (r: T)
        ensures
            exists|v: T| is_mean(variances(self.records()), v) && #[trigger] is_root(v, r),
    {
        let v = self.mean_var();
        let r = v.root();
        assert(is_root(v, r));
        r
    }

    /// For each segment, the square root of the mean over the maps of the
    /// sum of squares over the segment.
    fn mean_segment_rss(&self) -> (rss: Vec<T>)
        requires
            are_complete(self.records()),
        ensures
            exists|means: Seq<T>|
                #![trigger are_roots(means, rss@)]
                means.len() == SEGMENTS && (forall|i: int|
                    0 <= i < SEGMENTS ==> is_mean(
                        segment_sums(self.records(), i),
                        #[trigger] means[i],
                    )) && are_roots(means, rss@),
    {
        let means = self.mean_segment_sum_square();
        let ghost kept = means@;
        let rss = roots(means);
        assert(are_roots(kept, rss@));
        rss
    }

    /// The square roots of the means of the residual sums of squares.
    fn mean_segment_residual_rss(&self) -> (rss: Vec<T>)
        requires
            are_complete(self.records()),
        ensures
            exists|powers: Seq<Seq<T>>, means: Seq<T>|
                #![trigger
                    are_column_means(powers, means, N_COEFFICIENT as int),
                    are_roots(means, rss@)
                ]
                are_residual_powers(self.records(), powers, self.records().len() as int)
                    && are_column_means(powers, means, N_COEFFICIENT as int) && are_roots(
                    means,
                    rss@,
                ),
    {
        let means = self.mean_segment_residual_sum_square();
        let ghost kept = means@;
        let rss = roots(means);
        proof {
            let powers = choose|powers: Seq<Seq<T>>|
                are_residual_powers(self.records(), powers, self.records().len() as int)
                    && #[trigger] are_column_means(powers, kept, N_COEFFICIENT as int);
            assert(are_column_means(powers, kept, N_COEFFICIENT as int) && are_roots(kept, rss@));
        }
        rss
    }

    /// For each coefficient, the mean over the maps of its square.
    fn mean_modal_coefs_square(&self) -> (means: Vec<T>)
        requires
            are_complete(self.records()),
        ensures
            means.len() == N_COEFFICIENT,
            forall|i: int|
                0 <= i < N_COEFFICIENT ==> is_mean_square(
                    coefficients_at(self.records(), i),
                    #[trigger] means[i],
                ),
    ;
}

impl<T: Scalar> OpdStats<T> for Vec<OpdRecord<T>> {
    open spec fn records(&self) -> Seq<OpdRecord<T>> {
        self@
    }

    fn mean_var(&self) -> (r: T) {
        let mut samples: Vec<T> = Vec::with_capacity(self.len());
        let mut k: usize = 0;
        while k < self.len()
            invariant
                k <= self.len(),
                samples@ == variances(self@).take(k as int),
            decreases self.len() - k,
        {
            samples.push(self[k].var);
            proof {
                let whole = variances(self@);
                assert(whole.take(k + 1) =~= whole.take(k as int).push(whole[k as int]));
            }
            k += 1;
        }
        proof {
            assert(variances(self@).take(k as int) =~= variances(self@));
        }
        mean(samples.as_slice())
    }

    fn mean_segment_sum_square(&self) -> (means: Vec<T>) {
        let mut means: Vec<T> = Vec::with_capacity(SEGMENTS);
        let mut i: usize = 0;
        while i < SEGMENTS
            invariant
                i <= SEGMENTS,
                are_complete(self@),
                means.len() == i,
                forall|j: int| 0 <= j < i ==> is_mean(segment_sums(self@, j), #[trigger] means@[j]),
            decreases SEGMENTS - i,
        {
            let mut samples: Vec<T> = Vec::with_capacity(self.len());
            let mut k: usize = 0;
            while k < self.len()
                invariant
                    k <= self.len(),
                    i < SEGMENTS,
                    are_complete(self@),
                    samples@ == segment_sums(self@, i as int).take(k as int),
                decreases self.len() - k,
            {
                assert(self@[k as int].is_complete());
                samples.push(self[k].segment_sum_square[i]);
                proof {
                    let whole = segment_sums(self@, i as int);
                    assert(whole.take(k + 1) =~= whole.take(k as int).push(whole[k as int]));
                }
                k += 1;
            }
            proof {
                let whole = segment_sums(self@, i as int);
                assert(whole.take(k as int) =~= whole);
            }
            means.push(mean(samples.as_slice()));
            i += 1;
        }
        means
    }

    fn mean_segment_residual_sum_square(&self) -> (means: Vec<T>) {
        let mut powers: Vec<Vec<T>> = Vec::with_capacity(self.len());
        let mut k: usize = 0;
        while k < self.len()
            invariant
                k <= self.len(),
                are_complete(self@),
                are_residual_powers(self@, views(powers@), k as int),
            decreases self.len() - k,
        {
            assert(self@[k as int].is_complete());
            let power = self[k].residual_power();
            let ghost so_far = views(powers@);
            powers.push(power);
            proof {
                assert forall|j: int| 0 <= j < k + 1 implies is_residual_power(
                    self@[j],
                    #[trigger] views(powers@)[j],
                ) by {
                    if j < k {
                        assert(views(powers@)[j] == so_far[j]);
                    }
                }
            }
            k += 1;
        }
        assert forall|j: int| 0 <= j < powers.len() implies (#[trigger] powers[j]).len()
            >= N_COEFFICIENT by {
            assert(is_residual_power(self@[j], views(powers@)[j]));
        }
        column_means(&powers, N_COEFFICIENT)
    }

    fn mean_modal_coefs_square(&self) -> (means: Vec<T>) {
        let mut means: Vec<T> = Vec::with_capacity(N_COEFFICIENT);
        let mut i: usize = 0;
        while i < N_COEFFICIENT
            invariant
                i <= N_COEFFICIENT,
                are_complete(self@),
                means.len() == i,
                forall|j: int|
                    0 <= j < i ==> is_mean_square(coefficients_at(self@, j), #[trigger] means@[j]),
            decreases N_COEFFICIENT - i,
        {
            let mut samples: Vec<T> = Vec::with_capacity(self.len());
            let mut k: usize = 0;
            while k < self.len()
                invariant
                    k <= self.len(),
                    i < N_COEFFICIENT,
                    are_complete(self@),
                    samples@ == coefficients_at(self@, i as int).take(k as int),
                decreases self.len() - k,
            {
                assert(self@[k as int].is_complete());
                samples.push(self[k].modal_coefficients[i]);
                proof {
                    let whole = coefficients_at(self@, i as int);
                    assert(whole.take(k + 1) =~= whole.take(k as int).push(whole[k as int]));
                }
                k += 1;
            }
            proof {
                let whole = coefficients_at(self@, i as int);
                assert(whole.take(k as int) =~= whole);
            }
            let s = sum_of_squares(samples.as_slice());
            let r = ratio(s, samples.len());
            assert(is_ratio(s, coefficients_at(self@, i as int).len() as usize, r));
            means.push(r);
            i += 1;
        }
        means
    }
}

} // verus!
