//! Wavefront-error maps sampled on the grid.

use crate::mask::{all_true, gather, lemma_gather_all, select};
use crate::scalar::{
    is_defined, is_infinity, is_nan_test, is_neg_infinity, is_pow10, is_times, Scalar,
};
use crate::stats::{
    is_mean, is_rms, is_std, is_sum_of_squares, is_variance, mean, rms, std_dev, sum_of_squares,
    variance,
};
use vstd::prelude::*;
use vstd::slice::slice_to_vec;

verus! {

/// An optical path difference map.
///
/// One sample per point of the grid, row after row. A sample outside the
/// pupil is undefined: it holds the "not a number" value of the scalar type.
#[derive(Debug, Clone)]
pub struct OPD<T> {
    data: Vec<T>,
    max: T,
    min: T,
}

/// `keep` tells, sample by sample, what the "not a number" test of `data`
/// let through.
pub open spec fn is_nan_filter<T: Scalar>(data: Seq<T>, keep: Seq<bool>) -> bool {
    &&& keep.len() == data.len()
    &&& forall|i: int| 0 <= i < data.len() ==> is_nan_test(data[i], !#[trigger] keep[i])
}

/// `kept` holds, in order, the samples of `data` that the "not a number" test
/// let through.
pub open spec fn is_defined_part<T: Scalar>(data: Seq<T>, kept: Seq<T>) -> bool {
    exists|keep: Seq<bool>| is_nan_filter(data, keep) && kept == #[trigger] gather(keep, data)
}

/// `scaled` holds the samples of `data`, each multiplied by ten to the power
/// `exponent`.
pub open spec fn is_scaled<T: Scalar>(data: Seq<T>, exponent: i32, scaled: Seq<T>) -> bool {
    exists|factor: T|
        #[trigger] is_pow10(exponent, factor) && scaled.len() == data.len() && forall|i: int|
            0 <= i < data.len() ==> is_times(data[i], factor, #[trigger] scaled[i])
}

/// `r` is the mean of the defined samples of `data`.
pub open spec fn is_defined_mean<T: Scalar>(data: Seq<T>, r: T) -> bool {
    exists|kept: Seq<T>| #[trigger] is_defined_part(data, kept) && is_mean(kept, r)
}

/// `r` is the population variance of the defined samples of `data`.
pub open spec fn is_defined_variance<T: Scalar>(data: Seq<T>, r: T) -> bool {
    exists|kept: Seq<T>| #[trigger] is_defined_part(data, kept) && is_variance(kept, r)
}

/// `r` is the population standard deviation of the defined samples of
/// `data`.
pub open spec fn is_defined_std<T: Scalar>(data: Seq<T>, r: T) -> bool {
    exists|kept: Seq<T>| #[trigger] is_defined_part(data, kept) && is_std(kept, r)
}

/// `r` is the root mean square of the defined samples of `data`.
pub open spec fn is_defined_rms<T: Scalar>(data: Seq<T>, r: T) -> bool {
    exists|kept: Seq<T>| #[trigger] is_defined_part(data, kept) && is_rms(kept, r)
}

/// On a map without undefined samples, nothing is filtered out.
pub proof fn lemma_defined_part_of_defined<T: Scalar>(data: Seq<T>, kept: Seq<T>)
    requires
        forall|i: int| 0 <= i < data.len() ==> is_defined(#[trigger] data[i]),
    ensures
        is_defined_part(data, kept) <==> kept == data,
{
    if is_defined_part(data, kept) {
        let keep = choose|keep: Seq<bool>|
            is_nan_filter(data, keep) && kept == #[trigger] gather(keep, data);
        assert forall|i: int| 0 <= i < keep.len() implies keep[i] by {
            assert(is_defined(data[i]));
        }
        lemma_gather_all(keep, data);
    }
    if kept == data {
        let keep = Seq::new(data.len(), |i: int| true);
        assert forall|i: int| 0 <= i < data.len() implies is_nan_test(data[i], !keep[i]) by {
            assert(is_defined(data[i]));
        }
        lemma_gather_all(keep, data);
        assert(kept == gather(keep, data));
    }
}

/// Over a mask that selects every sample, and on a map without undefined
/// samples, the root mean square of the selection is the root mean square of
/// the map: what one of them may return, the other may return too.
pub proof fn lemma_masked_rms_of_everything<T: Scalar>(data: Seq<T>, mask: Seq<bool>, r: T)
    requires
        mask.len() == data.len(),
        all_true(mask),
        forall|i: int| 0 <= i < data.len() ==> is_defined(#[trigger] data[i]),
    ensures
        is_rms(gather(mask, data), r) <==> is_defined_rms(data, r),
{
    lemma_gather_all(mask, data);
    lemma_defined_part_of_defined(data, data);
    if is_defined_rms(data, r) {
        let kept = choose|kept: Seq<T>| #[trigger] is_defined_part(data, kept) && is_rms(kept, r);
        lemma_defined_part_of_defined(data, kept);
    }
}

impl<T: Scalar> View for OPD<T> {
    type V = Seq<T>;

    /// The samples of the map.
    closed spec fn view(&self) -> Seq<T> {
        self.data@
    }
}

impl<T: Scalar> OPD<T> {
    /// The largest sample that the map was recorded with.
    pub closed spec fn upper(&self) -> T {
        self.max
    }

    /// The smallest sample that the map was recorded with.
    pub closed spec fn lower(&self) -> T {
        self.min
    }

    /// A map of the samples `data`, with bounds that exclude nothing.
    pub fn new(data: Vec<T>) -> (opd: Self)
        ensures
            opd@ == data@,
            is_infinity(opd.upper()),
            is_neg_infinity(opd.lower()),
    {
        Self { data, max: T::infinity(), min: T::neg_infinity() }
    }

    /// A map of the samples `data`, recorded with the bounds `max` and `min`.
    pub fn with_bounds(data: Vec<T>, max: T, min: T) -> (opd: Self)
        ensures
            opd@ == data@,
            opd.upper() == max,
            opd.lower() == min,
    {
        Self { data, max, min }
    }

    /// A copy of the map, sample for sample.
    pub fn duplicate(&self) -> (opd: Self)
        ensures
            opd@ == self@,
            opd.upper() == self.upper(),
            opd.lower() == self.lower(),
    {
        let data = slice_to_vec(self.data.as_slice());
        Self { data, max: self.max, min: self.min }
    }

    /// The samples of the map.
    pub fn map(&self) -> (samples: &[T])
        ensures
            samples@ == self@,
    {
        self.data.as_slice()
    }

    /// The samples of the map, for writing.
    pub fn mut_map(&mut self) -> (samples: &mut [T])
        ensures
            samples@ == old(self)@,
            final(self)@ == final(samples)@,
            final(self).upper() == old(self).upper(),
            final(self).lower() == old(self).lower(),
    {
        self.data.as_mut_slice()
    }

    /// The samples of the map, each multiplied by ten to the power `-scale`.
    pub fn map_10e(&self, scale: i32) -> (scaled: Vec<T>)
        requires
            scale > i32::MIN,
        ensures
            is_scaled(self@, (-scale) as i32, scaled@),
    {
        let factor = T::pow10(-scale);
        let mut scaled: Vec<T> = Vec::with_capacity(self.data.len());
        let mut i: usize = 0;
        while i < self.data.len()
            invariant
                i <= self.data.len(),
                scaled.len() == i,
                forall|j: int|
                    0 <= j < i ==> is_times(self.data@[j], factor, #[trigger] scaled@[j]),
            decreases self.data.len() - i,
        {
            scaled.push(self.data[i].times(factor));
            i += 1;
        }
        assert(is_pow10((-scale) as i32, factor));
        scaled
    }

    /// The largest sample that the map was recorded with.
    pub fn max(&self) -> (max: T)
        ensures
            max == self.upper(),
    {
        self.max
    }

    /// The smallest sample that the map was recorded with.
    pub fn min(&self) -> (min: T)
        ensures
            min == self.lower(),
    {
        self.min
    }

    /// The defined samples of the map, in order.
    pub fn no_nan_opd(&self) -> (kept: Vec<T>)
        ensures
            is_defined_part(self@, kept@),
    {
        let mut kept: Vec<T> = Vec::new();
        let ghost mut keep: Seq<bool> = Seq::empty();
        let mut i: usize = 0;
        while i < self.data.len()
            invariant
                i <= self.data.len(),
                keep.len() == i,
                forall|j: int| 0 <= j < i ==> is_nan_test(self.data@[j], !keep[j]),
                kept@ == gather(keep, self.data@),
            decreases self.data.len() - i,
        {
            let x = self.data[i];
            let undefined = x.is_nan();
            proof {
                assert(keep.push(!undefined).drop_last() =~= keep);
                keep = keep.push(!undefined);
            }
            if !undefined {
                kept.push(x);
            }
            i += 1;
        }
        kept
    }

    /// The mean of the defined samples.
    pub fn mean(&self) -> (r: T)
        ensures
            is_defined_mean(self@, r),
    {
        let kept = self.no_nan_opd();
        mean(kept.as_slice())
    }

    /// The population variance of the defined samples.
    pub fn var(&self) -> (r: T)
        ensures
            is_defined_variance(self@, r),
    {
        let kept = self.no_nan_opd();
        variance(kept.as_slice())
    }

    /// The population standard deviation of the defined samples.
    pub fn std_dev(&self) -> (r: T)
        ensures
            is_defined_std(self@, r),
    {
        let kept = self.no_nan_opd();
        std_dev(kept.as_slice())
    }

    /// The root mean square of the defined samples.
    pub fn rms(&self) -> (r: T)
        ensures
            is_defined_rms(self@, r),
    {
        let kept = self.no_nan_opd();
        rms(kept.as_slice())
    }

    /// The population variance of the samples that `mask` selects, defined
    /// or not.
    pub fn masked_var(&self, mask: &[bool]) -> (r: T)
        requires
            mask.len() == self@.len(),
        ensures
            is_variance(gather(mask@, self@), r),
    {
        let selected = select(mask, self.data.as_slice());
        variance(selected.as_slice())
    }

    /// The population standard deviation of the samples that `mask` selects,
    /// defined or not.
    pub fn masked_std(&self, mask: &[bool]) -> (r: T)
        requires
            mask.len() == self@.len(),
        ensures
            is_std(gather(mask@, self@), r),
    {
        let selected = select(mask, self.data.as_slice());
        std_dev(selected.as_slice())
    }

    /// The root mean square of the samples that `mask` selects, defined or
    /// not.
    pub fn masked_rms(&self, mask: &[bool]) -> (r: T)
        requires
            mask.len() == self@.len(),
        ensures
            is_rms(gather(mask@, self@), r),
    {
        let selected = select(mask, self.data.as_slice());
        rms(selected.as_slice())
    }

    /// The sum of the squares of the samples that `mask` selects, defined or
    /// not, with no mean taken off.
    pub fn masked_sum_of_squares(&self, mask: &[bool]) -> (r: T)
        requires
            mask.len() == self@.len(),
        ensures
            is_sum_of_squares(gather(mask@, self@), r),
    {
        let selected = select(mask, self.data.as_slice());
        sum_of_squares(selected.as_slice())
    }
}

} // verus!
