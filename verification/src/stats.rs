//! Sums and population statistics of a sequence of samples.
//!
//! Every quantity is accumulated from the first sample to the last, starting
//! from zero. Nothing is filtered here: an undefined sample takes part like
//! any other.

use crate::scalar::{is_count, is_minus, is_over, is_plus, is_root, is_times, is_zero, Scalar};
use vstd::prelude::*;

verus! {

/// `r` is `0 + xs[0] + xs[1] + ..`, added up from the left.
pub open spec fn is_sum<T: Scalar>(xs: Seq<T>, r: T) -> bool
    decreases xs.len(),
{
    if xs.len() == 0 {
        is_zero(r)
    } else {
        exists|acc: T| is_sum(xs.drop_last(), acc) && #[trigger] is_plus(acc, xs.last(), r)
    }
}

/// `r` is `0 + xs[0] * ys[0] + xs[1] * ys[1] + ..`, added up from the left.
pub open spec fn is_dot<T: Scalar>(xs: Seq<T>, ys: Seq<T>, r: T) -> bool
    recommends
        xs.len() <= ys.len(),
    decreases xs.len(),
{
    if xs.len() == 0 {
        is_zero(r)
    } else {
        exists|acc: T, p: T|
            is_dot(xs.drop_last(), ys, acc) && is_times(xs.last(), ys[xs.len() - 1], p)
                && #[trigger] is_plus(acc, p, r)
    }
}

/// `r` is the sum of the squares of `xs`.
pub open spec fn is_sum_of_squares<T: Scalar>(xs: Seq<T>, r: T) -> bool {
    is_dot(xs, xs, r)
}

/// `r` is `0 + (xs[0] - m)^2 + (xs[1] - m)^2 + ..`, added up from the left.
pub open spec fn is_sum_sq_dev<T: Scalar>(xs: Seq<T>, m: T, r: T) -> bool
    decreases xs.len(),
{
    if xs.len() == 0 {
        is_zero(r)
    } else {
        exists|acc: T, d: T, p: T|
            is_sum_sq_dev(xs.drop_last(), m, acc) && #[trigger] is_minus(xs.last(), m, d)
                && is_times(d, d, p) && #[trigger] is_plus(acc, p, r)
    }
}

/// `r` is `s` divided by the count `n`.
pub open spec fn is_ratio<T: Scalar>(s: T, n: usize, r: T) -> bool {
    exists|c: T| is_count(n, c) && #[trigger] is_over(s, c, r)
}

/// `r` is the mean of `xs`: their sum over their number.
pub open spec fn is_mean<T: Scalar>(xs: Seq<T>, r: T) -> bool {
    exists|s: T| is_sum(xs, s) && #[trigger] is_ratio(s, xs.len() as usize, r)
}

/// `r` is the population variance of `xs`: the sum of the squared deviations
/// from their mean, over their number.
pub open spec fn is_variance<T: Scalar>(xs: Seq<T>, r: T) -> bool {
    exists|m: T, s: T|
        is_mean(xs, m) && #[trigger] is_sum_sq_dev(xs, m, s) && is_ratio(s, xs.len() as usize, r)
}

/// `r` is the population standard deviation of `xs`.
pub open spec fn is_std<T: Scalar>(xs: Seq<T>, r: T) -> bool {
    exists|v: T| is_variance(xs, v) && #[trigger] is_root(v, r)
}

/// `r` is the root mean square of `xs`.
pub open spec fn is_rms<T: Scalar>(xs: Seq<T>, r: T) -> bool {
    exists|s: T, q: T|
        is_sum_of_squares(xs, s) && #[trigger] is_ratio(s, xs.len() as usize, q) && is_root(q, r)
}

/// Adds up `xs` from the left.
pub fn sum<T: Scalar>(xs: &[T]) -> (r: T)
    ensures
        is_sum(xs@, r),
{
    let mut acc = T::zero();
    let mut i: usize = 0;
    while i < xs.len()
        invariant
            i <= xs.len(),
            is_sum(xs@.take(i as int), acc),
        decreases xs.len() - i,
    {
        let next = acc.plus(xs[i]);
        proof {
            let head = xs@.take(i + 1);
            assert(head.drop_last() =~= xs@.take(i as int));
            assert(is_plus(acc, head.last(), next));
        }
        acc = next;
        i += 1;
    }
    proof {
        assert(xs@.take(i as int) =~= xs@);
    }
    acc
}

/// Adds up the products of the samples of `xs` with those of `ys`.
pub fn dot<T: Scalar>(xs: &[T], ys: &[T]) -> (r: T)
    requires
        xs.len() <= ys.len(),
    ensures
        is_dot(xs@, ys@, r),
{
    let mut acc = T::zero();
    let mut i: usize = 0;
    while i < xs.len()
        invariant
            i <= xs.len(),
            xs.len() <= ys.len(),
            is_dot(xs@.take(i as int), ys@, acc),
        decreases xs.len() - i,
    {
        let p = xs[i].times(ys[i]);
        let next = acc.plus(p);
        proof {
            let head = xs@.take(i + 1);
            assert(head.drop_last() =~= xs@.take(i as int));
            assert(is_times(head.last(), ys@[head.len() - 1], p));
            assert(is_plus(acc, p, next));
        }
        acc = next;
        i += 1;
    }
    proof {
        assert(xs@.take(i as int) =~= xs@);
    }
    acc
}

/// Adds up the squares of `xs`.
pub fn sum_of_squares<T: Scalar>(xs: &[T]) -> (r: T)
    ensures
        is_sum_of_squares(xs@, r),
{
    dot(xs, xs)
}

/// Adds up the squared deviations of `xs` from `m`.
pub fn sum_sq_dev<T: Scalar>(xs: &[T], m: T) -> (r: T)
    ensures
        is_sum_sq_dev(xs@, m, r),
{
    let mut acc = T::zero();
    let mut i: usize = 0;
    while i < xs.len()
        invariant
            i <= xs.len(),
            is_sum_sq_dev(xs@.take(i as int), m, acc),
        decreases xs.len() - i,
    {
        let d = xs[i].minus(m);
        let p = d.times(d);
        let next = acc.plus(p);
        proof {
            let head = xs@.take(i + 1);
            assert(head.drop_last() =~= xs@.take(i as int));
            assert(is_minus(head.last(), m, d));
            assert(is_times(d, d, p));
            assert(is_plus(acc, p, next));
        }
        acc = next;
        i += 1;
    }
    proof {
        assert(xs@.take(i as int) =~= xs@);
    }
    acc
}

/// Divides `s` by the count `n`.
pub fn ratio<T: Scalar>(s: T, n: usize) -> (r: T)
    ensures
        is_ratio(s, n, r),
{
    let c = T::from_count(n);
    let r = s.over(c);
    assert(is_over(s, c, r));
    r
}

/// The mean of `xs`.
pub fn mean<T: Scalar>(xs: &[T]) -> (r: T)
    ensures
        is_mean(xs@, r),
{
    let s = sum(xs);
    let r = ratio(s, xs.len());
    assert(is_ratio(s, xs@.len() as usize, r));
    r
}

/// The population variance of `xs`.
pub fn variance<T: Scalar>(xs: &[T]) -> (r: T)
    ensures
        is_variance(xs@, r),
{
    let m = mean(xs);
    let s = sum_sq_dev(xs, m);
    let r = ratio(s, xs.len());
    assert(is_sum_sq_dev(xs@, m, s) && is_ratio(s, xs@.len() as usize, r));
    r
}

/// The population standard deviation of `xs`.
pub fn std_dev<T: Scalar>(xs: &[T]) -> (r: T)
    ensures
        is_std(xs@, r),
{
    let v = variance(xs);
    let r = v.root();
    assert(is_root(v, r));
    r
}

/// The root mean square of `xs`.
pub fn rms<T: Scalar>(xs: &[T]) -> (r: T)
    ensures
        is_rms(xs@, r),
{
    let s = sum_of_squares(xs);
    let q = ratio(s, xs.len());
    let r = q.root();
    assert(is_ratio(s, xs@.len() as usize, q) && is_root(q, r));
    r
}

} // verus!
