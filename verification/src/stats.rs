//! Scalar statistics over a sample: mean, median, variance, standard
//! deviation, kurtosis, root mean square, harmonic and geometric mean.
//!
//! Each function is pinned to a spec-level mirror built from the abstract
//! operations of [`Numeric`], in the exact order the executable code
//! combines them, so the same sample always yields the same statistic.
use vstd::prelude::*;

use crate::numeric::Numeric;
use crate::numeric::pos;
use crate::numeric::slt;
use crate::sort::sort_values;
use crate::sort::spec_sort;
use crate::sort::lemma_sort_len;
use crate::ClassifError;
use crate::ClassifResult;
use crate::MayFail;

verus! {

/// The running sum of the sample, accumulated left to right from zero.
pub open spec fn spec_sum<T: Numeric>(s: Seq<T>) -> T
    decreases s.len(),
{
    if s.len() == 0 {
        T::sfrom(0)
    } else {
        spec_sum(s.drop_last()).sadd(s.last())
    }
}

/// The mean of the sample: its sum divided by its length.
pub open spec fn spec_mean<T: Numeric>(s: Seq<T>) -> T {
    spec_sum(s).sdiv(T::sfrom(s.len()))
}

/// If every element is at least `x`, the sum is at least `len` times `x`.
pub proof fn lemma_sum_lower<T: Numeric>(s: Seq<T>, x: T)
    requires
        forall|i: int| 0 <= i < s.len() ==> x.sle(s[i]),
    ensures
        T::sfrom(s.len()).smul(x).sle(spec_sum(s)),
    decreases s.len(),
{
    if s.len() == 0 {
        T::law_mul_from_zero(x);
        T::law_le_refl(T::sfrom(0));
    } else {
        lemma_sum_lower(s.drop_last(), x);
        T::law_mul_from_succ((s.len() - 1) as nat, x);
        T::law_add_le(
            T::sfrom((s.len() - 1) as nat).smul(x),
            spec_sum(s.drop_last()),
            x,
            s.last(),
        );
    }
}

/// If every element is at most `x`, the sum is at most `len` times `x`.
pub proof fn lemma_sum_upper<T: Numeric>(s: Seq<T>, x: T)
    requires
        forall|i: int| 0 <= i < s.len() ==> s[i].sle(x),
    ensures
        spec_sum(s).sle(T::sfrom(s.len()).smul(x)),
    decreases s.len(),
{
    if s.len() == 0 {
        T::law_mul_from_zero(x);
        T::law_le_refl(T::sfrom(0));
    } else {
        lemma_sum_upper(s.drop_last(), x);
        T::law_mul_from_succ((s.len() - 1) as nat, x);
        T::law_add_le(
            spec_sum(s.drop_last()),
            T::sfrom((s.len() - 1) as nat).smul(x),
            s.last(),
            x,
        );
    }
}

/// If every element strictly exceeds `x`, so does the mean.
pub proof fn lemma_sum_lower_strict<T: Numeric>(s: Seq<T>, x: T)
    requires
        s.len() >= 1,
        forall|i: int| 0 <= i < s.len() ==> slt(x, s[i]),
    ensures
        slt(T::sfrom(s.len()).smul(x), spec_sum(s)),
    decreases s.len(),
{
    assert forall|i: int| 0 <= i < s.len() implies x.sle(s[i]) by {
        T::law_le_total(x, s[i]);
    }
    lemma_sum_lower(s.drop_last(), x);
    T::law_mul_from_succ((s.len() - 1) as nat, x);
    T::law_add_lt(T::sfrom((s.len() - 1) as nat).smul(x), spec_sum(s.drop_last()), x, s.last());
}

/// If every element is at most `x` and some element lies strictly below
/// it, the sum stays strictly below `len` times `x`.
pub proof fn lemma_sum_upper_strict<T: Numeric>(s: Seq<T>, x: T, j: int)
    requires
        0 <= j < s.len(),
        forall|i: int| 0 <= i < s.len() ==> s[i].sle(x),
        slt(s[j], x),
    ensures
        slt(spec_sum(s), T::sfrom(s.len()).smul(x)),
    decreases s.len(),
{
    T::law_mul_from_succ((s.len() - 1) as nat, x);
    if j == s.len() - 1 {
        lemma_sum_upper(s.drop_last(), x);
        T::law_add_lt(
            spec_sum(s.drop_last()),
            T::sfrom((s.len() - 1) as nat).smul(x),
            s.last(),
            x,
        );
    } else {
        lemma_sum_upper_strict(s.drop_last(), x, j);
        T::law_add_lt(
            s.last(),
            x,
            spec_sum(s.drop_last()),
            T::sfrom((s.len() - 1) as nat).smul(x),
        );
        T::law_add_comm(s.last(), spec_sum(s.drop_last()));
        T::law_add_comm(x, T::sfrom((s.len() - 1) as nat).smul(x));
    }
}

/// If every element is at least `x` and some element lies strictly above
/// it, the sum stays strictly above `len` times `x`.
pub proof fn lemma_sum_lower_strict_at<T: Numeric>(s: Seq<T>, x: T, j: int)
    requires
        0 <= j < s.len(),
        forall|i: int| 0 <= i < s.len() ==> x.sle(s[i]),
        slt(x, s[j]),
    ensures
        slt(T::sfrom(s.len()).smul(x), spec_sum(s)),
    decreases s.len(),
{
    T::law_mul_from_succ((s.len() - 1) as nat, x);
    if j == s.len() - 1 {
        lemma_sum_lower(s.drop_last(), x);
        T::law_add_lt(
            T::sfrom((s.len() - 1) as nat).smul(x),
            spec_sum(s.drop_last()),
            x,
            s.last(),
        );
    } else {
        lemma_sum_lower_strict_at(s.drop_last(), x, j);
        T::law_add_lt(
            x,
            s.last(),
            T::sfrom((s.len() - 1) as nat).smul(x),
            spec_sum(s.drop_last()),
        );
        T::law_add_comm(s.last(), spec_sum(s.drop_last()));
        T::law_add_comm(x, T::sfrom((s.len() - 1) as nat).smul(x));
    }
}

/// The mean of a nonempty sample climbs strictly above a lower bound that
/// some element strictly exceeds.
pub proof fn lemma_mean_lower_strict_at<T: Numeric>(s: Seq<T>, x: T, j: int)
    requires
        0 <= j < s.len(),
        forall|i: int| 0 <= i < s.len() ==> x.sle(s[i]),
        slt(x, s[j]),
    ensures
        slt(x, spec_mean(s)),
{
    lemma_sum_lower_strict_at(s, x, j);
    T::law_from_lt(0, s.len());
    T::law_div_lt(T::sfrom(s.len()).smul(x), spec_sum(s), T::sfrom(s.len()));
    T::law_div_mul_exact(x, T::sfrom(s.len()));
}

/// The mean of a nonempty sample is at least any lower bound of it.
pub proof fn lemma_mean_lower<T: Numeric>(s: Seq<T>, x: T)
    requires
        s.len() >= 1,
        forall|i: int| 0 <= i < s.len() ==> x.sle(s[i]),
    ensures
        x.sle(spec_mean(s)),
{
    lemma_sum_lower(s, x);
    T::law_from_lt(0, s.len());
    T::law_div_le(T::sfrom(s.len()).smul(x), spec_sum(s), T::sfrom(s.len()));
    T::law_div_mul_exact(x, T::sfrom(s.len()));
}

/// The mean of a nonempty sample is at most any upper bound of it.
pub proof fn lemma_mean_upper<T: Numeric>(s: Seq<T>, x: T)
    requires
        s.len() >= 1,
        forall|i: int| 0 <= i < s.len() ==> s[i].sle(x),
    ensures
        spec_mean(s).sle(x),
{
    lemma_sum_upper(s, x);
    T::law_from_lt(0, s.len());
    T::law_div_le(spec_sum(s), T::sfrom(s.len()).smul(x), T::sfrom(s.len()));
    T::law_div_mul_exact(x, T::sfrom(s.len()));
}

/// The mean of a nonempty sample strictly exceeds any strict lower bound
/// of its elements.
pub proof fn lemma_mean_lower_strict<T: Numeric>(s: Seq<T>, x: T)
    requires
        s.len() >= 1,
        forall|i: int| 0 <= i < s.len() ==> slt(x, s[i]),
    ensures
        slt(x, spec_mean(s)),
{
    lemma_sum_lower_strict(s, x);
    T::law_from_lt(0, s.len());
    T::law_div_lt(T::sfrom(s.len()).smul(x), spec_sum(s), T::sfrom(s.len()));
    T::law_div_mul_exact(x, T::sfrom(s.len()));
}

/// The mean of a nonempty sample stays strictly below an upper bound that
/// some element strictly undercuts.
pub proof fn lemma_mean_upper_strict<T: Numeric>(s: Seq<T>, x: T, j: int)
    requires
        0 <= j < s.len(),
        forall|i: int| 0 <= i < s.len() ==> s[i].sle(x),
        slt(s[j], x),
    ensures
        slt(spec_mean(s), x),
{
    lemma_sum_upper_strict(s, x, j);
    T::law_from_lt(0, s.len());
    T::law_div_lt(spec_sum(s), T::sfrom(s.len()).smul(x), T::sfrom(s.len()));
    T::law_div_mul_exact(x, T::sfrom(s.len()));
}

/// A nonempty sample has an element that does not exceed its mean.
pub proof fn lemma_mean_some_le<T: Numeric>(s: Seq<T>)
    requires
        s.len() >= 1,
    ensures
        exists|j: int| 0 <= j < s.len() && s[j].sle(spec_mean(s)),
{
    if forall|i: int| 0 <= i < s.len() ==> #[trigger] slt(spec_mean(s), s[i]) {
        lemma_mean_lower_strict(s, spec_mean(s));
        T::law_le_refl(spec_mean(s));
        assert(false);
    }
    let j = choose|j: int| 0 <= j < s.len() && !slt(spec_mean(s), s[j]);
    assert(s[j].sle(spec_mean(s)));
}

/// A nonempty sample has an element that its mean does not exceed.
pub proof fn lemma_mean_some_ge<T: Numeric>(s: Seq<T>)
    requires
        s.len() >= 1,
    ensures
        exists|j: int| 0 <= j < s.len() && spec_mean(s).sle(s[j]),
{
    if forall|i: int| 0 <= i < s.len() ==> #[trigger] slt(s[i], spec_mean(s)) {
        assert forall|i: int| 0 <= i < s.len() implies s[i].sle(spec_mean(s)) by {
            assert(slt(s[i], spec_mean(s)));
            T::law_le_total(s[i], spec_mean(s));
        }
        lemma_mean_upper_strict(s, spec_mean(s), 0);
        T::law_le_refl(spec_mean(s));
        assert(false);
    }
    let j = choose|j: int| 0 <= j < s.len() && !slt(s[j], spec_mean(s));
    assert(spec_mean(s).sle(s[j]));
}

/// Compute the mean of a list of values.
pub fn mean<T: Numeric>(values: &[T]) -> (r: T)
    ensures
        r == spec_mean(values@),
{
    let mut sum: T = T::from_count(0);
    let mut i: usize = 0;
    while i < values.len()
        invariant
            i <= values@.len(),
            sum == spec_sum(values@.take(i as int)),
        decreases values@.len() - i,
    {
        proof {
            assert(values@.take(i + 1).drop_last() =~= values@.take(i as int));
            assert(values@.take(i + 1).last() == values@[i as int]);
        }
        sum = sum.add(values[i]);
        i = i + 1;
    }
    proof {
        assert(values@.take(values@.len() as int) =~= values@);
    }
    let n = values.len();
    sum.div(T::from_count(n as u64))
}

/// The median of the sample: the middle element of the sorted sample, or
/// the mean of the two middle elements when the length is even.
pub open spec fn spec_median<T: Numeric>(s: Seq<T>) -> T {
    let v = spec_sort(s);
    let m = s.len() / 2 + s.len() % 2;
    if s.len() % 2 != 0 {
        v[m - 1]
    } else {
        v[m - 1].sadd(v[m as int]).sdiv(T::sfrom(2))
    }
}

/// Compute the median value, ie. the middle number of a list a value,
/// ie. the value corresponding to the 0.5 quantile.
pub fn median<T: Numeric>(values: &[T]) -> (r: T)
    requires
        values@.len() >= 1,
    ensures
        r == spec_median(values@),
{
    let v = sort_values(values);
    proof {
        lemma_sort_len(values@);
    }
    let n = values.len();
    let m = n / 2 + n % 2;
    if n % 2 != 0 {
        v[m - 1]
    } else {
        v[m - 1].add(v[m]).div(T::from_count(2))
    }
}

/// The deviations from `m`, each raised to the power `p`, accumulated
/// left to right from zero.
pub open spec fn spec_pow_dev_sum<T: Numeric>(s: Seq<T>, m: T, p: int) -> T
    decreases s.len(),
{
    if s.len() == 0 {
        T::sfrom(0)
    } else {
        spec_pow_dev_sum(s.drop_last(), m, p).sadd(s.last().ssub(m).spowi(p))
    }
}

/// The sum of the sample's deviations from its mean, each raised to the
/// power `p`.
pub open spec fn spec_sum_pow_deviations<T: Numeric>(s: Seq<T>, p: int) -> T {
    spec_pow_dev_sum(s, spec_mean(s), p)
}

/// Compute the sum of deviations to the Nth power.
/// (i.e. sum of squared deviations when n=2, sum of cubed deviations when n=3, etc.)
pub fn sum_pow_deviations<T: Numeric>(values: &[T], n: i32) -> (r: T)
    ensures
        r == spec_sum_pow_deviations(values@, n as int),
{
    let m = mean(values);
    let mut sum: T = T::from_count(0);
    let mut i: usize = 0;
    while i < values.len()
        invariant
            i <= values@.len(),
            m == spec_mean(values@),
            sum == spec_pow_dev_sum(values@.take(i as int), m, n as int),
        decreases values@.len() - i,
    {
        proof {
            assert(values@.take(i + 1).drop_last() =~= values@.take(i as int));
            assert(values@.take(i + 1).last() == values@[i as int]);
        }
        sum = sum.add(values[i].sub(m).powi(n));
        i = i + 1;
    }
    proof {
        assert(values@.take(values@.len() as int) =~= values@);
    }
    sum
}

/// The population variance: the sum of squared deviations from the mean,
/// divided by the sample length.
pub open spec fn spec_variance<T: Numeric>(s: Seq<T>) -> T {
    spec_sum_pow_deviations(s, 2).sdiv(T::sfrom(s.len()))
}

/// Compute the variance of a list of values.
/// The variance is the sum of squared deviations from the mean.
pub fn variance<T: Numeric>(values: &[T]) -> (r: T)
    ensures
        r == spec_variance(values@),
{
    let n = values.len();
    sum_pow_deviations(values, 2).div(T::from_count(n as u64))
}

/// Compute the standard deviation of a list of values.
pub fn standard_deviation<T: Numeric>(values: &[T]) -> (r: T)
    ensures
        r == spec_variance(values@).ssqrt(),
{
    variance(values).sqrt()
}

/// The squares of the sample, accumulated left to right from zero.
pub open spec fn spec_square_sum<T: Numeric>(s: Seq<T>) -> T
    decreases s.len(),
{
    if s.len() == 0 {
        T::sfrom(0)
    } else {
        spec_square_sum(s.drop_last()).sadd(s.last().spowi(2))
    }
}

/// Compute the root mean square of list of values.
pub fn rootmeansquare<T: Numeric>(values: &[T]) -> (r: T)
    ensures
        r == spec_square_sum(values@).sdiv(T::sfrom(values@.len())).ssqrt(),
{
    let mut sum: T = T::from_count(0);
    let mut i: usize = 0;
    while i < values.len()
        invariant
            i <= values@.len(),
            sum == spec_square_sum(values@.take(i as int)),
        decreases values@.len() - i,
    {
        proof {
            assert(values@.take(i + 1).drop_last() =~= values@.take(i as int));
            assert(values@.take(i + 1).last() == values@[i as int]);
        }
        sum = sum.add(values[i].powi(2));
        i = i + 1;
    }
    proof {
        assert(values@.take(values@.len() as int) =~= values@);
    }
    let n = values.len();
    sum.div(T::from_count(n as u64)).sqrt()
}

/// The squared deviations from `m`, accumulated left to right from zero.
pub open spec fn spec_second_moment_sum<T: Numeric>(s: Seq<T>, m: T) -> T
    decreases s.len(),
{
    if s.len() == 0 {
        T::sfrom(0)
    } else {
        let tv = s.last().ssub(m);
        spec_second_moment_sum(s.drop_last(), m).sadd(tv.smul(tv))
    }
}

/// The fourth powers of the deviations from `m`, accumulated left to
/// right from zero.
pub open spec fn spec_fourth_moment_sum<T: Numeric>(s: Seq<T>, m: T) -> T
    decreases s.len(),
{
    if s.len() == 0 {
        T::sfrom(0)
    } else {
        let tv = s.last().ssub(m);
        spec_fourth_moment_sum(s.drop_last(), m).sadd(tv.smul(tv).smul(tv).smul(tv))
    }
}

/// The excess kurtosis of the sample, from the second and fourth central
/// moments: `(n-1)/((n-2)(n-3)) * (n(n+1) m4 / m2^2 - 3(n-1))`.
pub open spec fn spec_kurtosis<T: Numeric>(s: Seq<T>) -> T {
    let m = spec_mean(s);
    let scm = spec_second_moment_sum(s, m);
    let fcm = spec_fourth_moment_sum(s, m);
    let n = T::sfrom(s.len());
    let one = T::sfrom(1);
    let two = T::sfrom(2);
    let three = T::sfrom(3);
    n.ssub(one).sdiv(n.ssub(two).smul(n.ssub(three))).smul(
        n.smul(n.sadd(one)).smul(fcm).sdiv(scm.smul(scm)).ssub(three.smul(n.ssub(one))),
    )
}

/// Compute the kurtosis value of list of values.
/// The implementation is based on Fischer's definition (normal ==> 0.0)
/// and use unbiased estimators.
pub fn kurtosis<T: Numeric>(values: &[T]) -> (r: T)
    ensures
        r == spec_kurtosis(values@),
{
    let m = mean(values);
    let mut second_central_moment: T = T::from_count(0);
    let mut fourth_central_moment: T = T::from_count(0);
    let mut i: usize = 0;
    while i < values.len()
        invariant
            i <= values@.len(),
            m == spec_mean(values@),
            second_central_moment == spec_second_moment_sum(values@.take(i as int), m),
            fourth_central_moment == spec_fourth_moment_sum(values@.take(i as int), m),
        decreases values@.len() - i,
    {
        proof {
            assert(values@.take(i + 1).drop_last() =~= values@.take(i as int));
            assert(values@.take(i + 1).last() == values@[i as int]);
        }
        let temp_value = values[i].sub(m);
        second_central_moment = second_central_moment.add(temp_value.mul(temp_value));
        fourth_central_moment = fourth_central_moment.add(
            temp_value.mul(temp_value).mul(temp_value).mul(temp_value),
        );
        i = i + 1;
    }
    proof {
        assert(values@.take(values@.len() as int) =~= values@);
    }
    let len = values.len();
    let n = T::from_count(len as u64);
    let one = T::from_count(1);
    let two = T::from_count(2);
    let three = T::from_count(3);
    n.sub(one).div(n.sub(two).mul(n.sub(three))).mul(
        n.mul(n.add(one)).mul(fourth_central_moment).div(
            second_central_moment.mul(second_central_moment),
        ).sub(three.mul(n.sub(one))),
    )
}

/// Every sample value is strictly positive.
pub open spec fn all_positive<T: Numeric>(s: Seq<T>) -> bool {
    forall|i: int| 0 <= i < s.len() ==> pos(#[trigger] s[i])
}

/// The reciprocals of the sample, accumulated left to right from zero.
pub open spec fn spec_reciprocal_sum<T: Numeric>(s: Seq<T>) -> T
    decreases s.len(),
{
    if s.len() == 0 {
        T::sfrom(0)
    } else {
        spec_reciprocal_sum(s.drop_last()).sadd(T::sfrom(1).sdiv(s.last()))
    }
}

/// The harmonic mean: the length divided by the sum of the reciprocals.
pub open spec fn spec_harmonic_mean<T: Numeric>(s: Seq<T>) -> T {
    T::sfrom(s.len()).sdiv(spec_reciprocal_sum(s))
}

/// This mean is calculated by taking the reciprocal of the arithmetic mean
/// of the reciprocals of the input numbers.
/// Fails when some input value is not strictly positive.
pub fn harmonic_mean<T: Numeric>(values: &[T]) -> (r: ClassifResult<T>)
    ensures
        r == if all_positive(values@) {
            ClassifResult::Ok(spec_harmonic_mean(values@))
        } else {
            ClassifResult::<T>::Err(ClassifError::OnlyPositive(MayFail::HarmonicMean))
        },
{
    let mut reciprocal_sum: T = T::from_count(0);
    let mut i: usize = 0;
    while i < values.len()
        invariant
            i <= values@.len(),
            forall|j: int| 0 <= j < i ==> pos(#[trigger] values@[j]),
            reciprocal_sum == spec_reciprocal_sum(values@.take(i as int)),
        decreases values@.len() - i,
    {
        proof {
            assert(values@.take(i + 1).drop_last() =~= values@.take(i as int));
            assert(values@.take(i + 1).last() == values@[i as int]);
        }
        if values[i].le(T::from_count(0)) {
            return Err(ClassifError::OnlyPositive(MayFail::HarmonicMean));
        }
        reciprocal_sum = reciprocal_sum.add(T::from_count(1).div(values[i]));
        i = i + 1;
    }
    proof {
        assert(values@.take(values@.len() as int) =~= values@);
    }
    let n = values.len();
    Ok(T::from_count(n as u64).div(reciprocal_sum))
}

/// The product of the sample, accumulated left to right from one.
pub open spec fn spec_product<T: Numeric>(s: Seq<T>) -> T
    decreases s.len(),
{
    if s.len() == 0 {
        T::sfrom(1)
    } else {
        spec_product(s.drop_last()).smul(s.last())
    }
}

/// The geometric mean: the product of the sample raised to the power of
/// the reciprocal of its length.
pub open spec fn spec_geometric_mean<T: Numeric>(s: Seq<T>) -> T {
    spec_product(s).spowf(T::sfrom(1).sdiv(T::sfrom(s.len())))
}

/// Compute the central number in a geometric progression,
/// also calculable as the nth root of a product of n numbers.
/// Fails when some input value is not strictly positive.
pub fn geometric_mean<T: Numeric>(values: &[T]) -> (r: ClassifResult<T>)
    ensures
        r == if all_positive(values@) {
            ClassifResult::Ok(spec_geometric_mean(values@))
        } else {
            ClassifResult::<T>::Err(ClassifError::OnlyPositive(MayFail::GeometricMean))
        },
{
    let mut val: T = T::from_count(1);
    let mut i: usize = 0;
    while i < values.len()
        invariant
            i <= values@.len(),
            forall|j: int| 0 <= j < i ==> pos(#[trigger] values@[j]),
            val == spec_product(values@.take(i as int)),
        decreases values@.len() - i,
    {
        proof {
            assert(values@.take(i + 1).drop_last() =~= values@.take(i as int));
            assert(values@.take(i + 1).last() == values@[i as int]);
        }
        if values[i].le(T::from_count(0)) {
            return Err(ClassifError::OnlyPositive(MayFail::GeometricMean));
        }
        val = val.mul(values[i]);
        i = i + 1;
    }
    proof {
        assert(values@.take(values@.len() as int) =~= values@);
    }
    let n = values.len();
    Ok(val.powf(T::from_count(1).div(T::from_count(n as u64))))
}

} // verus!
