//! The classification engine: the breaking methods, the standalone break
//! functions over a pre-sorted sample, and the aggregate result type.
use vstd::arithmetic::div_mod::lemma_div_by_self;
use vstd::arithmetic::div_mod::lemma_div_is_ordered;
use vstd::arithmetic::div_mod::lemma_fundamental_div_mod;
use vstd::prelude::*;

use crate::numeric::Numeric;
use crate::numeric::nonneg;
use crate::numeric::pos;
use crate::numeric::slt;
use crate::sort::sorted_le;
use crate::stats::spec_mean;

verus! {

/// The various type of classification methods availables.
#[derive(Clone, Copy, Debug, PartialEq, Eq, Structural)]
pub enum Classification {
    EqualInterval,
    HeadTail,
    TailHead,
    JenksNaturalBreaks,
    Quantiles,
    Arithmetic,
}

/// Compares two character sequences for equality.
fn str_eq(a: &str, b: &str) -> (r: bool)
    ensures
        r == (a@ == b@),
{
    let la = a.unicode_len();
    let lb = b.unicode_len();
    if la != lb {
        return false;
    }
    let mut i: usize = 0;
    while i < la
        invariant
            la == a@.len(),
            la == b@.len(),
            i <= la,
            forall|j: int| 0 <= j < i ==> a@[j] == b@[j],
        decreases la - i,
    {
        if a.get_char(i) != b.get_char(i) {
            return false;
        }
        i = i + 1;
    }
    proof {
        assert(a@ =~= b@);
    }
    true
}

/// The method named by `t`, or an error for an unrecognized name.
///
/// The historical name table spelled the equal-interval method
/// `"EqualInverval"`; that spelling is kept as an accepted synonym of the
/// corrected `"EqualInterval"`.
pub open spec fn spec_classification_from_name(t: Seq<char>) -> Result<
    Classification,
    &'static str,
> {
    if t == "JenksNaturalBreaks"@ {
        Ok(Classification::JenksNaturalBreaks)
    } else if t == "Quantiles"@ {
        Ok(Classification::Quantiles)
    } else if t == "EqualInverval"@ {
        Ok(Classification::EqualInterval)
    } else if t == "EqualInterval"@ {
        Ok(Classification::EqualInterval)
    } else if t == "HeadTail"@ {
        Ok(Classification::HeadTail)
    } else if t == "TailHead"@ {
        Ok(Classification::TailHead)
    } else if t == "Arithmetic"@ {
        Ok(Classification::Arithmetic)
    } else {
        Err("Invalid classification name")
    }
}

impl Classification {
    /// Parse a classification method from its exact, case-sensitive name.
    pub fn from_str(s: &str) -> (r: Result<Classification, &'static str>)
        ensures
            r == spec_classification_from_name(s@),
    {
        if str_eq(s, "JenksNaturalBreaks") {
            Ok(Classification::JenksNaturalBreaks)
        } else if str_eq(s, "Quantiles") {
            Ok(Classification::Quantiles)
        } else if str_eq(s, "EqualInverval") {
            Ok(Classification::EqualInterval)
        } else if str_eq(s, "EqualInterval") {
            Ok(Classification::EqualInterval)
        } else if str_eq(s, "HeadTail") {
            Ok(Classification::HeadTail)
        } else if str_eq(s, "TailHead") {
            Ok(Classification::TailHead)
        } else if str_eq(s, "Arithmetic") {
            Ok(Classification::Arithmetic)
        } else {
            Err("Invalid classification name")
        }
    }
}

impl core::str::FromStr for Classification {
    type Err = &'static str;

    fn from_str(s: &str) -> Result<Classification, &'static str> {
        Classification::from_str(s)
    }
}

/// The width of one equal-interval class: the sample range divided by the
/// class count.
pub open spec fn spec_equal_interval_width<T: Numeric>(s: Seq<T>, k: nat) -> T {
    s.last().ssub(s.first()).sdiv(T::sfrom(k))
}

/// Boundary `i` of the equal-interval classification: the minimum shifted
/// by `i` class widths, with the first boundary exactly the minimum and
/// the last exactly the maximum.
pub open spec fn spec_equal_interval_boundary<T: Numeric>(s: Seq<T>, k: nat, i: int) -> T {
    if i == 0 {
        s.first()
    } else if i == k {
        s.last()
    } else {
        s.first().sadd(T::sfrom(i as nat).smul(spec_equal_interval_width(s, k)))
    }
}

/// All `k + 1` equal-interval boundaries in order.
pub open spec fn spec_equal_interval<T: Numeric>(s: Seq<T>, k: nat) -> Seq<T> {
    Seq::new(k + 1, |i: int| spec_equal_interval_boundary(s, k, i))
}

/// Compute the equal interval breaks on a list of sorted values.
pub fn get_equal_interval<T: Numeric>(sorted_values: &[T], nb_class: u32) -> (breaks: Vec<T>)
    requires
        sorted_values@.len() >= 1,
        nb_class >= 1,
    ensures
        breaks@ == spec_equal_interval(sorted_values@, nb_class as nat),
{
    let min = sorted_values[0];
    let max = sorted_values[sorted_values.len() - 1];
    let interval = max.sub(min).div(T::from_count(nb_class as u64));
    let mut breaks: Vec<T> = Vec::new();
    breaks.push(min);
    let mut i: u32 = 1;
    while i < nb_class
        invariant
            1 <= i <= nb_class,
            sorted_values@.len() >= 1,
            min == sorted_values@.first(),
            max == sorted_values@.last(),
            interval == spec_equal_interval_width(sorted_values@, nb_class as nat),
            breaks@.len() == i,
            forall|j: int|
                0 <= j < i ==> breaks@[j] == spec_equal_interval_boundary(
                    sorted_values@,
                    nb_class as nat,
                    j,
                ),
        decreases nb_class - i,
    {
        breaks.push(min.add(T::from_count(i as u64).mul(interval)));
        i = i + 1;
    }
    breaks.push(max);
    proof {
        assert(breaks@ =~= spec_equal_interval(sorted_values@, nb_class as nat));
    }
    breaks
}

/// The equal-interval boundaries of a sorted sample are non-decreasing,
/// start at the sample minimum and end exactly at the sample maximum.
pub proof fn lemma_equal_interval_sorted<T: Numeric>(s: Seq<T>, k: nat)
    requires
        sorted_le(s),
        s.len() >= 1,
        k >= 1,
    ensures
        spec_equal_interval(s, k).len() == k + 1,
        spec_equal_interval(s, k).first() == s.first(),
        spec_equal_interval(s, k).last() == s.last(),
        sorted_le(spec_equal_interval(s, k)),
{
    let min = s.first();
    let max = s.last();
    let d = max.ssub(min);
    let w = spec_equal_interval_width(s, k);
    assert(min.sle(max));
    T::law_sub_nonneg(min, max);
    T::law_from_lt(0, k);
    T::law_div_nonneg(d, T::sfrom(k));
    // each step from boundary i to boundary i + 1 does not go down
    assert forall|i: int, j: int|
        0 <= i <= j < k + 1 implies spec_equal_interval_boundary(s, k, i).sle(
        spec_equal_interval_boundary(s, k, j),
    ) by {
        lemma_equal_interval_boundary_le(s, k, i, j);
    }
}

/// One ordered pair of equal-interval boundaries.
proof fn lemma_equal_interval_boundary_le<T: Numeric>(s: Seq<T>, k: nat, i: int, j: int)
    requires
        sorted_le(s),
        s.len() >= 1,
        k >= 1,
        0 <= i <= j <= k,
    ensures
        spec_equal_interval_boundary(s, k, i).sle(spec_equal_interval_boundary(s, k, j)),
{
    let min = s.first();
    let max = s.last();
    let d = max.ssub(min);
    let w = spec_equal_interval_width(s, k);
    assert(min.sle(max));
    T::law_sub_nonneg(min, max);
    T::law_from_lt(0, k);
    T::law_div_nonneg(d, T::sfrom(k));
    T::law_le_refl(min);
    T::law_le_refl(max);
    if i == j {
        T::law_le_refl(spec_equal_interval_boundary(s, k, i));
    } else {
        // the value of boundary `m` for 0 <= m <= k, in closed form
        // min + m*w, agrees with the boundary at the ends as well
        lemma_equal_interval_closed_le(s, k, i);
        lemma_equal_interval_closed_ge(s, k, j);
        T::law_from_le(i as nat, j as nat);
        T::law_mul_le(T::sfrom(i as nat), T::sfrom(j as nat), w);
        T::law_add_le(min, min, T::sfrom(i as nat).smul(w), T::sfrom(j as nat).smul(w));
        T::law_le_trans(
            spec_equal_interval_boundary(s, k, i),
            min.sadd(T::sfrom(i as nat).smul(w)),
            min.sadd(T::sfrom(j as nat).smul(w)),
        );
        T::law_le_trans(
            spec_equal_interval_boundary(s, k, i),
            min.sadd(T::sfrom(j as nat).smul(w)),
            spec_equal_interval_boundary(s, k, j),
        );
    }
}

/// Boundary `i` is at most `min + i*w`.
proof fn lemma_equal_interval_closed_le<T: Numeric>(s: Seq<T>, k: nat, i: int)
    requires
        sorted_le(s),
        s.len() >= 1,
        k >= 1,
        0 <= i <= k,
    ensures
        spec_equal_interval_boundary(s, k, i).sle(
            s.first().sadd(T::sfrom(i as nat).smul(spec_equal_interval_width(s, k))),
        ),
{
    let min = s.first();
    let max = s.last();
    let d = max.ssub(min);
    let w = spec_equal_interval_width(s, k);
    assert(min.sle(max));
    T::law_sub_nonneg(min, max);
    T::law_from_lt(0, k);
    T::law_div_nonneg(d, T::sfrom(k));
    if i == 0 {
        T::law_mul_from_zero(w);
        T::law_add_zero(min);
        T::law_le_refl(min);
    } else if i == k {
        // min + k*w == min + d == max
        T::law_mul_div_exact(d, T::sfrom(k));
        T::law_sub_add(min, max);
        T::law_le_refl(max);
    } else {
        T::law_le_refl(spec_equal_interval_boundary(s, k, i));
    }
}

/// Boundary `i` is at least `min + i*w`.
proof fn lemma_equal_interval_closed_ge<T: Numeric>(s: Seq<T>, k: nat, i: int)
    requires
        sorted_le(s),
        s.len() >= 1,
        k >= 1,
        0 <= i <= k,
    ensures
        s.first().sadd(T::sfrom(i as nat).smul(spec_equal_interval_width(s, k))).sle(
            spec_equal_interval_boundary(s, k, i),
        ),
{
    let min = s.first();
    let max = s.last();
    let d = max.ssub(min);
    let w = spec_equal_interval_width(s, k);
    assert(min.sle(max));
    T::law_sub_nonneg(min, max);
    T::law_from_lt(0, k);
    T::law_div_nonneg(d, T::sfrom(k));
    if i == 0 {
        T::law_mul_from_zero(w);
        T::law_add_zero(min);
        T::law_le_refl(min);
    } else if i == k {
        T::law_mul_div_exact(d, T::sfrom(k));
        T::law_sub_add(min, max);
        T::law_le_refl(max);
    } else {
        T::law_le_refl(spec_equal_interval_boundary(s, k, i));
    }
}

/// The 1-based rank of the sample element serving as quantile boundary
/// `i`: `floor(i * (n/k) + 0.49)`, computed exactly over the integers as
/// `(100*i*n + 49*k) / (100*k)`.
pub open spec fn spec_quantile_rank(n: nat, k: nat, i: int) -> int {
    (100 * i * n + 49 * k) / (100 * k as int)
}

/// All `k + 1` quantile boundaries in order: the sample minimum, the
/// sample elements at the quantile ranks, and the sample maximum.
pub open spec fn spec_quantiles<T: Numeric>(s: Seq<T>, k: nat) -> Seq<T> {
    Seq::new(
        k + 1,
        |i: int|
            if i == 0 {
                s.first()
            } else if i == k {
                s.last()
            } else {
                s[spec_quantile_rank(s.len(), k, i) - 1]
            },
    )
}

/// The quantile rank lies between 1 and `n - 1` for the intermediate
/// boundaries, and does not decrease from one boundary to the next.
pub proof fn lemma_quantile_rank_bounds(n: nat, k: nat, i: int)
    requires
        1 <= k <= n,
        1 <= i < k,
    ensures
        1 <= spec_quantile_rank(n, k, i) <= n - 1,
        i + 1 < k ==> spec_quantile_rank(n, k, i) <= spec_quantile_rank(n, k, i + 1),
{
    let den = 100 * k as int;
    let num = 100 * i * n + 49 * k;
    assert(num >= den) by (nonlinear_arith)
        requires
            1 <= k <= n,
            1 <= i,
            num == 100 * i * n + 49 * k,
            den == 100 * k as int,
    ;
    lemma_div_is_ordered(den, num, den);
    lemma_div_by_self(den);
    // an upper bound: num < n * den, so the quotient stays below n
    assert(num < n * den) by (nonlinear_arith)
        requires
            1 <= k <= n,
            1 <= i < k,
            num == 100 * i * n + 49 * k,
            den == 100 * k as int,
    ;
    lemma_fundamental_div_mod(num, den);
    vstd::arithmetic::div_mod::lemma_mod_bound(num, den);
    assert(num / den < n) by (nonlinear_arith)
        requires
            num == den * (num / den) + num % den,
            0 <= num % den < den,
            num < n * den,
            den > 0,
            num / den >= 1,
    ;
    if i + 1 < k {
        let num2 = 100 * (i + 1) * n + 49 * k;
        assert(num <= num2) by (nonlinear_arith)
            requires
                1 <= k <= n,
                1 <= i,
                num == 100 * i * n + 49 * k,
                num2 == 100 * (i + 1) * n + 49 * k,
        ;
        lemma_div_is_ordered(num, num2, den);
    }
}

/// Compute the quantiles breaks on a list of sorted values.
pub fn get_quantiles<T: Numeric>(sorted_values: &[T], nb_class: u32) -> (breaks: Vec<T>)
    requires
        sorted_values@.len() >= 1,
        nb_class >= 1,
        nb_class as nat <= sorted_values@.len(),
    ensures
        breaks@ == spec_quantiles(sorted_values@, nb_class as nat),
{
    let n = sorted_values.len();
    let mut breaks: Vec<T> = Vec::new();
    breaks.push(sorted_values[0]);
    let mut i: u32 = 1;
    while i < nb_class
        invariant
            1 <= i <= nb_class,
            nb_class as nat <= sorted_values@.len(),
            n == sorted_values@.len(),
            breaks@.len() == i,
            forall|j: int| 0 <= j < i ==> breaks@[j] == spec_quantiles(
                sorted_values@,
                nb_class as nat,
            )[j],
        decreases nb_class - i,
    {
        proof {
            lemma_quantile_rank_bounds(n as nat, nb_class as nat, i as int);
            let ghost wi = i as u128;
            let ghost wn = n as u128;
            let ghost wk = nb_class as u128;
            assert(100u128 * wi * wn + 49u128 * wk < 0x1_0000_0000_0000_0000_0000_0000_0000u128)
                by (nonlinear_arith)
                requires
                    wi < 0x1_0000_0000u128,
                    wk < 0x1_0000_0000u128,
                    wn < 0x1_0000_0000_0000_0000u128,
            ;
        }
        let num: u128 = 100u128 * (i as u128) * (n as u128) + 49u128 * (nb_class as u128);
        let den: u128 = 100u128 * (nb_class as u128);
        let qrank_wide: u128 = num / den;
        proof {
            assert(qrank_wide == spec_quantile_rank(n as nat, nb_class as nat, i as int));
        }
        let qrank: usize = qrank_wide as usize;
        breaks.push(sorted_values[qrank - 1]);
        i = i + 1;
    }
    breaks.push(sorted_values[n - 1]);
    proof {
        assert(breaks@ =~= spec_quantiles(sorted_values@, nb_class as nat));
    }
    breaks
}

/// The quantile boundaries of a sorted sample are non-decreasing, start
/// at the sample minimum, end at the sample maximum, and all of them are
/// sample elements.
pub proof fn lemma_quantiles_sorted<T: Numeric>(s: Seq<T>, k: nat)
    requires
        sorted_le(s),
        s.len() >= 1,
        1 <= k <= s.len(),
    ensures
        spec_quantiles(s, k).len() == k + 1,
        spec_quantiles(s, k).first() == s.first(),
        spec_quantiles(s, k).last() == s.last(),
        sorted_le(spec_quantiles(s, k)),
{
    let q = spec_quantiles(s, k);
    // every boundary is a sample element at a non-decreasing position
    assert forall|i: int, j: int| 0 <= i <= j < q.len() implies q[i].sle(q[j]) by {
        lemma_quantile_pair_le(s, k, i, j);
    }
}

/// One ordered pair of quantile boundaries.
proof fn lemma_quantile_pair_le<T: Numeric>(s: Seq<T>, k: nat, i: int, j: int)
    requires
        sorted_le(s),
        s.len() >= 1,
        1 <= k <= s.len(),
        0 <= i <= j <= k,
    ensures
        spec_quantiles(s, k)[i].sle(spec_quantiles(s, k)[j]),
{
    let n = s.len();
    if 1 <= i < k {
        lemma_quantile_rank_bounds(n, k, i);
    }
    if 1 <= j < k {
        lemma_quantile_rank_bounds(n, k, j);
    }
    if i == j {
        T::law_le_refl(spec_quantiles(s, k)[i]);
    } else if i == 0 {
        // the minimum is at most any sample element
        if j == k {
            assert(s[0].sle(s[n - 1]));
        } else {
            assert(s[0].sle(s[spec_quantile_rank(n, k, j) - 1]));
        }
    } else if j == k {
        if i < k {
            assert(s[spec_quantile_rank(n, k, i) - 1].sle(s[n - 1]));
        }
    } else {
        lemma_quantile_rank_monotone(n, k, i, j);
        assert(s[spec_quantile_rank(n, k, i) - 1].sle(s[spec_quantile_rank(n, k, j) - 1]));
    }
}

/// The quantile rank does not decrease with the boundary position.
proof fn lemma_quantile_rank_monotone(n: nat, k: nat, i: int, j: int)
    requires
        1 <= k <= n,
        1 <= i <= j < k,
    ensures
        spec_quantile_rank(n, k, i) <= spec_quantile_rank(n, k, j),
    decreases j - i,
{
    if i < j {
        lemma_quantile_rank_bounds(n, k, i);
        lemma_quantile_rank_monotone(n, k, i + 1, j);
    }
}

/// The sum `1 + 2 + ... + k`, accumulated from zero as the engine does.
pub open spec fn spec_triangular<T: Numeric>(k: nat) -> T
    decreases k,
{
    if k == 0 {
        T::sfrom(0)
    } else {
        spec_triangular::<T>((k - 1) as nat).sadd(T::sfrom(k))
    }
}

/// The width of the first arithmetic-progression class: the sample range
/// divided by the triangular number of the class count.
pub open spec fn spec_arithmetic_width<T: Numeric>(s: Seq<T>, k: nat) -> T {
    s.last().ssub(s.first()).sdiv(spec_triangular::<T>(k))
}

/// Boundary `i` of the arithmetic-progression classification: each class
/// is `i` widths wide, so boundary `i` is the previous boundary shifted
/// by `i` widths.
pub open spec fn spec_arithmetic_boundary<T: Numeric>(s: Seq<T>, k: nat, i: int) -> T
    decreases i,
{
    if i <= 0 {
        s.first()
    } else {
        spec_arithmetic_boundary(s, k, i - 1).sadd(
            T::sfrom(i as nat).smul(spec_arithmetic_width(s, k)),
        )
    }
}

/// All `k + 1` arithmetic-progression boundaries in order.
pub open spec fn spec_arithmetic<T: Numeric>(s: Seq<T>, k: nat) -> Seq<T> {
    Seq::new(k + 1, |i: int| spec_arithmetic_boundary(s, k, i))
}

/// Compute the "arithmetic progression" breaks on a list of sorted values.
pub fn get_arithmetic_breaks<T: Numeric>(sorted_values: &[T], nb_class: u32) -> (breaks: Vec<T>)
    requires
        sorted_values@.len() >= 1,
        nb_class >= 1,
    ensures
        breaks@ == spec_arithmetic(sorted_values@, nb_class as nat),
{
    let mut denominator: T = T::from_count(0);
    let mut i: u64 = 1;
    while i <= nb_class as u64
        invariant
            1 <= i <= nb_class as u64 + 1,
            denominator == spec_triangular::<T>((i - 1) as nat),
        decreases nb_class as u64 + 1 - i,
    {
        denominator = denominator.add(T::from_count(i));
        i = i + 1;
    }
    let tmp_min = sorted_values[0];
    let tmp_max = sorted_values[sorted_values.len() - 1];
    let interval = tmp_max.sub(tmp_min).div(denominator);
    let mut breaks: Vec<T> = Vec::new();
    breaks.push(tmp_min);
    let mut i: u64 = 1;
    while i <= nb_class as u64
        invariant
            1 <= i <= nb_class as u64 + 1,
            sorted_values@.len() >= 1,
            tmp_min == sorted_values@.first(),
            tmp_max == sorted_values@.last(),
            interval == spec_arithmetic_width(sorted_values@, nb_class as nat),
            breaks@.len() == i,
            forall|j: int|
                0 <= j < i ==> breaks@[j] == spec_arithmetic_boundary(
                    sorted_values@,
                    nb_class as nat,
                    j,
                ),
        decreases nb_class as u64 + 1 - i,
    {
        let v = breaks[(i - 1) as usize];
        breaks.push(v.add(T::from_count(i).mul(interval)));
        i = i + 1;
    }
    proof {
        assert(breaks@ =~= spec_arithmetic(sorted_values@, nb_class as nat));
    }
    breaks
}

/// The triangular number of a positive count is strictly positive.
proof fn lemma_triangular_pos<T: Numeric>(k: nat)
    requires
        k >= 1,
    ensures
        pos(spec_triangular::<T>(k)),
    decreases k,
{
    T::law_from_lt(0, k);
    if k == 1 {
        assert(spec_triangular::<T>(0) == T::sfrom(0));
        T::law_add_comm(T::sfrom(0), T::sfrom(1));
        T::law_add_zero(T::sfrom(1));
    } else {
        lemma_triangular_pos::<T>((k - 1) as nat);
        T::law_add_zero(T::sfrom(0));
        T::law_from_le(0, k);
        T::law_add_lt(T::sfrom(0), T::sfrom(k), T::sfrom(0), spec_triangular::<T>((k - 1) as nat));
        T::law_add_comm(T::sfrom(k), spec_triangular::<T>((k - 1) as nat));
    }
}

/// Boundary `i` of the arithmetic progression, in closed form:
/// `min + (1 + 2 + ... + i) * w`.
proof fn lemma_arithmetic_closed<T: Numeric>(s: Seq<T>, k: nat, i: int)
    requires
        s.len() >= 1,
        0 <= i,
    ensures
        spec_arithmetic_boundary(s, k, i) == s.first().sadd(
            spec_triangular::<T>(i as nat).smul(spec_arithmetic_width(s, k)),
        ),
    decreases i,
{
    let min = s.first();
    let w = spec_arithmetic_width(s, k);
    if i == 0 {
        T::law_mul_from_zero(w);
        T::law_add_zero(min);
    } else {
        lemma_arithmetic_closed(s, k, i - 1);
        // min + t(i-1)*w + i*w == min + (t(i-1) + i)*w
        T::law_mul_distrib(spec_triangular::<T>((i - 1) as nat), T::sfrom(i as nat), w);
        T::law_add_assoc(
            min,
            spec_triangular::<T>((i - 1) as nat).smul(w),
            T::sfrom(i as nat).smul(w),
        );
    }
}

/// The arithmetic-progression boundaries of a sorted sample are
/// non-decreasing, start at the sample minimum and end at the sample
/// maximum.
pub proof fn lemma_arithmetic_sorted<T: Numeric>(s: Seq<T>, k: nat)
    requires
        sorted_le(s),
        s.len() >= 1,
        k >= 1,
    ensures
        spec_arithmetic(s, k).len() == k + 1,
        spec_arithmetic(s, k).first() == s.first(),
        spec_arithmetic(s, k).last() == s.last(),
        sorted_le(spec_arithmetic(s, k)),
{
    let min = s.first();
    let max = s.last();
    let d = max.ssub(min);
    let w = spec_arithmetic_width(s, k);
    assert(min.sle(max));
    T::law_sub_nonneg(min, max);
    lemma_triangular_pos::<T>(k);
    T::law_div_nonneg(d, spec_triangular::<T>(k));
    // the last boundary collapses to the maximum
    lemma_arithmetic_closed(s, k, k as int);
    T::law_mul_div_exact(d, spec_triangular::<T>(k));
    T::law_sub_add(min, max);
    assert(spec_arithmetic(s, k).last() == s.last());
    assert forall|i: int, j: int|
        0 <= i <= j < k + 1 implies spec_arithmetic(s, k)[i].sle(spec_arithmetic(s, k)[j]) by {
        lemma_arithmetic_chain_le(s, k, i, j);
    }
}

/// Transitive closure of the one-step ordering of arithmetic boundaries.
proof fn lemma_arithmetic_chain_le<T: Numeric>(s: Seq<T>, k: nat, i: int, j: int)
    requires
        sorted_le(s),
        s.len() >= 1,
        k >= 1,
        0 <= i <= j <= k,
    ensures
        spec_arithmetic_boundary(s, k, i).sle(spec_arithmetic_boundary(s, k, j)),
    decreases j - i,
{
    let min = s.first();
    let max = s.last();
    let d = max.ssub(min);
    let w = spec_arithmetic_width(s, k);
    assert(min.sle(max));
    T::law_sub_nonneg(min, max);
    lemma_triangular_pos::<T>(k);
    T::law_div_nonneg(d, spec_triangular::<T>(k));
    if i == j {
        T::law_le_refl(spec_arithmetic_boundary(s, k, i));
    } else {
        lemma_arithmetic_chain_le(s, k, i, j - 1);
        let step = T::sfrom(j as nat).smul(w);
        T::law_from_le(0, j as nat);
        T::law_mul_le(T::sfrom(0), T::sfrom(j as nat), w);
        T::law_mul_from_zero(w);
        let b = spec_arithmetic_boundary(s, k, j - 1);
        T::law_le_refl(b);
        T::law_add_le(b, b, T::sfrom(0), step);
        T::law_add_zero(b);
        T::law_le_trans(
            spec_arithmetic_boundary(s, k, i),
            b,
            spec_arithmetic_boundary(s, k, j),
        );
    }
}

/// Filtering by a stronger predicate keeps at most as many elements.
proof fn lemma_filter_stronger_len<A>(s: Seq<A>, p: spec_fn(A) -> bool, q: spec_fn(A) -> bool)
    requires
        forall|x: A| #[trigger] q(x) ==> p(x),
    ensures
        s.filter(q).len() <= s.filter(p).len(),
    decreases s.len(),
{
    reveal(Seq::filter);
    if s.len() > 0 {
        lemma_filter_stronger_len(s.drop_last(), p, q);
        assert(q(s.last()) ==> p(s.last()));
    }
}

/// Filtering by a stronger predicate that loses the element at `w` keeps
/// strictly fewer elements.
proof fn lemma_filter_stronger_len_strict<A>(
    s: Seq<A>,
    p: spec_fn(A) -> bool,
    q: spec_fn(A) -> bool,
    w: int,
)
    requires
        forall|x: A| #[trigger] q(x) ==> p(x),
        0 <= w < s.len(),
        p(s[w]),
        !q(s[w]),
    ensures
        s.filter(q).len() < s.filter(p).len(),
    decreases s.len(),
{
    reveal(Seq::filter);
    if w == s.len() - 1 {
        lemma_filter_stronger_len(s.drop_last(), p, q);
    } else {
        lemma_filter_stronger_len_strict(s.drop_last(), p, q, w);
        assert(q(s.last()) ==> p(s.last()));
    }
}

/// Every element of a filtered sequence stands somewhere in the source.
proof fn lemma_filter_element_index<A>(s: Seq<A>, p: spec_fn(A) -> bool, j: int)
    requires
        0 <= j < s.filter(p).len(),
    ensures
        exists|w: int| 0 <= w < s.len() && s[w] == s.filter(p)[j],
    decreases s.len(),
{
    reveal(Seq::filter);
    if s.len() > 0 {
        if p(s.last()) && j == s.filter(p).len() - 1 {
            assert(s[s.len() - 1] == s.filter(p)[j]);
        } else {
            lemma_filter_element_index(s.drop_last(), p, j);
            let w = choose|w: int|
                0 <= w < s.drop_last().len() && s.drop_last()[w] == s.drop_last().filter(p)[j];
            assert(s[w] == s.filter(p)[j]);
        }
    }
}

/// A sequence whose every element fails the predicate filters to nothing.
proof fn lemma_filter_none<A>(s: Seq<A>, p: spec_fn(A) -> bool)
    requires
        forall|w: int| 0 <= w < s.len() ==> !p(#[trigger] s[w]),
    ensures
        s.filter(p).len() == 0,
    decreases s.len(),
{
    reveal(Seq::filter);
    if s.len() > 0 {
        lemma_filter_none(s.drop_last(), p);
    }
}

/// If only the last position can satisfy the predicate, at most one
/// element passes the filter.
proof fn lemma_filter_at_most_last<A>(s: Seq<A>, p: spec_fn(A) -> bool)
    requires
        forall|w: int| 0 <= w < s.len() - 1 ==> !p(#[trigger] s[w]),
    ensures
        s.filter(p).len() <= 1,
{
    reveal(Seq::filter);
    if s.len() > 0 {
        lemma_filter_none(s.drop_last(), p);
    }
}

/// If only the first position can satisfy the predicate, at most one
/// element passes the filter.
proof fn lemma_filter_at_most_first<A>(s: Seq<A>, p: spec_fn(A) -> bool)
    requires
        forall|w: int| 1 <= w < s.len() ==> !p(#[trigger] s[w]),
    ensures
        s.filter(p).len() <= 1,
    decreases s.len(),
{
    reveal(Seq::filter);
    if s.len() > 1 {
        lemma_filter_at_most_first(s.drop_last(), p);
    }
}

/// Two positions satisfying the predicate put at least two elements in
/// the filtered sequence.
proof fn lemma_filter_pair<A>(s: Seq<A>, p: spec_fn(A) -> bool, i: int, j: int)
    requires
        0 <= i < j < s.len(),
        p(s[i]),
        p(s[j]),
    ensures
        s.filter(p).len() >= 2,
    decreases s.len(),
{
    reveal(Seq::filter);
    if j == s.len() - 1 {
        s.drop_last().lemma_filter_contains(p, i);
        assert(s.drop_last().filter(p).len() >= 1);
    } else {
        lemma_filter_pair(s.drop_last(), p, i, j);
    }
}

/// Filtering twice keeps no more elements than filtering by the second
/// predicate alone.
proof fn lemma_filter_filter_len<A>(s: Seq<A>, p: spec_fn(A) -> bool, q: spec_fn(A) -> bool)
    ensures
        s.filter(p).filter(q).len() <= s.filter(q).len(),
    decreases s.len(),
{
    reveal(Seq::filter);
    if s.len() > 0 {
        lemma_filter_filter_len(s.drop_last(), p, q);
        if p(s.last()) {
            let fp = s.drop_last().filter(p);
            assert(s.filter(p) == fp.push(s.last()));
            assert(fp.push(s.last()).drop_last() =~= fp);
            assert(fp.push(s.last()).last() == s.last());
        }
    }
}

/// The sample values strictly greater than `m`.
pub open spec fn gt_pred<T: Numeric>(m: T) -> spec_fn(T) -> bool {
    |v: T| slt(m, v)
}

/// The subsequence of the sample strictly greater than `m`, in order.
pub open spec fn gt_filter<T: Numeric>(s: Seq<T>, m: T) -> Seq<T> {
    s.filter(gt_pred(m))
}

/// Collects the sample values strictly greater than `m`, in order.
fn filter_greater<T: Numeric>(values: &[T], m: T) -> (t: Vec<T>)
    ensures
        t@ == gt_filter(values@, m),
{
    let mut t: Vec<T> = Vec::new();
    let mut i: usize = 0;
    while i < values.len()
        invariant
            i <= values@.len(),
            t@ == gt_filter(values@.take(i as int), m),
        decreases values@.len() - i,
    {
        proof {
            reveal(Seq::filter);
            assert(values@.take(i + 1).drop_last() =~= values@.take(i as int));
            assert(values@.take(i + 1).last() == values@[i as int]);
        }
        if !values[i].le(m) {
            t.push(values[i]);
        }
        i = i + 1;
    }
    proof {
        assert(values@.take(values@.len() as int) =~= values@);
    }
    t
}

/// The rest of a head-tail boundary sequence after `prev`: its first
/// element is the mean of the sample values strictly above `prev`, and
/// the walk goes on from that mean while the working subset still holds
/// at least two values.
pub open spec fn head_tail_chain<T: Numeric>(s: Seq<T>, prev: T, rest: Seq<T>) -> bool
    decreases rest.len(),
{
    if rest.len() == 0 {
        false
    } else {
        let t = gt_filter(s, prev);
        &&& rest.first() == spec_mean(t)
        &&& if t.len() < 2 {
            rest.len() == 1
        } else {
            head_tail_chain(s, rest.first(), rest.drop_first())
        }
    }
}

/// The head-tail boundaries of a sample: the minimum, followed by the
/// means of the successively shrinking upper subsets.
pub open spec fn is_head_tail_breaks<T: Numeric>(s: Seq<T>, breaks: Seq<T>) -> bool {
    &&& breaks.len() >= 2
    &&& breaks.first() == s.first()
    &&& head_tail_chain(s, spec_mean(s), breaks.drop_first())
}

/// Replacing the threshold by the mean of the subset it selects shrinks
/// the subset strictly.
proof fn lemma_gt_filter_shrinks<T: Numeric>(s: Seq<T>, m: T)
    requires
        gt_filter(s, m).len() >= 1,
    ensures
        m.sle(spec_mean(gt_filter(s, m))),
        gt_filter(s, spec_mean(gt_filter(s, m))).len() < gt_filter(s, m).len(),
{
    let t = gt_filter(s, m);
    let mm = spec_mean(t);
    assert forall|i: int| 0 <= i < t.len() implies m.sle(#[trigger] t[i]) by {
        s.lemma_filter_pred(gt_pred(m), i);
        T::law_le_total(m, t[i]);
    }
    crate::stats::lemma_mean_lower(t, m);
    assert forall|x: T| #[trigger] gt_pred::<T>(mm)(x) implies gt_pred::<T>(m)(x) by {
        if x.sle(m) {
            T::law_le_trans(x, m, mm);
        }
    }
    crate::stats::lemma_mean_some_le(t);
    let j = choose|j: int| 0 <= j < t.len() && t[j].sle(spec_mean(t));
    lemma_filter_element_index(s, gt_pred(m), j);
    let w = choose|w: int| 0 <= w < s.len() && s[w] == t[j];
    assert(gt_pred::<T>(m)(s[w])) by {
        s.lemma_filter_pred(gt_pred(m), j);
    }
    lemma_filter_stronger_len_strict(s, gt_pred(m), gt_pred(mm), w);
}

/// Compute the "Head-Tail" breaks on a list of sorted values
/// (to be used on heavily right skewed distributions).
pub fn get_head_tail_breaks<T: Numeric>(sorted_values: &[T]) -> (breaks: Vec<T>)
    requires
        sorted_values@.len() >= 1,
    ensures
        is_head_tail_breaks(sorted_values@, breaks@),
        breaks@.len() <= sorted_values@.len() + 2,
{
    let ghost s = sorted_values@;
    let mut m = crate::stats::mean(sorted_values);
    let mut breaks: Vec<T> = Vec::new();
    breaks.push(sorted_values[0]);
    proof {
        assert forall|rest: Seq<T>|
            #[trigger] head_tail_chain(s, m, rest) implies head_tail_chain(
            s,
            spec_mean(s),
            breaks@.drop_first() + rest,
        ) by {
            assert(breaks@.drop_first() + rest =~= rest);
        }
        s.lemma_filter_len(gt_pred(m));
    }
    loop
        invariant_except_break
            breaks@.len() + gt_filter(s, m).len() <= s.len() + 1,
            forall|rest: Seq<T>|
                #[trigger] head_tail_chain(s, m, rest) ==> head_tail_chain(
                    s,
                    spec_mean(s),
                    breaks@.drop_first() + rest,
                ),
        invariant
            sorted_values@ == s,
            s.len() >= 1,
            breaks@.len() >= 1,
            breaks@.first() == s.first(),
        ensures
            is_head_tail_breaks(s, breaks@),
            breaks@.len() <= s.len() + 2,
        decreases gt_filter(s, m).len(),
    {
        let ghost m_old = m;
        let ghost breaks_old = breaks@;
        let t = filter_greater(sorted_values, m);
        m = crate::stats::mean(t.as_slice());
        breaks.push(m);
        if t.len() < 2 {
            proof {
                assert(head_tail_chain(s, m_old, seq![m]));
                assert(head_tail_chain(s, spec_mean(s), breaks_old.drop_first() + seq![m]));
                assert(breaks@.drop_first() =~= breaks_old.drop_first() + seq![m]);
            }
            break ;
        }
        proof {
            lemma_gt_filter_shrinks(s, m_old);
            assert forall|rest: Seq<T>|
                #[trigger] head_tail_chain(s, m, rest) implies head_tail_chain(
                s,
                spec_mean(s),
                breaks@.drop_first() + rest,
            ) by {
                let ext = seq![m] + rest;
                assert(ext.first() == m);
                assert(ext.drop_first() =~= rest);
                assert(head_tail_chain(s, m_old, ext));
                assert(head_tail_chain(s, spec_mean(s), breaks_old.drop_first() + ext));
                assert(breaks@.drop_first() + rest =~= breaks_old.drop_first() + ext);
            }
        }
    }
    breaks
}

/// The sample values at least as large as `m`.
pub open spec fn ge_pred<T: Numeric>(m: T) -> spec_fn(T) -> bool {
    |v: T| m.sle(v)
}

/// The mean of a one-element sample is that element.
proof fn lemma_mean_singleton<T: Numeric>(x: T)
    ensures
        spec_mean(seq![x]) == x,
{
    let one = seq![x];
    assert(one.drop_last() =~= Seq::<T>::empty());
    assert(crate::stats::spec_sum(Seq::<T>::empty()) == T::sfrom(0));
    assert(one.last() == x);
    assert(crate::stats::spec_sum(one) == T::sfrom(0).sadd(x));
    T::law_add_comm(T::sfrom(0), x);
    T::law_add_zero(x);
    assert(crate::stats::spec_sum(one) == x);
    // dividing by the count one gives the element back
    T::law_from_lt(0, 1);
    T::law_mul_from_succ(0, x);
    T::law_mul_from_zero(x);
    assert(T::sfrom(1).smul(x) == x);
    T::law_div_mul_exact(x, T::sfrom(1));
}

/// Walking the chain from `prev` yields strictly increasing means, all
/// above `prev`, ending exactly at the sample maximum; needs the maximum
/// to stand in the sample exactly once.
proof fn lemma_head_tail_chain_props<T: Numeric>(s: Seq<T>, prev: T, rest: Seq<T>)
    requires
        sorted_le(s),
        s.len() >= 2,
        slt(s[s.len() - 2], s.last()),
        slt(prev, s.last()),
        head_tail_chain(s, prev, rest),
    ensures
        forall|i: int| 0 <= i < rest.len() ==> slt(prev, #[trigger] rest[i]),
        sorted_le(rest),
        rest.last() == s.last(),
    decreases rest.len(),
{
    let t = gt_filter(s, prev);
    let m1 = rest.first();
    let max = s.last();
    s.lemma_filter_contains(gt_pred(prev), s.len() - 1);
    assert(t.contains(max));
    assert(t.len() >= 1);
    assert forall|i: int| 0 <= i < t.len() implies slt(prev, #[trigger] t[i]) && t[i].sle(max) by {
        s.lemma_filter_pred(gt_pred(prev), i);
        lemma_filter_element_index(s, gt_pred(prev), i);
        let w = choose|w: int| 0 <= w < s.len() && s[w] == t[i];
        assert(s[w].sle(s[s.len() - 1]));
    }
    crate::stats::lemma_mean_lower_strict(t, prev);
    assert(slt(prev, m1));
    if t.len() < 2 {
        let j = choose|j: int| 0 <= j < t.len() && t[j] == max;
        assert(t =~= seq![max]);
        lemma_mean_singleton(max);
        assert(m1 == max);
        assert(rest =~= seq![max]);
        assert forall|i: int, j: int| 0 <= i <= j < rest.len() implies rest[i].sle(rest[j]) by {
            T::law_le_refl(rest[i]);
        }
    } else {
        // only the last position of the sorted sample reaches the maximum
        assert forall|w: int| 0 <= w < s.len() - 1 implies !(#[trigger] ge_pred::<T>(max)(
            s[w],
        )) by {
            assert(s[w].sle(s[s.len() - 2]));
            if max.sle(s[w]) {
                T::law_le_trans(max, s[w], s[s.len() - 2]);
            }
        }
        lemma_filter_at_most_last(s, ge_pred(max));
        lemma_filter_filter_len(s, gt_pred(prev), ge_pred(max));
        assert(t.filter(ge_pred(max)).len() <= 1);
        // hence one of the first two subset values lies strictly below it
        if ge_pred::<T>(max)(t[0]) && ge_pred::<T>(max)(t[1]) {
            lemma_filter_pair(t, ge_pred(max), 0, 1);
            assert(false);
        }
        let j: int = if !ge_pred::<T>(max)(t[0]) {
            0
        } else {
            1
        };
        assert(slt(t[j], max));
        crate::stats::lemma_mean_upper_strict(t, max, j);
        assert(slt(m1, max));
        lemma_head_tail_chain_props(s, m1, rest.drop_first());
        let rr = rest.drop_first();
        assert(head_tail_chain(s, m1, rr));
        assert(rr.len() >= 1);
        assert(rest.last() == rr.last());
        assert forall|i: int| 0 <= i < rest.len() implies slt(prev, #[trigger] rest[i]) by {
            if i > 0 {
                assert(slt(m1, rr[i - 1]));
                T::law_le_total(prev, m1);
                if rest[i].sle(prev) {
                    T::law_le_trans(rest[i], prev, m1);
                }
            }
        }
        assert forall|i: int, j2: int| 0 <= i <= j2 < rest.len() implies rest[i].sle(rest[j2]) by {
            if i == 0 && j2 == 0 {
                T::law_le_refl(rest[0]);
            } else if i == 0 {
                assert(slt(m1, rr[j2 - 1]));
                T::law_le_total(m1, rest[j2]);
            } else {
                assert(rr[i - 1].sle(rr[j2 - 1]));
            }
        }
    }
}

/// For a sorted sample whose maximum occurs exactly once, the head-tail
/// boundaries are non-decreasing, start at the sample minimum and end at
/// the sample maximum.
pub proof fn lemma_head_tail_sorted<T: Numeric>(s: Seq<T>, breaks: Seq<T>)
    requires
        sorted_le(s),
        s.len() >= 2,
        slt(s[s.len() - 2], s.last()),
        is_head_tail_breaks(s, breaks),
    ensures
        sorted_le(breaks),
        breaks.first() == s.first(),
        breaks.last() == s.last(),
{
    let m0 = spec_mean(s);
    assert forall|i: int| 0 <= i < s.len() implies s[i].sle(s.last()) by {
        assert(s[i].sle(s[s.len() - 1]));
    }
    crate::stats::lemma_mean_upper_strict(s, s.last(), s.len() - 2);
    lemma_head_tail_chain_props(s, m0, breaks.drop_first());
    assert forall|i: int| 0 <= i < s.len() implies s.first().sle(s[i]) by {
        assert(s[0].sle(s[i]));
    }
    crate::stats::lemma_mean_lower(s, s.first());
    let rr = breaks.drop_first();
    assert(breaks.last() == rr.last());
    assert forall|i: int, j: int| 0 <= i <= j < breaks.len() implies breaks[i].sle(breaks[j]) by {
        if i == 0 && j == 0 {
            T::law_le_refl(breaks[0]);
        } else if i == 0 {
            assert(slt(m0, rr[j - 1]));
            T::law_le_total(m0, rr[j - 1]);
            T::law_le_trans(s.first(), m0, rr[j - 1]);
        } else {
            assert(rr[i - 1].sle(rr[j - 1]));
        }
    }
}

/// The sample values strictly less than `m`.
pub open spec fn lt_pred<T: Numeric>(m: T) -> spec_fn(T) -> bool {
    |v: T| slt(v, m)
}

/// The subsequence of the sample strictly less than `m`, in order.
pub open spec fn lt_filter<T: Numeric>(s: Seq<T>, m: T) -> Seq<T> {
    s.filter(lt_pred(m))
}

/// The sample values that do not exceed `m`.
pub open spec fn le_pred<T: Numeric>(m: T) -> spec_fn(T) -> bool {
    |v: T| v.sle(m)
}

/// Collects the sample values strictly less than `m`, in order.
fn filter_less<T: Numeric>(values: &[T], m: T) -> (t: Vec<T>)
    ensures
        t@ == lt_filter(values@, m),
{
    let mut t: Vec<T> = Vec::new();
    let mut i: usize = 0;
    while i < values.len()
        invariant
            i <= values@.len(),
            t@ == lt_filter(values@.take(i as int), m),
        decreases values@.len() - i,
    {
        proof {
            reveal(Seq::filter);
            assert(values@.take(i + 1).drop_last() =~= values@.take(i as int));
            assert(values@.take(i + 1).last() == values@[i as int]);
        }
        if !m.le(values[i]) {
            t.push(values[i]);
        }
        i = i + 1;
    }
    proof {
        assert(values@.take(values@.len() as int) =~= values@);
    }
    t
}

/// The rest of a tail-head walk after `prev`, in the order the walk
/// appends the values: its first element is the mean of the sample
/// values strictly below `prev`, and the walk goes on from that mean
/// while the working subset still holds at least two values.
pub open spec fn tail_head_chain<T: Numeric>(s: Seq<T>, prev: T, rest: Seq<T>) -> bool
    decreases rest.len(),
{
    if rest.len() == 0 {
        false
    } else {
        let t = lt_filter(s, prev);
        &&& rest.first() == spec_mean(t)
        &&& if t.len() < 2 {
            rest.len() == 1
        } else {
            tail_head_chain(s, rest.first(), rest.drop_first())
        }
    }
}

/// The tail-head boundaries of a sample, after the final reversal into
/// ascending order: reading them backwards gives the maximum followed by
/// the means of the successively shrinking lower subsets.
pub open spec fn is_tail_head_breaks<T: Numeric>(s: Seq<T>, breaks: Seq<T>) -> bool {
    let d = breaks.reverse();
    &&& d.len() >= 2
    &&& d.first() == s.last()
    &&& tail_head_chain(s, spec_mean(s), d.drop_first())
}

/// Replacing the threshold by the mean of the lower subset it selects
/// shrinks the subset strictly.
proof fn lemma_lt_filter_shrinks<T: Numeric>(s: Seq<T>, m: T)
    requires
        lt_filter(s, m).len() >= 1,
    ensures
        spec_mean(lt_filter(s, m)).sle(m),
        lt_filter(s, spec_mean(lt_filter(s, m))).len() < lt_filter(s, m).len(),
{
    let t = lt_filter(s, m);
    let mm = spec_mean(t);
    assert forall|i: int| 0 <= i < t.len() implies #[trigger] t[i].sle(m) by {
        s.lemma_filter_pred(lt_pred(m), i);
        T::law_le_total(t[i], m);
    }
    crate::stats::lemma_mean_upper(t, m);
    assert forall|x: T| #[trigger] lt_pred::<T>(mm)(x) implies lt_pred::<T>(m)(x) by {
        if m.sle(x) {
            T::law_le_trans(mm, m, x);
        }
    }
    crate::stats::lemma_mean_some_ge(t);
    let j = choose|j: int| 0 <= j < t.len() && spec_mean(t).sle(t[j]);
    lemma_filter_element_index(s, lt_pred(m), j);
    let w = choose|w: int| 0 <= w < s.len() && s[w] == t[j];
    assert(lt_pred::<T>(m)(s[w])) by {
        s.lemma_filter_pred(lt_pred(m), j);
    }
    lemma_filter_stronger_len_strict(s, lt_pred(m), lt_pred(mm), w);
}

/// Compute the "Tail-Head" breaks on a list of sorted values.
/// (its actually just the inverse of the Head-Tail method,
/// to be used on heavily left skewed distributions).
pub fn get_tail_head_breaks<T: Numeric>(sorted_values: &[T]) -> (breaks: Vec<T>)
    requires
        sorted_values@.len() >= 1,
    ensures
        is_tail_head_breaks(sorted_values@, breaks@),
        breaks@.len() <= sorted_values@.len() + 2,
{
    let ghost s = sorted_values@;
    let mut m = crate::stats::mean(sorted_values);
    let mut desc: Vec<T> = Vec::new();
    desc.push(sorted_values[sorted_values.len() - 1]);
    proof {
        assert forall|rest: Seq<T>|
            #[trigger] tail_head_chain(s, m, rest) implies tail_head_chain(
            s,
            spec_mean(s),
            desc@.drop_first() + rest,
        ) by {
            assert(desc@.drop_first() + rest =~= rest);
        }
        s.lemma_filter_len(lt_pred(m));
    }
    loop
        invariant_except_break
            desc@.len() + lt_filter(s, m).len() <= s.len() + 1,
            forall|rest: Seq<T>|
                #[trigger] tail_head_chain(s, m, rest) ==> tail_head_chain(
                    s,
                    spec_mean(s),
                    desc@.drop_first() + rest,
                ),
        invariant
            sorted_values@ == s,
            s.len() >= 1,
            desc@.len() >= 1,
            desc@.first() == s.last(),
        ensures
            desc@.len() >= 2,
            desc@.first() == s.last(),
            tail_head_chain(s, spec_mean(s), desc@.drop_first()),
            desc@.len() <= s.len() + 2,
        decreases lt_filter(s, m).len(),
    {
        let ghost m_old = m;
        let ghost desc_old = desc@;
        let t = filter_less(sorted_values, m);
        m = crate::stats::mean(t.as_slice());
        desc.push(m);
        if t.len() < 2 {
            proof {
                assert(tail_head_chain(s, m_old, seq![m]));
                assert(tail_head_chain(s, spec_mean(s), desc_old.drop_first() + seq![m]));
                assert(desc@.drop_first() =~= desc_old.drop_first() + seq![m]);
            }
            break ;
        }
        proof {
            lemma_lt_filter_shrinks(s, m_old);
            assert forall|rest: Seq<T>|
                #[trigger] tail_head_chain(s, m, rest) implies tail_head_chain(
                s,
                spec_mean(s),
                desc@.drop_first() + rest,
            ) by {
                let ext = seq![m] + rest;
                assert(ext.first() == m);
                assert(ext.drop_first() =~= rest);
                assert(tail_head_chain(s, m_old, ext));
                assert(tail_head_chain(s, spec_mean(s), desc_old.drop_first() + ext));
                assert(desc@.drop_first() + rest =~= desc_old.drop_first() + ext);
            }
        }
    }
    let mut breaks: Vec<T> = Vec::new();
    let mut j: usize = desc.len();
    while j > 0
        invariant
            j <= desc@.len(),
            breaks@.len() == desc@.len() - j,
            forall|i: int|
                0 <= i < breaks@.len() ==> breaks@[i] == desc@[desc@.len() - 1 - i],
        decreases j,
    {
        j = j - 1;
        breaks.push(desc[j]);
    }
    proof {
        assert(breaks@.reverse() =~= desc@);
    }
    breaks
}

/// For a sorted sample whose minimum occurs exactly once, walking the
/// tail-head chain from `prev` yields strictly decreasing means, all
/// below `prev`, ending exactly at the sample minimum.
proof fn lemma_tail_head_chain_props<T: Numeric>(s: Seq<T>, prev: T, rest: Seq<T>)
    requires
        sorted_le(s),
        s.len() >= 2,
        slt(s.first(), s[1]),
        slt(s.first(), prev),
        tail_head_chain(s, prev, rest),
    ensures
        forall|i: int| 0 <= i < rest.len() ==> slt(#[trigger] rest[i], prev),
        forall|i: int, j: int| 0 <= i <= j < rest.len() ==> rest[j].sle(rest[i]),
        rest.last() == s.first(),
    decreases rest.len(),
{
    let t = lt_filter(s, prev);
    let m1 = rest.first();
    let min = s.first();
    s.lemma_filter_contains(lt_pred(prev), 0);
    assert(t.contains(min));
    assert(t.len() >= 1);
    assert forall|i: int| 0 <= i < t.len() implies slt(#[trigger] t[i], prev) && min.sle(t[i]) by {
        s.lemma_filter_pred(lt_pred(prev), i);
        lemma_filter_element_index(s, lt_pred(prev), i);
        let w = choose|w: int| 0 <= w < s.len() && s[w] == t[i];
        assert(s[0].sle(s[w]));
    }
    assert forall|i: int| 0 <= i < t.len() implies #[trigger] t[i].sle(prev) by {
        T::law_le_total(t[i], prev);
    }
    crate::stats::lemma_mean_upper_strict(t, prev, 0);
    assert(slt(m1, prev));
    if t.len() < 2 {
        let j = choose|j: int| 0 <= j < t.len() && t[j] == min;
        assert(t =~= seq![min]);
        lemma_mean_singleton(min);
        assert(m1 == min);
        assert(rest =~= seq![min]);
        assert forall|i: int, j2: int| 0 <= i <= j2 < rest.len() implies rest[j2].sle(rest[i]) by {
            T::law_le_refl(rest[i]);
        }
    } else {
        // only the first position of the sorted sample reaches the minimum
        assert forall|w: int| 1 <= w < s.len() implies !(#[trigger] le_pred::<T>(min)(s[w])) by {
            assert(s[1].sle(s[w]));
            if s[w].sle(min) {
                T::law_le_trans(s[1], s[w], min);
            }
        }
        lemma_filter_at_most_first(s, le_pred(min));
        lemma_filter_filter_len(s, lt_pred(prev), le_pred(min));
        assert(t.filter(le_pred(min)).len() <= 1);
        if le_pred::<T>(min)(t[0]) && le_pred::<T>(min)(t[1]) {
            lemma_filter_pair(t, le_pred(min), 0, 1);
            assert(false);
        }
        let j: int = if !le_pred::<T>(min)(t[0]) {
            0
        } else {
            1
        };
        assert(slt(min, t[j]));
        crate::stats::lemma_mean_lower_strict_at(t, min, j);
        assert(slt(min, m1));
        lemma_tail_head_chain_props(s, m1, rest.drop_first());
        let rr = rest.drop_first();
        assert(tail_head_chain(s, m1, rr));
        assert(rr.len() >= 1);
        assert(rest.last() == rr.last());
        assert forall|i: int| 0 <= i < rest.len() implies slt(#[trigger] rest[i], prev) by {
            if i > 0 {
                assert(slt(rr[i - 1], m1));
                T::law_le_total(m1, prev);
                if prev.sle(rest[i]) {
                    T::law_le_trans(m1, prev, rest[i]);
                }
            }
        }
        assert forall|i: int, j2: int| 0 <= i <= j2 < rest.len() implies rest[j2].sle(rest[i]) by {
            if i == 0 && j2 == 0 {
                T::law_le_refl(rest[0]);
            } else if i == 0 {
                assert(slt(rr[j2 - 1], m1));
                T::law_le_total(rest[j2], m1);
            } else {
                assert(rr[j2 - 1].sle(rr[i - 1]));
            }
        }
    }
}

/// For a sorted sample whose minimum occurs exactly once, the tail-head
/// boundaries are non-decreasing, start at the sample minimum and end at
/// the sample maximum.
pub proof fn lemma_tail_head_sorted<T: Numeric>(s: Seq<T>, breaks: Seq<T>)
    requires
        sorted_le(s),
        s.len() >= 2,
        slt(s.first(), s[1]),
        is_tail_head_breaks(s, breaks),
    ensures
        sorted_le(breaks),
        breaks.first() == s.first(),
        breaks.last() == s.last(),
{
    let d = breaks.reverse();
    let m0 = spec_mean(s);
    assert forall|i: int| 0 <= i < s.len() implies s.first().sle(s[i]) by {
        assert(s[0].sle(s[i]));
    }
    crate::stats::lemma_mean_lower_strict_at(s, s.first(), 1);
    lemma_tail_head_chain_props(s, m0, d.drop_first());
    assert forall|i: int| 0 <= i < s.len() implies s[i].sle(s.last()) by {
        assert(s[i].sle(s[s.len() - 1]));
    }
    crate::stats::lemma_mean_upper(s, s.last());
    let rr = d.drop_first();
    assert(d.last() == rr.last());
    // the reversed walk is non-increasing, so the boundaries ascend
    assert forall|i: int, j: int| 0 <= i <= j < d.len() implies d[j].sle(d[i]) by {
        if i == 0 && j == 0 {
            T::law_le_refl(d[0]);
        } else if i == 0 {
            assert(slt(rr[j - 1], m0));
            T::law_le_total(rr[j - 1], m0);
            T::law_le_trans(d[j], m0, s.last());
        } else {
            assert(rr[j - 1].sle(rr[i - 1]));
        }
    }
    assert forall|i: int, j: int| 0 <= i <= j < breaks.len() implies breaks[i].sle(breaks[j]) by {
        assert(breaks[i] == d[d.len() - 1 - i]);
        assert(breaks[j] == d[d.len() - 1 - j]);
        assert(d[d.len() - 1 - i].sle(d[d.len() - 1 - j]));
    }
    assert(breaks.first() == d.last());
    assert(breaks.last() == d.first());
}

/// Two tail-head walks from the same threshold agree.
pub proof fn lemma_tail_head_chain_unique<T: Numeric>(s: Seq<T>, prev: T, r1: Seq<T>, r2: Seq<T>)
    requires
        tail_head_chain(s, prev, r1),
        tail_head_chain(s, prev, r2),
    ensures
        r1 == r2,
    decreases r1.len(),
{
    let t = lt_filter(s, prev);
    assert(r1.first() == spec_mean(t));
    assert(r2.first() == spec_mean(t));
    if t.len() < 2 {
        assert(r1.len() == 1 && r2.len() == 1);
        assert(r1 =~= r2);
    } else {
        assert(tail_head_chain(s, r1.first(), r1.drop_first()));
        assert(tail_head_chain(s, r1.first(), r2.drop_first()));
        lemma_tail_head_chain_unique(s, r1.first(), r1.drop_first(), r2.drop_first());
        assert(r1.drop_first() =~= r2.drop_first());
        assert forall|i: int| 0 <= i < r1.len() implies r1[i] == r2[i] by {
            if i > 0 {
                assert(r1[i] == r1.drop_first()[i - 1]);
                assert(r2[i] == r2.drop_first()[i - 1]);
            }
        }
        assert(r1 =~= r2);
    }
}

/// Two head-tail walks from the same threshold agree.
pub proof fn lemma_head_tail_chain_unique<T: Numeric>(s: Seq<T>, prev: T, r1: Seq<T>, r2: Seq<T>)
    requires
        head_tail_chain(s, prev, r1),
        head_tail_chain(s, prev, r2),
    ensures
        r1 == r2,
    decreases r1.len(),
{
    let t = gt_filter(s, prev);
    assert(r1.first() == spec_mean(t));
    assert(r2.first() == spec_mean(t));
    if t.len() < 2 {
        assert(r1.len() == 1 && r2.len() == 1);
        assert(r1 =~= r2);
    } else {
        assert(head_tail_chain(s, r1.first(), r1.drop_first()));
        assert(head_tail_chain(s, r1.first(), r2.drop_first()));
        lemma_head_tail_chain_unique(s, r1.first(), r1.drop_first(), r2.drop_first());
        assert(r1.drop_first() =~= r2.drop_first());
        assert forall|i: int| 0 <= i < r1.len() implies r1[i] == r2[i] by {
            if i > 0 {
                assert(r1[i] == r1.drop_first()[i - 1]);
                assert(r2[i] == r2.drop_first()[i - 1]);
            }
        }
        assert(r1 =~= r2);
    }
}

/// The boundaries the selected method produces for the sorted sample.
pub open spec fn is_bounds_for<T: Numeric>(
    method: Classification,
    sorted: Seq<T>,
    nb_class: u32,
    breaks: Seq<T>,
) -> bool {
    match method {
        Classification::EqualInterval => breaks == spec_equal_interval(sorted, nb_class as nat),
        Classification::Quantiles => breaks == spec_quantiles(sorted, nb_class as nat),
        Classification::Arithmetic => breaks == spec_arithmetic(sorted, nb_class as nat),
        Classification::JenksNaturalBreaks => breaks == crate::jenks::spec_jenks(
            sorted,
            nb_class as nat,
        ),
        Classification::HeadTail => is_head_tail_breaks(sorted, breaks),
        Classification::TailHead => is_tail_head_breaks(sorted, breaks),
    }
}

/// The requested class count is fixed for every method but the two
/// head/tail walks, which resolve their own count from the data.
pub open spec fn resolves_own_count(method: Classification) -> bool {
    method == Classification::HeadTail || method == Classification::TailHead
}

/// A struct containing the bounds computed at its creation and some basic
/// statistical informations : minimum, maximum and mean value.
///
/// The main field of `BoundsInfo` struct is the `bounds` field: a `Vec<T>`
/// containing the bounds. The lower bound is the minimum of the input values
/// and the upper bound is the maximum.
///
/// The `get_class_index` method allows to retrieve the index of the cluster in which
/// belongs an input value.
pub struct BoundsInfo<T> {
    pub type_classif: Classification,
    pub nb_class: u32,
    pub bounds: Vec<T>,
    pub min: T,
    pub max: T,
    pub mean: T,
}

/// What a successful construction hands back for the given arguments:
/// the boundaries of the selected method over the engine-owned sorted
/// copy, beside the sorted sample's first and last value, its mean, and
/// the resolved class count.
pub open spec fn is_result_of<T: Numeric>(
    b: BoundsInfo<T>,
    nb_class: u32,
    values: Seq<T>,
    method: Classification,
) -> bool {
    let sorted = crate::sort::spec_sort(values);
    &&& b.type_classif == method
    &&& is_bounds_for(method, sorted, nb_class, b.bounds@)
    &&& b.min == sorted.first()
    &&& b.max == sorted.last()
    &&& b.mean == spec_mean(sorted)
    &&& b.nb_class as int == b.bounds@.len() - 1
}

/// The first scanned interval containing the probe, scanning upwards
/// from interval `i`: a probe in the very first interval may sit on
/// either of its ends, in any later interval only on the upper one.
pub open spec fn spec_class_index_from<T: Numeric>(bounds: Seq<T>, value: T, i: int) -> Option<
    u32,
>
    decreases bounds.len() - i,
{
    if i < 0 || i + 1 >= bounds.len() {
        None
    } else if value.sle(bounds[i + 1]) && (if i == 0 {
        bounds[0].sle(value)
    } else {
        slt(bounds[i], value)
    }) {
        Some(i as u32)
    } else {
        spec_class_index_from(bounds, value, i + 1)
    }
}

/// The class the probe falls in, or `None` outside the sample range.
pub open spec fn spec_class_index<T: Numeric>(bounds: Seq<T>, value: T) -> Option<u32> {
    spec_class_index_from(bounds, value, 0)
}

impl<T: Numeric> BoundsInfo<T> {
    /// Validates the request, sorts an engine-owned copy of the sample,
    /// dispatches to the selected break algorithm and freezes the
    /// boundaries beside the sorted sample's minimum, maximum and mean.
    pub fn new(nb_class: u32, values: &[T], type_classif: Classification) -> (r: Result<
        BoundsInfo<T>,
        &'static str,
    >)
        requires
            type_classif == Classification::JenksNaturalBreaks ==> values@.len() * values@.len()
                <= usize::MAX,
            resolves_own_count(type_classif) ==> values@.len() + 2 <= u32::MAX,
        ensures
            values@.len() < 2 ==> r == Result::<BoundsInfo<T>, &'static str>::Err(
                "Too small number of values!",
            ),
            values@.len() >= 2 && !resolves_own_count(type_classif) && (nb_class < 2 || nb_class as nat
                > values@.len()) ==> r == Result::<BoundsInfo<T>, &'static str>::Err(
                "Invalid number of class",
            ),
            values@.len() >= 2 && (resolves_own_count(type_classif) || (2 <= nb_class && nb_class as nat
                <= values@.len())) ==> r is Ok && is_result_of(
                r->Ok_0,
                nb_class,
                values@,
                type_classif,
            ),
    {
        let nb_elem: usize = values.len();
        if nb_elem < 2 {
            return Err("Too small number of values!");
        }
        if !(type_classif == Classification::HeadTail || type_classif == Classification::TailHead)
            && (nb_class < 2 || nb_class as usize > nb_elem) {
            return Err("Invalid number of class");
        }
        let v = crate::sort::sort_values(values);
        proof {
            crate::sort::lemma_sort_len(values@);
        }
        let breaks = match type_classif {
            Classification::JenksNaturalBreaks => crate::jenks::get_jenks_breaks(
                v.as_slice(),
                nb_class,
            ),
            Classification::Quantiles => get_quantiles(v.as_slice(), nb_class),
            Classification::EqualInterval => get_equal_interval(v.as_slice(), nb_class),
            Classification::HeadTail => get_head_tail_breaks(v.as_slice()),
            Classification::TailHead => get_tail_head_breaks(v.as_slice()),
            Classification::Arithmetic => get_arithmetic_breaks(v.as_slice(), nb_class),
        };
        proof {
            if type_classif == Classification::HeadTail {
                assert(breaks@.len() >= 2);
            }
            if type_classif == Classification::TailHead {
                assert(breaks@.reverse().len() >= 2);
            }
            assert(breaks@.len() - 1 <= u32::MAX);
        }
        let nbk: u32 = (breaks.len() - 1) as u32;
        let min = v[0];
        let max = v[nb_elem - 1];
        let mean_value = crate::stats::mean(v.as_slice());
        Ok(
            BoundsInfo {
                type_classif,
                nb_class: nbk,
                bounds: breaks,
                min,
                max,
                mean: mean_value,
            },
        )
    }

    /// Returns the index of the class to which the `value` belongs, wrapped
    /// in an Option. Returns None if the value is outside the serie range.
    ///
    /// A probe equal to the lower bound of the range belongs to the first
    /// class; every other interval takes only probes strictly above its
    /// lower boundary.
    pub fn get_class_index(&self, value: T) -> (r: Option<u32>)
        requires
            self.bounds@.len() <= u32::MAX + 1,
        ensures
            r == spec_class_index(self.bounds@, value),
    {
        let nb = self.bounds.len();
        let mut i: usize = 0;
        while nb - i > 1
            invariant
                nb == self.bounds@.len(),
                nb <= u32::MAX + 1,
                0 <= i <= nb,
                spec_class_index(self.bounds@, value) == spec_class_index_from(
                    self.bounds@,
                    value,
                    i as int,
                ),
            decreases nb - i,
        {
            let upper_ok = value.le(self.bounds[i + 1]);
            let lower_ok = if i == 0 {
                self.bounds[0].le(value)
            } else {
                !value.le(self.bounds[i])
            };
            if upper_ok && lower_ok {
                return Some(i as u32);
            }
            i = i + 1;
        }
        None
    }
}

/// Every freshly constructed classification result satisfies the
/// boundary invariant: the boundaries are non-decreasing, there is one
/// more boundary than classes, the first boundary is the sample minimum
/// and the last the sample maximum.  For the two data-determined walks
/// this asks that the decisive extreme value occur in the sample exactly
/// once; a flat top (for head-tail) or a flat bottom (for tail-head)
/// drives the walk into an empty working subset, whose mean is not a
/// number the order laws speak about.
pub proof fn lemma_bounds_invariant<T: Numeric>(
    b: BoundsInfo<T>,
    nb_class: u32,
    values: Seq<T>,
    method: Classification,
)
    requires
        is_result_of(b, nb_class, values, method),
        values.len() >= 2,
        !resolves_own_count(method) ==> 2 <= nb_class && nb_class as nat <= values.len(),
        method == Classification::HeadTail ==> slt(
            crate::sort::spec_sort(values)[values.len() - 2],
            crate::sort::spec_sort(values).last(),
        ),
        method == Classification::TailHead ==> slt(
            crate::sort::spec_sort(values).first(),
            crate::sort::spec_sort(values)[1],
        ),
    ensures
        sorted_le(b.bounds@),
        b.bounds@.len() == b.nb_class + 1,
        b.bounds@.first() == b.min,
        b.bounds@.last() == b.max,
        forall|i: int|
            0 <= i < values.len() ==> b.min.sle(#[trigger] values[i]) && values[i].sle(b.max),
        values.contains(b.min),
        values.contains(b.max),
{
    let sorted = crate::sort::spec_sort(values);
    crate::sort::lemma_sort_bounds(values);
    match method {
        Classification::EqualInterval => {
            lemma_equal_interval_sorted(sorted, nb_class as nat);
        },
        Classification::Quantiles => {
            lemma_quantiles_sorted(sorted, nb_class as nat);
        },
        Classification::Arithmetic => {
            lemma_arithmetic_sorted(sorted, nb_class as nat);
        },
        Classification::JenksNaturalBreaks => {
            crate::jenks::lemma_jenks_sorted(sorted, nb_class as nat);
        },
        Classification::HeadTail => {
            lemma_head_tail_sorted(sorted, b.bounds@);
        },
        Classification::TailHead => {
            lemma_tail_head_sorted(sorted, b.bounds@);
        },
    }
}

/// Scanning from any position gives nothing for a probe outside the
/// range of sorted boundaries.
proof fn lemma_class_index_from_none<T: Numeric>(bounds: Seq<T>, value: T, i: int)
    requires
        sorted_le(bounds),
        bounds.len() >= 1,
        0 <= i,
        slt(value, bounds.first()) || slt(bounds.last(), value),
    ensures
        spec_class_index_from(bounds, value, i) is None,
    decreases bounds.len() - i,
{
    if i + 1 >= bounds.len() {
    } else {
        if slt(value, bounds.first()) {
            if i == 0 {
            } else {
                T::law_le_total(value, bounds[0]);
                assert(bounds[0].sle(bounds[i]));
                T::law_le_trans(value, bounds[0], bounds[i]);
            }
        } else {
            assert(bounds[i + 1].sle(bounds[bounds.len() - 1]));
            if value.sle(bounds[i + 1]) {
                T::law_le_trans(value, bounds[i + 1], bounds[bounds.len() - 1]);
            }
        }
        lemma_class_index_from_none(bounds, value, i + 1);
    }
}

/// A probe strictly below the lowest boundary or strictly above the
/// highest belongs to no class.
pub proof fn lemma_class_index_out_of_range<T: Numeric>(b: BoundsInfo<T>, value: T)
    requires
        sorted_le(b.bounds@),
        b.bounds@.len() >= 1,
        slt(value, b.bounds@.first()) || slt(b.bounds@.last(), value),
    ensures
        spec_class_index(b.bounds@, value) is None,
{
    lemma_class_index_from_none(b.bounds@, value, 0);
}

/// A probe strictly below the sample minimum or strictly above the
/// sample maximum belongs to no class of a valid classification result.
pub proof fn lemma_class_index_outside_sample<T: Numeric>(
    b: BoundsInfo<T>,
    nb_class: u32,
    values: Seq<T>,
    method: Classification,
    value: T,
)
    requires
        is_result_of(b, nb_class, values, method),
        values.len() >= 2,
        !resolves_own_count(method) ==> 2 <= nb_class && nb_class as nat <= values.len(),
        method == Classification::HeadTail ==> slt(
            crate::sort::spec_sort(values)[values.len() - 2],
            crate::sort::spec_sort(values).last(),
        ),
        method == Classification::TailHead ==> slt(
            crate::sort::spec_sort(values).first(),
            crate::sort::spec_sort(values)[1],
        ),
        slt(value, b.min) || slt(b.max, value),
    ensures
        spec_class_index(b.bounds@, value) is None,
{
    lemma_bounds_invariant(b, nb_class, values, method);
    lemma_class_index_out_of_range(b, value);
}

/// Scanning from a position whose lower boundary admits the probe finds
/// a class for every probe within the upper range.
proof fn lemma_class_index_from_some<T: Numeric>(bounds: Seq<T>, value: T, i: int)
    requires
        sorted_le(bounds),
        0 <= i,
        i + 1 < bounds.len(),
        value.sle(bounds.last()),
        if i == 0 {
            bounds[0].sle(value)
        } else {
            slt(bounds[i], value)
        },
    ensures
        spec_class_index_from(bounds, value, i) is Some,
    decreases bounds.len() - i,
{
    if value.sle(bounds[i + 1]) {
    } else {
        assert(i + 2 < bounds.len());
        lemma_class_index_from_some(bounds, value, i + 1);
    }
}

/// A probe between the lowest and the highest boundary always lands in
/// a class.
pub proof fn lemma_class_index_in_range<T: Numeric>(b: BoundsInfo<T>, value: T)
    requires
        sorted_le(b.bounds@),
        b.bounds@.len() >= 2,
        b.bounds@.first().sle(value),
        value.sle(b.bounds@.last()),
    ensures
        spec_class_index(b.bounds@, value) is Some,
{
    lemma_class_index_from_some(b.bounds@, value, 0);
}

/// The class the scan hands back really contains the probe: the probe
/// does not exceed the class's upper boundary, and it sits on or above
/// the lower boundary of the first class, strictly above the lower
/// boundary of any later one.
pub proof fn lemma_class_index_sound<T: Numeric>(b: BoundsInfo<T>, value: T, j: int)
    requires
        b.bounds@.len() <= u32::MAX + 1,
        spec_class_index(b.bounds@, value) == Some(j as u32),
        0 <= j <= u32::MAX,
    ensures
        j + 1 < b.bounds@.len(),
        value.sle(b.bounds@[j + 1]),
        j == 0 ==> b.bounds@[0].sle(value),
        j > 0 ==> slt(b.bounds@[j], value),
{
    lemma_class_index_from_sound(b.bounds@, value, 0, j);
}

/// The scan only answers with a position it has visited and matched.
proof fn lemma_class_index_from_sound<T: Numeric>(bounds: Seq<T>, value: T, i: int, j: int)
    requires
        bounds.len() <= u32::MAX + 1,
        0 <= i,
        0 <= j <= u32::MAX,
        spec_class_index_from(bounds, value, i) == Some(j as u32),
    ensures
        i <= j,
        j + 1 < bounds.len(),
        value.sle(bounds[j + 1]),
        j == 0 ==> bounds[0].sle(value),
        j > 0 ==> slt(bounds[j], value),
    decreases bounds.len() - i,
{
    if i + 1 >= bounds.len() {
    } else if value.sle(bounds[i + 1]) && (if i == 0 {
        bounds[0].sle(value)
    } else {
        slt(bounds[i], value)
    }) {
        assert(j as u32 == i as u32);
        assert(j == i);
    } else {
        lemma_class_index_from_sound(bounds, value, i + 1, j);
    }
}

/// Constructing a classification result twice from the same sample,
/// class count and method yields identical boundaries, statistics and
/// resolved class count: the engine holds no hidden state and draws no
/// randomness.
pub proof fn lemma_construction_deterministic<T: Numeric>(
    b1: BoundsInfo<T>,
    b2: BoundsInfo<T>,
    nb_class: u32,
    values: Seq<T>,
    method: Classification,
)
    requires
        is_result_of(b1, nb_class, values, method),
        is_result_of(b2, nb_class, values, method),
    ensures
        b1.bounds@ == b2.bounds@,
        b1.min == b2.min,
        b1.max == b2.max,
        b1.mean == b2.mean,
        b1.nb_class == b2.nb_class,
        b1.type_classif == b2.type_classif,
{
    let sorted = crate::sort::spec_sort(values);
    match method {
        Classification::EqualInterval => {
        },
        Classification::Quantiles => {
        },
        Classification::Arithmetic => {
        },
        Classification::JenksNaturalBreaks => {
        },
        Classification::HeadTail => {
            lemma_head_tail_chain_unique(
                sorted,
                spec_mean(sorted),
                b1.bounds@.drop_first(),
                b2.bounds@.drop_first(),
            );
            assert forall|i: int| 0 <= i < b1.bounds@.len() implies b1.bounds@[i]
                == b2.bounds@[i] by {
                if i > 0 {
                    assert(b1.bounds@[i] == b1.bounds@.drop_first()[i - 1]);
                    assert(b2.bounds@[i] == b2.bounds@.drop_first()[i - 1]);
                }
            }
            assert(b1.bounds@ =~= b2.bounds@);
        },
        Classification::TailHead => {
            let d1 = b1.bounds@.reverse();
            let d2 = b2.bounds@.reverse();
            lemma_tail_head_chain_unique(
                sorted,
                spec_mean(sorted),
                d1.drop_first(),
                d2.drop_first(),
            );
            assert forall|i: int| 0 <= i < d1.len() implies d1[i] == d2[i] by {
                if i > 0 {
                    assert(d1[i] == d1.drop_first()[i - 1]);
                    assert(d2[i] == d2.drop_first()[i - 1]);
                }
            }
            assert(d1 =~= d2);
            assert forall|i: int| 0 <= i < b1.bounds@.len() implies b1.bounds@[i]
                == b2.bounds@[i] by {
                assert(d1[d1.len() - 1 - i] == b1.bounds@[i]);
                assert(d2[d2.len() - 1 - i] == b2.bounds@[i]);
            }
            assert(b1.bounds@ =~= b2.bounds@);
        },
    }
}

} // verus!
