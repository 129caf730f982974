use classif::classif::get_arithmetic_breaks;
use classif::classif::get_equal_interval;
use classif::classif::get_head_tail_breaks;
use classif::classif::get_quantiles;
use classif::classif::get_tail_head_breaks;
use classif::classif::BoundsInfo;
use classif::classif::Classification;
use classif::jenks::get_jenks_breaks;
use classif::numeric::Numeric;
use classif::stats;
use classif::ClassifError;
use classif::MayFail;
use vstd::prelude::int;
use vstd::prelude::nat;

/// Double-precision instantiation of the engine's number capability.
#[derive(Clone, Copy, PartialEq, Debug)]
struct R(f64);

impl Numeric for R {
    // The spec members of the numeric capability are ghost: every call
    // site of theirs is erased, so they can never run, and this
    // unverified instantiation marks their bodies unreachable.
    fn sle(self, _other: R) -> bool {
        unreachable!()
    }
    fn sadd(self, _other: R) -> R {
        unreachable!()
    }
    fn ssub(self, _other: R) -> R {
        unreachable!()
    }
    fn smul(self, _other: R) -> R {
        unreachable!()
    }
    fn sdiv(self, _other: R) -> R {
        unreachable!()
    }
    fn ssqrt(self) -> R {
        unreachable!()
    }
    fn spowi(self, _n: int) -> R {
        unreachable!()
    }
    fn spowf(self, _e: R) -> R {
        unreachable!()
    }
    fn sfrom(_n: nat) -> R {
        unreachable!()
    }

    // The proof obligations of the capability are ghost as well: their
    // bodies are erased from the compiled trait, so this unverified
    // instantiation supplies them as empty markers.  They stand for the
    // promise that double-precision arithmetic obeys the laws: exactly
    // for the order laws, up to rounding for the field laws.
    fn law_le_refl(_: R) {}
    fn law_le_total(_: R, _: R) {}
    fn law_le_trans(_: R, _: R, _: R) {}
    fn law_add_le(_: R, _: R, _: R, _: R) {}
    fn law_add_lt(_: R, _: R, _: R, _: R) {}
    fn law_add_comm(_: R, _: R) {}
    fn law_add_zero(_: R) {}
    fn law_from_le(_: nat, _: nat) {}
    fn law_from_lt(_: nat, _: nat) {}
    fn law_mul_from_zero(_: R) {}
    fn law_mul_from_succ(_: nat, _: R) {}
    fn law_mul_le(_: R, _: R, _: R) {}
    fn law_div_le(_: R, _: R, _: R) {}
    fn law_div_lt(_: R, _: R, _: R) {}
    fn law_div_nonneg(_: R, _: R) {}
    fn law_div_mul_exact(_: R, _: R) {}
    fn law_mul_div_exact(_: R, _: R) {}
    fn law_sub_add(_: R, _: R) {}
    fn law_sub_nonneg(_: R, _: R) {}
    fn law_add_assoc(_: R, _: R, _: R) {}
    fn law_mul_distrib(_: R, _: R, _: R) {}

    fn le(self, other: R) -> bool {
        self.0 <= other.0
    }
    fn add(self, other: R) -> R {
        R(self.0 + other.0)
    }
    fn sub(self, other: R) -> R {
        R(self.0 - other.0)
    }
    fn mul(self, other: R) -> R {
        R(self.0 * other.0)
    }
    fn div(self, other: R) -> R {
        R(self.0 / other.0)
    }
    fn sqrt(self) -> R {
        R(self.0.sqrt())
    }
    fn powi(self, n: i32) -> R {
        R(self.0.powi(n))
    }
    fn powf(self, e: R) -> R {
        R(self.0.powf(e.0))
    }
    fn from_count(n: u64) -> R {
        R(n as f64)
    }
}

fn wrap(values: &[f64]) -> Vec<R> {
    values.iter().map(|v| R(*v)).collect()
}

fn unwrap_all(values: &[R]) -> Vec<f64> {
    values.iter().map(|v| v.0).collect()
}

fn get_test_values() -> Vec<R> {
    wrap(&[
        1.0, 1.0, 1.0, 1.0, 1.0, 1.0, 2.0, 2.0, 2.0, 2.0, 2.0, 2.0, 3.0, 3.0, 3.0, 3.0, 3.0, 3.0,
        3.0, 3.0, 3.0, 2.0, 2.0, 2.0, 2.0, 1.0, 1.0, 12.0, 3.0, 4.0, 5.0, 6.0, 7.0, 8.0, 9.0,
        10.0, 11.0, 5.0, 6.0, 7.0, 6.0, 5.0, 6.0, 7.0, 8.0, 8.0, 9.0, 8.0, 7.0, 6.0, 7.0, 8.0,
        9.0, 1.0, 1.0, 1.0, 1.0, 1.0, 1.0, 1.0, 2.0, 2.0, 2.0, 3.0, 3.0, 3.0, 4.0, 4.0, 4.0, 3.0,
        2.0, 2.0, 2.0, 1.0, 1.0, 1.0,
    ])
}

fn sort_copy(values: &[R]) -> Vec<R> {
    let mut v = values.to_vec();
    v.sort_by(|a, b| a.0.partial_cmp(&b.0).unwrap());
    v
}

#[test]
fn test_head_tail() {
    let values = get_test_values();
    let b = BoundsInfo::new(4, &values, Classification::HeadTail).unwrap();
    assert_eq!(unwrap_all(&b.bounds), [1., 7., 9.090909090909092, 11., 12.]);
    let sorted = sort_copy(&values);
    let breaks = get_head_tail_breaks(&sorted);
    assert_eq!(unwrap_all(&breaks), [1., 7., 9.090909090909092, 11., 12.]);
}

#[test]
fn test_jenks_breaks() {
    let values = get_test_values();
    let b = BoundsInfo::new(5, &values, Classification::JenksNaturalBreaks).unwrap();
    assert_eq!(unwrap_all(&b.bounds), [1.0, 2.0, 4.0, 7.0, 9.0, 12.0]);
    let sorted = sort_copy(&values);
    let breaks = get_jenks_breaks(&sorted, 5);
    assert_eq!(unwrap_all(&breaks), [1.0, 2.0, 4.0, 7.0, 9.0, 12.0]);
}

#[test]
fn test_quantiles_breaks() {
    let values = get_test_values();
    let b = BoundsInfo::new(4, &values, Classification::Quantiles).unwrap();
    assert_eq!(unwrap_all(&b.bounds), [1., 2., 3., 6., 12.]);
    let sorted = sort_copy(&values);
    let breaks = get_quantiles(&sorted, 4);
    assert_eq!(unwrap_all(&breaks), [1., 2., 3., 6., 12.]);
}

#[test]
fn test_equal_interval_breaks() {
    let values = get_test_values();
    let b = BoundsInfo::new(4, &values, Classification::EqualInterval).unwrap();
    assert_eq!(unwrap_all(&b.bounds), [1., 3.75, 6.5, 9.25, 12.]);
    let sorted = sort_copy(&values);
    let breaks = get_equal_interval(&sorted, 4);
    assert_eq!(unwrap_all(&breaks), [1., 3.75, 6.5, 9.25, 12.]);
}

#[test]
fn test_arithmetic_breaks() {
    let values = get_test_values();
    let b = BoundsInfo::new(6, &values, Classification::Arithmetic).unwrap();
    assert_eq!(
        unwrap_all(&b.bounds),
        [
            1.,
            1.5238095238095237,
            2.571428571428571,
            4.142857142857142,
            6.238095238095237,
            8.857142857142856,
            12.
        ]
    );
    let sorted = sort_copy(&values);
    let breaks = get_arithmetic_breaks(&sorted, 6);
    assert_eq!(
        unwrap_all(&breaks),
        [
            1.,
            1.5238095238095237,
            2.571428571428571,
            4.142857142857142,
            6.238095238095237,
            8.857142857142856,
            12.
        ]
    );
}

#[test]
fn test_get_class_index() {
    let values = get_test_values();
    let b = BoundsInfo::new(4, &values, Classification::EqualInterval).unwrap();
    assert_eq!(unwrap_all(&b.bounds), [1., 3.75, 6.5, 9.25, 12.]);
    // 0.1 is below the minimum so it belongs in no class, None is expected:
    assert_eq!(b.get_class_index(R(0.1)), None);
    // 2.0 is between 1.0 and 3.75 so 2.0 should belong in the first class, with index 0:
    assert_eq!(b.get_class_index(R(2.)), Some(0));
    // And so on...
    assert_eq!(b.get_class_index(R(4.)), Some(1));
    assert_eq!(b.get_class_index(R(7.)), Some(2));
    assert_eq!(b.get_class_index(R(10.)), Some(3));
    // 15.0 is larger than the maximum so it belongs in no class, None is expected:
    assert_eq!(b.get_class_index(R(15.0)), None);
}

#[test]
fn test_kurtosis() {
    let values = get_test_values();
    let kv = stats::kurtosis(&values);
    assert_eq!(kv.0, 0.042107329018970074);
}

#[test]
fn test_variance() {
    let values = get_test_values();
    let r = stats::sum_pow_deviations(&values, 2);
    assert_eq!(r.0, 608.631578947369);
    let v = stats::variance(&values);
    assert_eq!(v.0, 8.008310249307486);
}

#[test]
fn test_root_mean_square() {
    let values = wrap(&[-1., 1., -1., 1.]);
    let v = stats::rootmeansquare(&values);
    assert_eq!(v.0, 1.);
}

#[test]
fn test_median() {
    // Number of values is odd:
    let values = wrap(&[1., 3., 3., 6., 7., 8., 9.]);
    let median = stats::median(&values);
    assert_eq!(median.0, 6.);
    // Number of values is even:
    let values = wrap(&[1., 2., 3., 4., 5., 6., 8., 9.]);
    let median = stats::median(&values);
    assert_eq!(median.0, 4.5);
}

#[test]
fn test_harmonic_mean() {
    let values = wrap(&[2., 3.]);
    let v = stats::harmonic_mean(&values).unwrap();
    assert!((v.0 - 2.4).abs() < 0.00001);
}

#[test]
fn test_geometric_mean() {
    let values = wrap(&[1., 8., 9., 7., 6., 8., 19., 32.]);
    let res = stats::geometric_mean(&values).unwrap();
    assert_eq!(res.0, 7.869496003150113);
}

#[test]
fn test_tail_head_breaks() {
    // a sample whose minimum occurs once: the walk ends exactly on it
    let sorted = wrap(&[1.0, 20.0, 21.0, 22.0, 23.0, 24.0, 40.0]);
    let breaks = get_tail_head_breaks(&sorted);
    assert_eq!(breaks.first().unwrap().0, 1.0);
    assert_eq!(breaks.last().unwrap().0, 40.0);
    for w in breaks.windows(2) {
        assert!(w[0].0 <= w[1].0);
    }
}

#[test]
fn test_tail_head_flat_bottom_goes_non_finite() {
    // a repeated minimum drives the walk into an empty subset, whose
    // mean is not a number; the engine propagates it like the rest of
    // the arithmetic
    let sorted = sort_copy(&get_test_values());
    let breaks = get_tail_head_breaks(&sorted);
    assert!(breaks.first().unwrap().0.is_nan());
    assert_eq!(breaks.last().unwrap().0, 12.0);
}

#[test]
fn test_parse_method_names() {
    assert_eq!(
        Classification::from_str("JenksNaturalBreaks"),
        Ok(Classification::JenksNaturalBreaks)
    );
    assert_eq!(
        Classification::from_str("Quantiles"),
        Ok(Classification::Quantiles)
    );
    // the historical misspelled name and the corrected one both parse
    assert_eq!(
        Classification::from_str("EqualInverval"),
        Ok(Classification::EqualInterval)
    );
    assert_eq!(
        Classification::from_str("EqualInterval"),
        Ok(Classification::EqualInterval)
    );
    assert_eq!(
        Classification::from_str("HeadTail"),
        Ok(Classification::HeadTail)
    );
    assert_eq!(
        Classification::from_str("TailHead"),
        Ok(Classification::TailHead)
    );
    assert_eq!(
        Classification::from_str("Arithmetic"),
        Ok(Classification::Arithmetic)
    );
    assert_eq!(
        Classification::from_str("equalinterval"),
        Err("Invalid classification name")
    );
    assert_eq!(
        Classification::from_str(""),
        Err("Invalid classification name")
    );
}

#[test]
fn test_validation_errors() {
    let one = wrap(&[4.0]);
    assert_eq!(
        BoundsInfo::new(2, &one, Classification::EqualInterval).err(),
        Some("Too small number of values!")
    );
    let few = wrap(&[4.0, 5.0, 6.0]);
    assert_eq!(
        BoundsInfo::new(1, &few, Classification::EqualInterval).err(),
        Some("Invalid number of class")
    );
    assert_eq!(
        BoundsInfo::new(4, &few, Classification::Quantiles).err(),
        Some("Invalid number of class")
    );
    // the head/tail walks resolve their own count and ignore the request
    assert!(BoundsInfo::new(0, &few, Classification::HeadTail).is_ok());
    assert!(BoundsInfo::new(99, &few, Classification::TailHead).is_ok());
}

#[test]
fn test_bounds_invariant_each_method() {
    // the maximum of this sample occurs once, so the head-tail walk is
    // covered too; the tail-head walk, which needs a unique minimum,
    // gets its own sample below
    let values = get_test_values();
    let cases = [
        (Classification::EqualInterval, 4),
        (Classification::Quantiles, 4),
        (Classification::Arithmetic, 6),
        (Classification::JenksNaturalBreaks, 5),
        (Classification::HeadTail, 4),
    ];
    for (method, k) in cases {
        let b = BoundsInfo::new(k, &values, method).unwrap();
        assert_eq!(b.bounds.len(), b.nb_class as usize + 1);
        assert_eq!(b.bounds.first().unwrap().0, b.min.0);
        assert_eq!(b.bounds.last().unwrap().0, b.max.0);
        assert_eq!(b.min.0, 1.0);
        assert_eq!(b.max.0, 12.0);
        for w in b.bounds.windows(2) {
            assert!(w[0].0 <= w[1].0);
        }
    }
    let values = wrap(&[3.0, 17.0, 17.0, 18.0, 19.0, 19.5, 42.0, 43.0]);
    let b = BoundsInfo::new(4, &values, Classification::TailHead).unwrap();
    assert_eq!(b.bounds.len(), b.nb_class as usize + 1);
    assert_eq!(b.bounds.first().unwrap().0, 3.0);
    assert_eq!(b.bounds.last().unwrap().0, 43.0);
    for w in b.bounds.windows(2) {
        assert!(w[0].0 <= w[1].0);
    }
}

#[test]
fn test_construction_idempotent() {
    let values = get_test_values();
    let cases = [
        (Classification::EqualInterval, 4),
        (Classification::Quantiles, 4),
        (Classification::Arithmetic, 6),
        (Classification::JenksNaturalBreaks, 5),
        (Classification::HeadTail, 4),
        (Classification::TailHead, 4),
    ];
    for (method, k) in cases {
        let b1 = BoundsInfo::new(k, &values, method).unwrap();
        let b2 = BoundsInfo::new(k, &values, method).unwrap();
        // compare bit patterns: a non-finite boundary must come out
        // bit-identical too
        let bits1: Vec<u64> = b1.bounds.iter().map(|v| v.0.to_bits()).collect();
        let bits2: Vec<u64> = b2.bounds.iter().map(|v| v.0.to_bits()).collect();
        assert_eq!(bits1, bits2);
        assert_eq!(b1.nb_class, b2.nb_class);
        assert_eq!(b1.min, b2.min);
        assert_eq!(b1.max, b2.max);
        assert_eq!(b1.mean, b2.mean);
    }
}

#[test]
fn test_class_index_at_range_ends() {
    let values = get_test_values();
    let b = BoundsInfo::new(4, &values, Classification::EqualInterval).unwrap();
    // a probe exactly at the minimum belongs to the first class
    assert_eq!(b.get_class_index(R(1.0)), Some(0));
    // a probe exactly at the maximum belongs to the last class
    assert_eq!(b.get_class_index(R(12.0)), Some(3));
    // strictly outside the range on either side: no class
    assert_eq!(b.get_class_index(R(0.9999)), None);
    assert_eq!(b.get_class_index(R(12.0001)), None);
    // a probe exactly on an inner boundary belongs to the class below it
    assert_eq!(b.get_class_index(R(3.75)), Some(0));
}

#[test]
fn test_equal_interval_even_spacing() {
    let sorted = wrap(&[0.0, 2.0, 5.0, 10.0]);
    let breaks = get_equal_interval(&sorted, 5);
    assert_eq!(unwrap_all(&breaks), [0.0, 2.0, 4.0, 6.0, 8.0, 10.0]);
    let spacing: Vec<f64> = breaks.windows(2).map(|w| w[1].0 - w[0].0).collect();
    for d in spacing {
        assert_eq!(d, 2.0);
    }
}

#[test]
fn test_caller_sample_left_untouched() {
    let values = wrap(&[9.0, 1.0, 5.0, 3.0]);
    let before = unwrap_all(&values);
    let b = BoundsInfo::new(2, &values, Classification::EqualInterval).unwrap();
    assert_eq!(unwrap_all(&values), before);
    assert_eq!(b.min.0, 1.0);
    assert_eq!(b.max.0, 9.0);
}

#[test]
fn test_mean_value_of_result() {
    let values = wrap(&[2.0, 4.0, 6.0, 8.0]);
    let b = BoundsInfo::new(2, &values, Classification::EqualInterval).unwrap();
    assert_eq!(b.mean.0, 5.0);
    assert_eq!(b.nb_class, 2);
    assert_eq!(unwrap_all(&b.bounds), [2.0, 5.0, 8.0]);
}

#[test]
fn test_quantile_rank_bias() {
    // eight values in two classes: the middle boundary picks the sample
    // element of 1-based rank floor(1 * 8/2 + 0.49) = 4
    let sorted = wrap(&[1.0, 2.0, 3.0, 4.0, 5.0, 6.0, 7.0, 8.0]);
    let breaks = get_quantiles(&sorted, 2);
    assert_eq!(unwrap_all(&breaks), [1.0, 4.0, 8.0]);
}

#[test]
fn test_jenks_two_obvious_clusters() {
    let sorted = wrap(&[1.0, 1.1, 1.2, 10.0, 10.1, 10.2]);
    let breaks = get_jenks_breaks(&sorted, 2);
    assert_eq!(unwrap_all(&breaks), [1.0, 1.2, 10.2]);
}

#[test]
fn test_jenks_one_class_per_value() {
    let sorted = wrap(&[3.0, 5.0, 9.0]);
    let breaks = get_jenks_breaks(&sorted, 3);
    assert_eq!(unwrap_all(&breaks), [3.0, 3.0, 5.0, 9.0]);
}

#[test]
fn test_harmonic_mean_rejects_nonpositive() {
    let values = wrap(&[2.0, 0.0, 3.0]);
    assert!(stats::harmonic_mean(&values).is_err());
    let values = wrap(&[2.0, -1.0]);
    assert!(stats::harmonic_mean(&values).is_err());
}

#[test]
fn test_geometric_mean_rejects_nonpositive() {
    let values = wrap(&[1.0, -8.0, 9.0]);
    assert!(stats::geometric_mean(&values).is_err());
    let values = wrap(&[0.0]);
    assert!(stats::geometric_mean(&values).is_err());
}

#[test]
fn test_standard_deviation() {
    let values = wrap(&[2.0, 4.0, 4.0, 4.0, 5.0, 5.0, 7.0, 9.0]);
    let sd = stats::standard_deviation(&values);
    assert_eq!(sd.0, 2.0);
}

#[test]
fn test_mean() {
    let values = wrap(&[1.0, 2.0, 3.0, 4.0]);
    assert_eq!(stats::mean(&values).0, 2.5);
}

#[test]
fn test_error_messages() {
    let values = wrap(&[2.0, -1.0]);
    let err = stats::harmonic_mean(&values).err().unwrap();
    assert_eq!(
        err.message(),
        "HarmonicMean requires only positive numbers as input"
    );
    let err = stats::geometric_mean(&values).err().unwrap();
    assert_eq!(
        err.message(),
        "GeometricMean requires only positive numbers as input"
    );
    assert_eq!(
        ClassifError::UnknownError.message(),
        "An unknown error has occurred."
    );
    assert_eq!(MayFail::HarmonicMean.label(), "HarmonicMean");
    assert_eq!(MayFail::GeometricMean.label(), "GeometricMean");
}

#[test]
fn test_parse_via_std_trait() {
    let m: Result<Classification, &'static str> = "Quantiles".parse();
    assert_eq!(m, Ok(Classification::Quantiles));
    let m: Result<Classification, &'static str> = "quantiles".parse();
    assert_eq!(m, Err("Invalid classification name"));
}
