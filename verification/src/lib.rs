//! One-dimensional data classification: partitioning a finite sample of
//! numeric observations into ordered, contiguous classes for thematic
//! display (choropleth mapping and the like).
//!
//! The engine offers several breaking methods (listed in the
//! [`Classification`](classif::Classification) enum); break values are
//! computed by creating a [`BoundsInfo`](classif::BoundsInfo), or directly
//! through the `get_*_breaks` functions when the input is already sorted.
//!
//! A few scalar statistics (mean, variance, kurtosis, ...) live in
//! [`stats`].
//!
//! Every algorithm is generic over the [`Numeric`](numeric::Numeric)
//! capability, so the same verified code serves single- and
//! double-precision instantiations supplied by the caller.
use vstd::prelude::*;

pub mod classif;
pub mod jenks;
pub mod numeric;
pub mod sort;
pub mod stats;

pub use classif::BoundsInfo;
pub use classif::Classification;
pub use classif::get_arithmetic_breaks;
pub use classif::get_equal_interval;
pub use classif::get_head_tail_breaks;
pub use classif::get_quantiles;
pub use classif::get_tail_head_breaks;
pub use jenks::get_jenks_breaks;

verus! {

/// Error raised by the statistics that are only defined on strictly
/// positive inputs.
#[derive(Debug, PartialEq, Eq, Structural)]
pub enum ClassifError {
    OnlyPositive(MayFail),
    UnknownError,
}

/// Which statistic rejected its input.
#[derive(Debug, PartialEq, Eq, Structural)]
pub enum MayFail {
    HarmonicMean,
    GeometricMean,
}

pub type ClassifResult<T> = Result<T, ClassifError>;

impl MayFail {
    /// The statistic's name, spelled as the error messages spell it.
    pub fn label(&self) -> (s: String)
        ensures
            *self == MayFail::HarmonicMean ==> s@ == "HarmonicMean"@,
            *self == MayFail::GeometricMean ==> s@ == "GeometricMean"@,
    {
        match self {
            MayFail::HarmonicMean => "HarmonicMean".to_owned(),
            MayFail::GeometricMean => "GeometricMean".to_owned(),
        }
    }
}

impl ClassifError {
    /// The message the error stands for.
    pub fn message(&self) -> (s: String)
        ensures
            *self == ClassifError::OnlyPositive(MayFail::HarmonicMean) ==> s@
                == "HarmonicMean requires only positive numbers as input"@,
            *self == ClassifError::OnlyPositive(MayFail::GeometricMean) ==> s@
                == "GeometricMean requires only positive numbers as input"@,
            *self == ClassifError::UnknownError ==> s@ == "An unknown error has occurred."@,
    {
        match self {
            ClassifError::OnlyPositive(MayFail::HarmonicMean) => {
                "HarmonicMean requires only positive numbers as input".to_owned()
            },
            ClassifError::OnlyPositive(MayFail::GeometricMean) => {
                "GeometricMean requires only positive numbers as input".to_owned()
            },
            ClassifError::UnknownError => "An unknown error has occurred.".to_owned(),
        }
    }
}

} // verus!
