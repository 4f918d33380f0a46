use vstd::prelude::*;

use crate::evaluator::Evaluator;

verus! {

/// One end of an interval used by [`Criterion`] comparisons, either excluding
/// or including the carried threshold.
#[derive(Clone, Copy, Debug, PartialEq, Eq, Structural)]
pub enum CriterionBound {
    /// A bound that excludes the contained value.
    Exclusive(i64),
    /// A bound that includes the contained value.
    Inclusive(i64),
}

impl CriterionBound {
    /// Does `value` lie below this bound, taken as an upper bound?
    pub open spec fn spec_below(self, value: i64) -> bool {
        match self {
            CriterionBound::Exclusive(x) => value < x,
            CriterionBound::Inclusive(x) => value <= x,
        }
    }

    /// Does `value` lie above this bound, taken as a lower bound?
    pub open spec fn spec_above(self, value: i64) -> bool {
        match self {
            CriterionBound::Exclusive(x) => value > x,
            CriterionBound::Inclusive(x) => value >= x,
        }
    }
}

/// The provided [`Evaluator`] implementation over `i64` fact values: equality,
/// inequality, one-sided comparisons with a chosen inclusivity, and ranges
/// whose two bounds are independently inclusive or exclusive.
#[derive(Clone, Copy, Debug, PartialEq, Eq, Structural)]
pub enum Criterion {
    /// Accepts exactly the contained value.
    EqualTo(i64),
    /// Accepts everything but the contained value.
    NotEqualTo(i64),
    /// Accepts values below the bound (see [`CriterionBound`] for
    /// inclusive/exclusive behaviour).
    LessThan(CriterionBound),
    /// Accepts values above the bound (see [`CriterionBound`] for
    /// inclusive/exclusive behaviour).
    GreaterThan(CriterionBound),
    /// Accepts values above the first bound and below the second.
    InRange(CriterionBound, CriterionBound),
}

impl Criterion {
    /// The set of values this criterion accepts, as a predicate.
    pub open spec fn spec_holds(self, value: i64) -> bool {
        match self {
            Criterion::EqualTo(x) => value == x,
            Criterion::NotEqualTo(x) => value != x,
            Criterion::LessThan(upper) => upper.spec_below(value),
            Criterion::GreaterThan(lower) => lower.spec_above(value),
            Criterion::InRange(lower, upper) => lower.spec_above(value) && upper.spec_below(value),
        }
    }

    /// Composes a criterion accepting values strictly less than `value`.
    pub fn lt(value: i64) -> (c: Criterion)
        ensures
            c == Criterion::LessThan(CriterionBound::Exclusive(value)),
    {
        Criterion::LessThan(CriterionBound::Exclusive(value))
    }

    /// Composes a criterion accepting values less than or equal to `value`.
    pub fn lte(value: i64) -> (c: Criterion)
        ensures
            c == Criterion::LessThan(CriterionBound::Inclusive(value)),
    {
        Criterion::LessThan(CriterionBound::Inclusive(value))
    }

    /// Composes a criterion accepting values strictly greater than `value`.
    pub fn gt(value: i64) -> (c: Criterion)
        ensures
            c == Criterion::GreaterThan(CriterionBound::Exclusive(value)),
    {
        Criterion::GreaterThan(CriterionBound::Exclusive(value))
    }

    /// Composes a criterion accepting values greater than or equal to `value`.
    pub fn gte(value: i64) -> (c: Criterion)
        ensures
            c == Criterion::GreaterThan(CriterionBound::Inclusive(value)),
    {
        Criterion::GreaterThan(CriterionBound::Inclusive(value))
    }

    /// Composes a criterion accepting the half-open interval `[lower, upper)`.
    pub fn range(lower: i64, upper: i64) -> (c: Criterion)
        ensures
            c == Criterion::InRange(
                CriterionBound::Inclusive(lower),
                CriterionBound::Exclusive(upper),
            ),
    {
        Criterion::InRange(CriterionBound::Inclusive(lower), CriterionBound::Exclusive(upper))
    }
}

impl Evaluator<i64> for Criterion {
    open spec fn spec_evaluate(self, value: i64) -> bool {
        self.spec_holds(value)
    }

    fn evaluate(self, value: i64) -> (r: bool) {
        match self {
            Criterion::EqualTo(x) => value == x,
            Criterion::NotEqualTo(x) => value != x,
            Criterion::LessThan(upper) => match upper {
                CriterionBound::Exclusive(x) => value < x,
                CriterionBound::Inclusive(x) => value <= x,
            },
            Criterion::GreaterThan(lower) => match lower {
                CriterionBound::Exclusive(x) => value > x,
                CriterionBound::Inclusive(x) => value >= x,
            },
            Criterion::InRange(lower, upper) => match (lower, upper) {
                (CriterionBound::Exclusive(x), CriterionBound::Exclusive(y)) => {
                    value > x && value < y
                },
                (CriterionBound::Exclusive(x), CriterionBound::Inclusive(y)) => {
                    value > x && value <= y
                },
                (CriterionBound::Inclusive(x), CriterionBound::Exclusive(y)) => {
                    value >= x && value < y
                },
                (CriterionBound::Inclusive(x), CriterionBound::Inclusive(y)) => {
                    value >= x && value <= y
                },
            },
        }
    }
}

/// Law: `EqualTo` and `NotEqualTo` with the same operand are complementary
/// for every value.
pub proof fn lemma_equal_to_complementary(x: i64, value: i64)
    ensures
        Criterion::EqualTo(x).spec_evaluate(value) == !Criterion::NotEqualTo(
            x,
        ).spec_evaluate(value),
{
}

/// Law: the criterion built by [`Criterion::range`] accepts exactly the
/// half-open interval `[lower, upper)`.
pub proof fn lemma_range_half_open(lower: i64, upper: i64, value: i64)
    requires
        lower < upper,
    ensures
        Criterion::InRange(
            CriterionBound::Inclusive(lower),
            CriterionBound::Exclusive(upper),
        ).spec_evaluate(value) == (value >= lower && value < upper),
{
}

} // verus!
