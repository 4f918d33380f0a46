//! The original floating-point evaluator, plugged into the engine from the
//! outside: facts are `f64` values and equality is approximate, through
//! `float_cmp`. The engine's rules and rulesets are generic over the
//! evaluator, so the float semantics live entirely in this implementation.

use float_cmp::{ApproxEq, F64Margin};
use mimir::evaluator::Evaluator;
use mimir::query::Query;
use mimir::rule::Rule;
use mimir::ruleset::{Ruleset, RulesetTrait, SimpleRuleset};
use mimir::weighted::WeightedRuleset;

/// A bound of a range used during float comparisons.
#[derive(Clone, Copy, Debug, PartialEq)]
pub enum FloatRangeBound {
    Exclusive(f64),
    Inclusive(f64),
}

/// An `Evaluator` over facts with a value type of `f64`, using approximate
/// equality with the default margin.
#[derive(Clone, Copy, Debug, PartialEq)]
pub enum FloatEvaluator {
    EqualTo(f64),
    NotEqualTo(f64),
    LessThan(FloatRangeBound),
    GreaterThan(FloatRangeBound),
    InRange(FloatRangeBound, FloatRangeBound),
}

fn float_evaluate(evaluator: FloatEvaluator, value: f64) -> bool {
    match evaluator {
        FloatEvaluator::EqualTo(x) => x.approx_eq(value, F64Margin::default()),
        FloatEvaluator::NotEqualTo(x) => !x.approx_eq(value, F64Margin::default()),
        FloatEvaluator::LessThan(upper) => match upper {
            FloatRangeBound::Exclusive(x) => value < x,
            FloatRangeBound::Inclusive(x) => value <= x,
        },
        FloatEvaluator::GreaterThan(lower) => match lower {
            FloatRangeBound::Exclusive(x) => value > x,
            FloatRangeBound::Inclusive(x) => value >= x,
        },
        FloatEvaluator::InRange(lower, upper) => match (lower, upper) {
            (FloatRangeBound::Exclusive(x), FloatRangeBound::Exclusive(y)) => {
                value > x && value < y
            }
            (FloatRangeBound::Exclusive(x), FloatRangeBound::Inclusive(y)) => {
                value > x && value <= y
            }
            (FloatRangeBound::Inclusive(x), FloatRangeBound::Exclusive(y)) => {
                value >= x && value < y
            }
            (FloatRangeBound::Inclusive(x), FloatRangeBound::Inclusive(y)) => {
                value >= x && value <= y
            }
        },
    }
}

impl Evaluator<f64> for FloatEvaluator {
    fn spec_evaluate(self, value: f64) -> bool {
        float_evaluate(self, value)
    }

    fn evaluate(self, value: f64) -> bool {
        float_evaluate(self, value)
    }
}

impl FloatEvaluator {
    pub fn lt(value: f64) -> FloatEvaluator {
        Self::LessThan(FloatRangeBound::Exclusive(value))
    }

    pub fn lte(value: f64) -> FloatEvaluator {
        Self::LessThan(FloatRangeBound::Inclusive(value))
    }

    pub fn gt(value: f64) -> FloatEvaluator {
        Self::GreaterThan(FloatRangeBound::Exclusive(value))
    }

    pub fn gte(value: f64) -> FloatEvaluator {
        Self::GreaterThan(FloatRangeBound::Inclusive(value))
    }

    pub fn range(lower: f64, upper: f64) -> FloatEvaluator {
        Self::InRange(
            FloatRangeBound::Inclusive(lower),
            FloatRangeBound::Exclusive(upper),
        )
    }
}

#[test]
fn float_in_range() {
    let evaluator = FloatEvaluator::InRange(
        FloatRangeBound::Exclusive(5.),
        FloatRangeBound::Inclusive(25.),
    );
    assert!(evaluator.evaluate(6.));
    assert!(evaluator.evaluate(10.));
    assert!(!evaluator.evaluate(5.));
}

#[test]
fn float_equal_to() {
    let evaluator = FloatEvaluator::EqualTo(5.);
    assert!(evaluator.evaluate(5.));
    assert!(evaluator.evaluate(1. + 1.5 + 2.5));
    assert!(!evaluator.evaluate(1.005 + 1.5 + 2.5));
}

#[test]
fn float_not_equal_to() {
    let evaluator = FloatEvaluator::NotEqualTo(5.);
    assert!(!evaluator.evaluate(5.));
    assert!(!evaluator.evaluate(1. + 1.5 + 2.5));
    assert!(evaluator.evaluate(1.005 + 1.5 + 2.5));
}

#[test]
fn float_less_than_exclusive() {
    let evaluator = FloatEvaluator::LessThan(FloatRangeBound::Exclusive(5.));
    assert!(!evaluator.evaluate(5.));
    assert!(evaluator.evaluate(1. + 1. + 2.5));
    assert!(!evaluator.evaluate(6.));
    assert!(evaluator.evaluate(-1.));
}

#[test]
fn float_less_than_inclusive() {
    let evaluator = FloatEvaluator::LessThan(FloatRangeBound::Inclusive(5.));
    assert!(evaluator.evaluate(5.));
    assert!(evaluator.evaluate(1. + 1. + 2.5));
    assert!(!evaluator.evaluate(6.));
    assert!(evaluator.evaluate(-1.));
}

#[test]
fn float_greater_than_exclusive() {
    let evaluator = FloatEvaluator::GreaterThan(FloatRangeBound::Exclusive(5.));
    assert!(!evaluator.evaluate(5.));
    assert!(!evaluator.evaluate(1. + 1. + 2.5));
    assert!(evaluator.evaluate(6.));
    assert!(!evaluator.evaluate(-1.));
}

#[test]
fn float_greater_than_inclusive() {
    let evaluator = FloatEvaluator::GreaterThan(FloatRangeBound::Inclusive(5.));
    assert!(evaluator.evaluate(5.));
    assert!(!evaluator.evaluate(1. + 1. + 2.5));
    assert!(evaluator.evaluate(6.));
    assert!(!evaluator.evaluate(-1.));
}

#[test]
fn float_lt_helper() {
    let evaluator = FloatEvaluator::lt(5.);
    assert_eq!(
        evaluator,
        FloatEvaluator::LessThan(FloatRangeBound::Exclusive(5.))
    );
}

#[test]
fn float_lte_helper() {
    let evaluator = FloatEvaluator::lte(5.);
    assert_eq!(
        evaluator,
        FloatEvaluator::LessThan(FloatRangeBound::Inclusive(5.))
    );
}

#[test]
fn float_gt_helper() {
    let evaluator = FloatEvaluator::gt(5.);
    assert_eq!(
        evaluator,
        FloatEvaluator::GreaterThan(FloatRangeBound::Exclusive(5.))
    );
}

#[test]
fn float_gte_helper() {
    let evaluator = FloatEvaluator::gte(5.);
    assert_eq!(
        evaluator,
        FloatEvaluator::GreaterThan(FloatRangeBound::Inclusive(5.))
    );
}

#[test]
fn float_range_helper() {
    let evaluator = FloatEvaluator::range(5., 25.);
    assert_eq!(
        evaluator,
        FloatEvaluator::InRange(
            FloatRangeBound::Inclusive(5.),
            FloatRangeBound::Exclusive(25.)
        )
    );
}

#[test]
fn comparison() {
    let criterion = FloatEvaluator::InRange(
        FloatRangeBound::Exclusive(5.),
        FloatRangeBound::Inclusive(25.),
    );
    assert!(criterion.evaluate(6.));
    assert!(criterion.evaluate(10.));
    assert!(!criterion.evaluate(5.));
}

#[test]
fn eq() {
    let criterion = FloatEvaluator::EqualTo(5.);
    assert!(criterion.evaluate(5.));
    assert!(criterion.evaluate(1. + 1.5 + 2.5));
    assert!(!criterion.evaluate(1.005 + 1.5 + 2.5));
}

#[test]
fn rule_evaluation() {
    let mut rule = Rule::new("You killed 5 enemies!");
    rule.require("enemies_killed", FloatEvaluator::EqualTo(5.));

    let mut query = Query::new();
    query.insert("enemies_killed", 2.5 + 1.5 + 1.);

    assert!(rule.evaluate(&query));
}

#[test]
fn complex_rule_evaluation() {
    let mut rule = Rule::new("You killed 5 enemies and opened 2 doors!");
    rule.require("enemies_killed", FloatEvaluator::EqualTo(5.));
    rule.require("doors_opened", FloatEvaluator::gt(2.));

    let mut query = Query::new();
    query.insert("enemies_killed", 2.5 + 1.5 + 1.);
    query.insert("doors_opened", 10.);

    assert!(rule.evaluate(&query));
}

#[test]
fn ruleset_evaluation() {
    let mut rule = Rule::new("You killed 5 enemies!");
    rule.require("enemies_killed", FloatEvaluator::EqualTo(5.));

    let mut more_specific_rule = Rule::new("You killed 5 enemies and opened 2 doors!");
    more_specific_rule.require("enemies_killed", FloatEvaluator::EqualTo(5.));
    more_specific_rule.require("doors_opened", FloatEvaluator::gt(2.));

    let ruleset = Ruleset::new(vec![rule, more_specific_rule]);

    let mut query = Query::new();
    query.insert("enemies_killed", 2.5 + 1.5 + 1.);

    assert_eq!(
        ruleset.evaluate_all(&query)[0].outcome,
        "You killed 5 enemies!"
    );

    let mut more_specific_query = Query::new();
    more_specific_query.insert("enemies_killed", 2.5 + 1.5 + 1.);
    more_specific_query.insert("doors_opened", 10.);

    assert_eq!(
        ruleset.evaluate_all(&more_specific_query)[0].outcome,
        "You killed 5 enemies and opened 2 doors!"
    );
}

#[derive(PartialEq, Eq, Debug)]
pub enum Outcome {
    Debug(String),
}

#[test]
fn rule_set_evaluation() {
    let mut rule = Rule::new(Outcome::Debug("You killed 5 enemies!".into()));
    rule.require("enemies_killed".to_string(), FloatEvaluator::EqualTo(5.));

    let mut more_specific_rule = Rule::new(Outcome::Debug(
        "You killed 5 enemies and opened 2 doors!".into(),
    ));
    more_specific_rule.require("enemies_killed".to_string(), FloatEvaluator::EqualTo(5.));
    more_specific_rule.require("doors_opened".to_string(), FloatEvaluator::gt(2.));

    let rule_set = Ruleset::from(vec![rule, more_specific_rule]);

    let mut query = Query::new();
    query.insert("enemies_killed".to_string(), 2.5 + 1.5 + 1.);

    assert_eq!(
        rule_set.evaluate_all(&query)[0].outcome,
        Outcome::Debug("You killed 5 enemies!".into())
    );

    let mut more_specific_query = Query::new();
    more_specific_query.insert("enemies_killed".to_string(), 2.5 + 1.5 + 1.);
    more_specific_query.insert("doors_opened".to_string(), 10.);

    assert_eq!(
        rule_set.evaluate_all(&more_specific_query)[0].outcome,
        Outcome::Debug("You killed 5 enemies and opened 2 doors!".into())
    );
}

#[test]
fn simple_ruleset_init() {
    let mut rule = Rule::new("You killed 5 enemies!");
    rule.require("enemies_killed", FloatEvaluator::EqualTo(5.));

    let mut more_specific_rule = Rule::new("You killed 5 enemies and opened 2 doors!");
    more_specific_rule.require("enemies_killed", FloatEvaluator::EqualTo(5.));
    more_specific_rule.require("doors_opened", FloatEvaluator::gt(2.));

    let ruleset = SimpleRuleset::new(vec![rule, more_specific_rule]);

    assert_eq!(ruleset.rules.len(), 2);
}

#[test]
fn simple_ruleset_evaluation() {
    let mut rule = Rule::new("You killed 5 enemies!");
    rule.require("enemies_killed", FloatEvaluator::EqualTo(5.));

    let mut more_specific_rule = Rule::new("You killed 5 enemies and opened 2 doors!");
    more_specific_rule.require("enemies_killed", FloatEvaluator::EqualTo(5.));
    more_specific_rule.require("doors_opened", FloatEvaluator::gt(2.));

    let ruleset = SimpleRuleset::new(vec![rule, more_specific_rule]);

    let mut query = Query::new();
    query.insert("enemies_killed", 5.);

    assert_eq!(
        ruleset.evaluate(&query).first().unwrap().outcome,
        "You killed 5 enemies!"
    );

    let mut more_specific_query = Query::new();
    more_specific_query.insert("enemies_killed", 5.);
    more_specific_query.insert("doors_opened", 10.);

    assert_eq!(ruleset.evaluate(&more_specific_query).len(), 2,);
}

#[test]
fn weighted_ruleset_init() {
    let mut rule = Rule::new("You killed 5 enemies!");
    rule.require("enemies_killed", FloatEvaluator::EqualTo(5.));

    let mut more_specific_rule = Rule::new("You killed 5 enemies and opened 2 doors!");
    more_specific_rule.require("enemies_killed", FloatEvaluator::EqualTo(5.));
    more_specific_rule.require("doors_opened", FloatEvaluator::gt(2.));

    let mut another_specific_rule = Rule::new("You killed 5 enemies and collected 10 coins!");
    another_specific_rule.require("enemies_killed", FloatEvaluator::EqualTo(5.));
    another_specific_rule.require("coins_collected", FloatEvaluator::EqualTo(10.));

    let ruleset = WeightedRuleset::new(vec![rule, more_specific_rule, another_specific_rule]);

    assert_eq!(ruleset.rules.len(), 2);
    assert_eq!(ruleset.largest_weight_cardinality, 2);
}

#[test]
fn weighted_ruleset_evaluation() {
    let mut rule = Rule::new("You killed 5 enemies!");
    rule.require("enemies_killed", FloatEvaluator::EqualTo(5.));

    let mut more_specific_rule = Rule::new("You killed 5 enemies and opened 2 doors!");
    more_specific_rule.require("enemies_killed", FloatEvaluator::EqualTo(5.));
    more_specific_rule.require("doors_opened", FloatEvaluator::gt(2.));

    let ruleset = WeightedRuleset::new(vec![rule, more_specific_rule]);

    let mut query = Query::new();
    query.insert("enemies_killed", 2.5 + 1.5 + 1.);

    assert_eq!(
        ruleset.evaluate(&query).first().unwrap().outcome,
        "You killed 5 enemies!"
    );

    let mut more_specific_query = Query::new();
    more_specific_query.insert("enemies_killed", 2.5 + 1.5 + 1.);
    more_specific_query.insert("doors_opened", 10.);

    assert_eq!(
        ruleset.evaluate(&more_specific_query).first().unwrap().outcome,
        "You killed 5 enemies and opened 2 doors!"
    );
}
