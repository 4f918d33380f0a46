use mimir::criterion::{Criterion, CriterionBound};
use mimir::evaluator::Evaluator;

#[test]
fn criterion_in_range() {
    let criterion = Criterion::InRange(CriterionBound::Exclusive(5), CriterionBound::Inclusive(25));
    assert!(criterion.evaluate(6));
    assert!(criterion.evaluate(10));
    assert!(!criterion.evaluate(5));
}

#[test]
fn criterion_equal_to() {
    let criterion = Criterion::EqualTo(5);
    assert!(criterion.evaluate(5));
    assert!(criterion.evaluate(2 + 3));
    assert!(!criterion.evaluate(6));
}

#[test]
fn criterion_not_equal_to() {
    let criterion = Criterion::NotEqualTo(5);
    assert!(!criterion.evaluate(5));
    assert!(!criterion.evaluate(2 + 3));
    assert!(criterion.evaluate(6));
}

#[test]
fn criterion_less_than_exclusive() {
    let criterion = Criterion::LessThan(CriterionBound::Exclusive(5));
    assert!(!criterion.evaluate(5));
    assert!(criterion.evaluate(4));
    assert!(!criterion.evaluate(6));
    assert!(criterion.evaluate(-1));
}

#[test]
fn criterion_less_than_inclusive() {
    let criterion = Criterion::LessThan(CriterionBound::Inclusive(5));
    assert!(criterion.evaluate(5));
    assert!(criterion.evaluate(4));
    assert!(!criterion.evaluate(6));
    assert!(criterion.evaluate(-1));
}

#[test]
fn criterion_greater_than_exclusive() {
    let criterion = Criterion::GreaterThan(CriterionBound::Exclusive(5));
    assert!(!criterion.evaluate(5));
    assert!(!criterion.evaluate(4));
    assert!(criterion.evaluate(6));
    assert!(!criterion.evaluate(-1));
}

#[test]
fn criterion_greater_than_inclusive() {
    let criterion = Criterion::GreaterThan(CriterionBound::Inclusive(5));
    assert!(criterion.evaluate(5));
    assert!(!criterion.evaluate(4));
    assert!(criterion.evaluate(6));
    assert!(!criterion.evaluate(-1));
}

#[test]
fn criterion_lt_helper() {
    let criterion = Criterion::lt(5);
    assert_eq!(criterion, Criterion::LessThan(CriterionBound::Exclusive(5)));
}

#[test]
fn criterion_lte_helper() {
    let criterion = Criterion::lte(5);
    assert_eq!(criterion, Criterion::LessThan(CriterionBound::Inclusive(5)));
}

#[test]
fn criterion_gt_helper() {
    let criterion = Criterion::gt(5);
    assert_eq!(criterion, Criterion::GreaterThan(CriterionBound::Exclusive(5)));
}

#[test]
fn criterion_gte_helper() {
    let criterion = Criterion::gte(5);
    assert_eq!(criterion, Criterion::GreaterThan(CriterionBound::Inclusive(5)));
}

#[test]
fn criterion_range_helper() {
    let criterion = Criterion::range(5, 25);
    assert_eq!(
        criterion,
        Criterion::InRange(CriterionBound::Inclusive(5), CriterionBound::Exclusive(25))
    );
}
