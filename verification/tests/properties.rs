use mimir::criterion::Criterion;
use mimir::evaluator::Evaluator;
use mimir::query::Query;
use mimir::rule::Rule;
use mimir::ruleset::{Ruleset, RulesetTrait};
use mimir::weighted::WeightedRuleset;

#[test]
fn predicate_evaluation_is_deterministic() {
    let criterion = Criterion::range(-3, 12);
    let values: [i64; 6] = [-4, -3, 0, 5, 11, 12];
    for v in values {
        let first = criterion.evaluate(v);
        let second = criterion.evaluate(v);
        assert_eq!(first, second);
    }
}

#[test]
fn equal_to_and_not_equal_to_are_complementary() {
    let values: [i64; 5] = [-9, 0, 6, 7, 8];
    for v in values {
        assert_eq!(
            Criterion::EqualTo(7).evaluate(v),
            !Criterion::NotEqualTo(7).evaluate(v)
        );
    }
}

#[test]
fn range_is_half_open() {
    let criterion = Criterion::range(2, 5);
    assert!(!criterion.evaluate(1));
    assert!(criterion.evaluate(2));
    assert!(criterion.evaluate(4));
    assert!(!criterion.evaluate(5));
    for v in -10i64..10 {
        assert_eq!(criterion.evaluate(v), v >= 2 && v < 5);
    }
}

#[test]
fn empty_rule_matches_every_query() {
    let rule: Rule<&str, i64, Criterion, &str> = Rule::new("always");

    let empty: Query<&str, i64> = Query::new();
    assert!(rule.evaluate(&empty));

    let mut query = Query::new();
    query.insert("enemies_killed", 5);
    assert!(rule.evaluate(&query));
}

#[test]
fn missing_fact_never_matches() {
    let mut rule = Rule::new("needs both");
    rule.require("enemies_killed", Criterion::EqualTo(5));
    rule.require("doors_opened", Criterion::gt(2));

    let mut query = Query::new();
    query.insert("enemies_killed", 5);
    assert!(!rule.evaluate(&query));

    let empty: Query<&str, i64> = Query::new();
    assert!(!rule.evaluate(&empty));
}

#[test]
fn overwritten_requirement_is_replaced() {
    let mut rule = Rule::new("latest wins");
    rule.require("enemies_killed", Criterion::EqualTo(5));
    rule.require("enemies_killed", Criterion::EqualTo(6));

    let mut query = Query::new();
    query.insert("enemies_killed", 5);
    assert!(!rule.evaluate(&query));
    query.insert("enemies_killed", 6);
    assert!(rule.evaluate(&query));
}

#[test]
fn most_specific_tier_wins() {
    // Rule A requires enemies_killed == 5; rule B additionally requires
    // doors_opened > 2. Both organisations must return exactly {A} for the
    // one-fact query and exactly {B} for the two-fact query.
    let mut rule_a = Rule::new("A");
    rule_a.require("enemies_killed", Criterion::EqualTo(5));
    let mut rule_b = Rule::new("B");
    rule_b.require("enemies_killed", Criterion::EqualTo(5));
    rule_b.require("doors_opened", Criterion::gt(2));

    let sorted = Ruleset::new(vec![rule_a, rule_b]);

    let mut rule_a2 = Rule::new("A");
    rule_a2.require("enemies_killed", Criterion::EqualTo(5));
    let mut rule_b2 = Rule::new("B");
    rule_b2.require("enemies_killed", Criterion::EqualTo(5));
    rule_b2.require("doors_opened", Criterion::gt(2));

    let weighted = WeightedRuleset::new(vec![rule_a2, rule_b2]);

    let mut query = Query::new();
    query.insert("enemies_killed", 5);

    let matched = sorted.evaluate_all(&query);
    assert_eq!(matched.len(), 1);
    assert_eq!(matched[0].outcome, "A");
    let matched = weighted.evaluate(&query);
    assert_eq!(matched.len(), 1);
    assert_eq!(matched[0].outcome, "A");

    let mut query = Query::new();
    query.insert("enemies_killed", 5);
    query.insert("doors_opened", 10);

    let matched = sorted.evaluate_all(&query);
    assert_eq!(matched.len(), 1);
    assert_eq!(matched[0].outcome, "B");
    let matched = weighted.evaluate(&query);
    assert_eq!(matched.len(), 1);
    assert_eq!(matched[0].outcome, "B");
}

#[test]
fn tied_rules_are_all_returned_and_tie_break_varies() {
    // Two rules with the same single requirement and different outcomes:
    // evaluate_all returns both; evaluate returns one of them, and across
    // repeated trials each outcome appears at least once.
    let mut rule_a = Rule::new("A");
    rule_a.require("enemies_killed", Criterion::EqualTo(5));
    let mut rule_c = Rule::new("C");
    rule_c.require("enemies_killed", Criterion::EqualTo(5));

    let ruleset = Ruleset::new(vec![rule_a, rule_c]);

    let mut query = Query::new();
    query.insert("enemies_killed", 5);

    let matched = ruleset.evaluate_all(&query);
    assert_eq!(matched.len(), 2);

    let mut saw_a = false;
    let mut saw_c = false;
    for _ in 0..500 {
        let outcome = ruleset.evaluate(&query).unwrap().outcome;
        assert!(outcome == "A" || outcome == "C");
        if outcome == "A" {
            saw_a = true;
        }
        if outcome == "C" {
            saw_c = true;
        }
    }
    assert!(saw_a);
    assert!(saw_c);
}

#[test]
fn empty_ruleset_never_matches() {
    let ruleset: Ruleset<&str, i64, Criterion, &str> = Ruleset::new(Vec::new());

    let mut query = Query::new();
    query.insert("enemies_killed", 5);

    assert_eq!(ruleset.evaluate_all(&query).len(), 0);
    assert!(ruleset.evaluate(&query).is_none());
}

#[test]
fn zero_requirement_rule_matches_empty_query() {
    let fallback: Rule<&str, i64, Criterion, &str> = Rule::new("fallback");
    let mut specific = Rule::new("specific");
    specific.require("enemies_killed", Criterion::EqualTo(5));

    let ruleset = Ruleset::new(vec![fallback, specific]);

    let empty: Query<&str, i64> = Query::new();
    let matched = ruleset.evaluate_all(&empty);
    assert_eq!(matched.len(), 1);
    assert_eq!(matched[0].outcome, "fallback");
}

#[test]
fn merged_ruleset_matches_like_combined_rules() {
    let mut rule_a = Rule::new("A");
    rule_a.require("enemies_killed", Criterion::EqualTo(5));
    let mut left = Ruleset::new(vec![rule_a]);

    let mut rule_b = Rule::new("B");
    rule_b.require("enemies_killed", Criterion::EqualTo(5));
    rule_b.require("doors_opened", Criterion::gt(2));
    let mut right = Ruleset::new(vec![rule_b]);

    left.append(&mut right);
    assert_eq!(right.rules.len(), 0);

    let mut query = Query::new();
    query.insert("enemies_killed", 5);
    query.insert("doors_opened", 10);

    let matched = left.evaluate_all(&query);
    assert_eq!(matched.len(), 1);
    assert_eq!(matched[0].outcome, "B");

    let mut query = Query::new();
    query.insert("enemies_killed", 5);

    let matched = left.evaluate_all(&query);
    assert_eq!(matched.len(), 1);
    assert_eq!(matched[0].outcome, "A");
}

#[test]
fn weighted_ruleset_prefers_heaviest_matching_bucket() {
    let mut fallback: Rule<&str, i64, Criterion, &str> = Rule::new("fallback");
    fallback.require("level", Criterion::gte(0));

    let mut mid = Rule::new("mid");
    mid.require("level", Criterion::gte(0));
    mid.require("enemies_killed", Criterion::gt(3));

    let mut top = Rule::new("top");
    top.require("level", Criterion::gte(0));
    top.require("enemies_killed", Criterion::gt(3));
    top.require("doors_opened", Criterion::range(1, 100));

    let ruleset = WeightedRuleset::new(vec![fallback, mid, top]);

    let mut query = Query::new();
    query.insert("level", 2);
    query.insert("enemies_killed", 4);

    let matched = ruleset.evaluate(&query);
    assert_eq!(matched.len(), 1);
    assert_eq!(matched[0].outcome, "mid");

    query.insert("doors_opened", 1);
    let matched = ruleset.evaluate(&query);
    assert_eq!(matched.len(), 1);
    assert_eq!(matched[0].outcome, "top");
}
