//! Mímir is a contextual query engine for games with dynamic events driven
//! by their current world's state.
//!
//! A game world is described as a collection of facts (a [`query::Query`]),
//! mapping each fact's identifier to its value. Rules pair one predicate per
//! required fact (an [`evaluator::Evaluator`]) with an outcome (a
//! [`rule::Rule`]); a rule matches a query when every required fact is
//! present with a value its predicate accepts. Rulesets answer "which of the
//! most specific rules match the current world state": the sorted-list form
//! ([`ruleset::Ruleset`], with random tie-breaking), the form returning every
//! match ([`ruleset::SimpleRuleset`]), and the weight-bucketed form
//! ([`weighted::WeightedRuleset`]).
//!
//! The predicate abstraction is generic over the fact value type:
//! [`criterion::Criterion`] is the provided, fully specified implementation
//! over `i64` values, and callers plug in their own evaluators (for instance
//! over `f64`, with approximate equality) by implementing the trait.

/// The association-list model shared by queries and rules: sequences of
/// (key, value) pairs with pairwise-distinct keys, read as finite maps.
pub mod assoc;

/// The `Evaluator` trait: a predicate over a single fact value.
pub mod evaluator;

/// A provided `Evaluator` implementation over `i64` fact values.
pub mod criterion;

/// The `Query` struct: the facts (identifier and value) describing a game
/// world's current state.
pub mod query;

/// The `Rule` struct and evaluation logic: fact requirements paired with an
/// outcome.
pub mod rule;

/// Rulesets: collections of rules evaluated most-specific-first.
pub mod ruleset;

/// The weight-bucketed ruleset: rules grouped by specificity.
pub mod weighted;
