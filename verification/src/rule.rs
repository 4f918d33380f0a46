use core::marker::PhantomData;

use vstd::prelude::*;

use crate::assoc::{distinct_keys, keys_of, lemma_map_of_dom, lemma_map_of_len, map_of, upsert};
use crate::evaluator::Evaluator;
use crate::query::Query;

verus! {

/// A `Rule` is a collection of fact requirements — one [`Evaluator`] per
/// required fact identifier — together with an outcome of type `O`.
///
/// A rule matches a query exactly when every required fact is present in the
/// query and its evaluator accepts the fact's value; a fact missing from the
/// query is an ordinary non-match, not an error. The number of requirements is
/// the rule's *weight* (specificity): rulesets prefer rules of larger weight.
pub struct Rule<K, T, E, O> {
    /// Marker tying the rule to its fact value type `T`, which only the
    /// evaluators consume.
    pub marker: PhantomData<T>,
    /// The requirements, as (identifier, evaluator) pairs with
    /// pairwise-distinct identifiers.
    pub evaluators: Vec<(K, E)>,
    /// The outcome of the rule, returned during ruleset evaluation when the
    /// rule matches the supplied query.
    pub outcome: O,
}

impl<K, T, E: Evaluator<T>, O> Rule<K, T, E, O> {
    /// Well-formed: no fact identifier is required twice.
    pub open spec fn wf(self) -> bool {
        distinct_keys(self.evaluators@)
    }

    /// Specificity: the number of facts the rule requires.
    pub open spec fn weight(self) -> nat {
        self.evaluators@.len()
    }

    /// Does the rule match `query`: is every required fact present in the
    /// query, with a value its evaluator accepts?
    pub open spec fn spec_matches(self, query: Query<K, T>) -> bool {
        forall|i: int|
            #![trigger self.evaluators@[i]]
            0 <= i < self.evaluators@.len() ==> {
                &&& query@.contains_key(self.evaluators@[i].0)
                &&& self.evaluators@[i].1.spec_evaluate(query@[self.evaluators@[i].0])
            }
    }
}

impl<K: Eq, T: Copy, E: Evaluator<T> + Copy, O> Rule<K, T, E, O> {
    /// Instantiates a rule with the given outcome and no requirements yet.
    pub fn new(outcome: O) -> (r: Rule<K, T, E, O>)
        ensures
            r.wf(),
            r.evaluators@.len() == 0,
            r.outcome == outcome,
    {
        Rule { marker: PhantomData, evaluators: Vec::new(), outcome }
    }

    /// Requires the fact `fact` to satisfy `evaluator`. A requirement already
    /// stored for the same fact identifier is overwritten.
    pub fn require(&mut self, fact: K, evaluator: E)
        requires
            old(self).wf(),
            vstd::laws_eq::obeys_concrete_eq::<K>(),
        ensures
            final (self).wf(),
            map_of(final (self).evaluators@) == map_of(old(self).evaluators@).insert(
                fact,
                evaluator,
            ),
            keys_of(final (self).evaluators@) == if map_of(
                old(self).evaluators@,
            ).dom().contains(fact) {
                keys_of(old(self).evaluators@)
            } else {
                keys_of(old(self).evaluators@).push(fact)
            },
            final (self).outcome == old(self).outcome,
    {
        proof {
            lemma_map_of_dom(self.evaluators@, fact);
        }
        upsert(&mut self.evaluators, fact, evaluator);
    }

    /// The number of facts the rule requires (its weight, or specificity).
    pub fn len(&self) -> (n: usize)
        ensures
            n == self.weight(),
    {
        self.evaluators.len()
    }

    /// Evaluates the rule against the provided query.
    ///
    /// Returns `true` if all facts required by the rule are present in the
    /// query and all fact evaluators accept the facts' values, otherwise
    /// returns `false`.
    pub fn evaluate(&self, query: &Query<K, T>) -> (r: bool)
        requires
            self.wf(),
            query.wf(),
            vstd::laws_eq::obeys_concrete_eq::<K>(),
        ensures
            r == self.spec_matches(*query),
    {
        // A rule requiring more facts than the query holds can never match:
        // this check skips the requirement scan in that case.
        if self.evaluators.len() > query.len() {
            proof {
                lemma_map_of_len(self.evaluators@);
                assert(!self.spec_matches(*query)) by {
                    if self.spec_matches(*query) {
                        assert forall|k: K| map_of(self.evaluators@).dom().contains(
                            k,
                        ) implies query@.dom().contains(k) by {
                            lemma_map_of_dom(self.evaluators@, k);
                            let i = choose|i: int|
                                0 <= i < self.evaluators@.len() && self.evaluators@[i].0 == k;
                            assert(query@.contains_key(self.evaluators@[i].0));
                        }
                        lemma_map_of_len(query.facts@);
                        vstd::set_lib::lemma_len_subset(
                            map_of(self.evaluators@).dom(),
                            query@.dom(),
                        );
                    }
                }
            }
            return false;
        }
        let n = self.evaluators.len();
        let mut i: usize = 0;
        while i < n
            invariant
                n == self.evaluators@.len(),
                i <= n,
                self.wf(),
                query.wf(),
                vstd::laws_eq::obeys_concrete_eq::<K>(),
                forall|j: int|
                    #![trigger self.evaluators@[j]]
                    0 <= j < i ==> {
                        &&& query@.contains_key(self.evaluators@[j].0)
                        &&& self.evaluators@[j].1.spec_evaluate(query@[self.evaluators@[j].0])
                    },
            decreases n - i,
        {
            let fact = &self.evaluators[i].0;
            let evaluator = self.evaluators[i].1;
            match query.get(fact) {
                Some(value) => {
                    if !evaluator.evaluate(*value) {
                        return false;
                    }
                },
                None => {
                    return false;
                },
            }
            i += 1;
        }
        true
    }
}

/// Law: a rule with no requirements matches every query.
pub proof fn lemma_empty_rule_matches<K, T, E: Evaluator<T>, O>(
    rule: Rule<K, T, E, O>,
    query: Query<K, T>,
)
    requires
        rule.weight() == 0,
    ensures
        rule.spec_matches(query),
{
}

/// Law: a rule requiring a fact that the query does not contain never
/// matches, whatever the other requirements say.
pub proof fn lemma_missing_fact_no_match<K, T, E: Evaluator<T>, O>(
    rule: Rule<K, T, E, O>,
    query: Query<K, T>,
    i: int,
)
    requires
        0 <= i < rule.evaluators@.len(),
        !query@.contains_key(rule.evaluators@[i].0),
    ensures
        !rule.spec_matches(query),
{
}

} // verus!
