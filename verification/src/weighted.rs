use vstd::multiset::Multiset;
use vstd::prelude::*;

use crate::evaluator::Evaluator;
use crate::query::Query;
use crate::rule::Rule;
use crate::ruleset::{
    best_weight, derefs, lemma_best_weight, lemma_best_weight_concat, lemma_filter_congruent,
    lemma_filter_none, lemma_filter_push, lemma_matches_at_no_match_empty, max_tier,
    some_rule_matches, RulesetTrait,
};

verus! {

/// The rules that a sequence of weight buckets holds, flattened in bucket
/// order.
pub open spec fn bucket_rules<K, T, E: Evaluator<T>, O>(
    buckets: Seq<(usize, Vec<Rule<K, T, E, O>>)>,
) -> Seq<Rule<K, T, E, O>>
    decreases buckets.len(),
{
    if buckets.len() == 0 {
        Seq::empty()
    } else {
        bucket_rules(buckets.drop_last()) + buckets.last().1@
    }
}

/// The number of rules in the largest bucket.
pub open spec fn largest_cardinality<K, T, E: Evaluator<T>, O>(
    buckets: Seq<(usize, Vec<Rule<K, T, E, O>>)>,
) -> nat
    decreases buckets.len(),
{
    if buckets.len() == 0 {
        0
    } else {
        let rest = largest_cardinality(buckets.drop_last());
        if buckets.last().1@.len() > rest {
            buckets.last().1@.len()
        } else {
            rest
        }
    }
}

/// Well-formed buckets: keys strictly descending, no bucket empty, and every
/// rule of a bucket is well-formed with its weight equal to the bucket's key.
pub open spec fn buckets_wf<K, T, E: Evaluator<T>, O>(
    buckets: Seq<(usize, Vec<Rule<K, T, E, O>>)>,
) -> bool {
    &&& forall|a: int, b: int|
        #![trigger buckets[a].0, buckets[b].0]
        0 <= a < b < buckets.len() ==> buckets[a].0 > buckets[b].0
    &&& forall|b: int| 0 <= b < buckets.len() ==> (#[trigger] buckets[b]).1@.len() > 0
    &&& forall|b: int, j: int|
        #![trigger buckets[b].1@[j]]
        0 <= b < buckets.len() && 0 <= j < buckets[b].1@.len() ==> {
            &&& buckets[b].1@[j].weight() == buckets[b].0 as nat
            &&& buckets[b].1@[j].wf()
        }
}

/// Flattening distributes over bucket concatenation.
pub proof fn lemma_bucket_rules_concat<K, T, E: Evaluator<T>, O>(
    a: Seq<(usize, Vec<Rule<K, T, E, O>>)>,
    b: Seq<(usize, Vec<Rule<K, T, E, O>>)>,
)
    ensures
        bucket_rules(a + b) == bucket_rules(a) + bucket_rules(b),
    decreases b.len(),
{
    if b.len() == 0 {
        assert(a + b =~= a);
        assert(bucket_rules(a) + bucket_rules(b) =~= bucket_rules(a));
    } else {
        lemma_bucket_rules_concat(a, b.drop_last());
        assert((a + b).drop_last() =~= a + b.drop_last());
        assert((a + b).last() == b.last());
        assert(bucket_rules(a) + (bucket_rules(b.drop_last()) + b.last().1@) =~= (bucket_rules(a)
            + bucket_rules(b.drop_last())) + b.last().1@);
    }
}

/// A flattened bucket sequence splits around any bucket position.
pub proof fn lemma_bucket_rules_split<K, T, E: Evaluator<T>, O>(
    buckets: Seq<(usize, Vec<Rule<K, T, E, O>>)>,
    p: int,
)
    requires
        0 <= p < buckets.len(),
    ensures
        bucket_rules(buckets) == bucket_rules(buckets.take(p)) + buckets[p].1@ + bucket_rules(
            buckets.skip(p + 1),
        ),
{
    let mid = seq![buckets[p]];
    assert(buckets =~= (buckets.take(p) + mid) + buckets.skip(p + 1));
    lemma_bucket_rules_concat(buckets.take(p) + mid, buckets.skip(p + 1));
    lemma_bucket_rules_concat(buckets.take(p), mid);
    assert(bucket_rules(mid) =~= buckets[p].1@) by {
        assert(mid.drop_last() =~= Seq::<(usize, Vec<Rule<K, T, E, O>>)>::empty());
        assert(bucket_rules(mid.drop_last()) =~= Seq::<Rule<K, T, E, O>>::empty());
        assert(Seq::<Rule<K, T, E, O>>::empty() + buckets[p].1@ =~= buckets[p].1@);
    }
}

/// Every rule a bucket sequence holds is lighter than `bound` when every
/// rule of every bucket is.
pub proof fn lemma_bucket_rules_weights<K, T, E: Evaluator<T>, O>(
    buckets: Seq<(usize, Vec<Rule<K, T, E, O>>)>,
    bound: nat,
)
    requires
        forall|bi: int, j: int|
            #![trigger buckets[bi].1@[j]]
            0 <= bi < buckets.len() && 0 <= j < buckets[bi].1@.len() ==> buckets[bi].1@[j].weight()
                < bound,
    ensures
        forall|i: int|
            0 <= i < bucket_rules(buckets).len() ==> (#[trigger] bucket_rules(
                buckets,
            )[i]).weight() < bound,
    decreases buckets.len(),
{
    if buckets.len() > 0 {
        let d = buckets.drop_last();
        assert(forall|bi: int, j: int|
            #![trigger d[bi].1@[j]]
            0 <= bi < d.len() && 0 <= j < d[bi].1@.len() ==> d[bi].1@[j] == buckets[bi].1@[j]);
        lemma_bucket_rules_weights(d, bound);
        assert forall|i: int|
            0 <= i < bucket_rules(buckets).len() implies (#[trigger] bucket_rules(
            buckets,
        )[i]).weight() < bound by {
            if i < bucket_rules(d).len() {
                assert(bucket_rules(buckets)[i] == bucket_rules(d)[i]);
            } else {
                let j = i - bucket_rules(d).len();
                assert(bucket_rules(buckets)[i] == buckets.last().1@[j]);
                assert(buckets[buckets.len() - 1].1@[j].weight() < bound);
            }
        }
    }
}

/// Law: the sorted-list and the weight-bucketed organisations agree — when a
/// [`crate::ruleset::Ruleset`] and a [`WeightedRuleset`] hold the same rules,
/// their evaluations surface the same most specific tier for every query, up
/// to ordering.
pub proof fn lemma_organisations_agree<K: Eq, T: Copy, E: Evaluator<T> + Copy, O>(
    sorted: crate::ruleset::Ruleset<K, T, E, O>,
    weighted: WeightedRuleset<K, T, E, O>,
    query: Query<K, T>,
)
    requires
        sorted.rules@.to_multiset() == bucket_rules(weighted.rules@).to_multiset(),
    ensures
        max_tier(sorted.rules@, query).to_multiset() == weighted.eval_spec(query).to_multiset(),
{
    crate::ruleset::lemma_max_tier_permutation(
        sorted.rules@,
        bucket_rules(weighted.rules@),
        query,
    );
}

/// Is there a bucket whose key is the weight `w`?
pub open spec fn has_weight_bucket<K, T, E: Evaluator<T>, O>(
    buckets: Seq<(usize, Vec<Rule<K, T, E, O>>)>,
    w: nat,
) -> bool {
    exists|b: int| 0 <= b < buckets.len() && buckets[b].0 as nat == w
}

/// Files `rule` into the bucket keyed by its weight, creating that bucket at
/// the position that keeps the keys strictly descending when it is missing;
/// returns that bucket's position.
fn place<K: Eq, T: Copy, E: Evaluator<T> + Copy, O>(
    buckets: &mut Vec<(usize, Vec<Rule<K, T, E, O>>)>,
    rule: Rule<K, T, E, O>,
) -> (p: usize)
    requires
        buckets_wf(old(buckets)@),
        rule.wf(),
    ensures
        buckets_wf(final (buckets)@),
        bucket_rules(final (buckets)@).to_multiset() == bucket_rules(
            old(buckets)@,
        ).to_multiset().insert(rule),
        p < final (buckets)@.len(),
        final (buckets)@[p as int].0 as nat == rule.weight(),
        final (buckets)@.take(p as int) == old(buckets)@.take(p as int),
        final (buckets)@[p as int].1@.last() == rule,
        ({
            &&& final (buckets)@.len() == old(buckets)@.len()
            &&& final (buckets)@[p as int].0 == old(buckets)@[p as int].0
            &&& final (buckets)@[p as int].1@ == old(buckets)@[p as int].1@.push(rule)
            &&& final (buckets)@.skip(p as int + 1) == old(buckets)@.skip(p as int + 1)
        } || {
            &&& final (buckets)@.len() == old(buckets)@.len() + 1
            &&& final (buckets)@[p as int].1@ == seq![rule]
            &&& final (buckets)@.skip(p as int + 1) == old(buckets)@.skip(p as int)
        }),
{
    let w = rule.len();
    let n = buckets.len();
    let mut p: usize = 0;
    while p < n && buckets[p].0 > w
        invariant
            n == buckets@.len(),
            0 <= p <= n,
            w == rule.weight(),
            forall|j: int| 0 <= j < p ==> (#[trigger] buckets@[j]).0 > w,
            buckets@ == old(buckets)@,
        decreases n - p,
    {
        p += 1;
    }
    let ghost pre = buckets@;
    let found = if p < n {
        let key = buckets[p].0;
        key == w
    } else {
        false
    };
    if found {
        let pair = buckets.remove(p);
        let (key, mut bvec) = pair;
        let ghost old_bucket = bvec@;
        bvec.push(rule);
        buckets.insert(p, (key, bvec));
        proof {
            broadcast use vstd::seq_lib::group_to_multiset_ensures;
            broadcast use vstd::multiset::group_multiset_axioms;
            broadcast use vstd::seq_lib::lemma_multiset_commutative;

            let newpair = (key, bvec);
            assert(buckets@ =~= pre.update(p as int, newpair));
            assert(buckets_wf(buckets@)) by {
                assert(forall|j: int|
                    0 <= j < pre.len() && j != p ==> buckets@[j] == (#[trigger] pre[j]));
                assert(forall|j: int|
                    0 <= j < old_bucket.len() ==> bvec@[j] == (#[trigger] old_bucket[j]));
                assert(bvec@.last() == rule);
            }
            lemma_bucket_rules_split(pre, p as int);
            lemma_bucket_rules_split(buckets@, p as int);
            assert(buckets@.take(p as int) =~= pre.take(p as int));
            assert(buckets@.skip(p as int + 1) =~= pre.skip(p as int + 1));
            let fa = bucket_rules(pre.take(p as int));
            let fb = bucket_rules(pre.skip(p as int + 1));
            assert(bucket_rules(buckets@).to_multiset() == fa.to_multiset().add(
                old_bucket.push(rule).to_multiset(),
            ).add(fb.to_multiset()));
            assert(bucket_rules(pre).to_multiset() == fa.to_multiset().add(
                old_bucket.to_multiset(),
            ).add(fb.to_multiset()));
            assert(old_bucket.push(rule).to_multiset() == old_bucket.to_multiset().insert(rule));
            assert(bucket_rules(buckets@).to_multiset() =~= bucket_rules(
                pre,
            ).to_multiset().insert(rule));
            assert(buckets@[p as int].1@ == old_bucket.push(rule));
            assert(buckets@[p as int].0 == pre[p as int].0);
            assert(pre[p as int].0 == w);
        }
    } else {
        let mut bvec: Vec<Rule<K, T, E, O>> = Vec::new();
        bvec.push(rule);
        buckets.insert(p, (w, bvec));
        proof {
            broadcast use vstd::seq_lib::group_to_multiset_ensures;
            broadcast use vstd::multiset::group_multiset_axioms;
            broadcast use vstd::seq_lib::lemma_multiset_commutative;

            let newpair = (w, bvec);
            assert(buckets@ =~= (pre.take(p as int) + seq![newpair]) + pre.skip(p as int));
            assert(buckets_wf(buckets@)) by {
                assert(forall|j: int|
                    0 <= j < p ==> buckets@[j] == (#[trigger] pre[j]));
                assert(forall|j: int|
                    p < j < buckets@.len() ==> buckets@[j] == (#[trigger] pre[j - 1]));
                assert(forall|j: int| p <= j < pre.len() ==> (#[trigger] pre[j]).0 < w);
                assert(bvec@ =~= seq![rule]);
            }
            lemma_bucket_rules_concat(pre.take(p as int) + seq![newpair], pre.skip(p as int));
            lemma_bucket_rules_concat(pre.take(p as int), seq![newpair]);
            assert(bucket_rules(seq![newpair]) =~= bvec@) by {
                assert(seq![newpair].drop_last() =~= Seq::<
                    (usize, Vec<Rule<K, T, E, O>>),
                >::empty());
                assert(bucket_rules(seq![newpair].drop_last()) =~= Seq::<
                    Rule<K, T, E, O>,
                >::empty());
                assert(Seq::<Rule<K, T, E, O>>::empty() + bvec@ =~= bvec@);
            }
            assert(pre =~= pre.take(p as int) + pre.skip(p as int));
            lemma_bucket_rules_concat(pre.take(p as int), pre.skip(p as int));
            let fa = bucket_rules(pre.take(p as int));
            let fb = bucket_rules(pre.skip(p as int));
            assert(bucket_rules(buckets@).to_multiset() == fa.to_multiset().add(
                bvec@.to_multiset(),
            ).add(fb.to_multiset()));
            assert(bvec@.to_multiset() =~= Multiset::<Rule<K, T, E, O>>::empty().insert(rule))
                by {
                assert(bvec@ =~= Seq::<Rule<K, T, E, O>>::empty().push(rule));
                assert(Seq::<Rule<K, T, E, O>>::empty().to_multiset() =~= Multiset::<
                    Rule<K, T, E, O>,
                >::empty()) by {
                    assert(Seq::<Rule<K, T, E, O>>::empty().to_multiset().len() == 0);
                }
            }
            assert(bucket_rules(buckets@).to_multiset() =~= bucket_rules(
                pre,
            ).to_multiset().insert(rule));
            assert(buckets@[p as int] == newpair);
            assert(bvec@ =~= seq![rule]);
            assert(buckets@.take(p as int) =~= pre.take(p as int));
            assert(buckets@.skip(p as int + 1) =~= pre.skip(p as int));
        }
    }
    p
}

/// A ruleset implementation that groups its rules into buckets by weight
/// (specificity) and, on evaluation, walks the buckets from the heaviest to
/// the lightest, returning every match of the first bucket that produces one:
/// lower-specificity buckets are never consulted once a higher bucket
/// matched.
pub struct WeightedRuleset<K, T, E, O> {
    /// The collection of rules that make up the ruleset, bucketed by weight;
    /// bucket keys are strictly descending and no bucket is empty.
    pub rules: Vec<(usize, Vec<Rule<K, T, E, O>>)>,
    /// The number of rules in the bucket with the most rules: the largest
    /// number of rules one evaluation will test, usable to pre-size result
    /// buffers.
    pub largest_weight_cardinality: usize,
}

impl<K: Eq, T: Copy, E: Evaluator<T> + Copy, O> RulesetTrait<K, T, E, O> for WeightedRuleset<
    K,
    T,
    E,
    O,
> {
    /// Well-formed: the buckets are well-formed and the recorded largest
    /// cardinality is exact.
    open spec fn wf(self) -> bool {
        &&& buckets_wf(self.rules@)
        &&& self.largest_weight_cardinality as nat == largest_cardinality(self.rules@)
    }

    open spec fn rules_multiset(self) -> Multiset<Rule<K, T, E, O>> {
        bucket_rules(self.rules@).to_multiset()
    }

    /// The most specific matching tier of the bucketed rules.
    open spec fn eval_spec(self, query: Query<K, T>) -> Seq<Rule<K, T, E, O>> {
        max_tier(bucket_rules(self.rules@), query)
    }

    /// Creates a new ruleset by filing each provided rule into the bucket
    /// keyed by its weight, tracking the largest bucket's cardinality.
    fn new(rules: Vec<Rule<K, T, E, O>>) -> (s: Self)
        ensures
            forall|b: int|
                0 <= b < s.rules@.len() ==> (#[trigger] s.rules@[b]).1@ == rules@.filter(
                    |r: Rule<K, T, E, O>| r.weight() == s.rules@[b].0 as nat,
                ),
            forall|i: int|
                0 <= i < rules@.len() ==> has_weight_bucket(
                    s.rules@,
                    (#[trigger] rules@[i]).weight(),
                ),
    {
        let ghost all = rules@;
        let mut remaining = rules;
        let mut buckets: Vec<(usize, Vec<Rule<K, T, E, O>>)> = Vec::new();
        let ghost done: int = 0;
        proof {
            broadcast use vstd::seq_lib::group_to_multiset_ensures;

            assert(bucket_rules(buckets@) =~= Seq::<Rule<K, T, E, O>>::empty());
            assert(all.take(0) =~= Seq::<Rule<K, T, E, O>>::empty());
        }
        while remaining.len() > 0
            invariant
                buckets_wf(buckets@),
                0 <= done <= all.len(),
                remaining@ == all.skip(done),
                bucket_rules(buckets@).to_multiset() == all.take(done).to_multiset(),
                forall|b: int|
                    0 <= b < buckets@.len() ==> (#[trigger] buckets@[b]).1@ == all.take(
                        done,
                    ).filter(|r: Rule<K, T, E, O>| r.weight() == buckets@[b].0 as nat),
                forall|i: int|
                    0 <= i < done ==> has_weight_bucket(buckets@, (#[trigger] all[i]).weight()),
                forall|i: int| 0 <= i < all.len() ==> (#[trigger] all[i]).wf(),
            decreases remaining@.len(),
        {
            let ghost pre = buckets@;
            let r = remaining.remove(0);
            proof {
                assert(all.skip(done)[0] == all[done]);
            }
            let p = place(&mut buckets, r);
            proof {
                broadcast use vstd::seq_lib::group_to_multiset_ensures;

                done = done + 1;
                assert(remaining@ =~= all.skip(done));
                assert(all.take(done) =~= all.take(done - 1).push(all[done - 1]));
                assert(all.take(done).to_multiset() == all.take(done - 1).to_multiset().insert(
                    all[done - 1],
                ));
                let grew = buckets@.len() == pre.len() + 1;
                // How each bucket position of the new state reads in the old
                // state: unchanged before `p`, and shifted by one after it
                // when a fresh bucket was inserted.
                assert forall|b: int| 0 <= b < p implies (#[trigger] buckets@[b]) == pre[b] by {
                    assert(buckets@.take(p as int) == pre.take(p as int));
                    assert(buckets@.take(p as int)[b] == buckets@[b]);
                    assert(pre.take(p as int)[b] == pre[b]);
                }
                if grew {
                    assert forall|b: int|
                        p < b < buckets@.len() implies (#[trigger] buckets@[b]) == pre[b - 1] by {
                        assert(buckets@.skip(p as int + 1) == pre.skip(p as int));
                        assert(buckets@.skip(p as int + 1)[b - p - 1] == buckets@[b]);
                        assert(pre.skip(p as int)[b - p - 1] == pre[b - 1]);
                    }
                    // A fresh bucket means no earlier processed rule had this
                    // weight, so the filtered input so far is empty.
                    assert(forall|i: int|
                        0 <= i < done - 1 ==> (#[trigger] all[i]).weight() != r.weight()) by {
                        assert forall|i: int|
                            0 <= i < done - 1 implies (#[trigger] all[i]).weight() != r.weight()
                        by {
                            if all[i].weight() == r.weight() {
                                let ob = choose|ob: int|
                                    0 <= ob < pre.len() && pre[ob].0 as nat == all[i].weight();
                                let nb = if ob < p {
                                    ob
                                } else {
                                    ob + 1
                                };
                                assert(buckets@[nb] == pre[ob]);
                                assert(buckets@[nb].0 == buckets@[p as int].0);
                                assert(nb != p);
                            }
                        }
                    }
                } else {
                    assert forall|b: int|
                        p < b < buckets@.len() implies (#[trigger] buckets@[b]) == pre[b] by {
                        assert(buckets@.skip(p as int + 1) == pre.skip(p as int + 1));
                        assert(buckets@.skip(p as int + 1)[b - p - 1] == buckets@[b]);
                        assert(pre.skip(p as int + 1)[b - p - 1] == pre[b]);
                    }
                }
                assert forall|b: int|
                    0 <= b < buckets@.len() implies (#[trigger] buckets@[b]).1@ == all.take(
                    done,
                ).filter(|r2: Rule<K, T, E, O>| r2.weight() == buckets@[b].0 as nat) by {
                    let key = buckets@[b].0;
                    let pb = |r2: Rule<K, T, E, O>| r2.weight() == key as nat;
                    lemma_filter_push(all.take(done - 1), all[done - 1], pb);
                    if b == p {
                        if grew {
                            lemma_filter_none(all.take(done - 1), pb);
                            assert(buckets@[b].1@ =~= all.take(done - 1).filter(pb).push(r));
                        } else {
                            assert(pre[b].0 == key);
                        }
                    } else {
                        // A different bucket: its key differs from the new
                        // rule's weight, so the filter ignores the rule.
                        assert(buckets@[b].0 != buckets@[p as int].0);
                        assert(!pb(r));
                        if grew && b > p {
                            assert(buckets@[b] == pre[b - 1]);
                        } else {
                            assert(buckets@[b] == pre[b]);
                        }
                    }
                }
                assert forall|i: int|
                    0 <= i < done implies has_weight_bucket(
                    buckets@,
                    (#[trigger] all[i]).weight(),
                ) by {
                    if i == done - 1 {
                        assert(buckets@[p as int].0 as nat == all[i].weight());
                    } else {
                        let ob = choose|ob: int|
                            0 <= ob < pre.len() && pre[ob].0 as nat == all[i].weight();
                        let nb = if grew && ob >= p {
                            ob + 1
                        } else {
                            ob
                        };
                        if !grew && ob == p {
                            assert(buckets@[nb].0 == pre[ob].0);
                        } else {
                            assert(buckets@[nb] == pre[ob]);
                        }
                        assert(0 <= nb < buckets@.len() && buckets@[nb].0 as nat
                            == all[i].weight());
                    }
                }
            }
        }
        let nb = buckets.len();
        let mut largest: usize = 0;
        let mut b: usize = 0;
        proof {
            assert(buckets@.take(0) =~= Seq::<(usize, Vec<Rule<K, T, E, O>>)>::empty());
        }
        while b < nb
            invariant
                nb == buckets@.len(),
                0 <= b <= nb,
                largest as nat == largest_cardinality(buckets@.take(b as int)),
            decreases nb - b,
        {
            let bl = buckets[b].1.len();
            proof {
                assert(buckets@.take(b + 1) =~= buckets@.take(b as int).push(
                    buckets@[b as int],
                ));
                assert(buckets@.take(b + 1).drop_last() =~= buckets@.take(b as int));
            }
            if bl > largest {
                largest = bl;
            }
            b += 1;
        }
        proof {
            assert(all.take(done) =~= all);
            assert(buckets@.take(nb as int) =~= buckets@);
        }
        WeightedRuleset { rules: buckets, largest_weight_cardinality: largest }
    }

    /// Evaluates the ruleset against the provided query.
    ///
    /// Walks the buckets from the most to the least specific, collects every
    /// matching rule of a bucket, and stops after the first bucket that
    /// yields at least one match.
    fn evaluate<'a>(&'a self, query: &Query<K, T>) -> (matched: Vec<&'a Rule<K, T, E, O>>) {
        let ghost q = *query;
        let ghost allb = self.rules@;
        let ghost all = bucket_rules(allb);
        let ghost pm = |r: Rule<K, T, E, O>| r.spec_matches(q);
        let mut matched: Vec<&Rule<K, T, E, O>> = Vec::with_capacity(
            self.largest_weight_cardinality,
        );
        let nb = self.rules.len();
        let mut b: usize = 0;
        let mut stop = false;
        proof {
            assert(allb.take(0) =~= Seq::<(usize, Vec<Rule<K, T, E, O>>)>::empty());
            assert(bucket_rules(allb.take(0)) =~= Seq::<Rule<K, T, E, O>>::empty());
            assert(derefs(matched@) =~= Seq::<Rule<K, T, E, O>>::empty());
        }
        while b < nb && !stop
            invariant
                nb == self.rules@.len(),
                allb == self.rules@,
                all == bucket_rules(allb),
                0 <= b <= nb,
                q == *query,
                query.wf(),
                pm == (|r: Rule<K, T, E, O>| r.spec_matches(q)),
                vstd::laws_eq::obeys_concrete_eq::<K>(),
                buckets_wf(allb),
                !stop ==> matched@.len() == 0 && !some_rule_matches(
                    bucket_rules(allb.take(b as int)),
                    q,
                ),
                stop ==> derefs(matched@) == max_tier(all, q),
            decreases nb - b + if stop {
                0int
            } else {
                1int
            },
        {
            let ghost pre = bucket_rules(allb.take(b as int));
            let bucket = &self.rules[b].1;
            let blen = bucket.len();
            let mut j: usize = 0;
            proof {
                assert(bucket@.take(0) =~= Seq::<Rule<K, T, E, O>>::empty());
                assert(bucket@.take(0).filter(pm) =~= Seq::<Rule<K, T, E, O>>::empty()) by {
                    reveal(Seq::filter);
                }
                assert(derefs(matched@) =~= Seq::<Rule<K, T, E, O>>::empty());
            }
            while j < blen
                invariant
                    allb == self.rules@,
                    0 <= b < allb.len(),
                    bucket@ == allb[b as int].1@,
                    blen == bucket@.len(),
                    0 <= j <= blen,
                    q == *query,
                    query.wf(),
                    pm == (|r: Rule<K, T, E, O>| r.spec_matches(q)),
                    vstd::laws_eq::obeys_concrete_eq::<K>(),
                    buckets_wf(allb),
                    derefs(matched@) == bucket@.take(j as int).filter(pm),
                decreases blen - j,
            {
                let rule = &bucket[j];
                proof {
                    assert(allb[b as int].1@[j as int].wf());
                }
                let hit = rule.evaluate(query);
                proof {
                    lemma_filter_push(bucket@.take(j as int), bucket@[j as int], pm);
                    assert(bucket@.take(j + 1) =~= bucket@.take(j as int).push(
                        bucket@[j as int],
                    ));
                    if hit {
                        assert(derefs(matched@.push(rule)) =~= derefs(matched@).push(
                            bucket@[j as int],
                        ));
                    }
                }
                if hit {
                    matched.push(rule);
                }
                j += 1;
            }
            proof {
                assert(bucket@.take(blen as int) =~= bucket@);
            }
            if matched.len() > 0 {
                proof {
                    broadcast use vstd::seq_lib::group_filter_ensures;

                    let bseq = allb[b as int].1@;
                    let w: nat = allb[b as int].0 as nat;
                    let fm = bseq.filter(pm);
                    // Some rule of this bucket matches.
                    assert(pm(fm[0]));
                    assert(fm.contains(fm[0]));
                    bseq.lemma_filter_contains_rev(pm, fm[0]);
                    let mi = choose|i: int| 0 <= i < bseq.len() && bseq[i] == fm[0];
                    assert(bseq[mi].spec_matches(q));
                    assert(some_rule_matches(bseq, q));
                    // Its best weight is the bucket's key, every bucket rule
                    // sharing that weight.
                    lemma_best_weight(bseq, q);
                    assert(best_weight(bseq, q) == w) by {
                        let bi = choose|i: int|
                            0 <= i < bseq.len() && bseq[i].spec_matches(q) && bseq[i].weight()
                                == best_weight(bseq, q);
                        assert(allb[b as int].1@[bi].weight() == w);
                        assert(allb[b as int].1@[mi].weight() == w);
                    }
                    lemma_best_weight(pre, q);
                    assert(best_weight(pre, q) == 0);
                    // The flattened rules split around this bucket.
                    assert(allb.take(b + 1) =~= allb.take(b as int).push(allb[b as int]));
                    assert(bucket_rules(allb.take(b + 1)) =~= pre + bseq) by {
                        assert(allb.take(b + 1).drop_last() =~= allb.take(b as int));
                    }
                    let rest = bucket_rules(allb.skip(b + 1));
                    assert(all == bucket_rules(allb.take(b + 1)) + rest) by {
                        assert(allb =~= allb.take(b + 1) + allb.skip(b + 1));
                        lemma_bucket_rules_concat(allb.take(b + 1), allb.skip(b + 1));
                    }
                    lemma_best_weight_concat(pre, bseq, q);
                    assert(best_weight(pre + bseq, q) == w);
                    // Later buckets hold strictly lighter rules only.
                    assert(forall|bi: int, jj: int|
                        #![trigger allb.skip(b + 1)[bi].1@[jj]]
                        0 <= bi < allb.skip(b + 1).len() && 0 <= jj < allb.skip(
                            b + 1,
                        )[bi].1@.len() ==> allb.skip(b + 1)[bi].1@[jj] == allb[bi + b
                        + 1].1@[jj]);
                    if w > 0 {
                        lemma_bucket_rules_weights(allb.skip(b + 1), w);
                    } else {
                        assert(allb.skip(b + 1) =~= Seq::<(usize, Vec<Rule<K, T, E, O>>)>::empty())
                            by {
                            if allb.skip(b + 1).len() > 0 {
                                assert(allb[b + 1].0 < allb[b as int].0);
                                assert(false);
                            }
                        }
                        assert(rest =~= Seq::<Rule<K, T, E, O>>::empty());
                    }
                    lemma_best_weight(rest, q);
                    lemma_best_weight_concat(pre + bseq, rest, q);
                    assert(best_weight(all, q) == w) by {
                        if some_rule_matches(rest, q) {
                            let ri = choose|i: int|
                                0 <= i < rest.len() && rest[i].spec_matches(q) && rest[i].weight()
                                    == best_weight(rest, q);
                            assert(rest[ri].weight() < w);
                        }
                    }
                    // The most specific tier is exactly this bucket's
                    // matches: the earlier buckets contain no match and the
                    // later ones are too light.
                    let pw = |r: Rule<K, T, E, O>| r.spec_matches(q) && r.weight() == w;
                    assert(max_tier(all, q) == all.filter(pw));
                    vstd::seq::Seq::filter_distributes_over_add(pre + bseq, rest, pw);
                    vstd::seq::Seq::filter_distributes_over_add(pre, bseq, pw);
                    lemma_filter_none(pre, pw);
                    assert(rest.filter(pw) =~= Seq::<Rule<K, T, E, O>>::empty()) by {
                        if w > 0 {
                            lemma_filter_none(rest, pw);
                        } else {
                            reveal(Seq::filter);
                        }
                    }
                    lemma_filter_congruent(bseq, pw, pm);
                    assert(all.filter(pw) =~= bseq.filter(pm));
                    assert(derefs(matched@) == max_tier(all, q));
                }
                stop = true;
            } else {
                proof {
                    let bseq = allb[b as int].1@;
                    // No match in this bucket: a matching rule would have
                    // been kept by the filter.
                    broadcast use vstd::seq_lib::group_filter_ensures;

                    assert(!some_rule_matches(bseq, q)) by {
                        if some_rule_matches(bseq, q) {
                            let i = choose|i: int| 0 <= i < bseq.len() && bseq[i].spec_matches(q);
                            assert(pm(bseq[i]));
                            assert(bseq.filter(pm).contains(bseq[i]));
                        }
                    }
                    assert(allb.take(b + 1) =~= allb.take(b as int).push(allb[b as int]));
                    assert(bucket_rules(allb.take(b + 1)) =~= pre + bseq) by {
                        assert(allb.take(b + 1).drop_last() =~= allb.take(b as int));
                    }
                    lemma_best_weight_concat(pre, bseq, q);
                    assert(!some_rule_matches(bucket_rules(allb.take(b + 1)), q));
                }
                b += 1;
            }
        }
        proof {
            if !stop {
                assert(allb.take(nb as int) =~= allb);
                lemma_best_weight(all, q);
                lemma_matches_at_no_match_empty(all, q, best_weight(all, q));
                assert(derefs(matched@) =~= max_tier(all, q));
            }
        }
        matched
    }
}

} // verus!

