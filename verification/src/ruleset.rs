use vstd::multiset::Multiset;
use vstd::prelude::*;

use crate::evaluator::Evaluator;
use crate::query::Query;
use crate::rule::Rule;

verus! {

/// Does some rule of `rules` match `query`?
pub open spec fn some_rule_matches<K, T, E: Evaluator<T>, O>(
    rules: Seq<Rule<K, T, E, O>>,
    query: Query<K, T>,
) -> bool {
    exists|i: int| 0 <= i < rules.len() && rules[i].spec_matches(query)
}

/// The largest weight (specificity) among the rules of `rules` that match
/// `query`; `0` when no rule matches.
pub open spec fn best_weight<K, T, E: Evaluator<T>, O>(
    rules: Seq<Rule<K, T, E, O>>,
    query: Query<K, T>,
) -> nat
    decreases rules.len(),
{
    if rules.len() == 0 {
        0
    } else {
        let rest = best_weight(rules.drop_last(), query);
        if rules.last().spec_matches(query) && rules.last().weight() > rest {
            rules.last().weight()
        } else {
            rest
        }
    }
}

/// The rules of `rules` that match `query` with weight exactly `w`, in order.
pub open spec fn matches_at<K, T, E: Evaluator<T>, O>(
    rules: Seq<Rule<K, T, E, O>>,
    query: Query<K, T>,
    w: nat,
) -> Seq<Rule<K, T, E, O>> {
    rules.filter(|r: Rule<K, T, E, O>| r.spec_matches(query) && r.weight() == w)
}

/// The most specific matching tier of `rules` for `query`: every rule that
/// matches with the largest weight among matching rules, in order. Empty
/// exactly when no rule matches.
pub open spec fn max_tier<K, T, E: Evaluator<T>, O>(
    rules: Seq<Rule<K, T, E, O>>,
    query: Query<K, T>,
) -> Seq<Rule<K, T, E, O>> {
    matches_at(rules, query, best_weight(rules, query))
}

/// The rules that a sequence of rule references points at, in order.
pub open spec fn derefs<K, T, E: Evaluator<T>, O>(s: Seq<&Rule<K, T, E, O>>) -> Seq<
    Rule<K, T, E, O>,
> {
    s.map_values(|r: &Rule<K, T, E, O>| *r)
}

/// Is `s` sorted by weight, descending (most specific rules first)?
pub open spec fn sorted_desc<K, T, E: Evaluator<T>, O>(s: Seq<Rule<K, T, E, O>>) -> bool {
    forall|i: int, j: int| 0 <= i <= j < s.len() ==> s[i].weight() >= s[j].weight()
}

/// `best_weight` is the weight of some matching rule (when any matches), and
/// no matching rule exceeds it.
pub proof fn lemma_best_weight<K, T, E: Evaluator<T>, O>(
    rules: Seq<Rule<K, T, E, O>>,
    query: Query<K, T>,
)
    ensures
        some_rule_matches(rules, query) ==> exists|i: int|
            0 <= i < rules.len() && rules[i].spec_matches(query) && rules[i].weight()
                == best_weight(rules, query),
        forall|i: int|
            0 <= i < rules.len() && rules[i].spec_matches(query) ==> rules[i].weight()
                <= best_weight(rules, query),
        !some_rule_matches(rules, query) ==> best_weight(rules, query) == 0,
    decreases rules.len(),
{
    if rules.len() > 0 {
        let d = rules.drop_last();
        lemma_best_weight(d, query);
        assert(forall|i: int| 0 <= i < d.len() ==> d[i] == rules[i]);
        if some_rule_matches(rules, query) {
            let i = choose|i: int| 0 <= i < rules.len() && rules[i].spec_matches(query);
            if i < rules.len() - 1 {
                assert(d[i].spec_matches(query));
            }
            if some_rule_matches(d, query) {
                let j = choose|j: int|
                    0 <= j < d.len() && d[j].spec_matches(query) && d[j].weight() == best_weight(
                        d,
                        query,
                    );
                assert(rules[j].spec_matches(query) && rules[j].weight() == best_weight(d, query));
            }
        }
    }
}

/// No rule matches above the best weight, so the tier at any larger weight is
/// empty.
pub proof fn lemma_matches_at_above_best_empty<K, T, E: Evaluator<T>, O>(
    rules: Seq<Rule<K, T, E, O>>,
    query: Query<K, T>,
    w: nat,
)
    requires
        w > best_weight(rules, query),
    ensures
        matches_at(rules, query, w) == Seq::<Rule<K, T, E, O>>::empty(),
{
    lemma_best_weight(rules, query);
    let pred = |r: Rule<K, T, E, O>| r.spec_matches(query) && r.weight() == w;
    let f = rules.filter(pred);
    if f.len() > 0 {
        broadcast use vstd::seq_lib::group_filter_ensures;

        assert(pred(f[0]));
        assert(f.contains(f[0]));
        rules.lemma_filter_contains_rev(pred, f[0]);
        assert(rules.contains(f[0]));
        let i = choose|i: int| 0 <= i < rules.len() && rules[i] == f[0];
        assert(rules[i].weight() <= best_weight(rules, query));
        assert(false);
    }
    assert(f =~= Seq::<Rule<K, T, E, O>>::empty());
}

/// How the best weight and the most specific tier grow when one rule is
/// appended at the end of the sequence.
pub proof fn lemma_max_tier_push<K, T, E: Evaluator<T>, O>(
    rules: Seq<Rule<K, T, E, O>>,
    query: Query<K, T>,
    x: Rule<K, T, E, O>,
)
    ensures
        best_weight(rules.push(x), query) == if x.spec_matches(query) && x.weight() > best_weight(
            rules,
            query,
        ) {
            x.weight()
        } else {
            best_weight(rules, query)
        },
        max_tier(rules.push(x), query) == if x.spec_matches(query) && x.weight() == best_weight(
            rules.push(x),
            query,
        ) {
            matches_at(rules, query, best_weight(rules.push(x), query)).push(x)
        } else {
            matches_at(rules, query, best_weight(rules.push(x), query))
        },
{
    let s = rules.push(x);
    assert(s.drop_last() =~= rules);
    assert(s.last() == x);
    let nw = best_weight(s, query);
    let pred = |r: Rule<K, T, E, O>| r.spec_matches(query) && r.weight() == nw;
    reveal_with_fuel(Seq::filter, 2);
    assert(s.filter(pred) == if pred(x) {
        rules.filter(pred).push(x)
    } else {
        rules.filter(pred)
    });
}

/// A tier at a weight no rule matches at is empty; in particular every tier
/// of a sequence without a matching rule is empty.
pub proof fn lemma_matches_at_no_match_empty<K, T, E: Evaluator<T>, O>(
    rules: Seq<Rule<K, T, E, O>>,
    query: Query<K, T>,
    w: nat,
)
    requires
        !some_rule_matches(rules, query),
    ensures
        matches_at(rules, query, w) == Seq::<Rule<K, T, E, O>>::empty(),
{
    let pred = |r: Rule<K, T, E, O>| r.spec_matches(query) && r.weight() == w;
    let f = rules.filter(pred);
    if f.len() > 0 {
        broadcast use vstd::seq_lib::group_filter_ensures;

        assert(pred(f[0]));
        assert(f.contains(f[0]));
        rules.lemma_filter_contains_rev(pred, f[0]);
        let i = choose|i: int| 0 <= i < rules.len() && rules[i] == f[0];
        assert(rules[i].spec_matches(query));
        assert(false);
    }
    assert(f =~= Seq::<Rule<K, T, E, O>>::empty());
}

/// Law: the most specific tier is empty exactly when no rule matches, its
/// rules all match with the best weight, and no matching rule of the sequence
/// is more specific than the tier.
pub proof fn lemma_max_tier_correct<K, T, E: Evaluator<T>, O>(
    rules: Seq<Rule<K, T, E, O>>,
    query: Query<K, T>,
)
    ensures
        max_tier(rules, query).len() > 0 <==> some_rule_matches(rules, query),
        forall|i: int|
            0 <= i < max_tier(rules, query).len() ==> {
                &&& (#[trigger] max_tier(rules, query)[i]).spec_matches(query)
                &&& max_tier(rules, query)[i].weight() == best_weight(rules, query)
                &&& rules.contains(max_tier(rules, query)[i])
            },
        forall|i: int|
            0 <= i < rules.len() && (#[trigger] rules[i]).spec_matches(query) ==> rules[i].weight()
                <= best_weight(rules, query),
{
    broadcast use vstd::seq_lib::group_filter_ensures;

    lemma_best_weight(rules, query);
    let w = best_weight(rules, query);
    let pred = |r: Rule<K, T, E, O>| r.spec_matches(query) && r.weight() == w;
    let tier = max_tier(rules, query);
    assert forall|i: int| 0 <= i < tier.len() implies {
        &&& (#[trigger] tier[i]).spec_matches(query)
        &&& tier[i].weight() == w
        &&& rules.contains(tier[i])
    } by {
        assert(pred(tier[i]));
        assert(tier.contains(tier[i]));
        rules.lemma_filter_contains_rev(pred, tier[i]);
    }
    if some_rule_matches(rules, query) {
        let i = choose|i: int|
            0 <= i < rules.len() && rules[i].spec_matches(query) && rules[i].weight() == w;
        assert(pred(rules[i]));
        assert(tier.contains(rules[i]));
    }
    if tier.len() > 0 {
        assert(rules.contains(tier[0]));
        let j = choose|j: int| 0 <= j < rules.len() && rules[j] == tier[0];
        assert(rules[j].spec_matches(query));
    }
}

/// Once the best weight of a prefix beats every weight in the remaining tail,
/// the tail cannot change the most specific tier.
pub proof fn lemma_max_tier_ignores_lighter_tail<K, T, E: Evaluator<T>, O>(
    rules: Seq<Rule<K, T, E, O>>,
    query: Query<K, T>,
    i: int,
)
    requires
        0 <= i <= rules.len(),
        some_rule_matches(rules.take(i), query),
        forall|j: int|
            i <= j < rules.len() ==> (#[trigger] rules[j]).weight() < best_weight(
                rules.take(i),
                query,
            ),
    ensures
        best_weight(rules, query) == best_weight(rules.take(i), query),
        max_tier(rules, query) == max_tier(rules.take(i), query),
    decreases rules.len() - i,
{
    if i == rules.len() {
        assert(rules.take(i) =~= rules);
    } else {
        let p = rules.take(i);
        let x = rules[i];
        assert(rules.take(i + 1) =~= p.push(x));
        lemma_max_tier_push(p, query, x);
        assert(best_weight(rules.take(i + 1), query) == best_weight(p, query));
        assert(some_rule_matches(rules.take(i + 1), query)) by {
            let k = choose|k: int| 0 <= k < p.len() && p[k].spec_matches(query);
            assert(rules.take(i + 1)[k].spec_matches(query));
        }
        assert(max_tier(rules.take(i + 1), query) == max_tier(p, query)) by {
            if x.spec_matches(query) && x.weight() == best_weight(rules.take(i + 1), query) {
                assert(false);
            }
        }
        lemma_max_tier_ignores_lighter_tail(rules, query, i + 1);
    }
}

/// Appending one element to a filtered sequence keeps it when the predicate
/// accepts it and drops it otherwise.
pub proof fn lemma_filter_push<A>(s: Seq<A>, x: A, pred: spec_fn(A) -> bool)
    ensures
        s.push(x).filter(pred) == if pred(x) {
            s.filter(pred).push(x)
        } else {
            s.filter(pred)
        },
{
    reveal_with_fuel(Seq::filter, 2);
    assert(s.push(x).drop_last() =~= s);
}

/// A filter whose predicate rejects every element yields the empty sequence.
pub proof fn lemma_filter_none<A>(s: Seq<A>, pred: spec_fn(A) -> bool)
    requires
        forall|i: int| 0 <= i < s.len() ==> !pred(#[trigger] s[i]),
    ensures
        s.filter(pred) == Seq::<A>::empty(),
{
    broadcast use vstd::seq_lib::group_filter_ensures;

    let f = s.filter(pred);
    if f.len() > 0 {
        assert(pred(f[0]));
        assert(f.contains(f[0]));
        s.lemma_filter_contains_rev(pred, f[0]);
        let i = choose|i: int| 0 <= i < s.len() && s[i] == f[0];
        assert(false);
    }
    assert(f =~= Seq::<A>::empty());
}

/// Two predicates that agree on every element of a sequence filter it to the
/// same subsequence.
pub proof fn lemma_filter_congruent<A>(s: Seq<A>, p1: spec_fn(A) -> bool, p2: spec_fn(A) -> bool)
    requires
        forall|i: int| 0 <= i < s.len() ==> p1(#[trigger] s[i]) == p2(s[i]),
    ensures
        s.filter(p1) == s.filter(p2),
    decreases s.len(),
{
    reveal(Seq::filter);
    if s.len() > 0 {
        assert(forall|i: int|
            0 <= i < s.drop_last().len() ==> #[trigger] s.drop_last()[i] == s[i]);
        lemma_filter_congruent(s.drop_last(), p1, p2);
        assert(p1(s.last()) == p2(s.last()));
    }
}

/// The best weight of a concatenation is the larger of the two parts' best
/// weights.
pub proof fn lemma_best_weight_concat<K, T, E: Evaluator<T>, O>(
    a: Seq<Rule<K, T, E, O>>,
    b: Seq<Rule<K, T, E, O>>,
    query: Query<K, T>,
)
    ensures
        best_weight(a + b, query) == if best_weight(a, query) >= best_weight(b, query) {
            best_weight(a, query)
        } else {
            best_weight(b, query)
        },
        some_rule_matches(a + b, query) <==> some_rule_matches(a, query) || some_rule_matches(
            b,
            query,
        ),
    decreases b.len(),
{
    lemma_best_weight(a, query);
    lemma_best_weight(b, query);
    lemma_best_weight(a + b, query);
    if b.len() == 0 {
        assert(a + b =~= a);
    } else {
        let b0 = b.drop_last();
        let x = b.last();
        assert(a + b =~= (a + b0).push(x));
        assert(b =~= b0.push(x));
        lemma_max_tier_push(a + b0, query, x);
        lemma_max_tier_push(b0, query, x);
        lemma_best_weight_concat(a, b0, query);
        if some_rule_matches(a + b0, query) {
            let i = choose|i: int| 0 <= i < (a + b0).len() && (a + b0)[i].spec_matches(query);
            assert((a + b)[i].spec_matches(query));
        }
        if x.spec_matches(query) {
            assert((a + b).last().spec_matches(query));
        }
        if some_rule_matches(a + b, query) {
            let i = choose|i: int| 0 <= i < (a + b).len() && (a + b)[i].spec_matches(query);
            if i < a.len() {
                assert(a[i].spec_matches(query));
            } else {
                assert(b[i - a.len()].spec_matches(query));
            }
        }
        if some_rule_matches(a, query) {
            let i = choose|i: int| 0 <= i < a.len() && a[i].spec_matches(query);
            assert((a + b)[i].spec_matches(query));
        }
        if some_rule_matches(b, query) {
            let i = choose|i: int| 0 <= i < b.len() && b[i].spec_matches(query);
            assert((a + b)[a.len() + i].spec_matches(query));
        }
    }
}

/// A filter whose predicate accepts every element is the identity.
pub proof fn lemma_filter_all<A>(s: Seq<A>, pred: spec_fn(A) -> bool)
    requires
        forall|i: int| 0 <= i < s.len() ==> pred(#[trigger] s[i]),
    ensures
        s.filter(pred) == s,
    decreases s.len(),
{
    reveal(Seq::filter);
    if s.len() > 0 {
        assert(forall|i: int|
            0 <= i < s.drop_last().len() ==> #[trigger] s.drop_last()[i] == s[i]);
        lemma_filter_all(s.drop_last(), pred);
        assert(s.drop_last().push(s.last()) =~= s);
    }
}

/// Filtering commutes with forgetting the order: the multiset of a filtered
/// sequence is the filtered multiset.
pub proof fn lemma_filter_to_multiset<A>(s: Seq<A>, pred: spec_fn(A) -> bool)
    ensures
        s.filter(pred).to_multiset() == s.to_multiset().filter(pred),
    decreases s.len(),
{
    broadcast use vstd::seq_lib::group_to_multiset_ensures;
    broadcast use vstd::multiset::group_multiset_axioms;

    reveal(Seq::filter);
    if s.len() == 0 {
        assert(s.to_multiset() =~= Multiset::<A>::empty()) by {
            assert(s.to_multiset().len() == 0);
        }
        assert(s.filter(pred) == s);
        assert(s.to_multiset().filter(pred) =~= Multiset::<A>::empty());
    } else {
        let d = s.drop_last();
        let l = s.last();
        lemma_filter_to_multiset(d, pred);
        lemma_filter_push(d, l, pred);
        assert(s =~= d.push(l));
        assert(d.push(l).to_multiset() == d.to_multiset().insert(l));
        if pred(l) {
            assert(d.filter(pred).push(l).to_multiset() == d.filter(pred).to_multiset().insert(
                l,
            ));
            assert(d.to_multiset().insert(l).filter(pred) =~= d.to_multiset().filter(
                pred,
            ).insert(l));
        } else {
            assert(d.to_multiset().insert(l).filter(pred) =~= d.to_multiset().filter(pred));
        }
    }
}

/// Two sequences holding the same rules (as a multiset) agree on whether any
/// rule matches and on the best weight.
pub proof fn lemma_best_weight_permutation<K, T, E: Evaluator<T>, O>(
    s1: Seq<Rule<K, T, E, O>>,
    s2: Seq<Rule<K, T, E, O>>,
    query: Query<K, T>,
)
    requires
        s1.to_multiset() == s2.to_multiset(),
    ensures
        some_rule_matches(s1, query) == some_rule_matches(s2, query),
        best_weight(s1, query) == best_weight(s2, query),
{
    broadcast use vstd::seq_lib::group_to_multiset_ensures;

    lemma_best_weight(s1, query);
    lemma_best_weight(s2, query);
    if some_rule_matches(s1, query) {
        let i = choose|i: int|
            0 <= i < s1.len() && s1[i].spec_matches(query) && s1[i].weight() == best_weight(
                s1,
                query,
            );
        assert(s1.contains(s1[i]));
        assert(s2.to_multiset().count(s1[i]) > 0);
        assert(s2.contains(s1[i]));
        let j = choose|j: int| 0 <= j < s2.len() && s2[j] == s1[i];
        assert(s2[j].spec_matches(query));
        assert(best_weight(s2, query) >= best_weight(s1, query));
    }
    if some_rule_matches(s2, query) {
        let i = choose|i: int|
            0 <= i < s2.len() && s2[i].spec_matches(query) && s2[i].weight() == best_weight(
                s2,
                query,
            );
        assert(s2.contains(s2[i]));
        assert(s1.to_multiset().count(s2[i]) > 0);
        assert(s1.contains(s2[i]));
        let j = choose|j: int| 0 <= j < s1.len() && s1[j] == s2[i];
        assert(s1[j].spec_matches(query));
        assert(best_weight(s1, query) >= best_weight(s2, query));
    }
}

/// Law: two rulesets holding the same rules surface the same most specific
/// tier for every query, up to ordering — the tier depends only on which
/// rules are stored, not on how they are organised.
pub proof fn lemma_max_tier_permutation<K, T, E: Evaluator<T>, O>(
    s1: Seq<Rule<K, T, E, O>>,
    s2: Seq<Rule<K, T, E, O>>,
    query: Query<K, T>,
)
    requires
        s1.to_multiset() == s2.to_multiset(),
    ensures
        max_tier(s1, query).to_multiset() == max_tier(s2, query).to_multiset(),
{
    lemma_best_weight_permutation(s1, s2, query);
    let w = best_weight(s1, query);
    let pred = |r: Rule<K, T, E, O>| r.spec_matches(query) && r.weight() == w;
    lemma_filter_to_multiset(s1, pred);
    lemma_filter_to_multiset(s2, pred);
}

/// The most specific tier of a concatenation, written out of the two parts'
/// tiers: the part whose best weight loses contributes nothing.
pub proof fn lemma_merge_tiers<K, T, E: Evaluator<T>, O>(
    a: Seq<Rule<K, T, E, O>>,
    b: Seq<Rule<K, T, E, O>>,
    query: Query<K, T>,
)
    ensures
        max_tier(a + b, query) == max_tier(max_tier(a, query) + max_tier(b, query), query),
{
    lemma_best_weight(a, query);
    lemma_best_weight(b, query);
    lemma_max_tier_correct(a, query);
    lemma_max_tier_correct(b, query);
    lemma_best_weight_concat(a, b, query);
    let wa = best_weight(a, query);
    let wb = best_weight(b, query);
    let w = best_weight(a + b, query);
    let ta = max_tier(a, query);
    let tb = max_tier(b, query);
    let pw = |r: Rule<K, T, E, O>| r.spec_matches(query) && r.weight() == w;
    Seq::filter_distributes_over_add(a, b, pw);
    // The left-hand tier, part by part.
    if !some_rule_matches(a, query) {
        lemma_matches_at_no_match_empty(a, query, w);
        lemma_matches_at_no_match_empty(a, query, wa);
    } else if wa < w {
        lemma_matches_at_above_best_empty(a, query, w);
    }
    if !some_rule_matches(b, query) {
        lemma_matches_at_no_match_empty(b, query, w);
        lemma_matches_at_no_match_empty(b, query, wb);
    } else if wb < w {
        lemma_matches_at_above_best_empty(b, query, w);
    }
    // The right-hand side: the tiers only hold matching rules of their
    // part's best weight, so re-ranking keeps exactly the winners.
    assert(some_rule_matches(ta, query) ==> best_weight(ta, query) == wa) by {
        lemma_best_weight(ta, query);
    }
    assert(some_rule_matches(tb, query) ==> best_weight(tb, query) == wb) by {
        lemma_best_weight(tb, query);
    }
    if ta.len() > 0 {
        assert(ta[0].spec_matches(query));
        assert(some_rule_matches(ta, query));
    }
    if tb.len() > 0 {
        assert(tb[0].spec_matches(query));
        assert(some_rule_matches(tb, query));
    }
    lemma_best_weight_concat(ta, tb, query);
    lemma_best_weight(ta, query);
    lemma_best_weight(tb, query);
    if some_rule_matches(a + b, query) {
        assert(best_weight(ta + tb, query) == w);
        let pt = |r: Rule<K, T, E, O>| r.spec_matches(query) && r.weight() == best_weight(
            ta + tb,
            query,
        );
        assert(pt == pw);
        Seq::filter_distributes_over_add(ta, tb, pw);
        if ta.len() > 0 && wa == w {
            lemma_filter_all(ta, pw);
        } else {
            lemma_filter_none(ta, pw);
        }
        if tb.len() > 0 && wb == w {
            lemma_filter_all(tb, pw);
        } else {
            lemma_filter_none(tb, pw);
        }
        assert(max_tier(a + b, query) =~= max_tier(ta + tb, query));
    } else {
        lemma_matches_at_no_match_empty(a + b, query, w);
        assert(ta =~= Seq::<Rule<K, T, E, O>>::empty());
        assert(tb =~= Seq::<Rule<K, T, E, O>>::empty());
        assert(ta + tb =~= Seq::<Rule<K, T, E, O>>::empty());
        lemma_best_weight(ta + tb, query);
        lemma_matches_at_no_match_empty(ta + tb, query, best_weight(ta + tb, query));
        assert(max_tier(a + b, query) =~= max_tier(ta + tb, query));
    }
}

/// Law: merging two rulesets yields a ruleset whose most specific tier, for
/// every query, holds the same rules as re-ranking the union of the two
/// original rulesets' tiers ([`Ruleset::append`] ensures exactly the premise
/// about the merged rules).
pub proof fn lemma_merge_evaluate_all<K, T, E: Evaluator<T>, O>(
    merged: Seq<Rule<K, T, E, O>>,
    a: Seq<Rule<K, T, E, O>>,
    b: Seq<Rule<K, T, E, O>>,
    query: Query<K, T>,
)
    requires
        merged.to_multiset() == a.to_multiset().add(b.to_multiset()),
    ensures
        max_tier(merged, query).to_multiset() == max_tier(
            max_tier(a, query) + max_tier(b, query),
            query,
        ).to_multiset(),
{
    broadcast use vstd::seq_lib::lemma_multiset_commutative;

    lemma_max_tier_permutation(merged, a + b, query);
    lemma_merge_tiers(a, b, query);
}

/// Every rule of a multiset-equal sequence is well-formed when every rule of
/// the original is.
proof fn lemma_all_wf_from_multiset<K, T, E: Evaluator<T>, O>(
    s1: Seq<Rule<K, T, E, O>>,
    s2: Seq<Rule<K, T, E, O>>,
)
    requires
        s1.to_multiset() == s2.to_multiset(),
        forall|i: int| 0 <= i < s1.len() ==> (#[trigger] s1[i]).wf(),
    ensures
        forall|i: int| 0 <= i < s2.len() ==> (#[trigger] s2[i]).wf(),
{
    broadcast use vstd::seq_lib::group_to_multiset_ensures;

    assert forall|i: int| 0 <= i < s2.len() implies (#[trigger] s2[i]).wf() by {
        assert(s2.contains(s2[i]));
        assert(s2.to_multiset().count(s2[i]) > 0);
        assert(s1.contains(s2[i]));
        let j = choose|j: int| 0 <= j < s1.len() && s1[j] == s2[i];
        assert(s1[j].wf());
    }
}

/// Sorts `rules` by descending weight, by repeatedly moving a rule of
/// maximal weight among those left to the end of the sorted part.
fn sort_by_weight<K: Eq, T: Copy, E: Evaluator<T> + Copy, O>(rules: &mut Vec<Rule<K, T, E, O>>)
    ensures
        final (rules)@.to_multiset() == old(rules)@.to_multiset(),
        sorted_desc(final (rules)@),
{
    broadcast use vstd::seq_lib::group_to_multiset_ensures;

    let mut out: Vec<Rule<K, T, E, O>> = Vec::with_capacity(rules.len());
    while rules.len() > 0
        invariant
            out@.to_multiset().add(rules@.to_multiset()) == old(rules)@.to_multiset(),
            sorted_desc(out@),
            forall|a: int, b: int|
                #![trigger out@[a], rules@[b]]
                0 <= a < out@.len() && 0 <= b < rules@.len() ==> out@[a].weight()
                    >= rules@[b].weight(),
        decreases rules@.len(),
    {
        let mut m: usize = 0;
        let mut k: usize = 1;
        while k < rules.len()
            invariant
                rules@.len() > 0,
                0 <= m < k <= rules@.len(),
                forall|j: int| 0 <= j < k ==> rules@[m as int].weight() >= (#[trigger] rules@[j]).weight(),
            decreases rules@.len() - k,
        {
            if rules[k].len() > rules[m].len() {
                m = k;
            }
            k += 1;
        }
        let ghost pre_out = out@;
        let ghost pre_rules = rules@;
        let r = rules.remove(m);
        proof {
            broadcast use vstd::seq_lib::group_to_multiset_ensures;
            broadcast use vstd::multiset::group_multiset_axioms;

            assert(pre_rules.remove(m as int).to_multiset() == pre_rules.to_multiset().remove(r));
            assert(pre_out.push(r).to_multiset() == pre_out.to_multiset().insert(r));
            assert(pre_out.to_multiset().insert(r).add(pre_rules.to_multiset().remove(r))
                =~= pre_out.to_multiset().add(pre_rules.to_multiset())) by {
                assert(pre_rules.contains(r));
                assert(pre_rules.to_multiset().count(r) > 0);
            }
            assert forall|a: int, b: int|
                #![trigger pre_out.push(r)[a], rules@[b]]
                0 <= a < pre_out.push(r).len() && 0 <= b < rules@.len() implies pre_out.push(
                r,
            )[a].weight() >= rules@[b].weight() by {
                assert(rules@[b] == if b < m { pre_rules[b] } else { pre_rules[b + 1] });
                assert(r.weight() >= pre_rules[b].weight() && r.weight() >= pre_rules[b
                    + 1].weight());
            }
            assert(sorted_desc(pre_out.push(r))) by {
                assert(pre_rules.contains(r));
            }
        }
        out.push(r);
    }
    proof {
        assert(rules@.to_multiset() =~= Multiset::<Rule<K, T, E, O>>::empty()) by {
            assert(rules@.len() == 0);
        }
        assert(out@.to_multiset().add(Multiset::<Rule<K, T, E, O>>::empty()) =~= out@.to_multiset());
    }
    *rules = out;
}

/// Relies on `rand::random_range`: returns a uniformly distributed index
/// below `len`, used to break ties among equally specific matching rules.
#[verifier::external_body]
fn random_index(len: usize) -> (r: usize)
    requires
        len > 0,
    ensures
        r < len,
{
    rand::random_range(0..len)
}

/// A `Ruleset` is a collection of [`Rule`]s kept sorted by descending weight
/// (most specific first), so that evaluation can stop as soon as the weight
/// of the scanned rules drops below the weight of a rule already matched.
pub struct Ruleset<K, T, E, O> {
    /// The rules of the ruleset, sorted by descending weight.
    pub rules: Vec<Rule<K, T, E, O>>,
}

impl<K, T, E: Evaluator<T>, O> Ruleset<K, T, E, O> {
    /// Well-formed: the rules are sorted by descending weight and each rule
    /// is itself well-formed.
    pub open spec fn wf(self) -> bool {
        &&& sorted_desc(self.rules@)
        &&& forall|i: int| 0 <= i < self.rules@.len() ==> (#[trigger] self.rules@[i]).wf()
    }
}

impl<K: Eq, T: Copy, E: Evaluator<T> + Copy, O> Ruleset<K, T, E, O> {
    /// Creates a ruleset holding the provided rules, sorted by descending
    /// weight.
    pub fn new(rules: Vec<Rule<K, T, E, O>>) -> (s: Ruleset<K, T, E, O>)
        requires
            forall|i: int| 0 <= i < rules@.len() ==> (#[trigger] rules@[i]).wf(),
        ensures
            s.wf(),
            s.rules@.to_multiset() == rules@.to_multiset(),
    {
        let ghost orig = rules@;
        let mut rules = rules;
        sort_by_weight(&mut rules);
        proof {
            lemma_all_wf_from_multiset(orig, rules@);
        }
        Ruleset { rules }
    }

    /// Creates a ruleset from the provided rules (alias of [`Ruleset::new`]).
    pub fn from(rules: Vec<Rule<K, T, E, O>>) -> (s: Ruleset<K, T, E, O>)
        requires
            forall|i: int| 0 <= i < rules@.len() ==> (#[trigger] rules@[i]).wf(),
        ensures
            s.wf(),
            s.rules@.to_multiset() == rules@.to_multiset(),
    {
        Ruleset::new(rules)
    }

    /// Merges another ruleset into this one, leaving the other empty; the
    /// combined rules are re-sorted by descending weight.
    pub fn append(&mut self, ruleset: &mut Ruleset<K, T, E, O>)
        requires
            old(self).wf(),
            old(ruleset).wf(),
        ensures
            final (self).wf(),
            final (self).rules@.to_multiset() == old(self).rules@.to_multiset().add(
                old(ruleset).rules@.to_multiset(),
            ),
            final (ruleset).rules@.len() == 0,
    {
        broadcast use vstd::seq_lib::group_to_multiset_ensures;

        let ghost sum = old(self).rules@.to_multiset().add(old(ruleset).rules@.to_multiset());
        while ruleset.rules.len() > 0
            invariant
                self.rules@.to_multiset().add(ruleset.rules@.to_multiset()) == sum,
                forall|i: int|
                    0 <= i < self.rules@.len() ==> (#[trigger] self.rules@[i]).wf(),
                forall|i: int|
                    0 <= i < ruleset.rules@.len() ==> (#[trigger] ruleset.rules@[i]).wf(),
            decreases ruleset.rules@.len(),
        {
            let ghost pre_self = self.rules@;
            let ghost pre_other = ruleset.rules@;
            let r = match ruleset.rules.pop() {
                Some(r) => r,
                None => {
                    proof {
                        assert(false);
                    }
                    return ;
                },
            };
            proof {
                broadcast use vstd::seq_lib::group_to_multiset_ensures;
                broadcast use vstd::multiset::group_multiset_axioms;

                assert(pre_other.drop_last() =~= pre_other.take(pre_other.len() - 1));
                assert(pre_other =~= pre_other.drop_last().push(r));
                assert(pre_other.to_multiset() == pre_other.drop_last().push(r).to_multiset());
                assert(pre_other.to_multiset() == pre_other.drop_last().to_multiset().insert(r));
                assert(pre_self.push(r).to_multiset() == pre_self.to_multiset().insert(r));
                assert(pre_self.push(r).to_multiset().add(pre_other.drop_last().to_multiset())
                    =~= pre_self.to_multiset().add(pre_other.to_multiset()));
                assert(forall|i: int|
                    0 <= i < pre_other.drop_last().len() ==> (#[trigger] pre_other.drop_last()[i])
                        == pre_other[i]);
            }
            self.rules.push(r);
        }
        let ghost mid = self.rules@;
        sort_by_weight(&mut self.rules);
        proof {
            assert(ruleset.rules@.to_multiset() =~= Multiset::<Rule<K, T, E, O>>::empty()) by {
                assert(ruleset.rules@.len() == 0);
            }
            assert(mid.to_multiset().add(Multiset::<Rule<K, T, E, O>>::empty())
                =~= mid.to_multiset());
            lemma_all_wf_from_multiset(mid, self.rules@);
        }
    }

    /// Evaluates the ruleset against the provided query and returns every
    /// rule of the most specific matching tier, in ruleset order.
    ///
    /// The scan walks the weight-sorted rules and stops as soon as the weight
    /// drops below the weight of a rule already matched: later rules can tie
    /// with the first match but can never be more specific than it.
    pub fn evaluate_all<'a>(&'a self, query: &Query<K, T>) -> (matched: Vec<
        &'a Rule<K, T, E, O>,
    >)
        requires
            self.wf(),
            query.wf(),
            vstd::laws_eq::obeys_concrete_eq::<K>(),
        ensures
            derefs(matched@) == max_tier(self.rules@, *query),
    {
        let ghost q = *query;
        let mut matched: Vec<&Rule<K, T, E, O>> = Vec::new();
        let n = self.rules.len();
        let mut i: usize = 0;
        let mut stop = false;
        proof {
            assert(derefs(matched@) =~= max_tier(self.rules@.take(0), q)) by {
                lemma_matches_at_no_match_empty(
                    self.rules@.take(0),
                    q,
                    best_weight(self.rules@.take(0), q),
                );
            }
        }
        while i < n && !stop
            invariant
                n == self.rules@.len(),
                0 <= i <= n,
                self.wf(),
                query.wf(),
                q == *query,
                vstd::laws_eq::obeys_concrete_eq::<K>(),
                !stop ==> derefs(matched@) == max_tier(self.rules@.take(i as int), q),
                stop ==> derefs(matched@) == max_tier(self.rules@, q),
            decreases n - i + if stop {
                0int
            } else {
                1int
            },
        {
            let ghost prefix = self.rules@.take(i as int);
            proof {
                lemma_max_tier_correct(prefix, q);
                lemma_best_weight(prefix, q);
            }
            let rule = &self.rules[i];
            let proceed = if matched.len() == 0 {
                true
            } else {
                let first: &Rule<K, T, E, O> = matched[0];
                proof {
                    assert(derefs(matched@)[0] == *matched@[0]);
                }
                first.len() <= rule.len()
            };
            if proceed {
                let hit = rule.evaluate(query);
                proof {
                    let x = self.rules@[i as int];
                    assert(self.rules@.take(i + 1) =~= prefix.push(x));
                    lemma_max_tier_push(prefix, q, x);
                    let nw = best_weight(prefix.push(x), q);
                    if matched@.len() > 0 {
                        // The first matched rule realises the prefix's best
                        // weight, and the scanned rule cannot exceed it.
                        assert(derefs(matched@)[0] == *matched@[0]);
                        assert(max_tier(prefix, q)[0].weight() == best_weight(prefix, q));
                        let k = choose|k: int|
                            0 <= k < prefix.len() && prefix[k].spec_matches(q)
                                && prefix[k].weight() == best_weight(prefix, q);
                        assert(prefix[k] == self.rules@[k]);
                        assert(self.rules@[k].weight() >= x.weight());
                        assert(best_weight(prefix, q) <= x.weight());
                        assert(nw == best_weight(prefix, q));
                    } else {
                        assert(derefs(matched@).len() == 0);
                        assert(!some_rule_matches(prefix, q));
                        lemma_matches_at_no_match_empty(prefix, q, nw);
                        lemma_matches_at_no_match_empty(prefix, q, best_weight(prefix, q));
                    }
                    if hit {
                        assert(x.spec_matches(q));
                        assert(x.weight() == nw);
                        assert(max_tier(prefix.push(x), q) == matches_at(prefix, q, nw).push(x));
                        assert(matches_at(prefix, q, nw) =~= max_tier(prefix, q));
                        assert(derefs(matched@.push(rule)) =~= derefs(matched@).push(x));
                        assert(derefs(matched@.push(rule)) == max_tier(
                            self.rules@.take(i + 1),
                            q,
                        ));
                    } else {
                        assert(nw == best_weight(prefix, q));
                        assert(max_tier(prefix.push(x), q) == matches_at(prefix, q, nw));
                        assert(matches_at(prefix, q, nw) =~= max_tier(prefix, q));
                        assert(max_tier(self.rules@.take(i + 1), q) == max_tier(prefix, q));
                    }
                }
                if hit {
                    matched.push(rule);
                }
                i += 1;
            } else {
                proof {
                    assert(some_rule_matches(prefix, q)) by {
                        assert(max_tier(prefix, q).len() > 0);
                    }
                    assert(forall|j: int|
                        i <= j < self.rules@.len() ==> (#[trigger] self.rules@[j]).weight()
                            < best_weight(prefix, q)) by {
                        assert(max_tier(prefix, q)[0].weight() == best_weight(prefix, q));
                        assert(forall|j: int|
                            i <= j < self.rules@.len() ==> (#[trigger] self.rules@[j]).weight()
                                <= self.rules@[i as int].weight());
                    }
                    lemma_max_tier_ignores_lighter_tail(self.rules@, q, i as int);
                }
                stop = true;
            }
        }
        proof {
            if !stop {
                assert(self.rules@.take(n as int) =~= self.rules@);
            }
        }
        matched
    }

    /// Evaluates the ruleset against the provided query and returns one rule
    /// of the most specific matching tier, chosen uniformly at random, or
    /// `None` when no rule matches.
    pub fn evaluate<'a>(&'a self, query: &Query<K, T>) -> (r: Option<&'a Rule<K, T, E, O>>)
        requires
            self.wf(),
            query.wf(),
            vstd::laws_eq::obeys_concrete_eq::<K>(),
        ensures
            match r {
                Some(rule) => {
                    &&& max_tier(self.rules@, *query).contains(*rule)
                    &&& rule.spec_matches(*query)
                    &&& rule.weight() == best_weight(self.rules@, *query)
                },
                None => !some_rule_matches(self.rules@, *query),
            },
    {
        let matched = self.evaluate_all(query);
        proof {
            lemma_max_tier_correct(self.rules@, *query);
        }
        if matched.len() == 0 {
            None
        } else {
            let idx = random_index(matched.len());
            let rule: &Rule<K, T, E, O> = matched[idx];
            proof {
                let tier = max_tier(self.rules@, *query);
                assert(tier[idx as int] == *matched@[idx as int]);
                assert(tier.contains(tier[idx as int]));
            }
            Some(rule)
        }
    }
}

/// At a high level, a ruleset is a collection of [`Rule`]s with a strategy
/// for answering which rules to surface for a query. Each implementation
/// fixes its answer as the spec function `eval_spec`, and `evaluate` returns
/// exactly that.
pub trait RulesetTrait<K: Eq, T, E: Evaluator<T>, O>: Sized {
    /// Well-formedness of the ruleset's internal organisation; established by
    /// `new` and preserved by evaluation (which never mutates).
    spec fn wf(self) -> bool;

    /// The multiset of rules the ruleset stores.
    spec fn rules_multiset(self) -> Multiset<Rule<K, T, E, O>>;

    /// The exact sequence of rules that `evaluate` returns for `query`.
    spec fn eval_spec(self, query: Query<K, T>) -> Seq<Rule<K, T, E, O>>;

    /// Creates a new ruleset from the provided collection of rules.
    fn new(rules: Vec<Rule<K, T, E, O>>) -> (s: Self)
        requires
            forall|i: int| 0 <= i < rules@.len() ==> (#[trigger] rules@[i]).wf(),
        ensures
            s.wf(),
            s.rules_multiset() == rules@.to_multiset(),
    ;

    /// Evaluates the ruleset against the provided query.
    ///
    /// Depending on the implementation, this function may return every
    /// matching rule or only the rules of the most specific matching tier.
    fn evaluate<'a>(&'a self, query: &Query<K, T>) -> (matched: Vec<&'a Rule<K, T, E, O>>)
        requires
            self.wf(),
            query.wf(),
            vstd::laws_eq::obeys_concrete_eq::<K>(),
        ensures
            derefs(matched@) == self.eval_spec(*query),
    ;
}

/// A ruleset implementation that returns every rule that matches the query,
/// regardless of specificity: every rule is evaluated on every query.
pub struct SimpleRuleset<K, T, E, O> {
    /// The collection of rules that make up the ruleset, in insertion order.
    pub rules: Vec<Rule<K, T, E, O>>,
}

impl<K: Eq, T: Copy, E: Evaluator<T> + Copy, O> RulesetTrait<K, T, E, O> for SimpleRuleset<
    K,
    T,
    E,
    O,
> {
    /// Well-formed: each stored rule is well-formed.
    open spec fn wf(self) -> bool {
        forall|i: int| 0 <= i < self.rules@.len() ==> (#[trigger] self.rules@[i]).wf()
    }

    open spec fn rules_multiset(self) -> Multiset<Rule<K, T, E, O>> {
        self.rules@.to_multiset()
    }

    /// Every matching rule, in ruleset order, whatever its weight.
    open spec fn eval_spec(self, query: Query<K, T>) -> Seq<Rule<K, T, E, O>> {
        self.rules@.filter(|r: Rule<K, T, E, O>| r.spec_matches(query))
    }

    /// Creates a new ruleset keeping the provided rules as they are.
    fn new(rules: Vec<Rule<K, T, E, O>>) -> (s: Self)
        ensures
            s.rules@ == rules@,
    {
        SimpleRuleset { rules }
    }

    /// Evaluates every rule and returns all that match the provided query.
    fn evaluate<'a>(&'a self, query: &Query<K, T>) -> (matched: Vec<&'a Rule<K, T, E, O>>) {
        let ghost q = *query;
        let ghost pred = |r: Rule<K, T, E, O>| r.spec_matches(q);
        let mut matched: Vec<&Rule<K, T, E, O>> = Vec::new();
        let n = self.rules.len();
        let mut i: usize = 0;
        proof {
            assert(self.rules@.take(0).filter(pred) =~= Seq::<Rule<K, T, E, O>>::empty()) by {
                reveal(Seq::filter);
            }
            assert(derefs(matched@) =~= Seq::<Rule<K, T, E, O>>::empty());
        }
        while i < n
            invariant
                n == self.rules@.len(),
                0 <= i <= n,
                self.wf(),
                query.wf(),
                q == *query,
                pred == (|r: Rule<K, T, E, O>| r.spec_matches(q)),
                vstd::laws_eq::obeys_concrete_eq::<K>(),
                derefs(matched@) == self.rules@.take(i as int).filter(pred),
            decreases n - i,
        {
            let rule = &self.rules[i];
            let hit = rule.evaluate(query);
            proof {
                let x = self.rules@[i as int];
                assert(self.rules@.take(i + 1) =~= self.rules@.take(i as int).push(x));
                lemma_filter_push(self.rules@.take(i as int), x, pred);
                if hit {
                    assert(derefs(matched@.push(rule)) =~= derefs(matched@).push(x));
                }
            }
            if hit {
                matched.push(rule);
            }
            i += 1;
        }
        proof {
            assert(self.rules@.take(n as int) =~= self.rules@);
        }
        matched
    }
}

} // verus!
