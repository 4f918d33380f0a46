use vstd::prelude::*;

use crate::assoc::{
    distinct_keys, keys_of, lemma_map_of_dom, lemma_map_of_len, lookup, map_of, upsert,
};

verus! {

/// A `Query<K, T>` represents a collection of facts about the game's world,
/// mapped from a fact's unique identifier (`K`) to its current value (`T`).
///
/// Facts are kept in insertion order. Inserting a value for an identifier that
/// is already present overwrites the stored value but retains the fact's
/// position in the query.
///
/// The logic for obtaining an instance of `Query` is outside the scope of
/// Mímir: the surrounding game is expected to track world state itself.
pub struct Query<K, T> {
    /// The facts currently stored within the query, as (identifier, value)
    /// pairs with pairwise-distinct identifiers.
    pub facts: Vec<(K, T)>,
}

impl<K, T> View for Query<K, T> {
    type V = Map<K, T>;

    open spec fn view(&self) -> Map<K, T> {
        map_of(self.facts@)
    }
}

impl<K, T> Query<K, T> {
    /// Well-formed: no fact identifier occurs twice.
    pub open spec fn wf(self) -> bool {
        distinct_keys(self.facts@)
    }

    /// The fact identifiers, in insertion order.
    pub open spec fn spec_keys(self) -> Seq<K> {
        keys_of(self.facts@)
    }
}

impl<K: Eq, T: Copy> Query<K, T> {
    /// Instantiates an empty query.
    pub fn new() -> (q: Query<K, T>)
        ensures
            q.wf(),
            q@ == Map::<K, T>::empty(),
            q.facts@.len() == 0,
    {
        Query { facts: Vec::new() }
    }

    /// Instantiates an empty query whose storage is pre-allocated for
    /// `capacity` facts.
    pub fn with_capacity(capacity: usize) -> (q: Query<K, T>)
        ensures
            q.wf(),
            q@ == Map::<K, T>::empty(),
            q.facts@.len() == 0,
    {
        Query { facts: Vec::with_capacity(capacity) }
    }

    /// Inserts a new fact into the query (at the end of the query).
    ///
    /// If a fact already exists in the query with the same identifier, the
    /// value is overwritten, but the position of the fact in the query is
    /// retained.
    pub fn insert(&mut self, fact: K, value: T)
        requires
            old(self).wf(),
            vstd::laws_eq::obeys_concrete_eq::<K>(),
        ensures
            final (self).wf(),
            final (self)@ == old(self)@.insert(fact, value),
            final (self).spec_keys() == if old(self)@.contains_key(fact) {
                old(self).spec_keys()
            } else {
                old(self).spec_keys().push(fact)
            },
    {
        proof {
            lemma_map_of_dom(self.facts@, fact);
        }
        upsert(&mut self.facts, fact, value);
    }

    /// Returns the value stored for the fact `fact`, if present.
    pub fn get(&self, fact: &K) -> (r: Option<&T>)
        requires
            self.wf(),
            vstd::laws_eq::obeys_concrete_eq::<K>(),
        ensures
            match r {
                Some(v) => self@.contains_key(*fact) && *v == self@[*fact],
                None => !self@.contains_key(*fact),
            },
    {
        proof {
            lemma_map_of_dom(self.facts@, *fact);
        }
        lookup(&self.facts, fact)
    }

    /// The number of facts currently stored in the query.
    pub fn len(&self) -> (n: usize)
        requires
            self.wf(),
        ensures
            n == self@.dom().len(),
            n == self.facts@.len(),
    {
        proof {
            lemma_map_of_len(self.facts@);
        }
        self.facts.len()
    }

    /// Appends all facts from another query to this query; a fact of `query`
    /// wins over a stored fact with the same identifier.
    pub fn extend(&mut self, query: Query<K, T>)
        requires
            old(self).wf(),
            query.wf(),
            vstd::laws_eq::obeys_concrete_eq::<K>(),
        ensures
            final (self).wf(),
            final (self)@ == old(self)@.union_prefer_right(query@),
    {
        let Query { facts } = query;
        let mut facts = facts;
        let ghost all = facts@;
        let ghost done: int = 0;
        proof {
            assert(old(self)@.union_prefer_right(map_of(all.take(0))) =~= old(self)@);
        }
        while facts.len() > 0
            invariant
                self.wf(),
                distinct_keys(all),
                vstd::laws_eq::obeys_concrete_eq::<K>(),
                0 <= done <= all.len(),
                facts@ == all.skip(done),
                self@ == old(self)@.union_prefer_right(map_of(all.take(done))),
            decreases facts.len(),
        {
            let (fact, value) = facts.remove(0);
            proof {
                assert(all.skip(done)[0] == all[done]);
                assert(forall|i: int, j: int|
                    0 <= i < j < all.skip(done).len() ==> all.skip(done)[i].0 != all.skip(
                        done,
                    )[j].0);
            }
            self.insert(fact, value);
            proof {
                done = done + 1;
                assert(facts@ =~= all.skip(done));
                assert(all.take(done).drop_last() =~= all.take(done - 1));
                assert(map_of(all.take(done)) == map_of(all.take(done - 1)).insert(
                    all[done - 1].0,
                    all[done - 1].1,
                ));
                assert(self@ =~= old(self)@.union_prefer_right(map_of(all.take(done))));
            }
        }
        proof {
            assert(all.take(done) =~= all);
            assert(map_of(all) == query@);
        }
    }
}

impl<K: Eq, T: Copy> Default for Query<K, T> {
    /// The default query is empty.
    fn default() -> (q: Query<K, T>)
        ensures
            q.wf(),
            q@ == Map::<K, T>::empty(),
    {
        Query::new()
    }
}

} // verus!
