use vstd::prelude::*;

verus! {

/// An `Evaluator<T>` is a predicate over a single fact value of type `T`.
///
/// In the context of Mímir, an evaluator checks whether the value of a fact
/// about the game's current state satisfies a certain condition. Rules store
/// one evaluator per required fact, and a rule matches a query only when every
/// stored evaluator accepts the corresponding fact value.
///
/// Implementations must be pure: `evaluate` returns exactly the value of the
/// mathematical predicate `spec_evaluate`, so two calls with equal arguments
/// always return the same result, and evaluation has no side effects (both
/// arguments are taken by value).
pub trait Evaluator<T>: Sized {
    /// The mathematical predicate this evaluator decides.
    spec fn spec_evaluate(self, value: T) -> bool;

    /// Decides whether `value` satisfies the predicate.
    fn evaluate(self, value: T) -> (r: bool)
        ensures
            r == self.spec_evaluate(value),
    ;
}

/// Law: evaluation is deterministic — two calls of [`Evaluator::evaluate`]
/// on equal arguments return equal results, since the result is pinned to
/// the mathematical predicate `spec_evaluate` of the arguments alone.
pub proof fn lemma_evaluate_deterministic<T, E: Evaluator<T>>(
    evaluator: E,
    value: T,
    r1: bool,
    r2: bool,
)
    requires
        call_ensures(E::evaluate, (evaluator, value), r1),
        call_ensures(E::evaluate, (evaluator, value), r2),
    ensures
        r1 == r2,
{
}

} // verus!
