//! Combining the outcomes of concurrent branches: the first failure wins.

use vstd::prelude::*;

use crate::error::{outcome_view, Error, ErrorView};

verus! {

/// A slot that keeps the first failure recorded in it.
#[derive(Debug)]
pub struct FirstError {
    slot: Option<Error>,
}

/// The slot after `failure` was offered to it: a failure already held stays.
pub open spec fn keep_first(held: Option<ErrorView>, failure: ErrorView) -> Option<ErrorView> {
    match held {
        Some(first) => Some(first),
        None => Some(failure),
    }
}

/// The outcome a slot stands for.
pub open spec fn outcome_of(held: Option<ErrorView>) -> Result<(), ErrorView> {
    match held {
        Some(first) => Err(first),
        None => Ok(()),
    }
}

/// The slot after every failure among `outcomes[..n]` was offered to it in turn.
pub open spec fn first_failure(outcomes: Seq<Result<(), ErrorView>>, n: int) -> Option<ErrorView>
    decreases n,
{
    if n <= 0 || n > outcomes.len() {
        None
    } else {
        match outcomes[n - 1] {
            Err(e) => keep_first(first_failure(outcomes, n - 1), e),
            Ok(()) => first_failure(outcomes, n - 1),
        }
    }
}

/// The outcomes held by `outcomes`, each as its value.
pub open spec fn outcomes_view(outcomes: Seq<Result<(), Error>>) -> Seq<Result<(), ErrorView>> {
    Seq::new(outcomes.len(), |i: int| outcome_view(outcomes[i]))
}

impl View for FirstError {
    type V = Option<ErrorView>;

    closed spec fn view(&self) -> Option<ErrorView> {
        match self.slot {
            Some(e) => Some(e@),
            None => None,
        }
    }
}

impl FirstError {
    /// An empty slot.
    pub fn new() -> (r: Self)
        ensures
            r@ is None,
    {
        FirstError { slot: None }
    }

    /// Whether a failure has been recorded.
    pub fn is_set(&self) -> (r: bool)
        ensures
            r == (self@ is Some),
    {
        self.slot.is_some()
    }

    /// Offers a failure to the slot. It is kept only if the slot was empty.
    pub fn record(&mut self, failure: Error)
        ensures
            final(self)@ == keep_first(old(self)@, failure@),
    {
        if self.slot.is_none() {
            self.slot = Some(failure);
        }
    }

    /// Empties the slot and hands out what it held.
    pub fn take(&mut self) -> (r: Option<Error>)
        ensures
            final(self)@ is None,
            r is Some == old(self)@ is Some,
            r matches Some(e) ==> old(self)@ == Some(e@),
    {
        self.slot.take()
    }

    /// The outcome the slot stands for: success where nothing was recorded,
    /// the first recorded failure otherwise.
    pub fn outcome(self) -> (r: Result<(), Error>)
        ensures
            outcome_view(r) == outcome_of(self@),
    {
        match self.slot {
            Some(e) => Err(e),
            None => Ok(()),
        }
    }
}

/// Combines the outcomes of a directory's branches into one: success where
/// every branch succeeded, otherwise the failure of the first branch that
/// failed.
pub fn combine(outcomes: Vec<Result<(), Error>>) -> (r: Result<(), Error>)
    ensures
        outcome_view(r) == outcome_of(
            first_failure(outcomes_view(outcomes@), outcomes.len() as int),
        ),
{
    let mut slot = FirstError::new();
    let ghost all = outcomes_view(outcomes@);
    let ghost total = outcomes.len() as int;
    for outcome in iter: outcomes
        invariant
            iter.seq().len() == total,
            all == outcomes_view(iter.seq()),
            slot@ == first_failure(all, iter.index() as int),
    {
        assert(all[iter.index() as int] == outcome_view(outcome));
        match outcome {
            Err(e) => slot.record(e),
            Ok(()) => {},
        }
    }
    slot.outcome()
}

/// The combined outcome is a success exactly when every branch succeeded.
pub proof fn lemma_success_needs_all(outcomes: Seq<Result<(), ErrorView>>, n: int)
    requires
        0 <= n <= outcomes.len(),
    ensures
        first_failure(outcomes, n) is None <==> forall|i: int| 0 <= i < n ==> outcomes[i] is Ok,
    decreases n,
{
    if n > 0 {
        lemma_success_needs_all(outcomes, n - 1);
        if forall|i: int| 0 <= i < n ==> outcomes[i] is Ok {
            assert(forall|i: int| 0 <= i < n - 1 ==> outcomes[i] is Ok);
        }
    }
}

/// A combined failure is the failure of one of the branches: the earliest
/// branch that failed.
pub proof fn lemma_failure_is_first(outcomes: Seq<Result<(), ErrorView>>, n: int)
    requires
        0 <= n <= outcomes.len(),
        first_failure(outcomes, n) is Some,
    ensures
        exists|i: int|
            0 <= i < n && #[trigger] outcomes[i] == Err::<(), ErrorView>(
                first_failure(outcomes, n)->0,
            ) && forall|j: int| 0 <= j < i ==> outcomes[j] is Ok,
    decreases n,
{
    if n > 0 {
        if first_failure(outcomes, n - 1) is Some {
            lemma_failure_is_first(outcomes, n - 1);
        } else {
            lemma_success_needs_all(outcomes, n - 1);
            assert(outcomes[n - 1] == Err::<(), ErrorView>(first_failure(outcomes, n)->0));
        }
    }
}

} // verus!
