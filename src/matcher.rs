//! Dispatch of query matches to rules, and a decorator that observes it.
use vstd::prelude::*;

use crate::queue::{SignalEntry, SignalQueue};

verus! {

/// The stages of an analysis, run in this order.
#[derive(Copy, Clone, Debug, PartialEq, Eq, Structural)]
pub enum Phases {
    /// Rules that need the syntax tree alone.
    Syntax,
    /// Rules that need the semantic model as well.
    Semantic,
}

/// One query match handed to a matcher: the phase it was found in and the
/// match itself.
pub struct MatchQueryParams<'q, Q> {
    pub phase: Phases,
    pub file_id: u32,
    pub query: &'q Q,
}

/// Runs rules on query matches and queues the signals they produce.
pub trait QueryMatcher<Q, S> {
    /// The signals that matching `query` in `phase` produces, in the order
    /// they are queued.
    spec fn emits(&self, phase: Phases, query: Q) -> Seq<SignalEntry<S>>;

    /// Runs every interested rule on one query match.
    fn match_query(&mut self, params: &MatchQueryParams<Q>, queue: &mut SignalQueue<S>)
        ensures
            final(queue)@ == old(queue)@ + old(self).emits(params.phase, *params.query),
            // what a matcher queues for a match does not change from call to call
            forall|p: Phases, q: Q| #[trigger] final(self).emits(p, q) == old(self).emits(p, q),
    ;
}

/// Observes each query match before it is matched.
pub trait Inspect<Q> {
    /// The query matches seen so far, with their phases, in order.
    spec fn inspected(&self) -> Seq<(Phases, Q)>;

    fn inspect(&mut self, params: &MatchQueryParams<Q>)
        ensures
            final(self).inspected() == old(self).inspected().push((params.phase, *params.query)),
    ;
}

/// Wraps a matcher with an inspection function that sees every query match
/// before the inner matcher does.
pub struct InspectMatcher<F, I> {
    func: F,
    inner: I,
}

impl<F, I> InspectMatcher<F, I> {
    pub closed spec fn inner_spec(&self) -> I {
        self.inner
    }

    pub closed spec fn func_spec(&self) -> F {
        self.func
    }

    /// Wraps `inner`, calling `func` on every query match first.
    pub fn new(inner: I, func: F) -> (r: InspectMatcher<F, I>)
        ensures
            r.inner_spec() == inner,
            r.func_spec() == func,
    {
        InspectMatcher { func, inner }
    }
}

impl<Q, S, F: Inspect<Q>, I: QueryMatcher<Q, S>> QueryMatcher<Q, S> for InspectMatcher<F, I> {
    closed spec fn emits(&self, phase: Phases, query: Q) -> Seq<SignalEntry<S>> {
        self.inner.emits(phase, query)
    }

    fn match_query(&mut self, params: &MatchQueryParams<Q>, queue: &mut SignalQueue<S>)
        ensures
            final(self).func_spec().inspected() == old(self).func_spec().inspected().push((params.phase, *params.query)),
            final(queue)@ == old(queue)@ + old(self).inner_spec().emits(params.phase, *params.query),
    {
        self.func.inspect(params);
        self.inner.match_query(params, queue);
    }
}

/// Wrapping a matcher leaves what it queues unchanged: the same signals, in
/// the same order.
pub proof fn lemma_inspect_transparent<Q, S, F: Inspect<Q>, I: QueryMatcher<Q, S>>(
    m: InspectMatcher<F, I>,
    phase: Phases,
    query: Q,
)
    ensures
        m.emits(phase, query) == m.inner_spec().emits(phase, query),
{
}

} // verus!
