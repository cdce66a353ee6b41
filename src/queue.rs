//! The queue of pending signals, drained in ascending order of range start.
use vstd::prelude::*;

use crate::keys::RuleKey;
use crate::text::TextRange;

verus! {

/// A pending signal: what a rule produced, the rule, and the range it covers.
pub struct SignalEntry<S> {
    /// What is handed to the sink when the signal is emitted.
    pub signal: S,
    /// The rule that produced this signal.
    pub rule: RuleKey,
    /// The range of the document this signal covers.
    pub text_range: TextRange,
}

/// Whether `k` is the first position holding the smallest range start of `s`.
pub open spec fn is_first_min<S>(s: Seq<SignalEntry<S>>, k: int) -> bool {
    &&& 0 <= k < s.len()
    &&& forall|j: int| 0 <= j < s.len() ==> s[k].text_range.start <= #[trigger] s[j].text_range.start
    &&& forall|j: int| 0 <= j < k ==> s[k].text_range.start < #[trigger] s[j].text_range.start
}

/// Whether every signal of `s` starts at `start` or later.
pub open spec fn all_start_at_or_after<S>(s: Seq<SignalEntry<S>>, start: u32) -> bool {
    forall|j: int| 0 <= j < s.len() ==> start <= #[trigger] s[j].text_range.start
}

/// A min-priority queue of signals keyed by range start. Among signals that
/// start at the same offset, the one pushed first leaves first.
pub struct SignalQueue<S> {
    entries: Vec<SignalEntry<S>>,
}

impl<S> View for SignalQueue<S> {
    type V = Seq<SignalEntry<S>>;

    /// The pending signals in the order they were pushed.
    closed spec fn view(&self) -> Seq<SignalEntry<S>> {
        self.entries@
    }
}

impl<S> SignalQueue<S> {
    pub fn new() -> (r: SignalQueue<S>)
        ensures
            r@ == Seq::<SignalEntry<S>>::empty(),
    {
        SignalQueue { entries: Vec::new() }
    }

    pub fn len(&self) -> (r: usize)
        ensures
            r == self@.len(),
    {
        self.entries.len()
    }

    pub fn is_empty(&self) -> (r: bool)
        ensures
            r == (self@.len() == 0),
    {
        self.entries.len() == 0
    }

    pub fn push(&mut self, entry: SignalEntry<S>)
        ensures
            final(self)@ == old(self)@.push(entry),
    {
        self.entries.push(entry);
    }

    /// The position of the signal that leaves next.
    fn first_min(&self) -> (k: usize)
        requires
            self@.len() > 0,
        ensures
            is_first_min(self@, k as int),
    {
        let mut k: usize = 0;
        let mut i: usize = 1;
        while i < self.entries.len()
            invariant
                1 <= i <= self.entries@.len(),
                0 <= k < i,
                forall|j: int| 0 <= j < i ==> self.entries@[k as int].text_range.start <= #[trigger] self.entries@[j].text_range.start,
                forall|j: int| 0 <= j < k ==> self.entries@[k as int].text_range.start < #[trigger] self.entries@[j].text_range.start,
            decreases self.entries@.len() - i,
        {
            if self.entries[i].text_range.start < self.entries[k].text_range.start {
                k = i;
            }
            i = i + 1;
        }
        k
    }

    /// The range start of the signal that leaves next, if any.
    pub fn peek_start(&self) -> (r: Option<u32>)
        ensures
            r is None <==> self@.len() == 0,
            r matches Some(start) ==> exists|k: int| is_first_min(self@, k) && self@[k].text_range.start == start,
    {
        if self.entries.len() == 0 {
            None
        } else {
            let k = self.first_min();
            Some(self.entries[k].text_range.start)
        }
    }

    /// Removes and returns the signal with the smallest range start, the
    /// earliest pushed among equals.
    pub fn pop(&mut self) -> (r: Option<SignalEntry<S>>)
        ensures
            r is None <==> old(self)@.len() == 0,
            r is None ==> final(self)@ == old(self)@,
            r matches Some(e) ==> exists|k: int|
                is_first_min(old(self)@, k) && e == old(self)@[k] && final(self)@ == old(self)@.remove(k),
    {
        if self.entries.len() == 0 {
            None
        } else {
            let k = self.first_min();
            let e = self.entries.remove(k);
            Some(e)
        }
    }
}

/// Signals leave in ascending order of range start: what is left after a pop
/// starts no earlier than the signal that was popped.
pub proof fn lemma_pop_is_min<S>(s: Seq<SignalEntry<S>>, k: int)
    requires
        is_first_min(s, k),
    ensures
        all_start_at_or_after(s.remove(k), s[k].text_range.start),
{
    assert forall|j: int| 0 <= j < s.remove(k).len() implies s[k].text_range.start <= #[trigger] s.remove(k)[j].text_range.start by {
        if j < k {
            assert(s.remove(k)[j] == s[j]);
        } else {
            assert(s.remove(k)[j] == s[j + 1]);
        }
    }
}

/// The first smallest position of a sequence is unique, so the contract of
/// `pop` fixes which signal leaves.
pub proof fn lemma_first_min_unique<S>(s: Seq<SignalEntry<S>>, k1: int, k2: int)
    requires
        is_first_min(s, k1),
        is_first_min(s, k2),
    ensures
        k1 == k2,
{
    if k1 < k2 {
        assert(s[k2].text_range.start < s[k1].text_range.start);
    } else if k2 < k1 {
        assert(s[k1].text_range.start < s[k2].text_range.start);
    }
}

/// A nonempty sequence has a first smallest position.
pub proof fn lemma_first_min_exists<S>(s: Seq<SignalEntry<S>>)
    requires
        s.len() > 0,
    ensures
        exists|k: int| is_first_min(s, k),
    decreases s.len(),
{
    if s.len() == 1 {
        assert(is_first_min(s, 0));
    } else {
        lemma_first_min_exists(s.drop_last());
        let k0 = choose|k: int| is_first_min(s.drop_last(), k);
        assert(s.drop_last()[k0] == s[k0]);
        if s.last().text_range.start < s[k0].text_range.start {
            assert forall|j: int| 0 <= j < s.len() implies s[s.len() - 1].text_range.start <= #[trigger] s[j].text_range.start by {
                if j < s.len() - 1 {
                    assert(s.drop_last()[j] == s[j]);
                }
            }
            assert forall|j: int| 0 <= j < s.len() - 1 implies s[s.len() - 1].text_range.start < #[trigger] s[j].text_range.start by {
                assert(s.drop_last()[j] == s[j]);
            }
            assert(is_first_min(s, s.len() - 1));
        } else {
            assert forall|j: int| 0 <= j < s.len() implies s[k0].text_range.start <= #[trigger] s[j].text_range.start by {
                if j < s.len() - 1 {
                    assert(s.drop_last()[j] == s[j]);
                }
            }
            assert forall|j: int| 0 <= j < k0 implies s[k0].text_range.start < #[trigger] s[j].text_range.start by {
                assert(s.drop_last()[j] == s[j]);
            }
            assert(is_first_min(s, k0));
        }
    }
}

/// The position of the signal that leaves a queue holding `s` next.
pub open spec fn first_min_index<S>(s: Seq<SignalEntry<S>>) -> int {
    choose|k: int| is_first_min(s, k)
}

/// The order in which the signals of `s` leave the queue.
pub open spec fn drain_order<S>(s: Seq<SignalEntry<S>>) -> Seq<SignalEntry<S>>
    decreases s.len(),
{
    let k = first_min_index(s);
    if s.len() > 0 && 0 <= k < s.len() {
        seq![s[k]] + drain_order(s.remove(k))
    } else {
        Seq::empty()
    }
}

/// A pop takes the first signal of the drain order.
pub proof fn lemma_pop_drain_order<S>(s: Seq<SignalEntry<S>>, k: int)
    requires
        is_first_min(s, k),
    ensures
        drain_order(s) == seq![s[k]] + drain_order(s.remove(k)),
{
    lemma_first_min_exists(s);
    lemma_first_min_unique(s, k, first_min_index(s));
}

} // verus!
