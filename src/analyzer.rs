//! The drain loop: signals leave the queues in ascending order of range
//! start, suppressed ones are dropped, and the rest go to a sink that may
//! stop the run. Comments that silenced nothing are reported last.
use vstd::prelude::*;
use core::ops::ControlFlow;
use vstd::multiset::Multiset;
use vstd::string::StringSliceAdditionalSpecFns;

use crate::keys::{RuleFilter, RuleKey};
use crate::matcher::{Inspect, InspectMatcher, MatchQueryParams, Phases, QueryMatcher};
use crate::registry::MetadataRegistry;
use crate::queue::{all_start_at_or_after, drain_order, is_first_min, lemma_pop_drain_order, lemma_pop_is_min, SignalEntry, SignalQueue};
use crate::suppression::{diagnostic_view, unknown_diagnostics, unknown_of, lemma_same_shape_covers, lemma_same_shape_suppresses, same_shape, SuppressionDiagnostic, SuppressionResolver};
use crate::text::TextRange;

verus! {

broadcast use vstd::seq_lib::group_to_multiset_ensures;

/// What the sink is handed: a rule's signal, or a diagnostic of the
/// suppression machinery.
pub enum Emitted<S> {
    Rule(SignalEntry<S>),
    Suppression(SuppressionDiagnostic, TextRange),
}

/// The consumer of emitted signals. It answers each one with `Continue`, or
/// with `Break` to stop the run with a result.
pub trait SignalSink<S, B> {
    /// The calls of the sink so far, in order: what each was handed, and
    /// what the sink answered.
    spec fn received(&self) -> Seq<Emission<B>>;

    fn emit(&mut self, signal: &Emitted<S>) -> (r: ControlFlow<B>)
        ensures
            final(self).received() == old(self).received().push(record_of(*signal, r)),
    ;
}

/// The record of handing `signal` to the sink, which answered `answer`.
pub open spec fn record_of<S, B>(signal: Emitted<S>, answer: ControlFlow<B>) -> Emission<B> {
    match signal {
        Emitted::Rule(e) => Emission { range: e.text_range, rule: Some(e.rule), kind: None, answer },
        Emitted::Suppression(d, r) => Emission { range: r, rule: None, kind: Some(d), answer },
    }
}

/// Whether every signal of `s` starts strictly after `start`.
pub open spec fn all_start_after<T>(s: Seq<SignalEntry<T>>, start: u32) -> bool {
    forall|j: int| 0 <= j < s.len() ==> start < #[trigger] s[j].text_range.start
}

/// Whether, among records that start at the same offset, no rule's signal
/// comes before a diagnostic of the suppression machinery.
pub open spec fn diagnostics_first<B>(s: Seq<Emission<B>>) -> bool {
    forall|i: int, j: int| 0 <= i < j < s.len() && (#[trigger] s[i]).rule is Some && (#[trigger] s[j]).kind is Some
        ==> s[i].range.start < s[j].range.start
}

proof fn lemma_remove_keeps_after<T>(q: Seq<SignalEntry<T>>, k: int, start: u32)
    requires
        0 <= k < q.len(),
        all_start_after(q, start),
    ensures
        all_start_after(q.remove(k), start),
{
    assert forall|j: int| 0 <= j < q.remove(k).len() implies start < #[trigger] q.remove(k)[j].text_range.start by {
        if j < k {
            assert(q.remove(k)[j] == q[j]);
        } else {
            assert(q.remove(k)[j] == q[j + 1]);
        }
    }
}

/// A record of one call of the sink.
pub struct Emission<B> {
    pub range: TextRange,
    /// The rule of the signal, for a rule's signal.
    pub rule: Option<RuleKey>,
    /// The kind of the diagnostic, for a diagnostic of the suppression machinery.
    pub kind: Option<SuppressionDiagnostic>,
    /// What the sink answered.
    pub answer: ControlFlow<B>,
}

/// The ranges of a sequence of signals.
pub open spec fn ranges_of<T>(s: Seq<SignalEntry<T>>) -> Seq<TextRange> {
    s.map_values(|e: SignalEntry<T>| e.text_range)
}

/// The rule and range of each signal of a sequence.
pub open spec fn keys_of<T>(s: Seq<SignalEntry<T>>) -> Seq<(RuleKey, TextRange)> {
    s.map_values(|e: SignalEntry<T>| (e.rule, e.text_range))
}

/// Whether the records are in non-decreasing order of range start.
pub open spec fn sorted_by_start<B>(s: Seq<Emission<B>>) -> bool {
    forall|i: int, j: int| 0 <= i < j < s.len() ==> (#[trigger] s[i]).range.start <= (#[trigger] s[j]).range.start
}

/// Whether no record but possibly the last one stopped the run.
pub open spec fn stops_only_last<B>(s: Seq<Emission<B>>) -> bool {
    forall|i: int| 0 <= i < s.len() - 1 ==> !((#[trigger] s[i]).answer is Break)
}

/// Whether every record starts no later than `start`.
pub open spec fn all_start_at_or_before<B>(s: Seq<Emission<B>>, start: u32) -> bool {
    forall|i: int| 0 <= i < s.len() ==> (#[trigger] s[i]).range.start <= start
}

/// The rule and range of each record of a rule's signal.
pub open spec fn rule_records<B>(log: Seq<Emission<B>>) -> Multiset<(RuleKey, TextRange)>
    decreases log.len(),
{
    if log.len() == 0 {
        Multiset::empty()
    } else {
        let rest = rule_records(log.drop_last());
        match log.last().rule {
            Some(k) => rest.insert((k, log.last().range)),
            None => rest,
        }
    }
}

/// The kind and range of each record of a suppression diagnostic.
pub open spec fn diagnostic_records<B>(log: Seq<Emission<B>>) -> Multiset<(SuppressionDiagnostic, TextRange)>
    decreases log.len(),
{
    if log.len() == 0 {
        Multiset::empty()
    } else {
        let rest = diagnostic_records(log.drop_last());
        match log.last().kind {
            Some(d) => rest.insert((d, log.last().range)),
            None => rest,
        }
    }
}

/// The rule and range of each record of a rule's signal, in order.
pub open spec fn rule_seq<B>(log: Seq<Emission<B>>) -> Seq<(RuleKey, TextRange)>
    decreases log.len(),
{
    if log.len() == 0 {
        Seq::empty()
    } else {
        let rest = rule_seq(log.drop_last());
        match log.last().rule {
            Some(k) => rest.push((k, log.last().range)),
            None => rest,
        }
    }
}

/// The kind and range of each record of a suppression diagnostic, in order.
pub open spec fn diagnostic_seq<B>(log: Seq<Emission<B>>) -> Seq<(SuppressionDiagnostic, TextRange)>
    decreases log.len(),
{
    if log.len() == 0 {
        Seq::empty()
    } else {
        let rest = diagnostic_seq(log.drop_last());
        match log.last().kind {
            Some(d) => rest.push((d, log.last().range)),
            None => rest,
        }
    }
}

/// The rule and range of each signal of `s` that `res` does not silence, in order.
pub open spec fn kept_seq<S>(res: SuppressionResolver, s: Seq<SignalEntry<S>>) -> Seq<(RuleKey, TextRange)>
    decreases s.len(),
{
    if s.len() == 0 {
        Seq::empty()
    } else {
        let head = if res.spec_is_suppressed(s[0].rule, s[0].text_range) {
            Seq::empty()
        } else {
            seq![(s[0].rule, s[0].text_range)]
        };
        head + kept_seq(res, s.drop_first())
    }
}

/// The rule and range of each signal of `s` that `res` does not silence.
pub open spec fn kept<S>(res: SuppressionResolver, s: Seq<SignalEntry<S>>) -> Multiset<(RuleKey, TextRange)>
    decreases s.len(),
{
    if s.len() == 0 {
        Multiset::empty()
    } else {
        let rest = kept(res, s.drop_last());
        if res.spec_is_suppressed(s.last().rule, s.last().text_range) {
            rest
        } else {
            rest.insert((s.last().rule, s.last().text_range))
        }
    }
}

proof fn lemma_kept_remove<S>(res: SuppressionResolver, s: Seq<SignalEntry<S>>, k: int)
    requires
        0 <= k < s.len(),
    ensures
        kept(res, s) == if res.spec_is_suppressed(s[k].rule, s[k].text_range) {
            kept(res, s.remove(k))
        } else {
            kept(res, s.remove(k)).insert((s[k].rule, s[k].text_range))
        },
    decreases s.len(),
{
    if k == s.len() - 1 {
        assert(s.remove(k) =~= s.drop_last());
    } else {
        assert(s.remove(k).drop_last() =~= s.drop_last().remove(k));
        assert(s.remove(k).last() == s.last());
        lemma_kept_remove(res, s.drop_last(), k);
        assert(s.drop_last()[k] == s[k]);
        let a = kept(res, s.drop_last().remove(k));
        let x = (s[k].rule, s[k].text_range);
        let y = (s.last().rule, s.last().text_range);
        assert(a.insert(x).insert(y) =~= a.insert(y).insert(x));
    }
}

/// The pending signals of a run, its suppression comments, and a record of
/// what was handed to the sink.
pub struct Drain<S, B> {
    resolver: SuppressionResolver,
    signals: SignalQueue<S>,
    diagnostics: SignalQueue<SuppressionDiagnostic>,
    emitted: Ghost<Seq<Emission<B>>>,
    unused: Ghost<Seq<Emission<B>>>,
    drained: Ghost<Seq<(RuleKey, TextRange)>>,
}

impl<S, B> Drain<S, B> {
    pub closed spec fn resolver(&self) -> SuppressionResolver {
        self.resolver
    }

    /// The rule signals waiting to be drained.
    pub closed spec fn signals(&self) -> Seq<SignalEntry<S>> {
        self.signals@
    }

    /// The diagnostics of unknown targets waiting to be drained.
    pub closed spec fn diagnostics(&self) -> Seq<SignalEntry<SuppressionDiagnostic>> {
        self.diagnostics@
    }

    /// The calls of the sink for signals and for unknown targets, in order.
    pub closed spec fn emitted(&self) -> Seq<Emission<B>> {
        self.emitted@
    }

    /// The calls of the sink for unused comments, in order; they all come
    /// after those of `emitted`.
    pub closed spec fn unused(&self) -> Seq<Emission<B>> {
        self.unused@
    }

    /// The rule and range of each rule signal taken from the queue, silenced
    /// or not, in order.
    pub closed spec fn drained(&self) -> Seq<(RuleKey, TextRange)> {
        self.drained@
    }

    /// The signals and diagnostics still waiting to be drained.
    pub open spec fn pending(&self) -> nat {
        self.signals().len() + self.diagnostics().len()
    }

    pub open spec fn wf(&self) -> bool {
        self.resolver().wf()
    }

    /// A run over the `signals` that matchers queued, the `diagnostics` that
    /// resolving the comments of `resolver` produced, and those comments.
    pub fn new(
        resolver: SuppressionResolver,
        signals: SignalQueue<S>,
        diagnostics: SignalQueue<SuppressionDiagnostic>,
    ) -> (r: Drain<S, B>)
        requires
            resolver.wf(),
        ensures
            r.wf(),
            r.resolver() == resolver,
            r.signals() == signals@,
            r.diagnostics() == diagnostics@,
            r.emitted() == Seq::<Emission<B>>::empty(),
            r.unused() == Seq::<Emission<B>>::empty(),
            r.drained() == Seq::<(RuleKey, TextRange)>::empty(),
    {
        Drain {
            resolver,
            signals,
            diagnostics,
            emitted: Ghost(Seq::empty()),
            unused: Ghost(Seq::empty()),
            drained: Ghost(Seq::empty()),
        }
    }

    /// Hands every pending signal that no comment silences to `sink`, in
    /// ascending order of range start, then reports each comment that
    /// silenced nothing. Stops as soon as the sink does, with its result.
    ///
    /// Where a rule's signal and a diagnostic of an unknown target start at
    /// the same offset, the diagnostic goes first; among signals of one kind,
    /// the one queued first goes first.
    pub fn run<K: SignalSink<S, B>>(&mut self, sink: &mut K) -> (r: Option<B>)
        requires
            old(self).wf(),
            old(self).emitted() == Seq::<Emission<B>>::empty(),
            old(self).unused() == Seq::<Emission<B>>::empty(),
            old(self).drained() == Seq::<(RuleKey, TextRange)>::empty(),
        ensures
            final(self).wf(),
            same_shape(final(self).resolver(), old(self).resolver()),
            // the sink is handed exactly what the records say, in that order
            final(sink).received() == old(sink).received() + final(self).emitted() + final(self).unused(),
            // the records of rule signals are those of the signals taken from
            // the queue that no comment silences; the others are the
            // diagnostics taken from their queue
            rule_records(final(self).emitted()).add(kept(old(self).resolver(), final(self).signals()))
                == kept(old(self).resolver(), old(self).signals()),
            diagnostic_records(final(self).emitted()).add(diagnostic_view(final(self).diagnostics()).to_multiset())
                == diagnostic_view(old(self).diagnostics()).to_multiset(),
            forall|i: int| 0 <= i < final(self).emitted().len() ==>
                ((#[trigger] final(self).emitted()[i]).rule is Some <==> final(self).emitted()[i].kind is None),
            forall|i: int| 0 <= i < final(self).emitted().len() ==> ((#[trigger] final(self).emitted()[i]).rule is Some
                ==> !old(self).resolver().spec_is_suppressed(final(self).emitted()[i].rule->0, final(self).emitted()[i].range)),
            // in order: the rule signals in the order they leave their queue,
            // less the silenced ones, and the diagnostics in theirs
            rule_seq(final(self).emitted()) + kept_seq(old(self).resolver(), drain_order(final(self).signals()))
                == kept_seq(old(self).resolver(), drain_order(old(self).signals())),
            diagnostic_seq(final(self).emitted()) + diagnostic_view(drain_order(final(self).diagnostics()))
                == diagnostic_view(drain_order(old(self).diagnostics())),
            // what was taken from the queue, and what each comment consumed
            final(self).drained().to_multiset().add(keys_of(final(self).signals()).to_multiset())
                == keys_of(old(self).signals()).to_multiset(),
            forall|j: int| 0 <= j < old(self).resolver().targets().len() ==>
                (#[trigger] final(self).resolver().targets()[j]).consumed == (old(self).resolver().targets()[j].consumed
                    || exists|i: int| 0 <= i < final(self).drained().len()
                        && old(self).resolver().covers(j, (#[trigger] final(self).drained()[i]).0, final(self).drained()[i].1)),
            // order: what is emitted is sorted, and nothing left waiting starts earlier
            sorted_by_start(final(self).emitted()),
            sorted_by_start(final(self).unused()),
            diagnostics_first(final(self).emitted()),
            final(self).emitted().len() > 0 ==> all_start_at_or_after(final(self).signals(), final(self).emitted().last().range.start)
                && all_start_at_or_after(final(self).diagnostics(), final(self).emitted().last().range.start),
            // stopping
            stops_only_last(final(self).emitted()),
            stops_only_last(final(self).unused()),
            final(self).unused().len() > 0 ==> forall|i: int| 0 <= i < final(self).emitted().len()
                ==> !((#[trigger] final(self).emitted()[i]).answer is Break),
            r is None || final(self).unused().len() > 0 ==> final(self).pending() == 0,
            r is Some <==> (final(self).unused().len() == 0 && final(self).emitted().len() > 0 && final(self).emitted().last().answer is Break)
                || (final(self).unused().len() > 0 && final(self).unused().last().answer is Break),
            r matches Some(b) ==> if final(self).unused().len() > 0 {
                final(self).unused().last().answer == ControlFlow::<B, ()>::Break(b)
            } else {
                final(self).emitted().last().answer == ControlFlow::<B, ()>::Break(b)
            },
            // unused comments
            forall|i: int| 0 <= i < final(self).unused().len() ==> (#[trigger] final(self).unused()[i]).rule is None
                && final(self).unused()[i].kind == Some(SuppressionDiagnostic::Unused),
            r is None ==> final(self).unused().map_values(|e: Emission<B>| e.range).to_multiset()
                == final(self).resolver().unused_ranges(final(self).resolver().entries().len() as int).to_multiset(),
    {
        let ghost r0 = self.resolver;
        let ghost q0 = self.signals@;
        let ghost d0 = self.diagnostics@;
        let ghost mut last: u32 = 0;
        while !(self.signals.is_empty() && self.diagnostics.is_empty())
            invariant
                self.resolver.wf(),
                r0 == old(self).resolver(),
                q0 == old(self).signals(),
                d0 == old(self).diagnostics(),
                same_shape(self.resolver, r0),
                self.unused@ == Seq::<Emission<B>>::empty(),
                all_start_at_or_after(self.signals@, last),
                all_start_at_or_after(self.diagnostics@, last),
                all_start_at_or_before(self.emitted@, last),
                sorted_by_start(self.emitted@),
                sink.received() == old(sink).received() + self.emitted@,
                rule_seq(self.emitted@) + kept_seq(r0, drain_order(self.signals@)) == kept_seq(r0, drain_order(q0)),
                diagnostic_seq(self.emitted@) + diagnostic_view(drain_order(self.diagnostics@)) == diagnostic_view(drain_order(d0)),
                diagnostics_first(self.emitted@),
                forall|i: int| 0 <= i < self.emitted@.len() && (#[trigger] self.emitted@[i]).rule is Some
                    ==> all_start_after(self.diagnostics@, self.emitted@[i].range.start),
                forall|i: int| 0 <= i < self.emitted@.len() ==> !((#[trigger] self.emitted@[i]).answer is Break),
                forall|i: int| 0 <= i < self.emitted@.len() ==>
                    ((#[trigger] self.emitted@[i]).rule is Some <==> self.emitted@[i].kind is None),
                forall|i: int| 0 <= i < self.emitted@.len() ==> ((#[trigger] self.emitted@[i]).rule is Some
                    ==> !r0.spec_is_suppressed(self.emitted@[i].rule->0, self.emitted@[i].range)),
                rule_records(self.emitted@).add(kept(r0, self.signals@)) == kept(r0, q0),
                diagnostic_records(self.emitted@).add(diagnostic_view(self.diagnostics@).to_multiset())
                    == diagnostic_view(d0).to_multiset(),
                self.drained@.to_multiset().add(keys_of(self.signals@).to_multiset()) == keys_of(q0).to_multiset(),
                forall|j: int| 0 <= j < r0.targets().len() ==>
                    (#[trigger] self.resolver.targets()[j]).consumed == (r0.targets()[j].consumed
                        || exists|i: int| 0 <= i < self.drained@.len()
                            && r0.covers(j, (#[trigger] self.drained@[i]).0, self.drained@[i].1)),
            decreases self.signals@.len() + self.diagnostics@.len(),
        {
            let a = self.signals.peek_start();
            let b = self.diagnostics.peek_start();
            let take_diagnostic = match (a, b) {
                (Some(x), Some(y)) => y <= x,
                (None, _) => true,
                (Some(_), None) => false,
            };
            if take_diagnostic {
                let ghost q = self.diagnostics@;
                let e = self.diagnostics.pop().unwrap();
                let ghost k = choose|k: int| is_first_min(q, k) && e == q[k] && self.diagnostics@ == q.remove(k);
                proof {
                    lemma_pop_is_min(q, k);
                    assert(diagnostic_view(self.diagnostics@) =~= diagnostic_view(q).remove(k));
                }
                let range = e.text_range;
                let kind = e.signal;
                let shown = Emitted::Suppression(kind, range);
                let answer = sink.emit(&shown);
                proof {
                    let prev = self.emitted@;
                    self.emitted@ = self.emitted@.push(Emission { range, rule: None, kind: Some(kind), answer });
                    assert(self.emitted@.drop_last() =~= prev);
                    assert(record_of(shown, answer) == self.emitted@.last());
                    assert(sink.received() =~= old(sink).received() + self.emitted@);
                    lemma_pop_drain_order(q, k);
                    assert(diagnostic_view(seq![q[k]] + drain_order(self.diagnostics@))
                        =~= seq![(kind, range)] + diagnostic_view(drain_order(self.diagnostics@)));
                    assert(diagnostic_seq(self.emitted@) == diagnostic_seq(prev).push((kind, range)));
                    assert(rule_seq(self.emitted@) == rule_seq(prev));
                    assert(diagnostic_seq(self.emitted@) + diagnostic_view(drain_order(self.diagnostics@))
                        =~= diagnostic_seq(prev) + diagnostic_view(drain_order(q)));
                    assert forall|i: int| 0 <= i < self.emitted@.len() && (#[trigger] self.emitted@[i]).rule is Some
                        implies all_start_after(self.diagnostics@, self.emitted@[i].range.start) by {
                        assert(self.emitted@[i] == prev[i]);
                        lemma_remove_keeps_after(q, k, prev[i].range.start);
                    }
                    assert forall|i: int, j: int| 0 <= i < j < self.emitted@.len() && (#[trigger] self.emitted@[i]).rule is Some
                        && (#[trigger] self.emitted@[j]).kind is Some implies self.emitted@[i].range.start < self.emitted@[j].range.start by {
                        assert(self.emitted@[i] == prev[i]);
                        if j < prev.len() {
                            assert(self.emitted@[j] == prev[j]);
                        } else {
                            assert(prev[i].range.start < q[k].text_range.start);
                        }
                    }
                    assert(diagnostic_view(q)[k] == (kind, range));
                    assert(diagnostic_records(self.emitted@).add(diagnostic_view(self.diagnostics@).to_multiset())
                        =~= diagnostic_view(d0).to_multiset());
                    assert(rule_records(self.emitted@) == rule_records(prev));
                    last = range.start;
                }
                if let ControlFlow::Break(result) = answer {
                    return Some(result);
                }
            } else {
                let ghost q = self.signals@;
                let e = self.signals.pop().unwrap();
                let ghost k = choose|k: int| is_first_min(q, k) && e == q[k] && self.signals@ == q.remove(k);
                let range = e.text_range;
                let rule = e.rule;
                proof {
                    lemma_pop_is_min(q, k);
                    lemma_kept_remove(r0, q, k);
                    lemma_pop_drain_order(q, k);
                    let rest = drain_order(self.signals@);
                    assert((seq![q[k]] + rest).drop_first() =~= rest);
                    assert((seq![q[k]] + rest)[0] == q[k]);
                    assert(keys_of(self.signals@) =~= keys_of(q).remove(k));
                    assert(keys_of(q)[k] == (rule, range));
                }
                let ghost before = self.resolver;
                let ghost drained_before = self.drained@;
                let silenced = self.resolver.suppress(&rule, range);
                proof {
                    self.drained@ = self.drained@.push((rule, range));
                    assert(self.drained@.to_multiset().add(keys_of(self.signals@).to_multiset())
                        =~= keys_of(q0).to_multiset());
                    assert(same_shape(self.resolver, before));
                    assert(same_shape(self.resolver, r0));
                    lemma_same_shape_suppresses(before, r0, rule, range);
                    if silenced {
                        assert(kept_seq(r0, drain_order(q)) =~= kept_seq(r0, drain_order(self.signals@)));
                    }
                    assert forall|j: int| 0 <= j < r0.targets().len() implies
                        (#[trigger] self.resolver.targets()[j]).consumed == (r0.targets()[j].consumed
                            || exists|i: int| 0 <= i < self.drained@.len()
                                && r0.covers(j, (#[trigger] self.drained@[i]).0, self.drained@[i].1)) by {
                        lemma_same_shape_covers(before, r0, j, rule, range);
                        assert(self.drained@[drained_before.len() as int] == (rule, range));
                        if r0.targets()[j].consumed || exists|i: int| 0 <= i < drained_before.len()
                                && r0.covers(j, (#[trigger] drained_before[i]).0, drained_before[i].1) {
                            if !r0.targets()[j].consumed {
                                let i = choose|i: int| 0 <= i < drained_before.len()
                                    && r0.covers(j, (#[trigger] drained_before[i]).0, drained_before[i].1);
                                assert(self.drained@[i] == drained_before[i]);
                            }
                        }
                        if exists|i: int| 0 <= i < self.drained@.len()
                                && r0.covers(j, (#[trigger] self.drained@[i]).0, self.drained@[i].1) {
                            let i = choose|i: int| 0 <= i < self.drained@.len()
                                && r0.covers(j, (#[trigger] self.drained@[i]).0, self.drained@[i].1);
                            if i < drained_before.len() {
                                assert(drained_before[i] == self.drained@[i]);
                            }
                        }
                    }
                    last = range.start;
                }
                if !silenced {
                    let shown = Emitted::Rule(e);
                    let answer = sink.emit(&shown);
                    proof {
                        let prev = self.emitted@;
                        self.emitted@ = self.emitted@.push(Emission { range, rule: Some(rule), kind: None, answer });
                        assert(self.emitted@.drop_last() =~= prev);
                        assert(record_of(shown, answer) == self.emitted@.last());
                        assert(sink.received() =~= old(sink).received() + self.emitted@);
                        assert(rule_seq(self.emitted@) == rule_seq(prev).push((rule, range)));
                        assert(diagnostic_seq(self.emitted@) == diagnostic_seq(prev));
                        assert(kept_seq(r0, drain_order(q)) =~= seq![(rule, range)] + kept_seq(r0, drain_order(self.signals@)));
                        assert(rule_seq(self.emitted@) + kept_seq(r0, drain_order(self.signals@))
                            =~= rule_seq(prev) + kept_seq(r0, drain_order(q)));
                        assert forall|j: int| 0 <= j < self.diagnostics@.len() implies range.start < #[trigger] self.diagnostics@[j].text_range.start by {
                            let kd = choose|kd: int| is_first_min(self.diagnostics@, kd) && self.diagnostics@[kd].text_range.start == b->0;
                            let k2 = choose|k2: int| is_first_min(q, k2) && q[k2].text_range.start == a->0;
                            assert(q[k].text_range.start <= q[k2].text_range.start);
                            assert(q[k2].text_range.start <= q[k].text_range.start);
                        }
                        assert forall|i: int| 0 <= i < self.emitted@.len() && (#[trigger] self.emitted@[i]).rule is Some
                            implies all_start_after(self.diagnostics@, self.emitted@[i].range.start) by {
                            if i < prev.len() {
                                assert(self.emitted@[i] == prev[i]);
                            }
                        }
                        assert forall|i: int, j: int| 0 <= i < j < self.emitted@.len() && (#[trigger] self.emitted@[i]).rule is Some
                            && (#[trigger] self.emitted@[j]).kind is Some implies self.emitted@[i].range.start < self.emitted@[j].range.start by {
                            assert(self.emitted@[i] == prev[i]);
                            assert(self.emitted@[j] == prev[j]);
                        }
                        assert(diagnostic_records(self.emitted@) == diagnostic_records(prev));
                        assert(rule_records(self.emitted@).add(kept(r0, self.signals@)) =~= kept(r0, q0));
                    }
                    if let ControlFlow::Break(result) = answer {
                        return Some(result);
                    }
                }
            }
        }
        let ranges = self.resolver.unused();
        let mut pending: SignalQueue<SuppressionDiagnostic> = SignalQueue::new();
        let mut i: usize = 0;
        while i < ranges.len()
            invariant
                0 <= i <= ranges@.len(),
                ranges_of(pending@) == ranges@.take(i as int),
            decreases ranges@.len() - i,
        {
            let ghost prev = pending@;
            pending.push(SignalEntry {
                signal: SuppressionDiagnostic::Unused,
                rule: RuleKey::new("suppressions", "unused"),
                text_range: ranges[i],
            });
            proof {
                assert(ranges@.take(i + 1) =~= ranges@.take(i as int).push(ranges@[i as int]));
                assert(ranges_of(pending@) =~= ranges_of(pending@.drop_last()).push(ranges@[i as int]));
                assert(pending@.drop_last() =~= prev);
            }
            i = i + 1;
        }
        proof {
            assert(ranges@.take(ranges@.len() as int) =~= ranges@);
        }
        let ghost em = self.emitted@;
        let ghost dr = self.drained@;
        proof {
            if em.len() > 0 {
                assert(em[em.len() - 1].range.start <= last);
            }
            assert(old(sink).received() + em + Seq::<Emission<B>>::empty() =~= old(sink).received() + em);
        }
        let ghost fin = self.resolver;
        let ghost mut last: u32 = 0;
        while !pending.is_empty()
            invariant
                self.resolver == fin,
                fin.wf(),
                self.signals@.len() == 0,
                self.diagnostics@.len() == 0,
                r0 == old(self).resolver(),
                same_shape(fin, r0),
                ranges@ == fin.unused_ranges(fin.entries().len() as int),
                self.emitted@ == em,
                sorted_by_start(em),
                diagnostics_first(em),
                rule_seq(em) + kept_seq(r0, drain_order(self.signals@)) == kept_seq(r0, drain_order(q0)),
                diagnostic_seq(em) + diagnostic_view(drain_order(self.diagnostics@)) == diagnostic_view(drain_order(d0)),
                sink.received() == old(sink).received() + em + self.unused@,
                forall|i: int| 0 <= i < em.len() ==> !((#[trigger] em[i]).answer is Break),
                forall|i: int| 0 <= i < em.len() ==>
                    ((#[trigger] em[i]).rule is Some <==> em[i].kind is None),
                em.len() > 0 ==> all_start_at_or_after(self.signals@, em.last().range.start)
                    && all_start_at_or_after(self.diagnostics@, em.last().range.start),
                rule_records(em).add(kept(r0, self.signals@)) == kept(r0, q0),
                diagnostic_records(em).add(diagnostic_view(self.diagnostics@).to_multiset())
                    == diagnostic_view(d0).to_multiset(),
                self.drained@ == dr,
                dr.to_multiset().add(keys_of(self.signals@).to_multiset()) == keys_of(q0).to_multiset(),
                forall|j: int| 0 <= j < r0.targets().len() ==>
                    (#[trigger] self.resolver.targets()[j]).consumed == (r0.targets()[j].consumed
                        || exists|i: int| 0 <= i < self.drained@.len()
                            && r0.covers(j, (#[trigger] self.drained@[i]).0, self.drained@[i].1)),
                q0 == old(self).signals(),
                d0 == old(self).diagnostics(),
                forall|i: int| 0 <= i < em.len() ==> ((#[trigger] em[i]).rule is Some
                    ==> !r0.spec_is_suppressed(em[i].rule->0, em[i].range)),
                all_start_at_or_after(pending@, last),
                forall|i: int| 0 <= i < self.unused@.len() ==> (#[trigger] self.unused@[i]).range.start <= last,
                sorted_by_start(self.unused@),
                forall|i: int| 0 <= i < self.unused@.len() ==> !((#[trigger] self.unused@[i]).answer is Break),
                forall|i: int| 0 <= i < self.unused@.len() ==> (#[trigger] self.unused@[i]).rule is None
                    && self.unused@[i].kind == Some(SuppressionDiagnostic::Unused),
                self.unused@.map_values(|e: Emission<B>| e.range).to_multiset().add(ranges_of(pending@).to_multiset())
                    == ranges@.to_multiset(),
            decreases pending@.len(),
        {
            let ghost q = pending@;
            let e = pending.pop().unwrap();
            let ghost k = choose|k: int| is_first_min(q, k) && e == q[k] && pending@ == q.remove(k);
            proof {
                lemma_pop_is_min(q, k);
            }
            let range = e.text_range;
            let shown = Emitted::Suppression(SuppressionDiagnostic::Unused, range);
            let answer = sink.emit(&shown);
            proof {
                let before = self.unused@;
                self.unused@ = self.unused@.push(Emission { range, rule: None, kind: Some(SuppressionDiagnostic::Unused), answer });
                assert(record_of(shown, answer) == self.unused@.last());
                assert(self.unused@.drop_last() =~= before);
                assert(sink.received() =~= old(sink).received() + em + self.unused@);
                last = range.start;
                assert(ranges_of(pending@) =~= ranges_of(q).remove(k));
                assert(self.unused@.map_values(|e: Emission<B>| e.range)
                    =~= before.map_values(|e: Emission<B>| e.range).push(range));
                assert(ranges_of(q)[k] == range);
                assert(self.unused@.map_values(|e: Emission<B>| e.range).to_multiset().add(ranges_of(pending@).to_multiset())
                    =~= ranges@.to_multiset());
            }
            if let ControlFlow::Break(result) = answer {
                return Some(result);
            }
        }
        proof {
            assert(ranges_of(pending@).to_multiset() =~= Multiset::empty());
            assert(self.unused@.map_values(|e: Emission<B>| e.range).to_multiset()
                =~= self.unused@.map_values(|e: Emission<B>| e.range).to_multiset().add(Multiset::empty()));
        }
        None
    }
}

/// Which rules a run enables: those that some enabled filter selects (all,
/// when there is no such list), less those that a disabled filter selects.
pub struct AnalysisFilter<'a> {
    pub enabled_rules: Option<Vec<RuleFilter<'a>>>,
    pub disabled_rules: Vec<RuleFilter<'a>>,
}

/// Whether some filter of `fs` selects `key`.
pub open spec fn any_selects(fs: Seq<RuleFilter>, key: RuleKey) -> bool {
    exists|i: int| 0 <= i < fs.len() && (#[trigger] fs[i]).selects(key)
}

fn any_matches(fs: &Vec<RuleFilter>, key: &RuleKey) -> (r: bool)
    ensures
        r == any_selects(fs@, *key),
{
    let mut i: usize = 0;
    while i < fs.len()
        invariant
            0 <= i <= fs@.len(),
            forall|j: int| 0 <= j < i ==> !(#[trigger] fs@[j]).selects(*key),
        decreases fs@.len() - i,
    {
        if fs[i].matches(key) {
            return true;
        }
        i = i + 1;
    }
    false
}

impl<'a> AnalysisFilter<'a> {
    pub open spec fn spec_match_rule(&self, key: RuleKey) -> bool {
        &&& (self.enabled_rules matches Some(e) ==> any_selects(e@, key))
        &&& !any_selects(self.disabled_rules@, key)
    }

    /// Whether the rule `key` is to run.
    pub fn match_rule(&self, key: &RuleKey) -> (r: bool)
        ensures
            r == self.spec_match_rule(*key),
    {
        let enabled = match &self.enabled_rules {
            Some(e) => any_matches(e, key),
            None => true,
        };
        enabled && !any_matches(&self.disabled_rules, key)
    }
}

/// A suppression comment of the file: its text, its own range, and the range
/// of the node it is attached to.
pub struct SuppressionComment<'a> {
    pub text: &'a str,
    pub range: TextRange,
    pub scope: TextRange,
}

/// The query matches that the traversal of one phase found, in order.
pub struct PhaseMatches<Q> {
    pub phase: Phases,
    pub queries: Vec<Q>,
}

/// What `m` queues for the matches `qs` of one phase, in order.
pub open spec fn phase_emits<Q, S, M: QueryMatcher<Q, S>>(m: M, phase: Phases, qs: Seq<Q>) -> Seq<SignalEntry<S>>
    decreases qs.len(),
{
    if qs.len() == 0 {
        Seq::empty()
    } else {
        phase_emits(m, phase, qs.drop_last()) + m.emits(phase, qs.last())
    }
}

/// What `m` queues for the matches of all phases, phase after phase.
pub open spec fn run_emits<Q, S, M: QueryMatcher<Q, S>>(m: M, ps: Seq<PhaseMatches<Q>>) -> Seq<SignalEntry<S>>
    decreases ps.len(),
{
    if ps.len() == 0 {
        Seq::empty()
    } else {
        run_emits(m, ps.drop_last()) + phase_emits(m, ps.last().phase, ps.last().queries@)
    }
}

proof fn lemma_inspect_phase_emits<Q, S, F: Inspect<Q>, I: QueryMatcher<Q, S>>(m: InspectMatcher<F, I>, phase: Phases, qs: Seq<Q>)
    ensures
        phase_emits(m, phase, qs) == phase_emits(m.inner_spec(), phase, qs),
    decreases qs.len(),
{
    if qs.len() > 0 {
        lemma_inspect_phase_emits(m, phase, qs.drop_last());
        crate::matcher::lemma_inspect_transparent(m, phase, qs.last());
    }
}

/// Wrapping a matcher in an `InspectMatcher` leaves what a dispatch queues
/// unchanged: the same signals, in the same order.
pub proof fn lemma_inspect_run_transparent<Q, S, F: Inspect<Q>, I: QueryMatcher<Q, S>>(m: InspectMatcher<F, I>, ps: Seq<PhaseMatches<Q>>)
    ensures
        run_emits(m, ps) == run_emits(m.inner_spec(), ps),
    decreases ps.len(),
{
    if ps.len() > 0 {
        lemma_inspect_run_transparent(m, ps.drop_last());
        lemma_inspect_phase_emits(m, ps.last().phase, ps.last().queries@);
    }
}

/// Resolves every comment against `registry`, in order, and queues a
/// diagnostic for each target that names nothing registered.
pub fn collect_suppressions(registry: &MetadataRegistry, comments: &Vec<SuppressionComment>)
    -> (r: (SuppressionResolver, SignalQueue<SuppressionDiagnostic>))
    requires
        comments@.len() < usize::MAX,
    ensures
        r.0.wf(),
        r.0.entries() == comments@.map_values(|c: SuppressionComment| crate::suppression::SuppressionEntry { range: c.range, scope: c.scope }),
        forall|j: int| 0 <= j < r.0.targets().len() ==> !(#[trigger] r.0.targets()[j]).consumed,
        diagnostic_view(r.1@) == unknown_of(r.0),
{
    let mut resolver = SuppressionResolver::new();
    let mut diagnostics: SignalQueue<SuppressionDiagnostic> = SignalQueue::new();
    let mut i: usize = 0;
    while i < comments.len()
        invariant
            0 <= i <= comments@.len() < usize::MAX,
            resolver.wf(),
            resolver.entries() == comments@.take(i as int).map_values(|c: SuppressionComment| crate::suppression::SuppressionEntry { range: c.range, scope: c.scope }),
            forall|j: int| 0 <= j < resolver.targets().len() ==> !(#[trigger] resolver.targets()[j]).consumed,
            diagnostic_view(diagnostics@) == unknown_of(resolver),
        decreases comments@.len() - i,
    {
        let c = &comments[i];
        let ghost before = resolver;
        let ghost diags_before = diagnostics@;
        resolver.add_comment(registry, c.text, c.range, c.scope, &mut diagnostics);
        proof {
            let n = before.targets().len() as int;
            let added = resolver.targets().skip(n);
            crate::suppression::lemma_add_comment_unknown(before, resolver, c.range, c.scope);
            assert forall|j: int| 0 <= j < resolver.targets().len() implies !(#[trigger] resolver.targets()[j]).consumed by {
                if j < n {
                    assert(resolver.targets()[j] == resolver.targets().take(n)[j]);
                    assert(before.targets()[j] == resolver.targets()[j]);
                } else {
                    assert(resolver.targets()[j] == added[j - n]);
                }
            }
            assert(comments@.take(i + 1).map_values(|c: SuppressionComment| crate::suppression::SuppressionEntry { range: c.range, scope: c.scope })
                =~= comments@.take(i as int).map_values(|c: SuppressionComment| crate::suppression::SuppressionEntry { range: c.range, scope: c.scope })
                .push(crate::suppression::SuppressionEntry { range: c.range, scope: c.scope }));
        }
        i = i + 1;
    }
    proof {
        assert(comments@.take(comments@.len() as int) =~= comments@);
    }
    (resolver, diagnostics)
}

/// Runs a matcher over the query matches of each phase and resolves the
/// file's suppression comments (`prepare`); the `Drain` that comes out hands
/// what was queued to a sink (`Drain::run`).
///
/// All phases of a run fill one queue, which is drained once after the last
/// phase: the order by range start therefore holds across phases, and a
/// stop of the sink ends the whole run.
pub struct Analyzer<'r, M> {
    registry: &'r MetadataRegistry,
    matcher: M,
}

impl<'r, M> Analyzer<'r, M> {
    pub fn new(registry: &'r MetadataRegistry, matcher: M) -> (r: Analyzer<'r, M>)
        ensures
            *r.registry_spec() == *registry,
    {
        Analyzer { registry, matcher }
    }

    pub closed spec fn registry_spec(&self) -> &'r MetadataRegistry {
        self.registry
    }

    pub closed spec fn matcher_spec(&self) -> M {
        self.matcher
    }

    /// Hands every query match, phase after phase, to the matcher. What it
    /// queues follows the signals already queued.
    pub fn dispatch<Q, S>(&mut self, file_id: u32, phases: &Vec<PhaseMatches<Q>>, queue: &mut SignalQueue<S>)
        where M: QueryMatcher<Q, S>,
        ensures
            final(queue)@ == old(queue)@ + run_emits(old(self).matcher_spec(), phases@),
            forall|p: Phases, q: Q| #[trigger] final(self).matcher_spec().emits(p, q) == old(self).matcher_spec().emits(p, q),
            *final(self).registry_spec() == *old(self).registry_spec(),
    {
        let ghost m0 = self.matcher;
        let ghost base = queue@;
        let mut p: usize = 0;
        while p < phases.len()
            invariant
                0 <= p <= phases@.len(),
                m0 == old(self).matcher_spec(),
                base == old(queue)@,
                self.registry == old(self).registry,
                forall|ph: Phases, q: Q| #[trigger] self.matcher.emits(ph, q) == m0.emits(ph, q),
                queue@ == base + run_emits(m0, phases@.take(p as int)),
            decreases phases@.len() - p,
        {
            let phase = &phases[p];
            let mut i: usize = 0;
            while i < phase.queries.len()
                invariant
                    0 <= p < phases@.len(),
                    *phase == phases@[p as int],
                    0 <= i <= phase.queries@.len(),
                    self.registry == old(self).registry,
                    forall|ph: Phases, q: Q| #[trigger] self.matcher.emits(ph, q) == m0.emits(ph, q),
                    queue@ == base + run_emits(m0, phases@.take(p as int)) + phase_emits(m0, phase.phase, phase.queries@.take(i as int)),
                decreases phase.queries@.len() - i,
            {
                let params = MatchQueryParams { phase: phase.phase, file_id, query: &phase.queries[i] };
                self.matcher.match_query(&params, queue);
                proof {
                    let qs = phase.queries@.take(i + 1);
                    assert(qs.drop_last() =~= phase.queries@.take(i as int));
                    assert(qs.last() == phase.queries@[i as int]);
                    assert(queue@ =~= base + run_emits(m0, phases@.take(p as int)) + phase_emits(m0, phase.phase, qs));
                }
                i = i + 1;
            }
            proof {
                assert(phase.queries@.take(phase.queries@.len() as int) =~= phase.queries@);
                let ps = phases@.take(p + 1);
                assert(ps.drop_last() =~= phases@.take(p as int));
                assert(ps.last() == phases@[p as int]);
                assert(queue@ =~= base + run_emits(m0, ps));
            }
            p = p + 1;
        }
        proof {
            assert(phases@.take(phases@.len() as int) =~= phases@);
        }
    }

    /// Readies the analysis of one file: dispatches every query match, and
    /// resolves the file's suppression comments. `Drain::run` then hands
    /// what it holds to a sink.
    pub fn prepare<Q, S, B>(&mut self, file_id: u32, phases: &Vec<PhaseMatches<Q>>, comments: &Vec<SuppressionComment>)
        -> (r: Drain<S, B>)
        where M: QueryMatcher<Q, S>,
        requires
            comments@.len() < usize::MAX,
        ensures
            r.wf(),
            r.signals() == run_emits(old(self).matcher_spec(), phases@),
            r.resolver().entries() == comments@.map_values(|c: SuppressionComment| crate::suppression::SuppressionEntry { range: c.range, scope: c.scope }),
            forall|j: int| 0 <= j < r.resolver().targets().len() ==> !(#[trigger] r.resolver().targets()[j]).consumed,
            diagnostic_view(r.diagnostics()) == unknown_of(r.resolver()),
            r.emitted() == Seq::<Emission<B>>::empty(),
            r.unused() == Seq::<Emission<B>>::empty(),
            r.drained() == Seq::<(RuleKey, TextRange)>::empty(),
            forall|p: Phases, q: Q| #[trigger] final(self).matcher_spec().emits(p, q) == old(self).matcher_spec().emits(p, q),
    {
        let mut signals: SignalQueue<S> = SignalQueue::new();
        self.dispatch(file_id, phases, &mut signals);
        proof {
            assert(signals@ =~= run_emits(old(self).matcher_spec(), phases@));
        }
        let (resolver, diagnostics) = collect_suppressions(self.registry, comments);
        Drain::new(resolver, signals, diagnostics)
    }
}

} // verus!
