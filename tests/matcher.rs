use std::ops::ControlFlow;

use rome_analyze::analyzer::{
    collect_suppressions, Analyzer, AnalysisFilter, Drain, Emitted, PhaseMatches, SignalSink,
    SuppressionComment,
};
use rome_analyze::keys::{RuleFilter, RuleKey};
use rome_analyze::matcher::{Inspect, InspectMatcher, MatchQueryParams, Phases, QueryMatcher};
use rome_analyze::queue::{SignalEntry, SignalQueue};
use rome_analyze::registry::MetadataRegistry;
use rome_analyze::suppression::{SuppressionDiagnostic, SuppressionResolver};
use rome_analyze::text::TextRange;

#[derive(Clone, Copy)]
struct Node {
    literal: bool,
    range: TextRange,
}

/// Flags every literal expression under the key `group/rule`.
struct SuppressionMatcher;

impl QueryMatcher<Node, &'static str> for SuppressionMatcher {
    fn emits(&self, _phase: Phases, _query: Node) -> vstd::seq::Seq<SignalEntry<&'static str>> {
        // a specification item, checked only by the verifier; never called
        unreachable!()
    }

    fn match_query(&mut self, params: &MatchQueryParams<Node>, queue: &mut SignalQueue<&'static str>) {
        if !params.query.literal {
            return;
        }
        queue.push(SignalEntry {
            signal: "args/fileNotFound",
            rule: RuleKey::new("group", "rule"),
            text_range: params.query.range,
        });
    }
}

struct Collect {
    seen: Vec<(&'static str, TextRange)>,
    stop_after: usize,
}

impl SignalSink<&'static str, usize> for Collect {
    fn received(&self) -> vstd::seq::Seq<rome_analyze::analyzer::Emission<usize>> {
        // a specification item, checked only by the verifier; never called
        unreachable!()
    }

    fn emit(&mut self, signal: &Emitted<&'static str>) -> ControlFlow<usize> {
        let item = match signal {
            Emitted::Rule(e) => (e.signal, e.text_range),
            Emitted::Suppression(SuppressionDiagnostic::UnknownGroup, r) => ("suppressions/unknownGroup", *r),
            Emitted::Suppression(SuppressionDiagnostic::UnknownRule, r) => ("suppressions/unknownRule", *r),
            Emitted::Suppression(SuppressionDiagnostic::Unused, r) => ("suppressions/unused", *r),
        };
        self.seen.push(item);
        if self.seen.len() >= self.stop_after {
            ControlFlow::Break(self.seen.len())
        } else {
            ControlFlow::Continue(())
        }
    }
}

fn r(start: u32, end: u32) -> TextRange {
    TextRange::new(start, end)
}

fn scenario_nodes() -> Vec<Node> {
    vec![
        Node { literal: true, range: r(8, 19) },
        Node { literal: false, range: r(19, 20) },
        Node { literal: true, range: r(34, 45) },
        Node { literal: false, range: r(45, 46) },
        Node { literal: true, range: r(63, 74) },
        Node { literal: false, range: r(74, 75) },
        Node { literal: true, range: r(97, 108) },
        Node { literal: false, range: r(108, 109) },
        Node { literal: false, range: r(123, 124) },
    ]
}

fn scenario_comments() -> Vec<SuppressionComment<'static>> {
    vec![
        SuppressionComment { text: "//group", range: r(0, 7), scope: r(0, 19) },
        SuppressionComment { text: "//group/rule", range: r(21, 33), scope: r(21, 45) },
        SuppressionComment { text: "//unknown_group", range: r(47, 62), scope: r(47, 74) },
        SuppressionComment { text: "//group/unknown_rule", range: r(76, 96), scope: r(76, 108) },
        SuppressionComment { text: "//group/rule", range: r(110, 122), scope: r(110, 125) },
    ]
}

fn scenario_registry() -> MetadataRegistry {
    let mut metadata = MetadataRegistry::new();
    metadata.insert_rule("group", "rule");
    metadata
}

#[test]
fn suppressions() {
    let metadata = scenario_registry();
    let mut analyzer = Analyzer::new(&metadata, SuppressionMatcher);
    let phases = vec![PhaseMatches { phase: Phases::Syntax, queries: scenario_nodes() }];
    let mut sink = Collect { seen: Vec::new(), stop_after: usize::MAX };
    let result = analyzer.prepare(0, &phases, &scenario_comments()).run(&mut sink);
    assert!(result.is_none());
    assert_eq!(
        sink.seen.as_slice(),
        &[
            ("suppressions/unknownGroup", r(47, 62)),
            ("args/fileNotFound", r(63, 74)),
            ("suppressions/unknownRule", r(76, 96)),
            ("args/fileNotFound", r(97, 108)),
            ("suppressions/unused", r(110, 122)),
        ]
    );
}

#[test]
fn sink_stop_ends_the_run() {
    let metadata = scenario_registry();
    let mut analyzer = Analyzer::new(&metadata, SuppressionMatcher);
    let phases = vec![PhaseMatches { phase: Phases::Syntax, queries: scenario_nodes() }];
    let mut sink = Collect { seen: Vec::new(), stop_after: 2 };
    let result = analyzer.prepare(0, &phases, &scenario_comments()).run(&mut sink);
    assert_eq!(result, Some(2));
    assert_eq!(
        sink.seen.as_slice(),
        &[("suppressions/unknownGroup", r(47, 62)), ("args/fileNotFound", r(63, 74))]
    );
}

#[test]
fn stop_during_unused_pass() {
    let metadata = scenario_registry();
    let mut analyzer = Analyzer::new(&metadata, SuppressionMatcher);
    let phases = vec![PhaseMatches { phase: Phases::Syntax, queries: scenario_nodes() }];
    let mut sink = Collect { seen: Vec::new(), stop_after: 5 };
    let result = analyzer.prepare(0, &phases, &scenario_comments()).run(&mut sink);
    assert_eq!(result, Some(5));
    assert_eq!(sink.seen[4], ("suppressions/unused", r(110, 122)));
}

#[test]
fn signals_leave_in_start_order_across_phases() {
    let metadata = scenario_registry();
    let mut analyzer = Analyzer::new(&metadata, SuppressionMatcher);
    let phases = vec![
        PhaseMatches {
            phase: Phases::Syntax,
            queries: vec![Node { literal: true, range: r(30, 40) }, Node { literal: true, range: r(10, 12) }],
        },
        PhaseMatches { phase: Phases::Semantic, queries: vec![Node { literal: true, range: r(0, 5) }] },
    ];
    let mut sink = Collect { seen: Vec::new(), stop_after: usize::MAX };
    let result = analyzer.prepare(0, &phases, &Vec::new()).run(&mut sink);
    assert!(result.is_none());
    let starts: Vec<u32> = sink.seen.iter().map(|s| s.1.start()).collect();
    assert_eq!(starts, vec![0, 10, 30]);
}

#[test]
fn drain_without_comments_emits_everything() {
    let mut signals = SignalQueue::new();
    signals.push(SignalEntry { signal: "b", rule: RuleKey::new("g", "r"), text_range: r(5, 6) });
    signals.push(SignalEntry { signal: "a", rule: RuleKey::new("g", "r"), text_range: r(1, 2) });
    let mut drain = Drain::new(SuppressionResolver::new(), signals, SignalQueue::new());
    let mut sink = Collect { seen: Vec::new(), stop_after: usize::MAX };
    assert!(drain.run(&mut sink).is_none());
    assert_eq!(sink.seen, vec![("a", r(1, 2)), ("b", r(5, 6))]);
}

#[test]
fn collect_reports_unknown_targets() {
    let metadata = scenario_registry();
    let (resolver, mut diagnostics) = collect_suppressions(&metadata, &scenario_comments());
    assert_eq!(resolver.unused(), vec![r(0, 7), r(21, 33), r(110, 122)]);
    assert_eq!(diagnostics.len(), 2);
    let first = diagnostics.pop().unwrap();
    assert_eq!(first.signal, SuppressionDiagnostic::UnknownGroup);
    assert_eq!(first.text_range, r(47, 62));
    assert_eq!(first.rule.group(), "suppressions");
    assert_eq!(first.rule.rule_name(), "unknownGroup");
    let second = diagnostics.pop().unwrap();
    assert_eq!(second.signal, SuppressionDiagnostic::UnknownRule);
    assert_eq!(second.text_range, r(76, 96));
}

struct Counter<'a> {
    calls: &'a mut Vec<u32>,
}

impl<'a> Inspect<Node> for Counter<'a> {
    fn inspected(&self) -> vstd::seq::Seq<(Phases, Node)> {
        // a specification item, checked only by the verifier; never called
        unreachable!()
    }

    fn inspect(&mut self, params: &MatchQueryParams<Node>) {
        self.calls.push(params.query.range.start());
    }
}

#[test]
fn inspect_matcher_is_transparent() {
    let nodes = scenario_nodes();
    let mut plain = SuppressionMatcher;
    let mut calls = Vec::new();
    let mut wrapped = InspectMatcher::new(SuppressionMatcher, Counter { calls: &mut calls });
    let mut q1 = SignalQueue::new();
    let mut q2 = SignalQueue::new();
    for node in &nodes {
        let params = MatchQueryParams { phase: Phases::Syntax, file_id: 0, query: node };
        plain.match_query(&params, &mut q1);
        wrapped.match_query(&params, &mut q2);
    }
    assert_eq!(q1.len(), 4);
    assert_eq!(q2.len(), 4);
    while let Some(a) = q1.pop() {
        let b = q2.pop().unwrap();
        assert_eq!(a.signal, b.signal);
        assert_eq!(a.text_range, b.text_range);
    }
    assert!(q2.is_empty());
    drop(wrapped);
    assert_eq!(calls.len(), nodes.len());
}

#[test]
fn analysis_filter_selects_rules() {
    let key = RuleKey::new("group", "rule");
    let other = RuleKey::new("group", "other");
    let all = AnalysisFilter { enabled_rules: None, disabled_rules: vec![] };
    assert!(all.match_rule(&key));
    let only_group = AnalysisFilter { enabled_rules: Some(vec![RuleFilter::Group("group")]), disabled_rules: vec![] };
    assert!(only_group.match_rule(&other));
    let none = AnalysisFilter { enabled_rules: Some(vec![RuleFilter::Group("nope")]), disabled_rules: vec![] };
    assert!(!none.match_rule(&key));
    let disabled = AnalysisFilter {
        enabled_rules: Some(vec![RuleFilter::Group("group")]),
        disabled_rules: vec![RuleFilter::Rule("group", "rule")],
    };
    assert!(!disabled.match_rule(&key));
    assert!(disabled.match_rule(&other));
}
