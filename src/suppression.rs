//! Suppression comments: their targets, how they resolve against the
//! registry, which signals they silence, and which went unused.
use vstd::prelude::*;
use vstd::string::StringSliceAdditionalSpecFns;

use crate::keys::RuleKey;
use crate::registry::MetadataRegistry;
use crate::text::{str_eq, TextRange};

verus! {

/// Whether the byte separates tokens of a suppression comment.
pub open spec fn spec_is_space(b: u8) -> bool {
    b == 32u8 || b == 9u8 || b == 10u8 || b == 13u8
}

pub fn is_space(b: u8) -> (r: bool)
    ensures
        r == spec_is_space(b),
{
    b == 32u8 || b == 9u8 || b == 10u8 || b == 13u8
}

/// Whether `toks` lists, in order, the maximal runs of non-space bytes of `text`.
pub open spec fn is_token_split(text: Seq<u8>, toks: Seq<(usize, usize)>) -> bool {
    &&& forall|i: int| 0 <= i < toks.len() ==> {
        let (s, e) = #[trigger] toks[i];
        &&& s < e <= text.len()
        &&& (s == 0 || spec_is_space(text[s - 1]))
        &&& (e == text.len() || spec_is_space(text[e as int]))
        &&& forall|k: int| s <= k < e ==> !spec_is_space(#[trigger] text[k])
    }
    &&& forall|i: int| 0 <= i < toks.len() - 1 ==> (#[trigger] toks[i]).1 < toks[i + 1].0
    &&& forall|k: int| 0 <= k < text.len() && !spec_is_space(#[trigger] text[k]) ==>
        exists|i: int| 0 <= i < toks.len() && toks[i].0 <= k < (#[trigger] toks[i]).1
}

/// Splits `text` into its tokens, the maximal runs of non-space bytes, as
/// `[start, end)` offsets.
pub fn split_tokens(text: &[u8]) -> (r: Vec<(usize, usize)>)
    ensures
        is_token_split(text@, r@),
{
    let mut toks: Vec<(usize, usize)> = Vec::new();
    let mut i: usize = 0;
    let mut start: usize = 0;
    while i < text.len()
        invariant
            0 <= start <= i <= text@.len(),
            start == 0 || spec_is_space(text@[start - 1]),
            forall|k: int| start <= k < i ==> !spec_is_space(#[trigger] text@[k]),
            forall|j: int| 0 <= j < toks@.len() ==> {
                let (s, e) = #[trigger] toks@[j];
                &&& s < e < start
                &&& e < text@.len()
                &&& spec_is_space(text@[e as int])
                &&& (s == 0 || spec_is_space(text@[s - 1]))
                &&& forall|k: int| s <= k < e ==> !spec_is_space(#[trigger] text@[k])
            },
            forall|j: int| 0 <= j < toks@.len() - 1 ==> (#[trigger] toks@[j]).1 < toks@[j + 1].0,
            forall|k: int| 0 <= k < start && !spec_is_space(#[trigger] text@[k]) ==>
                exists|j: int| 0 <= j < toks@.len() && toks@[j].0 <= k < (#[trigger] toks@[j]).1,
        decreases text@.len() - i,
    {
        if is_space(text[i]) {
            if start < i {
                let ghost prev = toks@;
                toks.push((start, i));
                proof {
                    assert forall|k: int| 0 <= k < i + 1 && !spec_is_space(#[trigger] text@[k]) implies
                        exists|j: int| 0 <= j < toks@.len() && toks@[j].0 <= k < (#[trigger] toks@[j]).1 by {
                        if k >= start {
                            assert(toks@[toks@.len() - 1] == (start, i));
                        } else {
                            let j = choose|j: int| 0 <= j < prev.len() && prev[j].0 <= k < (#[trigger] prev[j]).1;
                            assert(toks@[j] == prev[j]);
                        }
                    }
                }
            }
            start = i + 1;
        }
        i = i + 1;
    }
    if start < i {
        let ghost prev = toks@;
        toks.push((start, i));
        proof {
            assert forall|k: int| 0 <= k < text@.len() && !spec_is_space(#[trigger] text@[k]) implies
                exists|j: int| 0 <= j < toks@.len() && toks@[j].0 <= k < (#[trigger] toks@[j]).1 by {
                if k >= start {
                    assert(toks@[toks@.len() - 1] == (start, i));
                } else {
                    let j = choose|j: int| 0 <= j < prev.len() && prev[j].0 <= k < (#[trigger] prev[j]).1;
                    assert(toks@[j] == prev[j]);
                }
            }
        }
    }
    toks
}

/// The offset of the first `/` in `tok`, or its length when it holds none.
pub open spec fn first_slash(tok: Seq<u8>) -> nat
    decreases tok.len(),
{
    if tok.len() == 0 {
        0
    } else if tok[0] == 47u8 {
        0
    } else {
        1 + first_slash(tok.drop_first())
    }
}

proof fn lemma_first_slash(tok: Seq<u8>, p: int)
    requires
        0 <= p <= tok.len(),
        forall|j: int| 0 <= j < p ==> tok[j] != 47u8,
        p == tok.len() || tok[p] == 47u8,
    ensures
        first_slash(tok) == p,
    decreases p,
{
    if p > 0 {
        lemma_first_slash(tok.drop_first(), p - 1);
    }
}

/// The group part of a target token: what stands before its first `/`.
pub open spec fn group_part(tok: Seq<u8>) -> Seq<u8> {
    tok.take(first_slash(tok) as int)
}

/// The rule part of a target token: what stands after its first `/`, if any.
pub open spec fn rule_part(tok: Seq<u8>) -> Option<Seq<u8>> {
    if first_slash(tok) < tok.len() {
        Some(tok.skip(first_slash(tok) as int + 1))
    } else {
        None
    }
}

/// What a suppression target names, once checked against the registry.
#[derive(Copy, Clone, Debug)]
pub enum TargetResolution {
    /// The group is not registered: the target silences nothing.
    UnknownGroup,
    /// The group is registered, the rule within it is not: the target silences nothing.
    UnknownRule,
    /// Every rule of a registered group.
    Group(&'static str),
    /// One registered rule of a registered group.
    Rule(&'static str, &'static str),
}

impl TargetResolution {
    /// Whether the target names something registered.
    pub open spec fn is_known(&self) -> bool {
        self is Group || self is Rule
    }

    /// Whether `self` is how the token `tok` resolves against `reg`.
    pub open spec fn resolves(&self, reg: MetadataRegistry, tok: Seq<u8>) -> bool {
        let g = group_part(tok);
        match *self {
            TargetResolution::UnknownGroup => !reg.spec_has_group(g),
            TargetResolution::UnknownRule => reg.spec_has_group(g) && rule_part(tok) is Some
                && !reg.spec_has_rule(g, rule_part(tok)->0),
            TargetResolution::Group(name) => reg.spec_has_group(g) && rule_part(tok) is None
                && name.spec_bytes() == g,
            TargetResolution::Rule(gn, rn) => rule_part(tok) is Some
                && reg.spec_has_rule(g, rule_part(tok)->0) && gn.spec_bytes() == g
                && rn.spec_bytes() == rule_part(tok)->0,
        }
    }

    /// Whether the target silences signals of the rule `key`.
    pub open spec fn spec_selects(&self, key: RuleKey) -> bool {
        match *self {
            TargetResolution::Group(g) => g@ == key.group_spec(),
            TargetResolution::Rule(g, r) => g@ == key.group_spec() && r@ == key.rule_spec(),
            _ => false,
        }
    }

    pub fn selects(&self, key: &RuleKey) -> (r: bool)
        ensures
            r == self.spec_selects(*key),
    {
        match *self {
            TargetResolution::Group(g) => str_eq(g, key.group()),
            TargetResolution::Rule(g, r) => str_eq(g, key.group()) && str_eq(r, key.rule_name()),
            _ => false,
        }
    }
}

/// Resolves the token `text[start..end]` against the registry.
pub fn resolve_token(reg: &MetadataRegistry, text: &[u8], start: usize, end: usize) -> (r: TargetResolution)
    requires
        start <= end <= text@.len(),
    ensures
        r.resolves(*reg, text@.subrange(start as int, end as int)),
{
    let ghost tok = text@.subrange(start as int, end as int);
    let mut p: usize = start;
    while p < end && text[p] != 47u8
        invariant
            start <= p <= end <= text@.len(),
            forall|j: int| start <= j < p ==> text@[j] != 47u8,
        decreases end - p,
    {
        p = p + 1;
    }
    proof {
        lemma_first_slash(tok, p - start);
        assert(group_part(tok) =~= text@.subrange(start as int, p as int));
        if p < end {
            assert(rule_part(tok)->0 =~= text@.subrange(p + 1, end as int));
        }
    }
    match reg.find_group(text, start, p) {
        None => TargetResolution::UnknownGroup,
        Some(g) => {
            if p == end {
                TargetResolution::Group(g)
            } else {
                match reg.find_rule(text, start, p, p + 1, end) {
                    None => TargetResolution::UnknownRule,
                    Some(pair) => TargetResolution::Rule(pair.0, pair.1),
                }
            }
        }
    }
}

/// The part of a comment that holds its targets: what follows a leading `//`.
pub open spec fn payload(text: Seq<u8>) -> Seq<u8> {
    if text.len() >= 2 && text[0] == 47u8 && text[1] == 47u8 {
        text.skip(2)
    } else {
        text
    }
}

/// A diagnostic that the suppression machinery itself produces.
#[derive(Copy, Clone, Debug, PartialEq, Eq, Structural)]
pub enum SuppressionDiagnostic {
    /// A target names a group that is not registered.
    UnknownGroup,
    /// A target names a rule that its registered group does not hold.
    UnknownRule,
    /// A comment has a registered target that silenced no signal.
    Unused,
}

/// One target of a suppression comment.
#[derive(Copy, Clone, Debug)]
pub struct SuppressionTarget {
    /// The position of the comment's entry in the resolver.
    pub entry: usize,
    pub resolution: TargetResolution,
    /// Whether the target has silenced at least one signal.
    pub consumed: bool,
}

/// A suppression comment: where it stands and the node range it covers.
#[derive(Copy, Clone, Debug, PartialEq, Eq, Structural)]
pub struct SuppressionEntry {
    /// The range of the comment itself.
    pub range: TextRange,
    /// The range of the node the comment is attached to.
    pub scope: TextRange,
}

/// The diagnostics that the unknown targets among `ts` produce, in order,
/// each at `range`.
pub open spec fn unknown_diagnostics(ts: Seq<SuppressionTarget>, range: TextRange) -> Seq<(SuppressionDiagnostic, TextRange)>
    decreases ts.len(),
{
    if ts.len() == 0 {
        Seq::empty()
    } else {
        let rest = unknown_diagnostics(ts.drop_last(), range);
        match ts.last().resolution {
            TargetResolution::UnknownGroup => rest.push((SuppressionDiagnostic::UnknownGroup, range)),
            TargetResolution::UnknownRule => rest.push((SuppressionDiagnostic::UnknownRule, range)),
            _ => rest,
        }
    }
}

/// The kind and range of each diagnostic of a sequence.
pub open spec fn diagnostic_view(s: Seq<crate::queue::SignalEntry<SuppressionDiagnostic>>) -> Seq<(SuppressionDiagnostic, TextRange)> {
    s.map_values(|e: crate::queue::SignalEntry<SuppressionDiagnostic>| (e.signal, e.text_range))
}

/// Every target that names an unregistered group, or an unregistered rule of
/// a registered group, is reported exactly once, as such, at the range of
/// its comment, and silences no rule.
pub proof fn lemma_unknown_target_reported(ts: Seq<SuppressionTarget>, i: int, range: TextRange, key: RuleKey)
    requires
        0 <= i < ts.len(),
    ensures
        ts[i].resolution is UnknownGroup ==> unknown_diagnostics(ts.take(i + 1), range)
            == unknown_diagnostics(ts.take(i), range).push((SuppressionDiagnostic::UnknownGroup, range)),
        ts[i].resolution is UnknownRule ==> unknown_diagnostics(ts.take(i + 1), range)
            == unknown_diagnostics(ts.take(i), range).push((SuppressionDiagnostic::UnknownRule, range)),
        ts[i].resolution.is_known() ==> unknown_diagnostics(ts.take(i + 1), range)
            == unknown_diagnostics(ts.take(i), range),
        !ts[i].resolution.is_known() ==> !ts[i].resolution.spec_selects(key),
{
    assert(ts.take(i + 1).drop_last() =~= ts.take(i));
}

/// The suppression comments of a file, their targets, and which targets have
/// silenced a signal.
pub struct SuppressionResolver {
    entries: Vec<SuppressionEntry>,
    targets: Vec<SuppressionTarget>,
}

impl SuppressionResolver {
    pub closed spec fn entries(&self) -> Seq<SuppressionEntry> {
        self.entries@
    }

    /// The targets of all comments, in the order the comments were added.
    pub closed spec fn targets(&self) -> Seq<SuppressionTarget> {
        self.targets@
    }

    pub open spec fn wf(&self) -> bool {
        forall|j: int| 0 <= j < self.targets().len() ==> (#[trigger] self.targets()[j]).entry < self.entries().len()
    }

    /// Whether the target at `j` silences a signal of `key` over `range`.
    pub open spec fn covers(&self, j: int, key: RuleKey, range: TextRange) -> bool {
        &&& self.entries()[self.targets()[j].entry as int].scope.spec_contains_range(range)
        &&& self.targets()[j].resolution.spec_selects(key)
    }

    /// Whether a signal of `key` over `range` is silenced.
    pub open spec fn spec_is_suppressed(&self, key: RuleKey, range: TextRange) -> bool {
        exists|j: int| 0 <= j < self.targets().len() && #[trigger] self.covers(j, key, range)
    }

    /// Whether the comment at `i` has a registered target that silenced nothing.
    pub open spec fn entry_unused(&self, i: int) -> bool {
        exists|j: int| 0 <= j < self.targets().len() && (#[trigger] self.targets()[j]).entry == i
            && self.targets()[j].resolution.is_known() && !self.targets()[j].consumed
    }

    /// The ranges of the unused comments among the first `n`, in order.
    pub open spec fn unused_ranges(&self, n: int) -> Seq<TextRange>
        decreases n,
    {
        if n <= 0 {
            Seq::empty()
        } else {
            let rest = self.unused_ranges(n - 1);
            if self.entry_unused(n - 1) {
                rest.push(self.entries()[n - 1].range)
            } else {
                rest
            }
        }
    }

    pub fn new() -> (r: SuppressionResolver)
        ensures
            r.entries() == Seq::<SuppressionEntry>::empty(),
            r.targets() == Seq::<SuppressionTarget>::empty(),
            r.wf(),
    {
        SuppressionResolver { entries: Vec::new(), targets: Vec::new() }
    }

    /// Adds the comment `text`, found at `range` and attached to the node at
    /// `scope`. Each of its targets is resolved against `reg`; each one that
    /// names nothing registered is reported into `diagnostics`.
    pub fn add_comment(
        &mut self,
        reg: &MetadataRegistry,
        text: &str,
        range: TextRange,
        scope: TextRange,
        diagnostics: &mut crate::queue::SignalQueue<SuppressionDiagnostic>,
    )
        requires
            old(self).wf(),
            old(self).entries().len() < usize::MAX,
        ensures
            final(self).wf(),
            final(self).entries() == old(self).entries().push(SuppressionEntry { range, scope }),
            final(self).targets().len() >= old(self).targets().len(),
            final(self).targets().take(old(self).targets().len() as int) == old(self).targets(),
            forall|i: int| 0 <= i < final(self).targets().len() - old(self).targets().len() ==>
                (#[trigger] final(self).targets().skip(old(self).targets().len() as int)[i]).entry == old(self).entries().len()
                && !final(self).targets().skip(old(self).targets().len() as int)[i].consumed,
            diagnostic_view(final(diagnostics)@) == diagnostic_view(old(diagnostics)@)
                + unknown_diagnostics(final(self).targets().skip(old(self).targets().len() as int), range),
            exists|toks: Seq<(usize, usize)>| {
                let body = payload(text.spec_bytes());
                let added = final(self).targets().skip(old(self).targets().len() as int);
                &&& #[trigger] is_token_split(payload(text.spec_bytes()), toks)
                &&& final(self).targets().take(old(self).targets().len() as int) == old(self).targets()
                &&& added.len() == toks.len()
                &&& forall|i: int| 0 <= i < toks.len() ==> {
                    &&& (#[trigger] added[i]).entry == old(self).entries().len()
                    &&& !added[i].consumed
                    &&& added[i].resolution.resolves(*reg, body.subrange(toks[i].0 as int, toks[i].1 as int))
                }
                &&& diagnostic_view(final(diagnostics)@) == diagnostic_view(old(diagnostics)@) + unknown_diagnostics(added, range)
            },
    {
        let bytes = text.as_bytes();
        let start: usize = if bytes.len() >= 2 && bytes[0] == 47u8 && bytes[1] == 47u8 { 2 } else { 0 };
        let body = &bytes[start..bytes.len()];
        proof {
            assert(body@ =~= payload(text.spec_bytes()));
        }
        let toks = split_tokens(body);
        let entry = self.entries.len();
        self.entries.push(SuppressionEntry { range, scope });
        let ghost old_targets = self.targets@;
        let ghost entries_after = self.entries@;
        let ghost old_diags = diagnostics@;
        let mut i: usize = 0;
        while i < toks.len()
            invariant
                is_token_split(body@, toks@),
                entry == self.entries@.len() - 1,
                self.entries@ == entries_after,
                forall|j: int| 0 <= j < self.targets@.len() ==> (#[trigger] self.targets@[j]).entry < self.entries@.len(),
                0 <= i <= toks@.len(),
                self.targets@.len() == old_targets.len() + i,
                self.targets@.take(old_targets.len() as int) == old_targets,
                forall|k: int| 0 <= k < i ==> {
                    &&& (#[trigger] self.targets@.skip(old_targets.len() as int)[k]).entry == entry
                    &&& !self.targets@.skip(old_targets.len() as int)[k].consumed
                    &&& self.targets@.skip(old_targets.len() as int)[k].resolution.resolves(*reg, body@.subrange(toks@[k].0 as int, toks@[k].1 as int))
                },
                diagnostic_view(diagnostics@) == diagnostic_view(old_diags) + unknown_diagnostics(self.targets@.skip(old_targets.len() as int), range),
            decreases toks@.len() - i,
        {
            let (s, e) = toks[i];
            let resolution = resolve_token(reg, body, s, e);
            let ghost prev = self.targets@;
            let ghost prev_diags = diagnostics@;
            self.targets.push(SuppressionTarget { entry, resolution, consumed: false });
            proof {
                assert(self.targets@.take(old_targets.len() as int) =~= old_targets) by {
                    assert(prev.take(old_targets.len() as int) == old_targets);
                }
                assert(self.targets@.skip(old_targets.len() as int).drop_last() =~= prev.skip(old_targets.len() as int));
                assert forall|k: int| 0 <= k < i implies #[trigger] self.targets@.skip(old_targets.len() as int)[k] == prev.skip(old_targets.len() as int)[k] by {}
            }
            match resolution {
                TargetResolution::UnknownGroup => {
                    diagnostics.push(crate::queue::SignalEntry {
                        signal: SuppressionDiagnostic::UnknownGroup,
                        rule: RuleKey::new("suppressions", "unknownGroup"),
                        text_range: range,
                    });
                },
                TargetResolution::UnknownRule => {
                    diagnostics.push(crate::queue::SignalEntry {
                        signal: SuppressionDiagnostic::UnknownRule,
                        rule: RuleKey::new("suppressions", "unknownRule"),
                        text_range: range,
                    });
                },
                _ => {},
            }
            proof {
                assert(diagnostic_view(diagnostics@) =~= diagnostic_view(old_diags) + unknown_diagnostics(self.targets@.skip(old_targets.len() as int), range)) by {
                    if diagnostics@.len() > prev_diags.len() {
                        assert(diagnostics@ == prev_diags.push(diagnostics@.last()));
                        assert(diagnostic_view(diagnostics@) =~= diagnostic_view(prev_diags).push((diagnostics@.last().signal, range)));
                    } else {
                        assert(diagnostics@ == prev_diags);
                    }
                }
            }
            i = i + 1;
        }
    }

    /// Whether a signal of `key` over `range` is silenced: some registered
    /// target that selects `key` belongs to a comment whose node covers
    /// `range`. Every such target is marked consumed.
    pub fn suppress(&mut self, key: &RuleKey, range: TextRange) -> (r: bool)
        requires
            old(self).wf(),
        ensures
            final(self).wf(),
            final(self).entries() == old(self).entries(),
            final(self).targets().len() == old(self).targets().len(),
            r == old(self).spec_is_suppressed(*key, range),
            forall|j: int| 0 <= j < old(self).targets().len() ==> #[trigger] final(self).targets()[j] == (SuppressionTarget {
                consumed: old(self).targets()[j].consumed || old(self).covers(j, *key, range),
                ..old(self).targets()[j]
            }),
    {
        let ghost start = *self;
        let mut found = false;
        let mut j: usize = 0;
        while j < self.targets.len()
            invariant
                start.wf(),
                self.entries@ == start.entries@,
                self.targets@.len() == start.targets@.len(),
                0 <= j <= self.targets@.len(),
                forall|k: int| 0 <= k < j ==> #[trigger] self.targets@[k] == (SuppressionTarget {
                    consumed: start.targets()[k].consumed || start.covers(k, *key, range),
                    ..start.targets()[k]
                }),
                forall|k: int| j <= k < self.targets@.len() ==> #[trigger] self.targets@[k] == start.targets@[k],
                found == exists|k: int| 0 <= k < j && #[trigger] start.covers(k, *key, range),
            decreases self.targets@.len() - j,
        {
            let t = self.targets[j];
            let scope = self.entries[t.entry].scope;
            if scope.contains_range(range) && t.resolution.selects(key) {
                self.targets.set(j, SuppressionTarget { consumed: true, ..t });
                found = true;
            }
            j = j + 1;
        }
        found
    }

    /// The ranges of the comments that have a registered target that
    /// silenced no signal, in the order the comments were added.
    pub fn unused(&self) -> (r: Vec<TextRange>)
        requires
            self.wf(),
        ensures
            r@ == self.unused_ranges(self.entries().len() as int),
    {
        let mut out: Vec<TextRange> = Vec::new();
        let mut i: usize = 0;
        while i < self.entries.len()
            invariant
                0 <= i <= self.entries@.len(),
                out@ == self.unused_ranges(i as int),
            decreases self.entries@.len() - i,
        {
            let mut unused = false;
            let mut j: usize = 0;
            while j < self.targets.len()
                invariant
                    0 <= i < self.entries@.len(),
                    0 <= j <= self.targets@.len(),
                    unused == exists|k: int| 0 <= k < j && (#[trigger] self.targets()[k]).entry == i
                        && self.targets()[k].resolution.is_known() && !self.targets()[k].consumed,
                decreases self.targets@.len() - j,
            {
                let t = self.targets[j];
                let known = match t.resolution {
                    TargetResolution::Group(_) => true,
                    TargetResolution::Rule(_, _) => true,
                    _ => false,
                };
                if t.entry == i && known && !t.consumed {
                    unused = true;
                }
                j = j + 1;
            }
            if unused {
                out.push(self.entries[i].range);
            }
            i = i + 1;
        }
        out
    }
}

/// Whether `a` and `b` hold the same comments and the same targets, up to
/// which targets have been consumed.
pub open spec fn same_shape(a: SuppressionResolver, b: SuppressionResolver) -> bool {
    &&& a.entries() == b.entries()
    &&& a.targets().len() == b.targets().len()
    &&& forall|j: int| 0 <= j < a.targets().len() ==> (#[trigger] a.targets()[j]).entry == b.targets()[j].entry
        && a.targets()[j].resolution == b.targets()[j].resolution
}

/// Consuming targets never changes which signals are silenced.
pub proof fn lemma_same_shape_suppresses(a: SuppressionResolver, b: SuppressionResolver, key: RuleKey, range: TextRange)
    requires
        same_shape(a, b),
    ensures
        a.spec_is_suppressed(key, range) == b.spec_is_suppressed(key, range),
{
    if a.spec_is_suppressed(key, range) {
        let j = choose|j: int| 0 <= j < a.targets().len() && #[trigger] a.covers(j, key, range);
        assert(b.covers(j, key, range));
    }
    if b.spec_is_suppressed(key, range) {
        let j = choose|j: int| 0 <= j < b.targets().len() && #[trigger] b.covers(j, key, range);
        assert(a.targets()[j].entry == b.targets()[j].entry);
        assert(a.covers(j, key, range));
    }
}

/// Consuming targets never changes which signals a target covers.
pub proof fn lemma_same_shape_covers(a: SuppressionResolver, b: SuppressionResolver, j: int, key: RuleKey, range: TextRange)
    requires
        same_shape(a, b),
        0 <= j < a.targets().len(),
    ensures
        a.covers(j, key, range) == b.covers(j, key, range),
{
    assert(a.targets()[j].entry == b.targets()[j].entry);
}

/// The diagnostics that the unknown targets among `ts` produce, in order,
/// each at the range of its comment in `es`.
pub open spec fn unknown_of_seq(ts: Seq<SuppressionTarget>, es: Seq<SuppressionEntry>) -> Seq<(SuppressionDiagnostic, TextRange)>
    decreases ts.len(),
{
    if ts.len() == 0 {
        Seq::empty()
    } else {
        let rest = unknown_of_seq(ts.drop_last(), es);
        let range = es[ts.last().entry as int].range;
        match ts.last().resolution {
            TargetResolution::UnknownGroup => rest.push((SuppressionDiagnostic::UnknownGroup, range)),
            TargetResolution::UnknownRule => rest.push((SuppressionDiagnostic::UnknownRule, range)),
            _ => rest,
        }
    }
}

/// The diagnostics that the unknown targets of `res` produce, in order,
/// each at the range of its comment.
pub open spec fn unknown_of(res: SuppressionResolver) -> Seq<(SuppressionDiagnostic, TextRange)> {
    unknown_of_seq(res.targets(), res.entries())
}

proof fn lemma_unknown_of_extend_entries(ts: Seq<SuppressionTarget>, es: Seq<SuppressionEntry>, x: SuppressionEntry)
    requires
        forall|j: int| 0 <= j < ts.len() ==> (#[trigger] ts[j]).entry < es.len(),
    ensures
        unknown_of_seq(ts, es.push(x)) == unknown_of_seq(ts, es),
    decreases ts.len(),
{
    if ts.len() > 0 {
        assert forall|j: int| 0 <= j < ts.drop_last().len() implies (#[trigger] ts.drop_last()[j]).entry < es.len() by {
            assert(ts.drop_last()[j] == ts[j]);
        }
        lemma_unknown_of_extend_entries(ts.drop_last(), es, x);
        assert(ts[ts.len() - 1].entry < es.len());
    }
}

proof fn lemma_unknown_of_append(ts: Seq<SuppressionTarget>, added: Seq<SuppressionTarget>, es: Seq<SuppressionEntry>, range: TextRange)
    requires
        forall|j: int| 0 <= j < added.len() ==> es[(#[trigger] added[j]).entry as int].range == range,
    ensures
        unknown_of_seq(ts + added, es) == unknown_of_seq(ts, es) + unknown_diagnostics(added, range),
    decreases added.len(),
{
    if added.len() == 0 {
        assert(ts + added =~= ts);
    } else {
        assert((ts + added).drop_last() =~= ts + added.drop_last());
        assert forall|j: int| 0 <= j < added.drop_last().len() implies es[(#[trigger] added.drop_last()[j]).entry as int].range == range by {
            assert(added.drop_last()[j] == added[j]);
        }
        lemma_unknown_of_append(ts, added.drop_last(), es, range);
        assert((ts + added).last() == added.last());
        assert(es[added[added.len() - 1].entry as int].range == range);
        let a = unknown_of_seq(ts, es);
        let b = unknown_diagnostics(added.drop_last(), range);
        assert((a + b).push((SuppressionDiagnostic::UnknownGroup, range)) =~= a + b.push((SuppressionDiagnostic::UnknownGroup, range)));
        assert((a + b).push((SuppressionDiagnostic::UnknownRule, range)) =~= a + b.push((SuppressionDiagnostic::UnknownRule, range)));
    }
}

/// After `add_comment`, the diagnostics of unknown targets are those of all
/// comments so far.
pub proof fn lemma_add_comment_unknown(before: SuppressionResolver, after: SuppressionResolver, range: TextRange, scope: TextRange)
    requires
        before.wf(),
        after.entries() == before.entries().push(SuppressionEntry { range, scope }),
        after.targets().take(before.targets().len() as int) == before.targets(),
        after.targets().len() >= before.targets().len(),
        forall|i: int| 0 <= i < after.targets().len() - before.targets().len() ==>
            (#[trigger] after.targets().skip(before.targets().len() as int)[i]).entry == before.entries().len(),
    ensures
        unknown_of(after) == unknown_of(before) + unknown_diagnostics(after.targets().skip(before.targets().len() as int), range),
{
    let n = before.targets().len() as int;
    let added = after.targets().skip(n);
    assert(after.targets() =~= before.targets() + added);
    lemma_unknown_of_extend_entries(before.targets(), before.entries(), SuppressionEntry { range, scope });
    assert forall|j: int| 0 <= j < added.len() implies after.entries()[(#[trigger] added[j]).entry as int].range == range by {}
    lemma_unknown_of_append(before.targets(), added, after.entries(), range);
}

proof fn lemma_unused_ranges_agree(a: SuppressionResolver, b: SuppressionResolver, n: int)
    requires
        a.entries() == b.entries(),
        forall|i: int| 0 <= i < n ==> a.entry_unused(i) == b.entry_unused(i),
    ensures
        a.unused_ranges(n) == b.unused_ranges(n),
    decreases n,
{
    if n > 0 {
        lemma_unused_ranges_agree(a, b, n - 1);
    }
}

/// A target that names nothing registered is inert: a resolver with one more
/// such target silences the same signals and reports the same comments as
/// unused.
pub proof fn lemma_unknown_target_inert(a: SuppressionResolver, b: SuppressionResolver, j: int, t: SuppressionTarget, key: RuleKey, range: TextRange)
    requires
        a.entries() == b.entries(),
        0 <= j <= a.targets().len(),
        b.targets() == a.targets().insert(j, t),
        !t.resolution.is_known(),
    ensures
        a.spec_is_suppressed(key, range) == b.spec_is_suppressed(key, range),
        a.unused_ranges(a.entries().len() as int) == b.unused_ranges(b.entries().len() as int),
{
    if a.spec_is_suppressed(key, range) {
        let i = choose|i: int| 0 <= i < a.targets().len() && #[trigger] a.covers(i, key, range);
        if i < j {
            assert(b.targets()[i] == a.targets()[i]);
            assert(b.covers(i, key, range));
        } else {
            assert(b.targets()[i + 1] == a.targets()[i]);
            assert(b.covers(i + 1, key, range));
        }
    }
    if b.spec_is_suppressed(key, range) {
        let i = choose|i: int| 0 <= i < b.targets().len() && #[trigger] b.covers(i, key, range);
        if i < j {
            assert(b.targets()[i] == a.targets()[i]);
            assert(a.covers(i, key, range));
        } else if i > j {
            assert(b.targets()[i] == a.targets()[i - 1]);
            assert(a.covers(i - 1, key, range));
        }
    }
    assert forall|e: int| 0 <= e < a.entries().len() implies a.entry_unused(e) == b.entry_unused(e) by {
        if a.entry_unused(e) {
            let i = choose|i: int| 0 <= i < a.targets().len() && (#[trigger] a.targets()[i]).entry == e
                && a.targets()[i].resolution.is_known() && !a.targets()[i].consumed;
            if i < j {
                assert(b.targets()[i] == a.targets()[i]);
            } else {
                assert(b.targets()[i + 1] == a.targets()[i]);
            }
        }
        if b.entry_unused(e) {
            let i = choose|i: int| 0 <= i < b.targets().len() && (#[trigger] b.targets()[i]).entry == e
                && b.targets()[i].resolution.is_known() && !b.targets()[i].consumed;
            if i < j {
                assert(b.targets()[i] == a.targets()[i]);
            } else if i > j {
                assert(b.targets()[i] == a.targets()[i - 1]);
            }
        }
    }
    lemma_unused_ranges_agree(a, b, a.entries().len() as int);
}

} // verus!
