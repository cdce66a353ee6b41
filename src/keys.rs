//! Identifiers of rule groups and rules, and the filters over them.
use vstd::prelude::*;

use crate::text::str_eq;

verus! {

/// A group of rules, named once for the whole process.
pub trait RuleGroup {
    /// The group's stable name, as characters.
    spec fn spec_name() -> Seq<char>;

    /// The group's stable name.
    fn name() -> (r: &'static str)
        ensures
            r@ == Self::spec_name(),
    ;
}

/// A lint rule, which belongs to exactly one group.
pub trait Rule {
    type Group: RuleGroup;

    /// The rule's stable name within its group, as characters.
    spec fn spec_name() -> Seq<char>;

    /// The rule's stable name within its group.
    fn name() -> (r: &'static str)
        ensures
            r@ == Self::spec_name(),
    ;
}

/// Opaque identifier for a group of rules.
#[derive(Copy, Clone, Debug)]
pub struct GroupKey {
    group: &'static str,
}

impl GroupKey {
    /// The name of the group.
    pub closed spec fn group_str(&self) -> &'static str {
        self.group
    }

    pub open spec fn name(&self) -> Seq<char> {
        self.group_str()@
    }

    pub(crate) fn new(group: &'static str) -> (r: GroupKey)
        ensures
            r.group_str() == group,
            r.name() == group@,
    {
        GroupKey { group }
    }

    /// The key of the group type `G`.
    pub fn group<G: RuleGroup>() -> (r: GroupKey)
        ensures
            r.name() == G::spec_name(),
    {
        GroupKey::new(G::name())
    }

    /// The name of the group.
    pub fn group_name(&self) -> (r: &'static str)
        ensures
            r@ == self.name(),
    {
        self.group
    }
}

/// Opaque identifier for a single rule: its group name and its own name.
#[derive(Copy, Clone, Debug, PartialEq, Eq, PartialOrd, Ord, Hash)]
pub struct RuleKey {
    group: &'static str,
    rule: &'static str,
}

impl RuleKey {
    pub closed spec fn group_str(&self) -> &'static str {
        self.group
    }

    pub closed spec fn rule_str(&self) -> &'static str {
        self.rule
    }

    pub open spec fn group_spec(&self) -> Seq<char> {
        self.group_str()@
    }

    pub open spec fn rule_spec(&self) -> Seq<char> {
        self.rule_str()@
    }

    pub fn new(group: &'static str, rule: &'static str) -> (r: RuleKey)
        ensures
            r.group_str() == group,
            r.rule_str() == rule,
            r.group_spec() == group@,
            r.rule_spec() == rule@,
    {
        RuleKey { group, rule }
    }

    /// The key of the rule type `R`, in the group `R::Group`.
    pub fn rule<R: Rule>() -> (r: RuleKey)
        ensures
            r.group_spec() == <R::Group as RuleGroup>::spec_name(),
            r.rule_spec() == R::spec_name(),
    {
        RuleKey::new(<R::Group as RuleGroup>::name(), R::name())
    }

    /// The name of the rule's group.
    pub fn group(&self) -> (r: &'static str)
        ensures
            r@ == self.group_spec(),
    {
        self.group
    }

    /// The name of the rule within its group.
    pub fn rule_name(&self) -> (r: &'static str)
        ensures
            r@ == self.rule_spec(),
    {
        self.rule
    }

    /// Whether both keys name the same group and the same rule.
    pub fn same_as(&self, other: &RuleKey) -> (r: bool)
        ensures
            r == (self.group_spec() == other.group_spec() && self.rule_spec() == other.rule_spec()),
    {
        str_eq(self.group, other.group) && str_eq(self.rule, other.rule)
    }
}

/// A selector over rules: a whole group, or one rule of a group.
#[derive(Copy, Clone, Debug)]
pub enum RuleFilter<'a> {
    Group(&'a str),
    Rule(&'a str, &'a str),
}

impl<'a> RuleFilter<'a> {
    /// Whether the filter selects the rule `key`.
    pub open spec fn selects(&self, key: RuleKey) -> bool {
        match *self {
            RuleFilter::Group(g) => g@ == key.group_spec(),
            RuleFilter::Rule(g, r) => g@ == key.group_spec() && r@ == key.rule_spec(),
        }
    }

    /// Whether the filter selects the rule `key`: a group filter selects every
    /// rule of that group, a rule filter exactly that rule.
    pub fn matches(&self, key: &RuleKey) -> (r: bool)
        ensures
            r == self.selects(*key),
    {
        match *self {
            RuleFilter::Group(group) => str_eq(group, key.group),
            RuleFilter::Rule(group, rule) => str_eq(group, key.group) && str_eq(rule, key.rule),
        }
    }
}

impl From<GroupKey> for RuleFilter<'static> {
    fn from(key: GroupKey) -> (r: RuleFilter<'static>) {
        RuleFilter::Group(key.group)
    }
}

impl vstd::std_specs::convert::FromSpecImpl<GroupKey> for RuleFilter<'static> {
    open spec fn obeys_from_spec() -> bool {
        true
    }

    open spec fn from_spec(key: GroupKey) -> RuleFilter<'static> {
        RuleFilter::Group(key.group_str())
    }
}

impl From<RuleKey> for RuleFilter<'static> {
    fn from(key: RuleKey) -> (r: RuleFilter<'static>) {
        RuleFilter::Rule(key.group, key.rule)
    }
}

impl vstd::std_specs::convert::FromSpecImpl<RuleKey> for RuleFilter<'static> {
    open spec fn obeys_from_spec() -> bool {
        true
    }

    open spec fn from_spec(key: RuleKey) -> RuleFilter<'static> {
        RuleFilter::Rule(key.group_str(), key.rule_str())
    }
}

impl<'a> PartialEq<RuleKey> for RuleFilter<'a> {
    fn eq(&self, other: &RuleKey) -> (r: bool) {
        self.matches(other)
    }
}

impl<'a> vstd::std_specs::cmp::PartialEqSpecImpl<RuleKey> for RuleFilter<'a> {
    open spec fn obeys_eq_spec() -> bool {
        true
    }

    open spec fn eq_spec(&self, other: &RuleKey) -> bool {
        self.selects(*other)
    }
}

/// The filter made from a rule key selects that rule alone; the filter made
/// from a group key selects every rule of that group.
pub proof fn lemma_filter_from_key(rule: RuleKey, group: GroupKey, other: RuleKey)
    ensures
        <RuleFilter<'static> as vstd::std_specs::convert::FromSpec<RuleKey>>::from_spec(rule).selects(other)
            <==> (other.group_spec() == rule.group_spec() && other.rule_spec() == rule.rule_spec()),
        <RuleFilter<'static> as vstd::std_specs::convert::FromSpec<GroupKey>>::from_spec(group).selects(other)
            <==> other.group_spec() == group.name(),
{
}

impl PartialEq for GroupKey {
    fn eq(&self, other: &GroupKey) -> (r: bool) {
        str_eq(self.group, other.group)
    }
}

impl vstd::std_specs::cmp::PartialEqSpecImpl for GroupKey {
    open spec fn obeys_eq_spec() -> bool {
        true
    }

    open spec fn eq_spec(&self, other: &GroupKey) -> bool {
        self.name() == other.name()
    }
}

impl Eq for GroupKey {
}

} // verus!
