use rome_analyze::keys::{GroupKey, Rule, RuleFilter, RuleGroup, RuleKey};
use rome_analyze::numeric_literals::{get_callee, CallInfo, Callee, Radix};
use rome_analyze::queue::{SignalEntry, SignalQueue};
use rome_analyze::registry::MetadataRegistry;
use rome_analyze::suppression::{resolve_token, split_tokens, SuppressionResolver, TargetResolution};
use rome_analyze::text::{str_eq, TextRange};

struct Style;
impl RuleGroup for Style {
    fn spec_name() -> vstd::seq::Seq<char> {
        // a specification item, checked only by the verifier; never called
        unreachable!()
    }

    fn name() -> &'static str {
        "style"
    }
}

struct NoVar;
impl Rule for NoVar {
    type Group = Style;
    fn spec_name() -> vstd::seq::Seq<char> {
        // a specification item, checked only by the verifier; never called
        unreachable!()
    }

    fn name() -> &'static str {
        "noVar"
    }
}

#[test]
fn keys_carry_their_names() {
    let key = RuleKey::rule::<NoVar>();
    assert_eq!(key.group(), "style");
    assert_eq!(key.rule_name(), "noVar");
    assert_eq!(GroupKey::group::<Style>().group_name(), "style");
    assert!(GroupKey::group::<Style>() == GroupKey::group::<Style>());
    assert!(key.same_as(&RuleKey::new("style", "noVar")));
    assert!(!key.same_as(&RuleKey::new("style", "noLet")));
}

#[test]
fn filters_match_keys() {
    let key = RuleKey::new("style", "noVar");
    assert!(RuleFilter::Group("style").matches(&key));
    assert!(!RuleFilter::Group("correctness").matches(&key));
    assert!(RuleFilter::Rule("style", "noVar").matches(&key));
    assert!(!RuleFilter::Rule("style", "noLet").matches(&key));
    assert!(RuleFilter::from(key).matches(&key));
    assert!(RuleFilter::Group("style") == key);
    assert!(RuleFilter::Rule("style", "noLet") != key);
    assert!(RuleFilter::from(GroupKey::group::<Style>()).matches(&key));
}

#[test]
fn str_eq_compares_content() {
    assert!(str_eq("abc", "abc"));
    assert!(!str_eq("abc", "abd"));
    assert!(!str_eq("abc", "ab"));
    assert!(str_eq("", ""));
}

#[test]
fn queue_pops_smallest_start_first_in_push_order() {
    let mut q = SignalQueue::new();
    let k = RuleKey::new("g", "r");
    q.push(SignalEntry { signal: 1, rule: k, text_range: TextRange::new(7, 9) });
    q.push(SignalEntry { signal: 2, rule: k, text_range: TextRange::new(3, 4) });
    q.push(SignalEntry { signal: 3, rule: k, text_range: TextRange::new(3, 8) });
    q.push(SignalEntry { signal: 4, rule: k, text_range: TextRange::new(0, 1) });
    assert_eq!(q.peek_start(), Some(0));
    let order: Vec<i32> = std::iter::from_fn(|| q.pop().map(|e| e.signal)).collect();
    assert_eq!(order, vec![4, 2, 3, 1]);
    assert!(q.is_empty());
    assert_eq!(q.peek_start(), None);
}

#[test]
fn registry_answers_membership() {
    let mut reg = MetadataRegistry::new();
    reg.insert_rule("group", "rule");
    assert!(reg.has_group("group"));
    assert!(!reg.has_group("grou"));
    assert!(reg.has_rule("group", "rule"));
    assert!(!reg.has_rule("group", "other"));
    assert!(!reg.has_rule("rule", "group"));
}

#[test]
fn tokens_split_on_whitespace() {
    let text = b"  a/b\tc  d\n";
    assert_eq!(split_tokens(text), vec![(2, 5), (6, 7), (9, 10)]);
    assert_eq!(split_tokens(b""), vec![]);
    assert_eq!(split_tokens(b"   "), vec![]);
}

#[test]
fn tokens_resolve_against_registry() {
    let mut reg = MetadataRegistry::new();
    reg.insert_rule("group", "rule");
    let t = b"group group/rule nope group/nope group/rule/x";
    assert!(matches!(resolve_token(&reg, t, 0, 5), TargetResolution::Group("group")));
    assert!(matches!(resolve_token(&reg, t, 6, 16), TargetResolution::Rule("group", "rule")));
    assert!(matches!(resolve_token(&reg, t, 17, 21), TargetResolution::UnknownGroup));
    assert!(matches!(resolve_token(&reg, t, 22, 32), TargetResolution::UnknownRule));
    assert!(matches!(resolve_token(&reg, t, 33, 45), TargetResolution::UnknownRule));
}

#[test]
fn suppress_consumes_matching_targets() {
    let mut reg = MetadataRegistry::new();
    reg.insert_rule("group", "rule");
    reg.insert_rule("group", "other");
    let mut res = SuppressionResolver::new();
    let mut diags = SignalQueue::new();
    res.add_comment(&reg, "//group/rule group/other", TextRange::new(0, 24), TextRange::new(0, 40), &mut diags);
    assert!(diags.is_empty());
    let key = RuleKey::new("group", "rule");
    assert!(!res.suppress(&key, TextRange::new(41, 45)));
    assert_eq!(res.unused(), vec![TextRange::new(0, 24)]);
    assert!(res.suppress(&key, TextRange::new(30, 35)));
    assert_eq!(res.unused(), vec![TextRange::new(0, 24)]);
    assert!(res.suppress(&RuleKey::new("group", "other"), TextRange::new(30, 35)));
    assert_eq!(res.unused(), vec![]);
    assert!(!res.suppress(&RuleKey::new("other", "rule"), TextRange::new(30, 35)));
}

#[test]
fn radix_names() {
    assert_eq!(Radix::Binary.prefix(), "0b");
    assert_eq!(Radix::Octal.prefix(), "0o");
    assert_eq!(Radix::Hexadecimal.prefix(), "0x");
    assert_eq!(Radix::Binary.description(), "binary");
    assert_eq!(Radix::Octal.description(), "octal");
    assert_eq!(Radix::Hexadecimal.description(), "hexadecimal");
    assert_eq!(Radix::Hexadecimal.value(), 16);
}

#[test]
fn numeric_literal_text() {
    let call = CallInfo::new("parseInt()", "111110111".to_string(), Radix::Binary);
    assert_eq!(call.to_numeric_literal(), Some("0b111110111".to_string()));
    let call = CallInfo::new("Number.parseInt()", "767".to_string(), Radix::Octal);
    assert_eq!(call.to_numeric_literal(), Some("0o767".to_string()));
    let call = CallInfo::new("parseInt()", "1F7".to_string(), Radix::Hexadecimal);
    assert_eq!(call.to_numeric_literal(), Some("0x1F7".to_string()));
    let call = CallInfo::new("parseInt()", "12".to_string(), Radix::Binary);
    assert_eq!(call.to_numeric_literal(), None);
    let call = CallInfo::new("parseInt()", "".to_string(), Radix::Octal);
    assert_eq!(call.to_numeric_literal(), None);
    let call = CallInfo::new("parseInt()", "1".repeat(200), Radix::Binary);
    assert_eq!(call.to_numeric_literal(), None);
}

#[test]
fn numeric_literal_messages() {
    let call = CallInfo::new("Number.parseInt()", "767".to_string(), Radix::Octal);
    assert_eq!(call.diagnostic_message(), "Use octal literals instead of Number.parseInt()");
    assert_eq!(call.action_message(), "Replace with octal literals");
}

#[test]
fn callee_detection() {
    assert_eq!(get_callee(&Callee::Identifier { name: "parseInt", declared: false }), Some("parseInt()"));
    assert_eq!(get_callee(&Callee::Identifier { name: "parseInt", declared: true }), None);
    assert_eq!(get_callee(&Callee::Identifier { name: "parseFloat", declared: false }), None);
    assert_eq!(
        get_callee(&Callee::Member { object: "Number", object_declared: false, member: "parseInt" }),
        Some("Number.parseInt()")
    );
    assert_eq!(get_callee(&Callee::Member { object: "Number", object_declared: true, member: "parseInt" }), None);
    assert_eq!(get_callee(&Callee::Member { object: "Math", object_declared: false, member: "parseInt" }), None);
    assert_eq!(get_callee(&Callee::Other), None);
}

#[test]
fn call_info_from_parts() {
    let callee = Callee::Identifier { name: "parseInt", declared: false };
    let call = CallInfo::from_parts(2, Some("767".to_string()), Some(Radix::Octal), &callee).unwrap();
    assert_eq!(call.diagnostic_message(), "Use octal literals instead of parseInt()");
    assert_eq!(call.to_numeric_literal(), Some("0o767".to_string()));
    assert!(CallInfo::from_parts(1, Some("767".to_string()), Some(Radix::Octal), &callee).is_none());
    assert!(CallInfo::from_parts(2, None, Some(Radix::Octal), &callee).is_none());
    assert!(CallInfo::from_parts(2, Some("767".to_string()), None, &callee).is_none());
    let declared = Callee::Identifier { name: "parseInt", declared: true };
    assert!(CallInfo::from_parts(2, Some("767".to_string()), Some(Radix::Octal), &declared).is_none());
}
