use x_proxy::route::{Route, Rule, RuleSet, RuleSetLocal, RuleSetRemote, RuleSetRule, RuleType, RouteManager};

fn rule(kind: RuleType, patterns: &[&str], target: &str) -> Rule {
    Rule {
        kind,
        source: patterns.iter().map(|p| p.to_string()).collect(),
        target: target.to_string(),
    }
}

fn manager(rules: Vec<Rule>, default: &str) -> RouteManager {
    RouteManager::init(rules, default.to_string(), "global".to_string())
}

#[test]
fn switch_domain_exact_match() {
    let m = manager(vec![rule(RuleType::Domain, &["example.com"], "proxy-a")], "direct");
    assert_eq!(m.switch("example.com"), "proxy-a");
    // Domain matching is exact and case-sensitive.
    assert_eq!(m.switch("Example.com"), "direct");
    assert_eq!(m.switch("sub.example.com"), "direct");
}

#[test]
fn switch_keyword_substring_match() {
    let m = manager(vec![rule(RuleType::Keyword, &["google"], "proxy-b")], "direct");
    assert_eq!(m.switch("www.google.com"), "proxy-b");
    assert_eq!(m.switch("google"), "proxy-b");
    assert_eq!(m.switch("gogle.com"), "direct");
}

#[test]
fn switch_first_match_wins() {
    let m = manager(
        vec![
            rule(RuleType::Keyword, &["example"], "first"),
            rule(RuleType::Domain, &["example.com"], "second"),
        ],
        "direct",
    );
    assert_eq!(m.switch("example.com"), "first");
}

#[test]
fn switch_duplicate_rules_only_first_reachable() {
    let m = manager(
        vec![
            rule(RuleType::Domain, &["a.test"], "one"),
            rule(RuleType::Domain, &["a.test"], "two"),
        ],
        "direct",
    );
    assert_eq!(m.switch("a.test"), "one");
}

#[test]
fn switch_no_match_returns_default() {
    let m = manager(vec![rule(RuleType::Domain, &["known.test"], "egress")], "direct");
    assert_eq!(m.switch("unlisted.test"), "direct");
}

#[test]
fn switch_empty_rule_list_returns_default() {
    let m = manager(Vec::new(), "direct");
    assert_eq!(m.switch("anything.at.all"), "direct");
    assert_eq!(m.switch(""), "direct");
}

#[test]
fn switch_empty_pattern_list_never_matches() {
    let m = manager(vec![rule(RuleType::Domain, &[], "egress")], "direct");
    assert_eq!(m.switch("host"), "direct");
}

#[test]
fn switch_empty_keyword_matches_every_host() {
    let m = manager(vec![rule(RuleType::Keyword, &[""], "egress")], "direct");
    assert_eq!(m.switch("any.host"), "egress");
}

#[test]
fn route_init_concatenates_sets_then_inline_rules() {
    let route = Route {
        global: "g".to_string(),
        default: "d".to_string(),
        rule: vec![rule(RuleType::Domain, &["inline.test"], "inline-target")],
        rule_set: vec![RuleSet::Local(RuleSetLocal {
            name: "set1".to_string(),
            path: "set1.yaml".to_string(),
            target: "set-target".to_string(),
        })],
    };
    let set_rules = vec![vec![rule(RuleType::Domain, &["from-set.test"], "set-target")]];
    let compiled = route.init(&set_rules);
    assert_eq!(compiled.len(), 2);
    assert_eq!(compiled[0].source, vec!["from-set.test".to_string()]);
    assert_eq!(compiled[0].target, "set-target");
    assert_eq!(compiled[1].source, vec!["inline.test".to_string()]);
    assert_eq!(compiled[1].target, "inline-target");
}

#[test]
fn rule_set_expand_attaches_target() {
    let set = RuleSet::Local(RuleSetLocal {
        name: "s".to_string(),
        path: "p.yaml".to_string(),
        target: "egress".to_string(),
    });
    let file_rules = vec![RuleSetRule {
        kind: RuleType::Keyword,
        source: vec!["ads".to_string()],
    }];
    let rules = set.expand(file_rules);
    assert_eq!(rules.len(), 1);
    assert_eq!(rules[0].kind, RuleType::Keyword);
    assert_eq!(rules[0].source, vec!["ads".to_string()]);
    assert_eq!(rules[0].target, "egress");
}

#[test]
fn rule_set_remote_expands_to_nothing() {
    let set = RuleSet::Remote(RuleSetRemote {
        name: "r".to_string(),
        url: "http://rules.test/list".to_string(),
        target: "egress".to_string(),
    });
    let rules = set.expand(Vec::new());
    assert_eq!(rules.len(), 0);
}

#[test]
fn route_manager_keeps_its_fallbacks() {
    let m = RouteManager::init(Vec::new(), "fallback".to_string(), "all".to_string());
    assert_eq!(m.default, "fallback");
    assert_eq!(m.global, "all");
    assert_eq!(m.rule.len(), 0);
}

#[test]
fn rule_set_rule_to_rule() {
    let entry = RuleSetRule {
        kind: RuleType::Domain,
        source: vec!["x.test".to_string()],
    };
    let r = entry.to_rule("out");
    assert_eq!(r.kind, RuleType::Domain);
    assert_eq!(r.source, vec!["x.test".to_string()]);
    assert_eq!(r.target, "out");
}
