//! The rule table: rule and rule-set declarations, compilation of the
//! rule list, and the `RouteManager` that classifies a target host to a
//! named egress.

use vstd::prelude::*;
use crate::text::{contains_bytes, contains_seq, str_eq};
use vstd::utf8::encode_utf8;

verus! {

/// How a rule's patterns are held against a target host.
#[derive(Debug, Clone, Copy, PartialEq, Eq, Structural)]
pub enum RuleType {
    /// The host equals a pattern exactly.
    Domain,
    /// A pattern occurs as a substring of the host.
    Keyword,
}

/// One routing rule: match the target host, route to `target`.
#[derive(Debug)]
pub struct Rule {
    pub kind: RuleType,
    pub source: Vec<String>,
    pub target: String,
}

/// The mathematical content of a rule.
pub ghost struct RuleView {
    pub kind: RuleType,
    pub source: Seq<Seq<char>>,
    pub target: Seq<char>,
}

impl View for Rule {
    type V = RuleView;

    open spec fn view(&self) -> RuleView {
        RuleView { kind: self.kind, source: self.source.deep_view(), target: self.target@ }
    }
}

/// The views of a list of rules.
pub open spec fn rules_view(s: Seq<Rule>) -> Seq<RuleView> {
    s.map_values(|r: Rule| r@)
}

impl Clone for Rule {
    fn clone(&self) -> (r: Self)
        ensures
            r@ == self@,
    {
        let source = self.source.clone();
        proof {
            assert(forall|i: int|
                0 <= i < self.source@.len() ==> #[trigger] source@[i]@ == self.source@[i]@);
            assert(source.deep_view() =~= self.source.deep_view());
        }
        let r = Rule { kind: self.kind, source, target: self.target.clone() };
        proof {
            assert(r@ =~= self@) by {
                assert(r@.source == self@.source);
            }
        }
        r
    }
}

/// One entry of a rule-set file: a rule without a target, which takes the
/// target of the set that declared it.
#[derive(Debug)]
pub struct RuleSetRule {
    pub kind: RuleType,
    pub source: Vec<String>,
}

impl RuleSetRule {
    /// The rule this entry denotes once a target is attached.
    pub open spec fn spec_to_rule(&self, target: Seq<char>) -> RuleView {
        RuleView { kind: self.kind, source: self.source.deep_view(), target }
    }

    /// Attaches the set's target to a rule read from a rule-set file.
    pub fn to_rule(self, target: &str) -> (r: Rule)
        ensures
            r@ == self.spec_to_rule(target@),
    {
        Rule { kind: self.kind, source: self.source, target: target.to_owned() }
    }
}

/// The parsed form of a local rule-set file.
#[derive(Debug)]
pub struct RuleSetFile {
    pub rule: Vec<RuleSetRule>,
}

/// A rule-set read from a local file.
#[derive(Debug)]
pub struct RuleSetLocal {
    pub name: String,
    pub path: String,
    pub target: String,
}

/// A rule-set fetched from a URL; the fetch is a non-goal and such a set
/// expands to no rules.
#[derive(Debug)]
pub struct RuleSetRemote {
    pub name: String,
    pub url: String,
    pub target: String,
}

/// A declaration that expands to zero or more rules at load time.
#[derive(Debug)]
pub enum RuleSet {
    Local(RuleSetLocal),
    Remote(RuleSetRemote),
}

impl RuleSet {
    pub open spec fn spec_target(&self) -> Seq<char> {
        match self {
            RuleSet::Local(local) => local.target@,
            RuleSet::Remote(remote) => remote.target@,
        }
    }

    /// The target outbound name that the set's rules share.
    pub fn target(&self) -> (r: &str)
        ensures
            r@ == self.spec_target(),
    {
        match self {
            RuleSet::Local(local) => local.target.as_str(),
            RuleSet::Remote(remote) => remote.target.as_str(),
        }
    }

    /// Expands the set over the rules read from its file: each one takes
    /// the set's target.  A remote set expands to no rules.
    pub fn expand(&self, file_rules: Vec<RuleSetRule>) -> (r: Vec<Rule>)
        ensures
            self is Local ==> rules_view(r@) == Seq::new(
                file_rules@.len(),
                |i: int| file_rules@[i].spec_to_rule(self.spec_target()),
            ),
            self is Remote ==> r@.len() == 0,
    {
        match self {
            RuleSet::Local(local) => {
                let total = file_rules.len();
                let mut out: Vec<Rule> = Vec::new();
                let mut rest = file_rules;
                let ghost all = rest@;
                let mut i: usize = 0;
                while rest.len() > 0
                    invariant
                        i + rest@.len() == total,
                        total == all.len(),
                        rest@ =~= all.skip(i as int),
                        out@.len() == i,
                        forall|k: int|
                            0 <= k < i ==> #[trigger] out@[k]@ == all[k].spec_to_rule(
                                local.target@,
                            ),
                    decreases rest@.len(),
                {
                    let entry = rest.remove(0);
                    assert(entry == all[i as int]);
                    out.push(entry.to_rule(local.target.as_str()));
                    assert(rest@ =~= all.skip(i + 1));
                    i = i + 1;
                }
                assert(rules_view(out@) =~= Seq::new(
                    all.len(),
                    |k: int| all[k].spec_to_rule(local.target@),
                ));
                out
            },
            RuleSet::Remote(_) => Vec::new(),
        }
    }
}

/// The route section of a configuration.
#[derive(Debug)]
pub struct Route {
    pub global: String,
    pub default: String,
    pub rule: Vec<Rule>,
    pub rule_set: Vec<RuleSet>,
}

/// Concatenation of the rule lists produced by each rule-set, in declared
/// order.
pub open spec fn concat_rule_sets(sets: Seq<Seq<RuleView>>) -> Seq<RuleView>
    decreases sets.len(),
{
    if sets.len() == 0 {
        Seq::empty()
    } else {
        sets.first() + concat_rule_sets(sets.drop_first())
    }
}

proof fn lemma_concat_take_step(sets: Seq<Seq<RuleView>>, i: int)
    requires
        0 <= i < sets.len(),
    ensures
        concat_rule_sets(sets.take(i + 1)) == concat_rule_sets(sets.take(i)) + sets[i],
    decreases i,
{
    if i == 0 {
        assert(sets.take(1).first() == sets[0]);
        assert(sets.take(1).drop_first() =~= Seq::<Seq<RuleView>>::empty());
        assert(sets.take(0) =~= Seq::<Seq<RuleView>>::empty());
        assert(concat_rule_sets(sets.take(1)) =~= concat_rule_sets(sets.take(0)) + sets[0]);
    } else {
        let rest = sets.drop_first();
        lemma_concat_take_step(rest, i - 1);
        assert(sets.take(i + 1).drop_first() =~= rest.take(i));
        assert(sets.take(i).drop_first() =~= rest.take(i - 1));
        assert(sets.take(i + 1).first() == sets.first());
        assert(sets.take(i).first() == sets.first());
        assert(concat_rule_sets(sets.take(i + 1)) == sets.first() + concat_rule_sets(rest.take(i)));
        assert(rest[i - 1] == sets[i]);
        assert(concat_rule_sets(sets.take(i + 1)) =~= concat_rule_sets(sets.take(i)) + sets[i]);
    }
}

/// Every element of the concatenation comes from one of the sets.
pub proof fn lemma_concat_elem(sets: Seq<Seq<RuleView>>, idx: int)
    requires
        0 <= idx < concat_rule_sets(sets).len(),
    ensures
        exists|i: int, j: int|
            0 <= i < sets.len() && 0 <= j < sets[i].len() && concat_rule_sets(sets)[idx] == (
            #[trigger] sets[i][j]),
    decreases sets.len(),
{
    let first = sets.first();
    if idx < first.len() {
        assert(concat_rule_sets(sets)[idx] == sets[0][idx]);
    } else {
        let rest = sets.drop_first();
        lemma_concat_elem(rest, idx - first.len());
        let (i, j) = choose|i: int, j: int|
            0 <= i < rest.len() && 0 <= j < rest[i].len() && concat_rule_sets(rest)[idx
                - first.len()] == (#[trigger] rest[i][j]);
        assert(sets[i + 1] == rest[i]);
        assert(concat_rule_sets(sets)[idx] == sets[i + 1][j]);
    }
}

/// Copies a list of rules, keeping their mathematical content.
pub fn clone_rules(v: &Vec<Rule>) -> (r: Vec<Rule>)
    ensures
        rules_view(r@) == rules_view(v@),
{
    let mut out: Vec<Rule> = Vec::new();
    let n = v.len();
    let mut i: usize = 0;
    while i < n
        invariant
            i <= n,
            n == v@.len(),
            out@.len() == i,
            forall|k: int| 0 <= k < i ==> #[trigger] out@[k]@ == v@[k]@,
        decreases n - i,
    {
        out.push(v[i].clone());
        i = i + 1;
    }
    assert forall|k: int| 0 <= k < n implies #[trigger] rules_view(out@)[k] == rules_view(v@)[k] by {
        assert(rules_view(out@)[k] == out@[k]@);
        assert(rules_view(v@)[k] == v@[k]@);
    }
    assert(rules_view(out@) =~= rules_view(v@));
    out
}

/// The views of the per-set rule lists handed to `Route::init`.
pub open spec fn set_rules_view(s: Seq<Vec<Rule>>) -> Seq<Seq<RuleView>> {
    s.map_values(|v: Vec<Rule>| rules_view(v@))
}

impl Route {
    /// Compiles the rule list: the rules produced by each rule-set, in
    /// declared order, then the inline rules.  `set_rules` holds the rules
    /// each set produced.
    pub fn init(&self, set_rules: &Vec<Vec<Rule>>) -> (r: Vec<Rule>)
        requires
            set_rules@.len() == self.rule_set@.len(),
        ensures
            rules_view(r@) == concat_rule_sets(set_rules_view(set_rules@)) + rules_view(
                self.rule@,
            ),
    {
        let ghost sets = set_rules_view(set_rules@);
        let mut out: Vec<Rule> = Vec::new();
        let n = set_rules.len();
        let mut i: usize = 0;
        assert(sets.take(0) =~= Seq::<Seq<RuleView>>::empty());
        while i < n
            invariant
                i <= n,
                n == set_rules@.len(),
                sets == set_rules_view(set_rules@),
                rules_view(out@) == concat_rule_sets(sets.take(i as int)),
            decreases n - i,
        {
            let m = set_rules[i].len();
            let mut j: usize = 0;
            while j < m
                invariant
                    i < n,
                    j <= m,
                    n == set_rules@.len(),
                    m == set_rules@[i as int]@.len(),
                    sets == set_rules_view(set_rules@),
                    rules_view(out@) == concat_rule_sets(sets.take(i as int)) + sets[i as int].take(
                        j as int,
                    ),
                decreases m - j,
            {
                let ghost prev = out@;
                proof {
                    assert(sets[i as int] == rules_view(set_rules@[i as int]@));
                    assert(sets[i as int][j as int] == set_rules@[i as int]@[j as int]@);
                }
                out.push(set_rules[i][j].clone());
                proof {
                    assert(out@.drop_last() =~= prev);
                    assert(out@.last()@ == sets[i as int][j as int]);
                    assert(sets[i as int].take(j + 1) =~= sets[i as int].take(j as int).push(
                        sets[i as int][j as int],
                    ));
                    assert(sets[i as int].len() == m);
                    assert(rules_view(prev).len() == prev.len());
                    assert(prev.len() == concat_rule_sets(sets.take(i as int)).len() + j);
                    assert(rules_view(out@).len() == out@.len() == prev.len() + 1);
                    assert forall|k: int| 0 <= k < out@.len() implies #[trigger] rules_view(out@)[k]
                        == (concat_rule_sets(sets.take(i as int)) + sets[i as int].take(j + 1))[k] by {
                        assert(rules_view(out@)[k] == out@[k]@);
                        if k < prev.len() {
                            assert(out@[k] == prev[k]);
                            assert(rules_view(prev)[k] == prev[k]@);
                        } else {
                            assert(k == prev.len());
                            assert(out@[k]@ == sets[i as int][j as int]);
                        }
                    }
                    assert(rules_view(out@) =~= concat_rule_sets(sets.take(i as int))
                        + sets[i as int].take(j + 1));
                }
                j = j + 1;
            }
            proof {
                assert(sets[i as int].take(m as int) =~= sets[i as int]);
                lemma_concat_take_step(sets, i as int);
            }
            i = i + 1;
        }
        assert(sets.take(n as int) =~= sets);
        let m = self.rule.len();
        let mut j: usize = 0;
        assert(rules_view(self.rule@).take(0) =~= Seq::<RuleView>::empty());
        assert(rules_view(out@) =~= concat_rule_sets(sets) + rules_view(self.rule@).take(0));
        while j < m
            invariant
                j <= m,
                m == self.rule@.len(),
                sets == set_rules_view(set_rules@),
                rules_view(out@) == concat_rule_sets(sets) + rules_view(self.rule@).take(j as int),
            decreases m - j,
        {
            let ghost prev = out@;
            out.push(self.rule[j].clone());
            proof {
                assert(out@.drop_last() =~= prev);
                assert(out@.last()@ == self.rule@[j as int]@);
                assert(rules_view(self.rule@).take(j + 1) =~= rules_view(self.rule@).take(
                    j as int,
                ).push(self.rule@[j as int]@));
                assert(rules_view(self.rule@).len() == self.rule@.len());
                assert(rules_view(prev).len() == prev.len());
                assert(prev.len() == concat_rule_sets(sets).len() + j);
                assert(rules_view(out@).len() == out@.len() == prev.len() + 1);
                assert forall|k: int| 0 <= k < out@.len() implies #[trigger] rules_view(out@)[k]
                    == (concat_rule_sets(sets) + rules_view(self.rule@).take(j + 1))[k] by {
                    assert(rules_view(out@)[k] == out@[k]@);
                    if k < prev.len() {
                        assert(out@[k] == prev[k]);
                        assert(rules_view(prev)[k] == prev[k]@);
                    } else {
                        assert(k == prev.len());
                        assert(out@[k]@ == self.rule@[j as int]@);
                        assert(rules_view(self.rule@).take(j + 1)[j as int] == self.rule@[j as int]@);
                    }
                }
                assert(rules_view(out@) =~= concat_rule_sets(sets) + rules_view(self.rule@).take(
                    j + 1,
                ));
            }
            j = j + 1;
        }
        assert(rules_view(self.rule@).take(m as int) =~= rules_view(self.rule@));
        out
    }
}

/// Whether one pattern matches the host, per the rule kind.
pub open spec fn pattern_matches(kind: RuleType, pat: Seq<char>, host: Seq<char>) -> bool {
    match kind {
        RuleType::Domain => pat == host,
        RuleType::Keyword => contains_seq(encode_utf8(host), encode_utf8(pat)),
    }
}

/// Whether a rule matches the host: any of its patterns does.
pub open spec fn rule_matches(r: RuleView, host: Seq<char>) -> bool {
    exists|k: int| 0 <= k < r.source.len() && pattern_matches(r.kind, r.source[k], host)
}

/// The egress the ordered rule list selects for a host: the target of the
/// first matching rule, else the fallback.
pub open spec fn spec_switch(rules: Seq<RuleView>, default: Seq<char>, host: Seq<char>) -> Seq<
    char,
>
    decreases rules.len(),
{
    if rules.len() == 0 {
        default
    } else if rule_matches(rules.first(), host) {
        rules.first().target
    } else {
        spec_switch(rules.drop_first(), default, host)
    }
}

/// First match wins: if rule `i` matches the host and no earlier rule
/// does, the selector returns rule `i`'s target.
pub proof fn lemma_switch_first_match(
    rules: Seq<RuleView>,
    default: Seq<char>,
    host: Seq<char>,
    i: int,
)
    requires
        0 <= i < rules.len(),
        rule_matches(rules[i], host),
        forall|j: int| 0 <= j < i ==> !rule_matches(#[trigger] rules[j], host),
    ensures
        spec_switch(rules, default, host) == rules[i].target,
    decreases i,
{
    if i == 0 {
    } else {
        assert(!rule_matches(rules.first(), host));
        let rest = rules.drop_first();
        assert(rest[i - 1] == rules[i]);
        assert(forall|j: int| 0 <= j < i - 1 ==> #[trigger] rest[j] == rules[j + 1]);
        lemma_switch_first_match(rest, default, host, i - 1);
    }
}

/// No match: when no rule matches the host, the selector falls back to
/// the default egress.
pub proof fn lemma_switch_no_match(rules: Seq<RuleView>, default: Seq<char>, host: Seq<char>)
    requires
        forall|j: int| 0 <= j < rules.len() ==> !rule_matches(#[trigger] rules[j], host),
    ensures
        spec_switch(rules, default, host) == default,
    decreases rules.len(),
{
    if rules.len() > 0 {
        let rest = rules.drop_first();
        assert(forall|j: int| 0 <= j < rest.len() ==> #[trigger] rest[j] == rules[j + 1]);
        lemma_switch_no_match(rest, default, host);
    }
}

/// The selector only ever answers with the default egress or with the
/// target of a matching rule.
pub proof fn lemma_switch_result(rules: Seq<RuleView>, default: Seq<char>, host: Seq<char>)
    ensures
        spec_switch(rules, default, host) == default || exists|i: int|
            0 <= i < rules.len() && spec_switch(rules, default, host) == (
            #[trigger] rules[i]).target && rule_matches(rules[i], host),
    decreases rules.len(),
{
    if rules.len() == 0 {
    } else if rule_matches(rules.first(), host) {
        assert(spec_switch(rules, default, host) == rules[0].target && rule_matches(
            rules[0],
            host,
        ));
    } else {
        let rest = rules.drop_first();
        lemma_switch_result(rest, default, host);
        if spec_switch(rest, default, host) != default {
            let i = choose|i: int|
                0 <= i < rest.len() && spec_switch(rest, default, host) == (
                #[trigger] rest[i]).target && rule_matches(rest[i], host);
            assert(rules[i + 1] == rest[i]);
        }
    }
}

/// The compiled rule table and the two named fallback egresses.
pub struct RouteManager {
    pub rule: Vec<Rule>,
    pub global: String,
    pub default: String,
}

fn rule_matches_host(r: &Rule, host: &str) -> (b: bool)
    ensures
        b == rule_matches(r@, host@),
{
    let n = r.source.len();
    let mut k: usize = 0;
    while k < n
        invariant
            k <= n,
            n == r.source@.len(),
            forall|j: int| 0 <= j < k ==> !pattern_matches(r.kind, r@.source[j], host@),
        decreases n - k,
    {
        assert(r@.source[k as int] == r.source@[k as int]@);
        let hit = match r.kind {
            RuleType::Domain => str_eq(r.source[k].as_str(), host),
            RuleType::Keyword => contains_bytes(host.as_bytes(), r.source[k].as_str().as_bytes()),
        };
        if hit {
            assert(pattern_matches(r@.kind, r@.source[k as int], host@));
            return true;
        }
        k = k + 1;
    }
    false
}

impl RouteManager {
    /// Wraps a compiled rule list with its fallback egresses.
    pub fn init(rule: Vec<Rule>, default: String, global: String) -> (r: Self)
        ensures
            r.rule == rule,
            r.default == default,
            r.global == global,
    {
        RouteManager { rule, global, default }
    }

    /// Classifies a target host to an egress name: the target of the first
    /// matching rule, else the default.  Total over all hosts.
    pub fn switch(&self, target_host: &str) -> (r: &str)
        ensures
            r@ == spec_switch(rules_view(self.rule@), self.default@, target_host@),
    {
        let ghost rules = rules_view(self.rule@);
        let n = self.rule.len();
        let mut i: usize = 0;
        assert(rules.skip(0) =~= rules);
        while i < n
            invariant
                i <= n,
                n == self.rule@.len(),
                rules == rules_view(self.rule@),
                spec_switch(rules.skip(i as int), self.default@, target_host@) == spec_switch(
                    rules,
                    self.default@,
                    target_host@,
                ),
            decreases n - i,
        {
            let ghost pre = rules.skip(i as int);
            assert(pre.first() == rules[i as int]);
            if rule_matches_host(&self.rule[i], target_host) {
                return self.rule[i].target.as_str();
            }
            assert(pre.drop_first() =~= rules.skip(i + 1));
            i = i + 1;
        }
        assert(rules.skip(n as int) =~= Seq::<RuleView>::empty());
        self.default.as_str()
    }
}

} // verus!
