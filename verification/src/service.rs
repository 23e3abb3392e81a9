//! The compiled service configuration: the three managers built once
//! from a validated configuration and shared read-only by every
//! connection.

use vstd::prelude::*;
use crate::config::{
    clone_inbounds, clone_outbounds, contains_outbound, has_outbound, spec_config_valid,
    spec_validate_error, Config, ConfigError,
};
use crate::manager::{
    lemma_get_outbound_some, spec_get_outbound, InboundManager, OutboundManager,
};
use crate::route::{
    clone_rules, concat_rule_sets, lemma_concat_elem, lemma_switch_result, rules_view,
    set_rules_view, spec_switch, Rule, RouteManager,
};

verus! {

/// The immutable handle threaded through all accept tasks.
pub struct ServiceConfig {
    pub inbound_manager: InboundManager,
    pub outbound_manager: OutboundManager,
    pub route_manager: RouteManager,
}

/// The per-set rule lists after demotion: a set whose target is not a
/// known outbound contributes no rules.
pub open spec fn demoted_sets(c: Config, sets: Seq<Vec<Rule>>) -> Seq<Seq<crate::route::RuleView>> {
    Seq::new(
        sets.len(),
        |i: int|
            if has_outbound(c.outbound@, c.route.rule_set@[i].spec_target()) {
                rules_view(sets[i]@)
            } else {
                Seq::empty()
            },
    )
}

/// Every rule the route manager holds, and its default, name an outbound
/// the outbound manager holds.
pub open spec fn route_covered(sc: ServiceConfig) -> bool {
    &&& has_outbound(sc.outbound_manager.entries@, sc.route_manager.default@)
    &&& forall|k: int|
        0 <= k < rules_view(sc.route_manager.rule@).len() ==> has_outbound(
            sc.outbound_manager.entries@,
            (#[trigger] rules_view(sc.route_manager.rule@)[k]).target,
        )
}

impl ServiceConfig {
    /// Compiles a configuration into the three managers.  `set_rules`
    /// holds the rules each rule-set produced; a set whose target is not
    /// a declared outbound is demoted to no rules.  Fails exactly on the
    /// configurations that validation rejects.
    #[verifier::loop_isolation(false)]
    pub fn load(config: &Config, set_rules: &Vec<Vec<Rule>>) -> (r: Result<
        ServiceConfig,
        ConfigError,
    >)
        requires
            set_rules@.len() == config.route.rule_set@.len(),
            forall|i: int, j: int|
                0 <= i < set_rules@.len() && 0 <= j < set_rules@[i]@.len() ==> (
                #[trigger] set_rules@[i]@[j])@.target == config.route.rule_set@[i].spec_target(),
        ensures
            r is Ok <==> spec_config_valid(*config),
            r matches Err(e) ==> spec_validate_error(*config, e),
            r matches Ok(sc) ==> {
                &&& sc.inbound_manager.entries@ == config.inbound@
                &&& sc.outbound_manager.entries@ == config.outbound@
                &&& sc.route_manager.default@ == config.route.default@
                &&& sc.route_manager.global@ == config.route.global@
                &&& rules_view(sc.route_manager.rule@) == concat_rule_sets(
                    demoted_sets(*config, set_rules@),
                ) + rules_view(config.route.rule@)
                &&& route_covered(sc)
            },
    {
        if let Err(e) = config.validate() {
            return Err(e);
        }
        let ghost demoted_spec = demoted_sets(*config, set_rules@);
        let mut demoted: Vec<Vec<Rule>> = Vec::new();
        let n = set_rules.len();
        let mut i: usize = 0;
        while i < n
            invariant
                i <= n,
                demoted@.len() == i,
                forall|k: int|
                    0 <= k < i ==> rules_view((#[trigger] demoted@[k])@) == demoted_spec[k],
            decreases n - i,
        {
            if contains_outbound(&config.outbound, config.route.rule_set[i].target()) {
                demoted.push(clone_rules(&set_rules[i]));
            } else {
                let empty: Vec<Rule> = Vec::new();
                assert(rules_view(empty@) =~= Seq::<crate::route::RuleView>::empty());
                demoted.push(empty);
            }
            i = i + 1;
        }
        proof {
            assert forall|k: int| 0 <= k < n implies #[trigger] set_rules_view(demoted@)[k]
                == demoted_spec[k] by {
                assert(set_rules_view(demoted@)[k] == rules_view(demoted@[k]@));
            }
            assert(set_rules_view(demoted@) =~= demoted_spec);
        }
        let compiled = config.route.init(&demoted);
        let inbound_manager = InboundManager::init(clone_inbounds(&config.inbound));
        let outbound_manager = OutboundManager::init(clone_outbounds(&config.outbound));
        let route_manager = RouteManager::init(
            compiled,
            config.route.default.clone(),
            config.route.global.clone(),
        );
        let sc = ServiceConfig { inbound_manager, outbound_manager, route_manager };
        proof {
            let rvs = rules_view(sc.route_manager.rule@);
            let head = concat_rule_sets(demoted_spec);
            assert forall|k: int| 0 <= k < rvs.len() implies has_outbound(
                sc.outbound_manager.entries@,
                (#[trigger] rvs[k]).target,
            ) by {
                if k < head.len() {
                    lemma_concat_elem(demoted_spec, k);
                    let (a, b) = choose|a: int, b: int|
                        0 <= a < demoted_spec.len() && 0 <= b < demoted_spec[a].len() && head[k]
                            == (#[trigger] demoted_spec[a][b]);
                    assert(has_outbound(config.outbound@, config.route.rule_set@[a].spec_target()));
                    assert(demoted_spec[a] == rules_view(set_rules@[a]@));
                    assert(demoted_spec[a][b] == set_rules@[a]@[b]@);
                    assert(set_rules@[a]@[b]@.target == config.route.rule_set@[a].spec_target());
                } else {
                    let kk = k - head.len();
                    assert(rvs[k] == rules_view(config.route.rule@)[kk]);
                    assert(rules_view(config.route.rule@)[kk] == (
                    #[trigger] config.route.rule@[kk])@);
                }
            }
        }
        Ok(sc)
    }
}

/// Law: once a configuration has loaded, the egress selector is total:
/// for every target host whatsoever, the selected egress names an
/// outbound that the outbound manager resolves.
pub proof fn lemma_switch_total(sc: ServiceConfig, host: Seq<char>)
    requires
        route_covered(sc),
    ensures
        has_outbound(
            sc.outbound_manager.entries@,
            spec_switch(rules_view(sc.route_manager.rule@), sc.route_manager.default@, host),
        ),
        spec_get_outbound(
            sc.outbound_manager.entries@,
            spec_switch(rules_view(sc.route_manager.rule@), sc.route_manager.default@, host),
        ) is Some,
{
    let rules = rules_view(sc.route_manager.rule@);
    let picked = spec_switch(rules, sc.route_manager.default@, host);
    lemma_switch_result(rules, sc.route_manager.default@, host);
    if picked != sc.route_manager.default@ {
        let i = choose|i: int|
            0 <= i < rules.len() && picked == (#[trigger] rules[i]).target && crate::route::rule_matches(
                rules[i],
                host,
            );
        assert(has_outbound(sc.outbound_manager.entries@, rules[i].target));
    }
    lemma_get_outbound_some(sc.outbound_manager.entries@, picked);
}

} // verus!
