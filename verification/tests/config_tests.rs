use x_proxy::config::{Config, ConfigError, Inbound, Info, InfoLevel, Mode, Outbound};
use x_proxy::protocol::{Http, Socks5};
use x_proxy::route::{Route, Rule, RuleSet, RuleSetLocal, RuleType};
use x_proxy::manager::{InboundManager, OutboundManager};
use x_proxy::service::ServiceConfig;

fn http_decl(name: &str, port: u16) -> Http {
    Http {
        name: name.to_string(),
        host: "127.0.0.1".to_string(),
        port,
    }
}

fn socks5_decl(name: &str, port: u16) -> Socks5 {
    Socks5 {
        name: name.to_string(),
        host: "127.0.0.1".to_string(),
        port,
        auth_enable: false,
        username: None,
        password: None,
    }
}

fn base_config() -> Config {
    Config {
        info: Info {
            enable: false,
            level: InfoLevel::Info,
        },
        mode: Mode::Rule,
        route: Route {
            global: "direct".to_string(),
            default: "direct".to_string(),
            rule: vec![Rule {
                kind: RuleType::Domain,
                source: vec!["example.com".to_string()],
                target: "upstream".to_string(),
            }],
            rule_set: Vec::new(),
        },
        inbound: vec![
            Inbound::Http(http_decl("in-http", 8080)),
            Inbound::Socks5(socks5_decl("in-socks", 1080)),
        ],
        outbound: vec![
            Outbound::Http(http_decl("direct", 3128)),
            Outbound::Socks5(socks5_decl("upstream", 1081)),
        ],
    }
}

#[test]
fn validate_accepts_well_formed_config() {
    assert!(base_config().validate().is_ok());
}

#[test]
fn validate_rejects_duplicate_inbound_name() {
    let mut config = base_config();
    config.inbound = vec![
        Inbound::Http(http_decl("in1", 8080)),
        Inbound::Socks5(socks5_decl("in1", 1080)),
    ];
    match config.validate() {
        Err(ConfigError::DuplicateInbound(name)) => assert_eq!(name, "in1"),
        other => panic!("expected a duplicate inbound error, got {:?}", other),
    }
}

#[test]
fn validate_rejects_duplicate_outbound_name() {
    let mut config = base_config();
    config.outbound = vec![
        Outbound::Http(http_decl("out1", 3128)),
        Outbound::Http(http_decl("out1", 3129)),
    ];
    match config.validate() {
        Err(ConfigError::DuplicateOutbound(name)) => assert_eq!(name, "out1"),
        other => panic!("expected a duplicate outbound error, got {:?}", other),
    }
}

#[test]
fn validate_rejects_unknown_global_outbound() {
    let mut config = base_config();
    config.route.global = "missing".to_string();
    match config.validate() {
        Err(ConfigError::UnknownGlobalOutbound(name)) => assert_eq!(name, "missing"),
        other => panic!("expected an unknown global error, got {:?}", other),
    }
}

#[test]
fn validate_rejects_unknown_default_outbound() {
    let mut config = base_config();
    config.route.default = "missing".to_string();
    match config.validate() {
        Err(ConfigError::UnknownDefaultOutbound(name)) => assert_eq!(name, "missing"),
        other => panic!("expected an unknown default error, got {:?}", other),
    }
}

#[test]
fn validate_rejects_unknown_rule_outbound() {
    let mut config = base_config();
    config.route.rule.push(Rule {
        kind: RuleType::Keyword,
        source: vec!["ads".to_string()],
        target: "nowhere".to_string(),
    });
    match config.validate() {
        Err(ConfigError::UnknownRuleOutbound(name)) => assert_eq!(name, "nowhere"),
        other => panic!("expected an unknown rule target error, got {:?}", other),
    }
}

#[test]
fn error_message_names_the_offender() {
    let mut config = base_config();
    config.inbound = vec![
        Inbound::Http(http_decl("in1", 8080)),
        Inbound::Http(http_decl("in1", 8081)),
    ];
    let err = config.validate().unwrap_err();
    assert!(err.message().contains("in1"));
}

#[test]
fn load_fails_on_invalid_config() {
    let mut config = base_config();
    config.inbound = vec![
        Inbound::Http(http_decl("in1", 8080)),
        Inbound::Http(http_decl("in1", 8081)),
    ];
    match ServiceConfig::load(&config, &Vec::new()) {
        Err(ConfigError::DuplicateInbound(name)) => assert_eq!(name, "in1"),
        other => panic!("expected load to fail on the duplicate, got {:?}", other.is_ok()),
    }
}

#[test]
fn load_builds_managers_and_routes() {
    let config = base_config();
    let sc = ServiceConfig::load(&config, &Vec::new()).unwrap();
    assert!(sc.inbound_manager.get("in-http").is_some());
    assert!(sc.inbound_manager.get("nope").is_none());
    assert!(sc.outbound_manager.get("direct").is_some());
    assert!(sc.outbound_manager.get("upstream").is_some());
    assert_eq!(sc.route_manager.switch("example.com"), "upstream");
    assert_eq!(sc.route_manager.switch("other.test"), "direct");
}

#[test]
fn load_demotes_rule_set_with_unknown_target() {
    let mut config = base_config();
    config.route.rule_set = vec![RuleSet::Local(RuleSetLocal {
        name: "set".to_string(),
        path: "set.yaml".to_string(),
        target: "missing".to_string(),
    })];
    // The set's expansion routes to an unknown outbound; validation only
    // warns and loading demotes the set to no rules.
    let set_rules = vec![vec![Rule {
        kind: RuleType::Domain,
        source: vec!["demoted.test".to_string()],
        target: "missing".to_string(),
    }]];
    let sc = ServiceConfig::load(&config, &set_rules).unwrap();
    assert_eq!(sc.route_manager.switch("demoted.test"), "direct");
    assert_eq!(sc.route_manager.rule.len(), 1);
}

#[test]
fn load_keeps_rule_set_with_known_target() {
    let mut config = base_config();
    config.route.rule_set = vec![RuleSet::Local(RuleSetLocal {
        name: "set".to_string(),
        path: "set.yaml".to_string(),
        target: "upstream".to_string(),
    })];
    let set_rules = vec![vec![Rule {
        kind: RuleType::Keyword,
        source: vec!["tracked".to_string()],
        target: "upstream".to_string(),
    }]];
    let sc = ServiceConfig::load(&config, &set_rules).unwrap();
    assert_eq!(sc.route_manager.switch("tracked.example.net"), "upstream");
}

#[test]
fn manager_lookup_is_by_exact_name() {
    let config = base_config();
    let sc = ServiceConfig::load(&config, &Vec::new()).unwrap();
    assert!(sc.outbound_manager.get("Direct").is_none());
    match sc.outbound_manager.get("direct") {
        Some(Outbound::Http(h)) => assert_eq!(h.port, 3128),
        other => panic!("expected the http outbound, got {:?}", other),
    }
}

#[test]
fn switch_always_resolves_after_load() {
    // Whatever the host, the selected egress names an outbound the
    // manager resolves.
    let config = base_config();
    let sc = ServiceConfig::load(&config, &Vec::new()).unwrap();
    for host in ["example.com", "unlisted.test", "", "127.0.0.1", "::", "a b c"] {
        let egress = sc.route_manager.switch(host).to_string();
        assert!(sc.outbound_manager.get(&egress).is_some());
    }
}

#[test]
fn fresh_managers_are_empty() {
    assert!(InboundManager::new().get("anything").is_none());
    assert!(OutboundManager::new().get("anything").is_none());
}

#[test]
fn inbound_and_outbound_names() {
    assert_eq!(Inbound::Http(http_decl("a", 1)).name(), "a");
    assert_eq!(Inbound::Socks5(socks5_decl("b", 2)).name(), "b");
    assert_eq!(Outbound::Http(http_decl("c", 3)).name(), "c");
    assert_eq!(Outbound::Socks5(socks5_decl("d", 4)).name(), "d");
}
