//! The typed configuration model and its validation: inbound and
//! outbound declarations, the route section, and the cross-reference
//! checks performed once at load time.

use vstd::prelude::*;
use crate::protocol::{Http, Socks5};
use crate::route::Route;
use crate::text::str_eq;

verus! {

use vstd::string::StringExecFns;

/// Logging switches read from the configuration file.
#[derive(Debug)]
pub struct Info {
    pub enable: bool,
    pub level: InfoLevel,
}

/// The log verbosity a configuration may ask for.
#[derive(Debug, Clone, Copy, PartialEq, Eq, Structural)]
pub enum InfoLevel {
    Trace,
    Debug,
    Info,
    Warn,
    Error,
}

/// The declared routing mode; only rule-based routing is consulted by
/// the matcher.
#[derive(Debug, Clone, Copy, PartialEq, Eq, Structural)]
pub enum Mode {
    Rule,
    Direct,
    Global,
}

/// An inbound listener declaration.
#[derive(Debug)]
pub enum Inbound {
    Http(Http),
    Socks5(Socks5),
}

/// An outbound dial-target declaration.
#[derive(Debug)]
pub enum Outbound {
    Http(Http),
    Socks5(Socks5),
}

impl Inbound {
    pub open spec fn spec_name(&self) -> Seq<char> {
        match self {
            Inbound::Http(h) => h.name@,
            Inbound::Socks5(s) => s.name@,
        }
    }

    /// The unique name of the declaration.
    pub fn name(&self) -> (r: &str)
        ensures
            r@ == self.spec_name(),
    {
        match self {
            Inbound::Http(h) => h.name.as_str(),
            Inbound::Socks5(s) => s.name.as_str(),
        }
    }
}

impl Clone for Inbound {
    fn clone(&self) -> (r: Self)
        ensures
            r == *self,
    {
        match self {
            Inbound::Http(h) => Inbound::Http(h.clone()),
            Inbound::Socks5(s) => Inbound::Socks5(s.clone()),
        }
    }
}

impl Outbound {
    pub open spec fn spec_name(&self) -> Seq<char> {
        match self {
            Outbound::Http(h) => h.name@,
            Outbound::Socks5(s) => s.name@,
        }
    }

    /// The unique name of the declaration.
    pub fn name(&self) -> (r: &str)
        ensures
            r@ == self.spec_name(),
    {
        match self {
            Outbound::Http(h) => h.name.as_str(),
            Outbound::Socks5(s) => s.name.as_str(),
        }
    }
}

impl Clone for Outbound {
    fn clone(&self) -> (r: Self)
        ensures
            r == *self,
    {
        match self {
            Outbound::Http(h) => Outbound::Http(h.clone()),
            Outbound::Socks5(s) => Outbound::Socks5(s.clone()),
        }
    }
}

/// The whole configuration file, parsed but not yet validated.
#[derive(Debug)]
pub struct Config {
    pub info: Info,
    pub mode: Mode,
    pub route: Route,
    pub inbound: Vec<Inbound>,
    pub outbound: Vec<Outbound>,
}

/// A fatal defect found while validating a configuration; each variant
/// carries the offending name.
#[derive(Debug)]
pub enum ConfigError {
    DuplicateInbound(String),
    DuplicateOutbound(String),
    UnknownGlobalOutbound(String),
    UnknownDefaultOutbound(String),
    UnknownRuleOutbound(String),
}

impl ConfigError {
    /// A human-readable description, in place of `Display`.
    pub fn message(&self) -> String {
        match self {
            ConfigError::DuplicateInbound(n) => String::from_str(
                "duplicate inbound name: ",
            ).concat(n.as_str()),
            ConfigError::DuplicateOutbound(n) => String::from_str(
                "duplicate outbound name: ",
            ).concat(n.as_str()),
            ConfigError::UnknownGlobalOutbound(n) => String::from_str(
                "global outbound not found: ",
            ).concat(n.as_str()),
            ConfigError::UnknownDefaultOutbound(n) => String::from_str(
                "default outbound not found: ",
            ).concat(n.as_str()),
            ConfigError::UnknownRuleOutbound(n) => String::from_str(
                "rule outbound not found: ",
            ).concat(n.as_str()),
        }
    }
}

/// Copies a list of inbound declarations.
pub fn clone_inbounds(v: &Vec<Inbound>) -> (r: Vec<Inbound>)
    ensures
        r@ == v@,
{
    let mut out: Vec<Inbound> = Vec::new();
    let n = v.len();
    let mut i: usize = 0;
    while i < n
        invariant
            i <= n,
            n == v@.len(),
            out@ =~= v@.take(i as int),
        decreases n - i,
    {
        out.push(v[i].clone());
        assert(out@ =~= v@.take(i + 1));
        i = i + 1;
    }
    assert(v@.take(n as int) =~= v@);
    out
}

/// Copies a list of outbound declarations.
pub fn clone_outbounds(v: &Vec<Outbound>) -> (r: Vec<Outbound>)
    ensures
        r@ == v@,
{
    let mut out: Vec<Outbound> = Vec::new();
    let n = v.len();
    let mut i: usize = 0;
    while i < n
        invariant
            i <= n,
            n == v@.len(),
            out@ =~= v@.take(i as int),
        decreases n - i,
    {
        out.push(v[i].clone());
        assert(out@ =~= v@.take(i + 1));
        i = i + 1;
    }
    assert(v@.take(n as int) =~= v@);
    out
}

/// The names of the inbound declarations, in order.
pub open spec fn inbound_names(s: Seq<Inbound>) -> Seq<Seq<char>> {
    s.map_values(|x: Inbound| x.spec_name())
}

/// The names of the outbound declarations, in order.
pub open spec fn outbound_names(s: Seq<Outbound>) -> Seq<Seq<char>> {
    s.map_values(|x: Outbound| x.spec_name())
}

/// No name occurs twice.
pub open spec fn distinct_names(ns: Seq<Seq<char>>) -> bool {
    forall|i: int, j: int| 0 <= i < j < ns.len() ==> ns[i] != ns[j]
}

/// `name` occurs twice in `ns`.
pub open spec fn duplicated_name(ns: Seq<Seq<char>>, name: Seq<char>) -> bool {
    exists|i: int, j: int| 0 <= i < j < ns.len() && ns[i] == name && ns[j] == name
}

/// Some outbound declaration bears `name`.
pub open spec fn has_outbound(outs: Seq<Outbound>, name: Seq<char>) -> bool {
    exists|i: int| 0 <= i < outs.len() && (#[trigger] outs[i]).spec_name() == name
}

/// Every inline rule's target names an existing outbound.
pub open spec fn rule_targets_known(c: Config) -> bool {
    forall|k: int|
        0 <= k < c.route.rule@.len() ==> has_outbound(
            c.outbound@,
            (#[trigger] c.route.rule@[k])@.target,
        )
}

/// The load-time invariants of a configuration: distinct inbound and
/// outbound names, and a known outbound behind `global`, `default` and
/// every inline rule.
pub open spec fn spec_config_valid(c: Config) -> bool {
    &&& distinct_names(inbound_names(c.inbound@))
    &&& distinct_names(outbound_names(c.outbound@))
    &&& has_outbound(c.outbound@, c.route.global@)
    &&& has_outbound(c.outbound@, c.route.default@)
    &&& rule_targets_known(c)
}

/// What a validation error of each kind says of the configuration it was
/// raised on, and of the name it carries.
pub open spec fn spec_validate_error(c: Config, e: ConfigError) -> bool {
    match e {
        ConfigError::DuplicateInbound(n) => !distinct_names(inbound_names(c.inbound@))
            && duplicated_name(inbound_names(c.inbound@), n@),
        ConfigError::DuplicateOutbound(n) => distinct_names(inbound_names(c.inbound@))
            && !distinct_names(outbound_names(c.outbound@)) && duplicated_name(
            outbound_names(c.outbound@),
            n@,
        ),
        ConfigError::UnknownGlobalOutbound(n) => distinct_names(inbound_names(c.inbound@))
            && distinct_names(outbound_names(c.outbound@)) && !has_outbound(
            c.outbound@,
            c.route.global@,
        ) && n@ == c.route.global@,
        ConfigError::UnknownDefaultOutbound(n) => distinct_names(inbound_names(c.inbound@))
            && distinct_names(outbound_names(c.outbound@)) && has_outbound(
            c.outbound@,
            c.route.global@,
        ) && !has_outbound(c.outbound@, c.route.default@) && n@ == c.route.default@,
        ConfigError::UnknownRuleOutbound(n) => distinct_names(inbound_names(c.inbound@))
            && distinct_names(outbound_names(c.outbound@)) && has_outbound(
            c.outbound@,
            c.route.global@,
        ) && has_outbound(c.outbound@, c.route.default@) && !has_outbound(c.outbound@, n@)
            && exists|k: int|
            0 <= k < c.route.rule@.len() && (#[trigger] c.route.rule@[k])@.target == n@,
    }
}

/// Whether some outbound declaration bears `name`.
pub fn contains_outbound(outs: &Vec<Outbound>, name: &str) -> (r: bool)
    ensures
        r == has_outbound(outs@, name@),
{
    let n = outs.len();
    let mut i: usize = 0;
    while i < n
        invariant
            i <= n,
            n == outs@.len(),
            forall|k: int| 0 <= k < i ==> (#[trigger] outs@[k]).spec_name() != name@,
        decreases n - i,
    {
        if str_eq(outs[i].name(), name) {
            return true;
        }
        i = i + 1;
    }
    false
}

fn find_duplicate_inbound(v: &Vec<Inbound>) -> (r: Option<String>)
    ensures
        r is Some <==> !distinct_names(inbound_names(v@)),
        r matches Some(n) ==> duplicated_name(inbound_names(v@), n@),
{
    let ghost ns = inbound_names(v@);
    let n = v.len();
    let mut i: usize = 0;
    while i < n
        invariant
            i <= n,
            n == v@.len(),
            ns == inbound_names(v@),
            forall|a: int, b: int| 0 <= a < b < i ==> ns[a] != ns[b],
        decreases n - i,
    {
        let mut j: usize = 0;
        while j < i
            invariant
                j <= i < n,
                n == v@.len(),
                ns == inbound_names(v@),
                forall|b: int| 0 <= b < j ==> ns[b] != ns[i as int],
            decreases i - j,
        {
            if str_eq(v[j].name(), v[i].name()) {
                assert(ns[j as int] == ns[i as int]);
                return Some(v[i].name().to_owned());
            }
            j = j + 1;
        }
        i = i + 1;
    }
    None
}

fn find_duplicate_outbound(v: &Vec<Outbound>) -> (r: Option<String>)
    ensures
        r is Some <==> !distinct_names(outbound_names(v@)),
        r matches Some(n) ==> duplicated_name(outbound_names(v@), n@),
{
    let ghost ns = outbound_names(v@);
    let n = v.len();
    let mut i: usize = 0;
    while i < n
        invariant
            i <= n,
            n == v@.len(),
            ns == outbound_names(v@),
            forall|a: int, b: int| 0 <= a < b < i ==> ns[a] != ns[b],
        decreases n - i,
    {
        let mut j: usize = 0;
        while j < i
            invariant
                j <= i < n,
                n == v@.len(),
                ns == outbound_names(v@),
                forall|b: int| 0 <= b < j ==> ns[b] != ns[i as int],
            decreases i - j,
        {
            if str_eq(v[j].name(), v[i].name()) {
                assert(ns[j as int] == ns[i as int]);
                return Some(v[i].name().to_owned());
            }
            j = j + 1;
        }
        i = i + 1;
    }
    None
}

impl Config {
    /// Validates the load-time invariants, reporting the first defect in
    /// the order the declarations are checked: duplicate inbound names,
    /// duplicate outbound names, then the `global`, `default` and inline
    /// rule references.
    #[verifier::loop_isolation(false)]
    pub fn validate(&self) -> (r: Result<(), ConfigError>)
        ensures
            r is Ok <==> spec_config_valid(*self),
            r matches Err(e) ==> spec_validate_error(*self, e),
    {
        if let Some(n) = find_duplicate_inbound(&self.inbound) {
            return Err(ConfigError::DuplicateInbound(n));
        }
        if let Some(n) = find_duplicate_outbound(&self.outbound) {
            return Err(ConfigError::DuplicateOutbound(n));
        }
        if !contains_outbound(&self.outbound, self.route.global.as_str()) {
            return Err(ConfigError::UnknownGlobalOutbound(self.route.global.clone()));
        }
        if !contains_outbound(&self.outbound, self.route.default.as_str()) {
            return Err(ConfigError::UnknownDefaultOutbound(self.route.default.clone()));
        }
        let n = self.route.rule.len();
        let mut k: usize = 0;
        while k < n
            invariant
                k <= n,
                n == self.route.rule@.len(),
                forall|kk: int|
                    0 <= kk < k ==> has_outbound(
                        self.outbound@,
                        (#[trigger] self.route.rule@[kk])@.target,
                    ),
            decreases n - k,
        {
            if !contains_outbound(&self.outbound, self.route.rule[k].target.as_str()) {
                proof {
                    assert((#[trigger] self.route.rule@[k as int])@.target == self.route.rule@[k as int].target@);
                    assert(exists|kk: int|
                        0 <= kk < self.route.rule@.len() && (#[trigger] self.route.rule@[kk])@.target
                            == self.route.rule@[k as int].target@);
                }
                return Err(ConfigError::UnknownRuleOutbound(self.route.rule[k].target.clone()));
            }
            k = k + 1;
        }
        Ok(())
    }
}

} // verus!
