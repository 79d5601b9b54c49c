use vstd::prelude::*;

use crate::names::{copy_names, lemma_split_unique, position, split_once, splits_at, text_eq, views};
use crate::selector::{GroupKind, SelectorGroup};

verus! {

/// How connections are routed: by the rule list, all through one proxy, or all direct.
#[derive(Clone, Copy, Debug, PartialEq, Eq, Structural)]
pub enum RunMode {
    Global,
    Rule,
    Direct,
}

#[derive(Clone, Copy, Debug, PartialEq, Eq, Structural)]
pub enum LogLevel {
    Trace,
    Debug,
    Info,
    Warning,
    Error,
    Silent,
}

/// An IP address as its numeric parts.
#[derive(Clone, Copy, Debug, PartialEq, Eq)]
pub enum IpAddress {
    V4(u8, u8, u8, u8),
    V6([u16; 8]),
}

/// A network interface, named by one of its addresses or by its name.
#[derive(Clone, Debug, PartialEq, Eq)]
pub enum Interface {
    IpAddr(IpAddress),
    Name(String),
}

/// Where the inbound listeners bind: every address, or one interface.
#[derive(Clone, Debug, PartialEq, Eq)]
pub enum BindAddress {
    Any,
    One(Interface),
}

impl Default for BindAddress {
    fn default() -> (r: Self)
        ensures
            r is Any,
    {
        BindAddress::Any
    }
}

impl Interface {
    /// The interface that the text `s` names, given `ip`, the address that `s`
    /// spells when it is one.
    pub open spec fn parsed_from(self, s: Seq<char>, ip: Option<IpAddress>) -> bool {
        match ip {
            Some(a) => self == Interface::IpAddr(a),
            None => match self {
                Interface::Name(n) => n@ == s,
                Interface::IpAddr(_) => false,
            },
        }
    }

    pub fn from_parts(s: &str, ip: Option<IpAddress>) -> (r: Self)
        ensures
            r.parsed_from(s@, ip),
    {
        match ip {
            Some(a) => Interface::IpAddr(a),
            None => Interface::Name(String::from_str(s)),
        }
    }
}

impl BindAddress {
    /// The bind address that the text `s` denotes: `*` is every address,
    /// `localhost` is 127.0.0.1, anything else an interface.
    pub open spec fn parsed_from(self, s: Seq<char>, ip: Option<IpAddress>) -> bool {
        if s == "*"@ {
            self is Any
        } else if s == "localhost"@ {
            self == BindAddress::One(Interface::IpAddr(IpAddress::V4(127, 0, 0, 1)))
        } else {
            match self {
                BindAddress::One(i) => i.parsed_from(s, ip),
                BindAddress::Any => false,
            }
        }
    }

    /// Reads a bind address from its text `s`; `ip` is the address that `s`
    /// spells, when it spells one.
    pub fn from_parts(s: &str, ip: Option<IpAddress>) -> (r: Self)
        ensures
            r.parsed_from(s@, ip),
    {
        if text_eq(s, "*") {
            BindAddress::Any
        } else if text_eq(s, "localhost") {
            BindAddress::One(Interface::IpAddr(IpAddress::V4(127, 0, 0, 1)))
        } else {
            BindAddress::One(Interface::from_parts(s, ip))
        }
    }

    /// The text of the address, where it is not an IP address: `*` for every
    /// address, the name of a named interface.
    pub fn label(&self) -> (r: Option<String>)
        ensures
            match self {
                BindAddress::Any => r is Some && r->0@ == "*"@,
                BindAddress::One(Interface::Name(n)) => r is Some && r->0@ == n@,
                BindAddress::One(Interface::IpAddr(_)) => r is None,
            },
    {
        match self {
            BindAddress::Any => Some(String::from_str("*")),
            BindAddress::One(Interface::Name(n)) => Some(n.clone()),
            BindAddress::One(Interface::IpAddr(_)) => None,
        }
    }
}

/// A user of the inbound listeners.
pub struct User {
    pub username: String,
    pub password: String,
}

impl User {
    /// The user that a `name:password` entry gives: split at the first `:`;
    /// without one, the whole entry is the name and the password is empty.
    pub open spec fn parsed_from(self, s: Seq<char>) -> bool {
        if s.contains(':') {
            splits_at(s, ':', self.username@, self.password@)
        } else {
            self.username@ == s && self.password@.len() == 0
        }
    }

    pub fn parse(s: &str) -> (r: Self)
        ensures
            r.parsed_from(s@),
    {
        match split_once(s, ':') {
            Some((username, password)) => {
                let u = User { username, password };
                assert(s@[u.username@.len() as int] == ':');
                u
            },
            None => User { username: String::from_str(s), password: String::new() },
        }
    }
}

/// One routing rule: `KIND,PAYLOAD,TARGET`, or `MATCH,TARGET` for the rule
/// that matches everything (its payload is empty).
pub struct Rule {
    pub kind: String,
    pub payload: String,
    pub target: String,
}

/// A field of a rule: not empty, and no comma in it.
pub open spec fn rule_field(f: Seq<char>) -> bool {
    f.len() > 0 && !f.contains(',')
}

impl Rule {
    /// Whether this rule is what the text `s` spells.
    pub open spec fn parsed_from(self, s: Seq<char>) -> bool {
        if self.kind@ == "MATCH"@ {
            &&& self.payload@.len() == 0
            &&& rule_field(self.target@)
            &&& s == self.kind@ + seq![','] + self.target@
        } else {
            &&& rule_field(self.kind@)
            &&& rule_field(self.payload@)
            &&& rule_field(self.target@)
            &&& s == self.kind@ + seq![','] + self.payload@ + seq![','] + self.target@
        }
    }

    /// Parses one rule; `None` where `s` spells no rule.
    pub fn parse(s: &str) -> (r: Option<Self>)
        ensures
            match r {
                Some(rule) => rule.parsed_from(s@),
                None => forall|rule: Rule| !rule.parsed_from(s@),
            },
    {
        proof {
            reveal_strlit("MATCH");
        }
        let (kind, rest) = match split_once(s, ',') {
            Some(p) => p,
            None => {
                proof {
                    assert forall|rule: Rule| !rule.parsed_from(s@) by {
                        if rule.parsed_from(s@) {
                            assert(s@[rule.kind@.len() as int] == ',');
                        }
                    }
                }
                return None;
            },
        };
        if text_eq(kind.as_str(), "MATCH") {
            let rest_split = split_once(rest.as_str(), ',');
            if rest.unicode_len() > 0 && rest_split.is_none() {
                return Some(Rule { kind, payload: String::new(), target: rest });
            }
            proof {
                if let Some((a, b)) = rest_split {
                    assert(rest@[a@.len() as int] == ',');
                }
            }
            proof {
                assert forall|rule: Rule| !rule.parsed_from(s@) by {
                    if rule.parsed_from(s@) {
                        if rule.kind@ == "MATCH"@ {
                            lemma_split_unique(s@, ',', kind@, rest@, rule.kind@, rule.target@);
                        } else {
                            let tail = rule.payload@ + seq![','] + rule.target@;
                            assert(s@ =~= rule.kind@ + seq![','] + tail);
                            lemma_split_unique(s@, ',', kind@, rest@, rule.kind@, tail);
                        }
                    }
                }
            }
            return None;
        }
        if kind.unicode_len() == 0 {
            proof {
                assert forall|rule: Rule| !rule.parsed_from(s@) by {
                    if rule.parsed_from(s@) {
                        if rule.kind@ == "MATCH"@ {
                            lemma_split_unique(s@, ',', kind@, rest@, rule.kind@, rule.target@);
                        } else {
                            assert(s@ =~= rule.kind@ + seq![','] + (rule.payload@ + seq![',']
                                + rule.target@));
                            lemma_split_unique(
                                s@,
                                ',',
                                kind@,
                                rest@,
                                rule.kind@,
                                rule.payload@ + seq![','] + rule.target@,
                            );
                        }
                    }
                }
            }
            return None;
        }
        match split_once(rest.as_str(), ',') {
            Some((payload, target)) => {
                let target_split = split_once(target.as_str(), ',');
                if payload.unicode_len() > 0 && target.unicode_len() > 0 && target_split.is_none() {
                    let rule = Rule { kind, payload, target };
                    assert(s@ =~= rule.kind@ + seq![','] + rule.payload@ + seq![',']
                        + rule.target@);
                    return Some(rule);
                }
                proof {
                    if let Some((a, b)) = target_split {
                        assert(target@[a@.len() as int] == ',');
                    }
                    assert forall|rule: Rule| !rule.parsed_from(s@) by {
                        if rule.parsed_from(s@) {
                            if rule.kind@ == "MATCH"@ {
                                lemma_split_unique(s@, ',', kind@, rest@, rule.kind@, rule.target@);
                            } else {
                                let tail = rule.payload@ + seq![','] + rule.target@;
                                assert(s@ =~= rule.kind@ + seq![','] + tail);
                                lemma_split_unique(s@, ',', kind@, rest@, rule.kind@, tail);
                                lemma_split_unique(
                                    rest@,
                                    ',',
                                    payload@,
                                    target@,
                                    rule.payload@,
                                    rule.target@,
                                );
                            }
                        }
                    }
                }
                None
            },
            None => {
                proof {
                    assert forall|rule: Rule| !rule.parsed_from(s@) by {
                        if rule.parsed_from(s@) {
                            if rule.kind@ == "MATCH"@ {
                                lemma_split_unique(s@, ',', kind@, rest@, rule.kind@, rule.target@);
                            } else {
                                let tail = rule.payload@ + seq![','] + rule.target@;
                                assert(s@ =~= rule.kind@ + seq![','] + tail);
                                lemma_split_unique(s@, ',', kind@, rest@, rule.kind@, tail);
                                assert(tail[rule.payload@.len() as int] == ',');
                            }
                        }
                    }
                }
                None
            },
        }
    }
}

/// One backend as the configuration declares it: its name and its protocol tag.
pub struct Backend {
    pub name: String,
    pub protocol: String,
}

/// One group as the configuration declares it.
pub struct RawGroup {
    pub name: String,
    pub kind: GroupKind,
    pub members: Vec<String>,
}

pub struct TunConfig {
    pub enable: bool,
    pub device_url: String,
    pub dns_hijack: Vec<String>,
}

pub struct Inbound {
    pub port: Option<u16>,
    pub socks_port: Option<u16>,
    pub redir_port: Option<u16>,
    pub tproxy_port: Option<u16>,
    pub mixed_port: Option<u16>,
    pub authentication: Vec<String>,
    pub bind_address: BindAddress,
}

pub struct Controller {
    pub external_controller: Option<String>,
    pub external_ui: Option<String>,
    pub secret: Option<String>,
}

pub struct General {
    pub inbound: Inbound,
    pub controller: Controller,
    pub mode: RunMode,
    pub log_level: LogLevel,
    pub ipv6: bool,
    pub interface: Option<Interface>,
    pub routing_mask: Option<u32>,
    pub mmdb: String,
    pub mmdb_download_url: Option<String>,
}

pub struct Profile {
    pub store_selected: bool,
    pub store_fakeip: bool,
}

/// The declarative configuration as read from its source, before validation.
pub struct RawConfig {
    pub port: Option<u16>,
    pub socks_port: Option<u16>,
    pub redir_port: Option<u16>,
    pub tproxy_port: Option<u16>,
    pub mixed_port: Option<u16>,
    pub authentication: Vec<String>,
    pub bind_address: BindAddress,
    pub external_controller: Option<String>,
    pub external_ui: Option<String>,
    pub secret: Option<String>,
    pub mode: RunMode,
    pub log_level: LogLevel,
    pub ipv6: Option<bool>,
    pub interface: Option<Interface>,
    pub routing_mask: Option<u32>,
    pub mmdb: String,
    pub mmdb_download_url: Option<String>,
    pub tun: Option<TunConfig>,
    pub store_selected: bool,
    pub store_fake_ip: bool,
    pub rules: Vec<String>,
    pub proxies: Vec<Backend>,
    pub proxy_groups: Vec<RawGroup>,
}

/// Why a rule was refused.
#[derive(Clone, Copy, Debug, PartialEq, Eq, Structural)]
pub enum RuleFault {
    /// The text is not of the form `KIND,PAYLOAD,TARGET` or `MATCH,TARGET`.
    Malformed,
    /// The rule names a target that is neither a backend nor a group.
    UnknownTarget,
}

/// Why a configuration was refused; each names the offending entry.
#[derive(Debug, PartialEq, Eq)]
pub enum ConfigError {
    DuplicateName(String),
    UnknownMember { group: String, member: String },
    EmptyGroup(String),
    InvalidRule { index: usize, rule: String, reason: RuleFault },
}

/// The abstract content of a `ConfigError`.
pub ghost enum ConfigFault {
    DuplicateName(Seq<char>),
    UnknownMember(Seq<char>, Seq<char>),
    EmptyGroup(Seq<char>),
    InvalidRule(int, RuleFault),
}

impl View for ConfigError {
    type V = ConfigFault;

    open spec fn view(&self) -> ConfigFault {
        match self {
            ConfigError::DuplicateName(n) => ConfigFault::DuplicateName(n@),
            ConfigError::UnknownMember { group, member } => ConfigFault::UnknownMember(
                group@,
                member@,
            ),
            ConfigError::EmptyGroup(n) => ConfigFault::EmptyGroup(n@),
            ConfigError::InvalidRule { index, rule, reason } => ConfigFault::InvalidRule(
                *index as int,
                *reason,
            ),
        }
    }
}

/// The two names that exist in every configuration, in this order.
pub open spec fn reserved_names() -> Seq<Seq<char>> {
    seq!["DIRECT"@, "REJECT"@]
}

/// `i` is the first place in `ms` whose name is not among `names`.
pub open spec fn first_missing_at(names: Seq<Seq<char>>, ms: Seq<Seq<char>>, i: int) -> bool {
    &&& 0 <= i < ms.len()
    &&& !names.contains(ms[i])
    &&& forall|j: int| 0 <= j < i ==> names.contains(ms[j])
}

impl RawConfig {
    pub open spec fn backend_names(self) -> Seq<Seq<char>> {
        self.proxies@.map_values(|b: Backend| b.name@)
    }

    pub open spec fn group_names(self) -> Seq<Seq<char>> {
        self.proxy_groups@.map_values(|g: RawGroup| g.name@)
    }

    /// Every name in declaration order: the reserved two, the backends, the groups.
    pub open spec fn declared_names(self) -> Seq<Seq<char>> {
        reserved_names() + self.backend_names() + self.group_names()
    }

    /// The number of declared entries: backends, then groups.
    pub open spec fn entry_count(self) -> int {
        self.proxies@.len() + self.proxy_groups@.len() as int
    }

    /// What is wrong with entry `k` (backends first, then groups), judged
    /// against the names accepted before it.
    pub open spec fn entry_fault(self, k: int) -> Option<ConfigFault> {
        let before = self.declared_names().take(2 + k);
        let name = self.declared_names()[2 + k];
        if before.contains(name) {
            Some(ConfigFault::DuplicateName(name))
        } else if k < self.proxies@.len() {
            None
        } else {
            let ms = views(self.proxy_groups@[k - self.proxies@.len()].members@);
            if ms.len() == 0 {
                Some(ConfigFault::EmptyGroup(name))
            } else if exists|i: int| first_missing_at(before, ms, i) {
                Some(
                    ConfigFault::UnknownMember(
                        name,
                        ms[choose|i: int| first_missing_at(before, ms, i)],
                    ),
                )
            } else {
                None
            }
        }
    }

    /// What is wrong with rule `j`, if anything.
    pub open spec fn rule_fault(self, j: int) -> Option<RuleFault> {
        let s = self.rules@[j]@;
        if forall|r: Rule| !r.parsed_from(s) {
            Some(RuleFault::Malformed)
        } else if exists|r: Rule| r.parsed_from(s) && !self.declared_names().contains(r.target@) {
            Some(RuleFault::UnknownTarget)
        } else {
            None
        }
    }

    pub open spec fn first_entry_fault(self, k: int) -> bool {
        &&& 0 <= k < self.entry_count()
        &&& self.entry_fault(k) is Some
        &&& forall|k2: int| 0 <= k2 < k ==> self.entry_fault(k2) is None
    }

    pub open spec fn first_rule_fault(self, j: int) -> bool {
        &&& 0 <= j < self.rules@.len()
        &&& self.rule_fault(j) is Some
        &&& forall|j2: int| 0 <= j2 < j ==> self.rule_fault(j2) is None
    }

    /// The first thing wrong with the configuration, in declaration order:
    /// backends, groups, then rules. `None` where it is accepted.
    pub open spec fn fault(self) -> Option<ConfigFault> {
        if exists|k: int| self.first_entry_fault(k) {
            self.entry_fault(choose|k: int| self.first_entry_fault(k))
        } else if exists|j: int| self.first_rule_fault(j) {
            let j = choose|j: int| self.first_rule_fault(j);
            Some(ConfigFault::InvalidRule(j, self.rule_fault(j)->0))
        } else {
            None
        }
    }
}

/// When entry `k` is the first faulty entry, its fault is the configuration's.
proof fn lemma_first_entry_fault(c: RawConfig, k: int)
    requires
        c.first_entry_fault(k),
    ensures
        c.fault() == c.entry_fault(k),
{
    let k2 = choose|k2: int| c.first_entry_fault(k2);
    assert(c.first_entry_fault(k2));
    if k2 < k {
        assert(c.entry_fault(k2) is None);
    } else if k < k2 {
        assert(c.entry_fault(k) is None);
    }
}

/// When every entry is sound and rule `j` is the first faulty rule, the
/// configuration fails on that rule.
proof fn lemma_first_rule_fault(c: RawConfig, j: int)
    requires
        c.first_rule_fault(j),
        forall|k: int| 0 <= k < c.entry_count() ==> c.entry_fault(k) is None,
    ensures
        c.fault() == Some(ConfigFault::InvalidRule(j, c.rule_fault(j)->0)),
{
    assert(!exists|k: int| c.first_entry_fault(k));
    let j2 = choose|j2: int| c.first_rule_fault(j2);
    assert(c.first_rule_fault(j2));
    if j2 < j {
        assert(c.rule_fault(j2) is None);
    } else if j < j2 {
        assert(c.rule_fault(j) is None);
    }
}

/// Two readings of one rule text agree.
pub proof fn lemma_rule_unique(s: Seq<char>, r1: Rule, r2: Rule)
    requires
        r1.parsed_from(s),
        r2.parsed_from(s),
    ensures
        r1.kind@ == r2.kind@,
        r1.payload@ == r2.payload@,
        r1.target@ == r2.target@,
{
    reveal_strlit("MATCH");
    let t1 = if r1.kind@ == "MATCH"@ {
        r1.target@
    } else {
        r1.payload@ + seq![','] + r1.target@
    };
    let t2 = if r2.kind@ == "MATCH"@ {
        r2.target@
    } else {
        r2.payload@ + seq![','] + r2.target@
    };
    assert(s =~= r1.kind@ + seq![','] + t1);
    assert(s =~= r2.kind@ + seq![','] + t2);
    lemma_split_unique(s, ',', r1.kind@, t1, r2.kind@, t2);
    if r1.kind@ == "MATCH"@ {
        assert(r1.payload@ =~= r2.payload@);
    } else {
        lemma_split_unique(t1, ',', r1.payload@, r1.target@, r2.payload@, r2.target@);
    }
}

/// The validated configuration: the registry's seed and the settings handed to
/// the listeners, the DNS and the rule engine.
pub struct Config {
    pub general: General,
    pub tun: TunConfig,
    pub profile: Profile,
    pub rules: Vec<Rule>,
    pub users: Vec<User>,
    /// Every outbound name in declaration order, the reserved two first.
    pub proxy_names: Vec<String>,
    /// The backends in declaration order, the reserved two first.
    pub proxies: Vec<Backend>,
    /// The groups in declaration order.
    pub proxy_groups: Vec<SelectorGroup>,
}

impl Config {
    /// The settings that `c` gives, copied field for field.
    pub open spec fn general_from(self, c: RawConfig) -> bool {
        let i = self.general.inbound;
        let k = self.general.controller;
        &&& i.port == c.port
        &&& i.socks_port == c.socks_port
        &&& i.redir_port == c.redir_port
        &&& i.tproxy_port == c.tproxy_port
        &&& i.mixed_port == c.mixed_port
        &&& i.authentication@ == c.authentication@
        &&& i.bind_address == c.bind_address
        &&& k.external_controller == c.external_controller
        &&& k.external_ui == c.external_ui
        &&& k.secret == c.secret
        &&& self.general.mode == c.mode
        &&& self.general.log_level == c.log_level
        &&& self.general.ipv6 == (c.ipv6 == Some(true))
        &&& self.general.interface == c.interface
        &&& self.general.routing_mask == c.routing_mask
        &&& self.general.mmdb == c.mmdb
        &&& self.general.mmdb_download_url == c.mmdb_download_url
        &&& self.profile.store_selected == c.store_selected
        &&& self.profile.store_fakeip == c.store_fake_ip
        &&& match c.tun {
            Some(t) => self.tun == t,
            None => !self.tun.enable && self.tun.device_url@.len() == 0
                && self.tun.dns_hijack@.len() == 0,
        }
    }

    /// The outbounds that `c` declares: the reserved backends, then the
    /// declared backends, then the groups, each group active on its first member.
    pub open spec fn outbounds_from(self, c: RawConfig) -> bool {
        &&& views(self.proxy_names@) == c.declared_names()
        &&& self.proxies@.len() == c.proxies@.len() + 2
        &&& self.proxies@[0].name@ == "DIRECT"@
        &&& self.proxies@[0].protocol@ == "direct"@
        &&& self.proxies@[1].name@ == "REJECT"@
        &&& self.proxies@[1].protocol@ == "reject"@
        &&& forall|i: int|
            0 <= i < c.proxies@.len() ==> {
                &&& #[trigger] self.proxies@[i + 2].name@ == c.proxies@[i].name@
                &&& self.proxies@[i + 2].protocol@ == c.proxies@[i].protocol@
            }
        &&& self.proxy_groups@.len() == c.proxy_groups@.len()
        &&& forall|i: int|
            0 <= i < c.proxy_groups@.len() ==> {
                let g = #[trigger] self.proxy_groups@[i];
                let raw = c.proxy_groups@[i];
                &&& g.wf()
                &&& g@.name == raw.name@
                &&& g@.kind == raw.kind
                &&& g@.members == views(raw.members@)
                &&& g@.active == raw.members@[0]@
            }
    }

    /// Everything that normalizing an accepted `c` yields.
    pub open spec fn normalizes(self, c: RawConfig) -> bool {
        &&& self.general_from(c)
        &&& self.outbounds_from(c)
        &&& self.rules@.len() == c.rules@.len()
        &&& forall|j: int|
            0 <= j < c.rules@.len() ==> (#[trigger] self.rules@[j]).parsed_from(c.rules@[j]@)
        &&& self.users@.len() == c.authentication@.len()
        &&& forall|j: int|
            0 <= j < c.authentication@.len() ==> (#[trigger] self.users@[j]).parsed_from(
                c.authentication@[j]@,
            )
    }

    /// Validates `c` and builds the configuration it declares; refuses it with
    /// the first fault in declaration order.
    pub fn try_from(c: RawConfig) -> (r: Result<Config, ConfigError>)
        ensures
            match r {
                Ok(cfg) => c.fault() is None && cfg.normalizes(c),
                Err(e) => c.fault() == Some(e@),
            },
    {
        let mut names: Vec<String> = Vec::new();
        names.push(String::from_str("DIRECT"));
        names.push(String::from_str("REJECT"));
        let mut proxies: Vec<Backend> = Vec::new();
        proxies.push(Backend { name: String::from_str("DIRECT"), protocol: String::from_str("direct") });
        proxies.push(Backend { name: String::from_str("REJECT"), protocol: String::from_str("reject") });
        let nb = c.proxies.len();
        assert(views(names@) =~= c.declared_names().take(2));
        let mut b: usize = 0;
        while b < nb
            invariant
                nb == c.proxies@.len(),
                b <= nb,
                views(names@) == c.declared_names().take(2 + b),
                forall|k: int| 0 <= k < b ==> c.entry_fault(k) is None,
                proxies@.len() == b + 2,
                proxies@[0].name@ == "DIRECT"@,
                proxies@[0].protocol@ == "direct"@,
                proxies@[1].name@ == "REJECT"@,
                proxies@[1].protocol@ == "reject"@,
                forall|i: int|
                    0 <= i < b ==> {
                        &&& #[trigger] proxies@[i + 2].name@ == c.proxies@[i].name@
                        &&& proxies@[i + 2].protocol@ == c.proxies@[i].protocol@
                    },
            decreases nb - b,
        {
            let raw = &c.proxies[b];
            assert(c.declared_names()[2 + b as int] == raw.name@);
            if position(&names, raw.name.as_str()).is_some() {
                proof {
                    lemma_first_entry_fault(c, b as int);
                }
                return Err(ConfigError::DuplicateName(raw.name.clone()));
            }
            proxies.push(Backend { name: raw.name.clone(), protocol: raw.protocol.clone() });
            let ghost prev = views(names@);
            names.push(raw.name.clone());
            assert(views(names@) =~= prev.push(raw.name@));
            assert(views(names@) =~= c.declared_names().take(2 + b + 1));
            b = b + 1;
        }
        let ng = c.proxy_groups.len();
        let mut groups: Vec<SelectorGroup> = Vec::new();
        let mut g: usize = 0;
        while g < ng
            invariant
                nb == c.proxies@.len(),
                ng == c.proxy_groups@.len(),
                g <= ng,
                views(names@) == c.declared_names().take(2 + nb + g),
                forall|k: int| 0 <= k < nb + g ==> c.entry_fault(k) is None,
                groups@.len() == g,
                forall|i: int|
                    0 <= i < g ==> {
                        let sg = #[trigger] groups@[i];
                        let raw = c.proxy_groups@[i];
                        &&& sg.wf()
                        &&& sg@.name == raw.name@
                        &&& sg@.kind == raw.kind
                        &&& sg@.members == views(raw.members@)
                        &&& sg@.active == raw.members@[0]@
                    },
            decreases ng - g,
        {
            let raw = &c.proxy_groups[g];
            let ghost k = nb + g;
            let ghost before = c.declared_names().take(2 + k);
            let ghost ms = views(raw.members@);
            assert(c.declared_names()[2 + k] == raw.name@);
            if position(&names, raw.name.as_str()).is_some() {
                proof {
                    lemma_first_entry_fault(c, k);
                }
                return Err(ConfigError::DuplicateName(raw.name.clone()));
            }
            if raw.members.len() == 0 {
                proof {
                    lemma_first_entry_fault(c, k);
                }
                return Err(ConfigError::EmptyGroup(raw.name.clone()));
            }
            let mut m: usize = 0;
            #[verifier::loop_isolation(false)]
            while m < raw.members.len()
                invariant
                    views(names@) == before,
                    ms == views(raw.members@),
                    m <= ms.len(),
                    forall|j: int| 0 <= j < m ==> before.contains(ms[j]),
                decreases ms.len() - m,
            {
                if position(&names, raw.members[m].as_str()).is_none() {
                    proof {
                        assert(first_missing_at(before, ms, m as int));
                        let i = choose|i: int| first_missing_at(before, ms, i);
                        if i < m {
                            assert(before.contains(ms[i]));
                        } else if m < i {
                            assert(before.contains(ms[m as int]));
                        }
                        lemma_first_entry_fault(c, k);
                    }
                    return Err(
                        ConfigError::UnknownMember {
                            group: raw.name.clone(),
                            member: raw.members[m].clone(),
                        },
                    );
                }
                m = m + 1;
            }
            proof {
                assert forall|i: int| !first_missing_at(before, ms, i) by {
                    if first_missing_at(before, ms, i) {
                        assert(before.contains(ms[i]));
                    }
                }
                assert(c.entry_fault(k) is None);
            }
            let members = copy_names(&raw.members);
            groups.push(SelectorGroup::new(raw.name.clone(), raw.kind, members));
            let ghost prev = views(names@);
            names.push(raw.name.clone());
            assert(views(names@) =~= prev.push(raw.name@));
            assert(views(names@) =~= c.declared_names().take(2 + nb + g + 1));
            g = g + 1;
        }
        assert(views(names@) =~= c.declared_names());
        let nr = c.rules.len();
        let mut rules: Vec<Rule> = Vec::new();
        let mut j: usize = 0;
        while j < nr
            invariant
                nr == c.rules@.len(),
                j <= nr,
                views(names@) == c.declared_names(),
                forall|k: int| 0 <= k < c.entry_count() ==> c.entry_fault(k) is None,
                forall|j2: int| 0 <= j2 < j ==> c.rule_fault(j2) is None,
                rules@.len() == j,
                forall|j2: int| 0 <= j2 < j ==> (#[trigger] rules@[j2]).parsed_from(c.rules@[j2]@),
            decreases nr - j,
        {
            let text = &c.rules[j];
            match Rule::parse(text.as_str()) {
                None => {
                    proof {
                        lemma_first_rule_fault(c, j as int);
                    }
                    return Err(
                        ConfigError::InvalidRule {
                            index: j,
                            rule: text.clone(),
                            reason: RuleFault::Malformed,
                        },
                    );
                },
                Some(rule) => {
                    if position(&names, rule.target.as_str()).is_none() {
                        proof {
                            assert(c.rule_fault(j as int) == Some(RuleFault::UnknownTarget));
                            lemma_first_rule_fault(c, j as int);
                        }
                        return Err(
                            ConfigError::InvalidRule {
                                index: j,
                                rule: text.clone(),
                                reason: RuleFault::UnknownTarget,
                            },
                        );
                    }
                    proof {
                        assert forall|r: Rule|
                            r.parsed_from(text@) implies c.declared_names().contains(
                            r.target@,
                        ) by {
                            lemma_rule_unique(text@, r, rule);
                        }
                        assert(c.rule_fault(j as int) is None);
                    }
                    rules.push(rule);
                },
            }
            j = j + 1;
        }
        proof {
            assert(!exists|k: int| c.first_entry_fault(k));
            assert(!exists|j2: int| c.first_rule_fault(j2));
        }
        let na = c.authentication.len();
        let mut users: Vec<User> = Vec::new();
        let mut u: usize = 0;
        while u < na
            invariant
                na == c.authentication@.len(),
                u <= na,
                users@.len() == u,
                forall|j2: int|
                    0 <= j2 < u ==> (#[trigger] users@[j2]).parsed_from(c.authentication@[j2]@),
            decreases na - u,
        {
            users.push(User::parse(c.authentication[u].as_str()));
            u = u + 1;
        }
        let authentication = copy_names(&c.authentication);
        let tun = match c.tun {
            Some(t) => t,
            None => TunConfig { enable: false, device_url: String::new(), dns_hijack: Vec::new() },
        };
        let ipv6 = match c.ipv6 {
            Some(v) => v,
            None => false,
        };
        let general = General {
            inbound: Inbound {
                port: c.port,
                socks_port: c.socks_port,
                redir_port: c.redir_port,
                tproxy_port: c.tproxy_port,
                mixed_port: c.mixed_port,
                authentication,
                bind_address: c.bind_address,
            },
            controller: Controller {
                external_controller: c.external_controller,
                external_ui: c.external_ui,
                secret: c.secret,
            },
            mode: c.mode,
            log_level: c.log_level,
            ipv6,
            interface: c.interface,
            routing_mask: c.routing_mask,
            mmdb: c.mmdb,
            mmdb_download_url: c.mmdb_download_url,
        };
        let profile = Profile { store_selected: c.store_selected, store_fakeip: c.store_fake_ip };
        Ok(
            Config {
                general,
                tun,
                profile,
                rules,
                users,
                proxy_names: names,
                proxies,
                proxy_groups: groups,
            },
        )
    }
}

/// Where some entry is faulty, a first faulty entry exists.
proof fn lemma_first_entry_fault_exists(c: RawConfig, k: int)
    requires
        0 <= k < c.entry_count(),
        c.entry_fault(k) is Some,
    ensures
        exists|k2: int| c.first_entry_fault(k2),
    decreases k,
{
    if exists|k2: int| 0 <= k2 < k && c.entry_fault(k2) is Some {
        let k2 = choose|k2: int| 0 <= k2 < k && c.entry_fault(k2) is Some;
        lemma_first_entry_fault_exists(c, k2);
    } else {
        assert(c.first_entry_fault(k));
    }
}

/// Where no entry is faulty, the declared names are pairwise distinct.
proof fn lemma_sound_entries_distinct(c: RawConfig)
    requires
        forall|k: int| 0 <= k < c.entry_count() ==> c.entry_fault(k) is None,
    ensures
        c.declared_names().no_duplicates(),
{
    reveal_strlit("DIRECT");
    reveal_strlit("REJECT");
    let d = c.declared_names();
    assert forall|i: int, j: int| 0 <= i < d.len() && 0 <= j < d.len() && i != j implies d[i]
        != d[j] by {
        let (lo, hi) = if i < j {
            (i, j)
        } else {
            (j, i)
        };
        if hi >= 2 {
            assert(c.entry_fault(hi - 2) is None);
            assert(d.take(hi)[lo] == d[lo]);
        } else {
            assert(d[0] == "DIRECT"@);
            assert(d[1] == "REJECT"@);
            assert(d[0][0] != d[1][0]);
        }
    }
}

/// No two outbounds of an accepted configuration share a name, the reserved
/// two included; a configuration whose declared names repeat is refused.
pub proof fn lemma_accepted_names_unique(c: RawConfig)
    ensures
        c.fault() is None ==> c.declared_names().no_duplicates(),
        !c.declared_names().no_duplicates() ==> c.fault() is Some,
{
    if exists|k: int| 0 <= k < c.entry_count() && c.entry_fault(k) is Some {
        let k = choose|k: int| 0 <= k < c.entry_count() && c.entry_fault(k) is Some;
        lemma_first_entry_fault_exists(c, k);
        let k2 = choose|k2: int| c.first_entry_fault(k2);
        lemma_first_entry_fault(c, k2);
    } else {
        lemma_sound_entries_distinct(c);
    }
}

/// Where only backends are declared, a repeated name is refused with
/// `DuplicateName`.
pub proof fn lemma_duplicate_backend_refused(c: RawConfig)
    requires
        c.proxy_groups@.len() == 0,
        !c.declared_names().no_duplicates(),
    ensures
        c.fault() matches Some(ConfigFault::DuplicateName(_)),
{
    if exists|k: int| 0 <= k < c.entry_count() && c.entry_fault(k) is Some {
        let k = choose|k: int| 0 <= k < c.entry_count() && c.entry_fault(k) is Some;
        lemma_first_entry_fault_exists(c, k);
        let k2 = choose|k2: int| c.first_entry_fault(k2);
        lemma_first_entry_fault(c, k2);
    } else {
        lemma_sound_entries_distinct(c);
    }
}

/// A configuration that declares no backend, no group and no rule is accepted,
/// and its outbounds are exactly the reserved two.
pub proof fn lemma_reserved_only(c: RawConfig)
    requires
        c.proxies@.len() == 0,
        c.proxy_groups@.len() == 0,
        c.rules@.len() == 0,
    ensures
        c.fault() is None,
        c.declared_names() == reserved_names(),
{
    assert(c.declared_names() =~= reserved_names());
}

/// A group whose name is new and that follows only sound entries is refused
/// with `EmptyGroup` when it has no member, and with `UnknownMember`, naming its
/// first unresolved member, when a member is not among the names before it.
pub proof fn lemma_group_membership_checked(c: RawConfig, g: int)
    requires
        0 <= g < c.proxy_groups@.len(),
        forall|k: int| 0 <= k < c.proxies@.len() + g ==> c.entry_fault(k) is None,
        !c.declared_names().take(2 + c.proxies@.len() + g).contains(c.proxy_groups@[g].name@),
    ensures
        c.proxy_groups@[g].members@.len() == 0 ==> c.fault() == Some(
            ConfigFault::EmptyGroup(c.proxy_groups@[g].name@),
        ),
        forall|i: int|
            first_missing_at(
                c.declared_names().take(2 + c.proxies@.len() + g),
                views(c.proxy_groups@[g].members@),
                i,
            ) ==> c.fault() == Some(
                ConfigFault::UnknownMember(c.proxy_groups@[g].name@, c.proxy_groups@[g].members@[i]@),
            ),
{
    let k = c.proxies@.len() + g;
    let before = c.declared_names().take(2 + k);
    let ms = views(c.proxy_groups@[g].members@);
    assert(c.declared_names()[2 + k] == c.proxy_groups@[g].name@);
    if ms.len() == 0 {
        lemma_first_entry_fault(c, k);
    }
    assert forall|i: int| first_missing_at(before, ms, i) implies c.fault() == Some(
        ConfigFault::UnknownMember(c.proxy_groups@[g].name@, c.proxy_groups@[g].members@[i]@),
    ) by {
        let i2 = choose|i2: int| first_missing_at(before, ms, i2);
        if i2 < i {
            assert(before.contains(ms[i2]));
        } else if i < i2 {
            assert(before.contains(ms[i]));
        }
        lemma_first_entry_fault(c, k);
    }
}

impl RawConfig {
    /// A configuration that sets nothing: no listener, no outbound, no rule,
    /// rule-based routing and informational logging.
    pub fn new() -> (r: Self)
        ensures
            r.port is None,
            r.socks_port is None,
            r.redir_port is None,
            r.tproxy_port is None,
            r.mixed_port is None,
            r.authentication@.len() == 0,
            r.bind_address is Any,
            r.external_controller is None,
            r.external_ui is None,
            r.secret is None,
            r.mode == RunMode::Rule,
            r.log_level == LogLevel::Info,
            r.ipv6 is None,
            r.interface is None,
            r.routing_mask is None,
            r.mmdb@ == "Country.mmdb"@,
            r.mmdb_download_url is None,
            r.tun is None,
            !r.store_selected,
            !r.store_fake_ip,
            r.rules@.len() == 0,
            r.proxies@.len() == 0,
            r.proxy_groups@.len() == 0,
    {
        RawConfig {
            port: None,
            socks_port: None,
            redir_port: None,
            tproxy_port: None,
            mixed_port: None,
            authentication: Vec::new(),
            bind_address: BindAddress::Any,
            external_controller: None,
            external_ui: None,
            secret: None,
            mode: RunMode::Rule,
            log_level: LogLevel::Info,
            ipv6: None,
            interface: None,
            routing_mask: None,
            mmdb: String::from_str("Country.mmdb"),
            mmdb_download_url: None,
            tun: None,
            store_selected: false,
            store_fake_ip: false,
            rules: Vec::new(),
            proxies: Vec::new(),
            proxy_groups: Vec::new(),
        }
    }
}

/// Where no place of `ms` is the first one missing from `names`, every name of
/// `ms` is among `names`.
proof fn lemma_none_missing(names: Seq<Seq<char>>, ms: Seq<Seq<char>>, i: int)
    requires
        forall|j: int| !first_missing_at(names, ms, j),
        0 <= i < ms.len(),
    ensures
        names.contains(ms[i]),
    decreases i,
{
    assert forall|j: int| 0 <= j < i implies names.contains(ms[j]) by {
        lemma_none_missing(names, ms, j);
    }
    assert(!first_missing_at(names, ms, i));
}

/// In an accepted configuration every member of a group names an entry declared
/// before the group, so the member relation has no cycle.
pub proof fn lemma_members_precede(c: RawConfig, g: int, m: int)
    requires
        c.fault() is None,
        0 <= g < c.proxy_groups@.len(),
        0 <= m < c.proxy_groups@[g].members@.len(),
    ensures
        c.declared_names().take(2 + c.proxies@.len() + g).contains(
            c.proxy_groups@[g].members@[m]@,
        ),
{
    let k = c.proxies@.len() + g;
    if c.entry_fault(k) is Some {
        lemma_first_entry_fault_exists(c, k);
        let k2 = choose|k2: int| c.first_entry_fault(k2);
        lemma_first_entry_fault(c, k2);
    }
    let before = c.declared_names().take(2 + k);
    let ms = views(c.proxy_groups@[g].members@);
    lemma_none_missing(before, ms, m);
}

} // verus!
