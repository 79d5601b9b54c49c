use clash_lib::config::{
    Backend, BindAddress, Config, ConfigError, Interface, IpAddress, RawConfig, RawGroup, Rule,
    RuleFault, User,
};
use clash_lib::selector::GroupKind;

fn backend(name: &str) -> Backend {
    Backend { name: name.to_string(), protocol: "ss".to_string() }
}

fn group(name: &str, kind: GroupKind, members: &[&str]) -> RawGroup {
    RawGroup {
        name: name.to_string(),
        kind,
        members: members.iter().map(|m| m.to_string()).collect(),
    }
}

#[test]
fn from_def_config() {
    let mut c = RawConfig::new();
    c.port = Some(9090);
    assert_eq!(c.port, Some(9090));
    let cc: Config = Config::try_from(c).expect("should into");
    assert_eq!(cc.general.inbound.port, Some(9090));
}

#[test]
fn reserved_names_come_first() {
    let cc = Config::try_from(RawConfig::new()).expect("empty config is accepted");
    assert_eq!(cc.proxy_names, vec!["DIRECT".to_string(), "REJECT".to_string()]);
    assert_eq!(cc.proxies.len(), 2);
    assert_eq!(cc.proxies[0].protocol, "direct");
    assert_eq!(cc.proxies[1].protocol, "reject");
    assert!(cc.proxy_groups.is_empty());
}

#[test]
fn duplicate_backend_is_refused() {
    let mut c = RawConfig::new();
    c.proxies = vec![backend("a"), backend("a")];
    assert_eq!(
        Config::try_from(c).err(),
        Some(ConfigError::DuplicateName("a".to_string()))
    );
}

#[test]
fn reserved_name_cannot_be_redefined() {
    let mut c = RawConfig::new();
    c.proxies = vec![backend("DIRECT")];
    assert_eq!(
        Config::try_from(c).err(),
        Some(ConfigError::DuplicateName("DIRECT".to_string()))
    );
}

#[test]
fn group_name_collides_with_backend() {
    let mut c = RawConfig::new();
    c.proxies = vec![backend("a")];
    c.proxy_groups = vec![group("a", GroupKind::Select, &["DIRECT"])];
    assert_eq!(
        Config::try_from(c).err(),
        Some(ConfigError::DuplicateName("a".to_string()))
    );
}

#[test]
fn unknown_member_is_refused() {
    let mut c = RawConfig::new();
    c.proxies = vec![backend("a")];
    c.proxy_groups = vec![group("g", GroupKind::Select, &["a", "b", "c"])];
    assert_eq!(
        Config::try_from(c).err(),
        Some(ConfigError::UnknownMember { group: "g".to_string(), member: "b".to_string() })
    );
}

#[test]
fn forward_group_reference_is_refused() {
    let mut c = RawConfig::new();
    c.proxy_groups = vec![
        group("outer", GroupKind::Select, &["inner"]),
        group("inner", GroupKind::Select, &["DIRECT"]),
    ];
    assert_eq!(
        Config::try_from(c).err(),
        Some(ConfigError::UnknownMember { group: "outer".to_string(), member: "inner".to_string() })
    );
}

#[test]
fn self_reference_is_refused() {
    let mut c = RawConfig::new();
    c.proxy_groups = vec![group("loop", GroupKind::Select, &["loop"])];
    assert!(matches!(Config::try_from(c), Err(ConfigError::UnknownMember { .. })));
}

#[test]
fn empty_group_is_refused() {
    let mut c = RawConfig::new();
    c.proxy_groups = vec![group("g", GroupKind::Select, &[])];
    assert_eq!(Config::try_from(c).err(), Some(ConfigError::EmptyGroup("g".to_string())));
}

#[test]
fn first_fault_in_declaration_order_wins() {
    let mut c = RawConfig::new();
    c.proxies = vec![backend("a"), backend("a")];
    c.proxy_groups = vec![group("g", GroupKind::Select, &[])];
    c.rules = vec!["bad".to_string()];
    assert_eq!(
        Config::try_from(c).err(),
        Some(ConfigError::DuplicateName("a".to_string()))
    );
}

#[test]
fn rules_are_parsed_in_order() {
    let mut c = RawConfig::new();
    c.proxies = vec![backend("us-1")];
    c.rules = vec!["DOMAIN-SUFFIX,example.com,us-1".to_string(), "MATCH,DIRECT".to_string()];
    let cc = Config::try_from(c).expect("rules are valid");
    assert_eq!(cc.rules.len(), 2);
    assert_eq!(cc.rules[0].kind, "DOMAIN-SUFFIX");
    assert_eq!(cc.rules[0].payload, "example.com");
    assert_eq!(cc.rules[0].target, "us-1");
    assert_eq!(cc.rules[1].kind, "MATCH");
    assert_eq!(cc.rules[1].payload, "");
    assert_eq!(cc.rules[1].target, "DIRECT");
}

#[test]
fn malformed_rule_is_refused() {
    let mut c = RawConfig::new();
    c.rules = vec!["MATCH,DIRECT".to_string(), "DOMAIN,example.com".to_string()];
    assert_eq!(
        Config::try_from(c).err(),
        Some(ConfigError::InvalidRule {
            index: 1,
            rule: "DOMAIN,example.com".to_string(),
            reason: RuleFault::Malformed,
        })
    );
}

#[test]
fn rule_with_unknown_target_is_refused() {
    let mut c = RawConfig::new();
    c.rules = vec!["GEOIP,CN,nowhere".to_string()];
    assert_eq!(
        Config::try_from(c).err(),
        Some(ConfigError::InvalidRule {
            index: 0,
            rule: "GEOIP,CN,nowhere".to_string(),
            reason: RuleFault::UnknownTarget,
        })
    );
}

#[test]
fn rule_parse_forms() {
    assert!(Rule::parse("MATCH,x").is_some());
    assert!(Rule::parse("MATCH,x,y").is_none());
    assert!(Rule::parse("MATCH,").is_none());
    assert!(Rule::parse("DOMAIN,a,b,c").is_none());
    assert!(Rule::parse(",a,b").is_none());
    assert!(Rule::parse("DOMAIN,,b").is_none());
    assert!(Rule::parse("").is_none());
    let r = Rule::parse("IP-CIDR,10.0.0.0/8,DIRECT").unwrap();
    assert_eq!((r.kind.as_str(), r.payload.as_str(), r.target.as_str()), ("IP-CIDR", "10.0.0.0/8", "DIRECT"));
}

#[test]
fn users_split_at_first_colon() {
    let mut c = RawConfig::new();
    c.authentication = vec!["alice:se:cret".to_string(), "bob".to_string()];
    let cc = Config::try_from(c).expect("accepted");
    assert_eq!(cc.users.len(), 2);
    assert_eq!((cc.users[0].username.as_str(), cc.users[0].password.as_str()), ("alice", "se:cret"));
    assert_eq!((cc.users[1].username.as_str(), cc.users[1].password.as_str()), ("bob", ""));
    assert_eq!(cc.general.inbound.authentication.len(), 2);
    let u = User::parse("carol:");
    assert_eq!((u.username.as_str(), u.password.as_str()), ("carol", ""));
}

#[test]
fn general_settings_are_carried() {
    let mut c = RawConfig::new();
    c.ipv6 = Some(true);
    c.secret = Some("SECRET-REDACTED".to_string());
    c.routing_mask = Some(255);
    let cc = Config::try_from(c).expect("accepted");
    assert!(cc.general.ipv6);
    assert_eq!(cc.general.controller.secret.as_deref(), Some("SECRET-REDACTED"));
    assert_eq!(cc.general.routing_mask, Some(255));
    assert!(!cc.tun.enable);
    assert!(cc.tun.dns_hijack.is_empty());
    let cc = Config::try_from(RawConfig::new()).expect("accepted");
    assert!(!cc.general.ipv6);
    assert_eq!(cc.general.mmdb, "Country.mmdb");
}

#[test]
fn bind_address_forms() {
    assert_eq!(BindAddress::from_parts("*", None), BindAddress::Any);
    assert_eq!(
        BindAddress::from_parts("localhost", None),
        BindAddress::One(Interface::IpAddr(IpAddress::V4(127, 0, 0, 1)))
    );
    assert_eq!(
        BindAddress::from_parts("10.0.0.2", Some(IpAddress::V4(10, 0, 0, 2))),
        BindAddress::One(Interface::IpAddr(IpAddress::V4(10, 0, 0, 2)))
    );
    assert_eq!(
        BindAddress::from_parts("eth0", None),
        BindAddress::One(Interface::Name("eth0".to_string()))
    );
    assert_eq!(BindAddress::Any.label(), Some("*".to_string()));
    assert_eq!(BindAddress::from_parts("eth0", None).label(), Some("eth0".to_string()));
    assert_eq!(BindAddress::from_parts("localhost", None).label(), None);
    assert_eq!(BindAddress::default(), BindAddress::Any);
}
