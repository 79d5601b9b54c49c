use clash_lib::config::{Backend, ConfigError, RawConfig, RawGroup};
use clash_lib::control::ProxyState;
use clash_lib::probe::{ProbeResult, ProbeStats};
use clash_lib::registry::{Outbound, OutboundRegistry};
use clash_lib::selector::{GroupKind, SelectError, SelectorGroup};

fn backend(name: &str) -> Backend {
    Backend { name: name.to_string(), protocol: "vmess".to_string() }
}

fn group(name: &str, kind: GroupKind, members: &[&str]) -> RawGroup {
    RawGroup {
        name: name.to_string(),
        kind,
        members: members.iter().map(|m| m.to_string()).collect(),
    }
}

fn scenario() -> RawConfig {
    let mut c = RawConfig::new();
    c.proxies = vec![backend("us-1"), backend("jp-1")];
    c.proxy_groups = vec![group("auto", GroupKind::Select, &["us-1", "jp-1"])];
    c
}

fn names(reg: &OutboundRegistry) -> Vec<String> {
    reg.ordered_names()
}

#[test]
fn end_to_end_selection() {
    let mut reg = OutboundRegistry::load(scenario()).expect("accepted");
    assert_eq!(names(&reg), vec!["DIRECT", "REJECT", "us-1", "jp-1", "auto"]);
    assert_eq!(reg.control_handle("auto").unwrap().current(), "us-1");
    assert_eq!(reg.select("auto", "jp-1"), Ok("us-1".to_string()));
    assert_eq!(reg.control_handle("auto").unwrap().current(), "jp-1");
    assert_eq!(reg.select("auto", "kr-1"), Err(SelectError::NotAMember));
    assert_eq!(reg.control_handle("auto").unwrap().current(), "jp-1");
}

#[test]
fn empty_config_registry_holds_reserved_only() {
    let reg = OutboundRegistry::load(RawConfig::new()).expect("accepted");
    assert_eq!(names(&reg), vec!["DIRECT", "REJECT"]);
    assert!(reg.lookup("DIRECT").is_some());
    assert!(reg.lookup("REJECT").is_some());
    assert!(reg.lookup("us-1").is_none());
    assert_eq!(reg.snapshot_all().len(), 2);
}

#[test]
fn load_refuses_duplicates() {
    let mut c = RawConfig::new();
    c.proxies = vec![backend("a"), backend("a")];
    assert_eq!(
        OutboundRegistry::load(c).err(),
        Some(ConfigError::DuplicateName("a".to_string()))
    );
}

#[test]
fn select_active_member_is_idempotent() {
    let mut reg = OutboundRegistry::load(scenario()).unwrap();
    assert_eq!(reg.select("auto", "us-1"), Ok("us-1".to_string()));
    assert_eq!(reg.control_handle("auto").unwrap().current(), "us-1");
    assert_eq!(reg.select("auto", "us-1"), Ok("us-1".to_string()));
}

#[test]
fn rejected_selection_keeps_active() {
    let mut c = RawConfig::new();
    c.proxies = vec![backend("a"), backend("b")];
    c.proxy_groups = vec![group("g", GroupKind::Select, &["a", "b"])];
    let mut reg = OutboundRegistry::load(c).unwrap();
    assert_eq!(reg.select("g", "not-a-member"), Err(SelectError::NotAMember));
    assert_eq!(reg.control_handle("g").unwrap().current(), "a");
}

#[test]
fn selections_serialize_in_order() {
    let mut c = RawConfig::new();
    c.proxies = vec![backend("a"), backend("b"), backend("c")];
    c.proxy_groups = vec![group("g", GroupKind::Select, &["a", "b", "c"])];
    let mut reg = OutboundRegistry::load(c).unwrap();
    let order = ["c", "b", "a", "c"];
    let mut previous = Vec::new();
    for m in order {
        previous.push(reg.select("g", m).unwrap());
    }
    assert_eq!(previous, vec!["a", "c", "b", "a"]);
    assert_eq!(reg.control_handle("g").unwrap().current(), "c");
}

#[test]
fn control_handle_errors() {
    let mut c = scenario();
    c.proxy_groups.push(group("fallback", GroupKind::Fallback, &["us-1"]));
    let mut reg = OutboundRegistry::load(c).unwrap();
    assert_eq!(reg.control_handle("nowhere").err(), Some(SelectError::NotFound));
    assert_eq!(reg.control_handle("us-1").err(), Some(SelectError::NotSelectable));
    assert_eq!(reg.control_handle("fallback").err(), Some(SelectError::NotSelectable));
    assert_eq!(reg.select("fallback", "us-1"), Err(SelectError::NotSelectable));
    assert_eq!(reg.select("nowhere", "us-1"), Err(SelectError::NotFound));
}

#[test]
fn lookup_and_snapshot_follow_declaration_order() {
    let reg = OutboundRegistry::load(scenario()).unwrap();
    let snap = reg.snapshot_all();
    let snap_names: Vec<&str> = snap.iter().map(|o| o.name()).collect();
    assert_eq!(snap_names, vec!["DIRECT", "REJECT", "us-1", "jp-1", "auto"]);
    match reg.lookup("jp-1") {
        Some(Outbound::Backend(b)) => assert_eq!(b.protocol, "vmess"),
        _ => panic!("jp-1 is a backend"),
    }
    match reg.lookup("auto") {
        Some(Outbound::Group(g)) => assert_eq!(g.members(), vec!["us-1", "jp-1"]),
        _ => panic!("auto is a group"),
    }
}

#[test]
fn reload_replaces_everything_at_once() {
    let mut reg = OutboundRegistry::load(scenario()).unwrap();
    assert_eq!(reg.select("auto", "jp-1"), Ok("us-1".to_string()));
    let before = reg.lookup("auto").unwrap();
    let mut next = RawConfig::new();
    next.proxies = vec![backend("kr-1")];
    next.proxy_groups = vec![group("auto", GroupKind::Select, &["kr-1"])];
    assert_eq!(reg.reload(next), Ok(()));
    match before {
        Outbound::Group(g) => assert_eq!(g.current(), "jp-1"),
        _ => panic!("auto is a group"),
    }
    assert!(reg.lookup("us-1").is_none());
    assert_eq!(reg.control_handle("auto").unwrap().current(), "kr-1");
    assert_eq!(names(&reg), vec!["DIRECT", "REJECT", "kr-1", "auto"]);
}

#[test]
fn failed_reload_keeps_previous_generation() {
    let mut reg = OutboundRegistry::load(scenario()).unwrap();
    assert_eq!(reg.select("auto", "jp-1"), Ok("us-1".to_string()));
    let mut bad = RawConfig::new();
    bad.proxy_groups = vec![group("g", GroupKind::Select, &[])];
    assert_eq!(reg.reload(bad), Err(ConfigError::EmptyGroup("g".to_string())));
    assert_eq!(names(&reg), vec!["DIRECT", "REJECT", "us-1", "jp-1", "auto"]);
    assert_eq!(reg.control_handle("auto").unwrap().current(), "jp-1");
}

#[test]
fn failed_probe_keeps_mean() {
    let mut reg = OutboundRegistry::load(scenario()).unwrap();
    let first = reg.record_probe("us-1", Some(100)).unwrap();
    assert_eq!(first.backend_name, "us-1");
    assert_eq!(first.latency, Some(100));
    assert_eq!(first.mean_latency, Some(100));
    let second = reg.record_probe("us-1", None).unwrap();
    assert_eq!(second.latency, None);
    assert_eq!(second.mean_latency, Some(100));
    let third = reg.record_probe("us-1", Some(51)).unwrap();
    assert_eq!(third.mean_latency, Some(75));
    assert!(reg.record_probe("nowhere", Some(1)).is_none());
    let other = reg.record_probe("jp-1", None).unwrap();
    assert_eq!(other.mean_latency, None);
}

#[test]
fn reload_resets_probe_means() {
    let mut reg = OutboundRegistry::load(scenario()).unwrap();
    reg.record_probe("us-1", Some(40)).unwrap();
    assert_eq!(reg.reload(scenario()), Ok(()));
    assert_eq!(reg.record_probe("us-1", None).unwrap().mean_latency, None);
}

#[test]
fn probe_stats_mean() {
    let mut s = ProbeStats::new();
    assert_eq!(s.mean(), None);
    assert_eq!(s.record(Some(100)), Some(100));
    assert_eq!(s.record(None), Some(100));
    assert_eq!(s.successes, 1);
    assert_eq!(s.total_ms, 100);
    assert_eq!(s.record(Some(u64::MAX)), Some(((100u128 + u64::MAX as u128) / 2) as u64));
    let mut t = ProbeStats::new();
    let r = ProbeResult::fold("x".to_string(), &mut t, Some(7));
    assert_eq!((r.backend_name.as_str(), r.latency, r.mean_latency), ("x", Some(7), Some(7)));
}

#[test]
fn group_select_directly() {
    let mut g = SelectorGroup::new(
        "g".to_string(),
        GroupKind::Select,
        vec!["a".to_string(), "b".to_string()],
    );
    assert_eq!(g.name(), "g");
    assert_eq!(g.kind(), GroupKind::Select);
    assert_eq!(g.current(), "a");
    assert_eq!(g.select("b"), Ok("a".to_string()));
    assert_eq!(g.select("b"), Ok("b".to_string()));
    assert_eq!(g.select("z"), Err(SelectError::NotAMember));
    assert_eq!(g.current(), "b");
    assert_eq!(g.duplicate().current(), "b");
}

#[test]
fn update_proxy_statuses() {
    let mut c = scenario();
    c.proxy_groups.push(group("fallback", GroupKind::Fallback, &["us-1"]));
    let mut state = ProxyState::new(OutboundRegistry::load(c).unwrap());
    assert_eq!(state.update_proxy("auto", "jp-1"), (202, Ok("us-1".to_string())));
    assert_eq!(state.update_proxy("auto", "kr-1"), (400, Err(SelectError::NotAMember)));
    assert_eq!(state.update_proxy("fallback", "us-1"), (404, Err(SelectError::NotSelectable)));
    assert_eq!(state.update_proxy("us-1", "jp-1"), (404, Err(SelectError::NotSelectable)));
    assert_eq!(state.update_proxy("nowhere", "jp-1"), (404, Err(SelectError::NotFound)));
    assert_eq!(state.outbound_manager.control_handle("auto").unwrap().current(), "jp-1");
}
