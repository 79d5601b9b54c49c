use vstd::prelude::*;

use crate::config::{Backend, Config, ConfigError, RawConfig, reserved_names};
use crate::names::{copy_names, position, views};
use crate::probe::{ProbeResult, ProbeStats};
use crate::selector::{GroupKind, GroupView, SelectError, SelectorGroup, outcome_view};

verus! {

/// The abstract content of one registry entry.
pub ghost enum EntityView {
    Backend { name: Seq<char>, protocol: Seq<char> },
    Group(GroupView),
}

impl EntityView {
    pub open spec fn name(self) -> Seq<char> {
        match self {
            EntityView::Backend { name, .. } => name,
            EntityView::Group(g) => g.name,
        }
    }
}

/// One outbound: a single backend or a group of outbounds.
pub enum Outbound {
    Backend(Backend),
    Group(SelectorGroup),
}

impl View for Outbound {
    type V = EntityView;

    open spec fn view(&self) -> EntityView {
        match self {
            Outbound::Backend(b) => EntityView::Backend { name: b.name@, protocol: b.protocol@ },
            Outbound::Group(g) => EntityView::Group(g@),
        }
    }
}

impl Outbound {
    pub open spec fn wf(&self) -> bool {
        match self {
            Outbound::Group(g) => g.wf(),
            Outbound::Backend(_) => true,
        }
    }

    pub fn name(&self) -> (r: &str)
        ensures
            r@ == self@.name(),
    {
        match self {
            Outbound::Backend(b) => b.name.as_str(),
            Outbound::Group(g) => g.name(),
        }
    }

    /// A copy with the same content.
    pub fn duplicate(&self) -> (r: Self)
        requires
            self.wf(),
        ensures
            r.wf(),
            r@ == self@,
    {
        match self {
            Outbound::Backend(b) => Outbound::Backend(
                Backend { name: b.name.clone(), protocol: b.protocol.clone() },
            ),
            Outbound::Group(g) => Outbound::Group(g.duplicate()),
        }
    }
}

/// The content of a lookup's answer.
pub open spec fn found_view(r: Option<Outbound>) -> Option<EntityView> {
    match r {
        Some(o) => Some(o@),
        None => None,
    }
}

/// The content of a control handle.
pub open spec fn handle_view(r: Result<&SelectorGroup, SelectError>) -> Result<GroupView, SelectError> {
    match r {
        Ok(g) => Ok(g@),
        Err(e) => Err(e),
    }
}

/// The abstract state of the registry: its entries in declaration order and the
/// probe aggregate of each.
pub ghost struct RegistryView {
    pub entities: Seq<EntityView>,
    pub stats: Seq<ProbeStats>,
}

/// The entity that group `g` of `c` seeds: active on its first member.
pub open spec fn seeded_group(c: RawConfig, g: int) -> EntityView {
    let raw = c.proxy_groups@[g];
    EntityView::Group(
        GroupView {
            name: raw.name@,
            kind: raw.kind,
            members: views(raw.members@),
            active: raw.members@[0]@,
        },
    )
}

/// The registry that an accepted configuration `c` seeds: the reserved
/// backends, the declared backends and the groups, in declaration order, none
/// of them probed yet.
pub open spec fn seed_view(c: RawConfig) -> RegistryView {
    let reserved = seq![
        EntityView::Backend { name: "DIRECT"@, protocol: "direct"@ },
        EntityView::Backend { name: "REJECT"@, protocol: "reject"@ },
    ];
    let backends = c.proxies@.map_values(
        |b: Backend| EntityView::Backend { name: b.name@, protocol: b.protocol@ },
    );
    let groups = Seq::new(c.proxy_groups@.len(), |g: int| seeded_group(c, g));
    let entities = reserved + backends + groups;
    RegistryView { entities, stats: Seq::new(entities.len(), |i: int| ProbeStats::fresh()) }
}

impl RegistryView {
    pub open spec fn names(self) -> Seq<Seq<char>> {
        self.entities.map_values(|e: EntityView| e.name())
    }

    pub open spec fn wf(self) -> bool {
        &&& self.stats.len() == self.entities.len()
        &&& self.names().no_duplicates()
        &&& forall|i: int|
            0 <= i < self.entities.len() ==> (#[trigger] self.entities[i] matches EntityView::Group(g)
                ==> g.wf())
        &&& forall|i: int| 0 <= i < self.stats.len() ==> (#[trigger] self.stats[i]).wf()
    }

    /// The place of the entry called `name`.
    pub open spec fn index_of(self, name: Seq<char>) -> int {
        choose|i: int| 0 <= i < self.names().len() && self.names()[i] == name
    }

    /// The entry called `name`, if there is one.
    pub open spec fn lookup(self, name: Seq<char>) -> Option<EntityView> {
        if self.names().contains(name) {
            Some(self.entities[self.index_of(name)])
        } else {
            None
        }
    }

    /// The group behind a control handle for `name`: refused where no entry is
    /// called so, or where it does not take a manual selection.
    pub open spec fn control(self, name: Seq<char>) -> Result<GroupView, SelectError> {
        match self.lookup(name) {
            None => Err(SelectError::NotFound),
            Some(EntityView::Backend { .. }) => Err(SelectError::NotSelectable),
            Some(EntityView::Group(g)) => if g.kind == GroupKind::Select {
                Ok(g)
            } else {
                Err(SelectError::NotSelectable)
            },
        }
    }

    /// The state after asking group `group` to select `member`.
    pub open spec fn select_state(self, group: Seq<char>, member: Seq<char>) -> RegistryView {
        match self.control(group) {
            Ok(g) => RegistryView {
                entities: self.entities.update(
                    self.index_of(group),
                    EntityView::Group(g.select_state(member)),
                ),
                ..self
            },
            Err(_) => self,
        }
    }

    /// What asking group `group` to select `member` reports.
    pub open spec fn select_outcome(self, group: Seq<char>, member: Seq<char>) -> Result<
        Seq<char>,
        SelectError,
    > {
        match self.control(group) {
            Ok(g) => g.select_outcome(member),
            Err(e) => Err(e),
        }
    }

    /// The state after a reload from `c`: the registry that `c` seeds where `c`
    /// is accepted, else the state as it was.
    pub open spec fn reload_state(self, c: RawConfig) -> RegistryView {
        if c.fault() is None {
            seed_view(c)
        } else {
            self
        }
    }
}

/// The registry of every outbound, keyed by name; the names are unique.
pub struct OutboundRegistry {
    names: Vec<String>,
    entries: Vec<Outbound>,
    stats: Vec<ProbeStats>,
}

impl View for OutboundRegistry {
    type V = RegistryView;

    closed spec fn view(&self) -> RegistryView {
        RegistryView { entities: self.entries@.map_values(|o: Outbound| o@), stats: self.stats@ }
    }
}

impl OutboundRegistry {
    pub closed spec fn wf(&self) -> bool {
        &&& self.names@.len() == self.entries@.len()
        &&& forall|i: int|
            0 <= i < self.entries@.len() ==> (#[trigger] self.names@[i])@ == self.entries@[i]@.name()
        &&& forall|i: int| 0 <= i < self.entries@.len() ==> (#[trigger] self.entries@[i]).wf()
        &&& self@.wf()
    }

    proof fn lemma_names(&self)
        requires
            self.names@.len() == self.entries@.len(),
            forall|i: int|
                0 <= i < self.entries@.len() ==> (#[trigger] self.names@[i])@
                    == self.entries@[i]@.name(),
        ensures
            views(self.names@) == self@.names(),
    {
        assert(views(self.names@) =~= self@.names());
    }

    /// The place of `name`, found by a scan.
    fn find(&self, name: &str) -> (r: Option<usize>)
        requires
            self.wf(),
        ensures
            match r {
                Some(i) => self@.names().contains(name@) && i == self@.index_of(name@) && i
                    < self.entries@.len(),
                None => !self@.names().contains(name@),
            },
    {
        proof {
            self.lemma_names();
        }
        let r = position(&self.names, name);
        proof {
            if let Some(i) = r {
                let j = self@.index_of(name@);
                assert(self@.names()[i as int] == name@);
                assert(self@.names()[j] == name@);
            }
        }
        r
    }

    /// The entry called `name`, as a copy taken at the instant of the call.
    pub fn lookup(&self, name: &str) -> (r: Option<Outbound>)
        requires
            self.wf(),
        ensures
            found_view(r) == self@.lookup(name@),
            r matches Some(o) ==> o.wf(),
    {
        match self.find(name) {
            Some(i) => Some(self.entries[i].duplicate()),
            None => None,
        }
    }

    /// Every entry, in declaration order.
    pub fn snapshot_all(&self) -> (r: Vec<Outbound>)
        requires
            self.wf(),
        ensures
            r@.map_values(|o: Outbound| o@) == self@.entities,
    {
        let mut r: Vec<Outbound> = Vec::new();
        let mut i: usize = 0;
        while i < self.entries.len()
            invariant
                self.wf(),
                i <= self.entries@.len(),
                r@.len() == i,
                forall|j: int| 0 <= j < i ==> (#[trigger] r@[j])@ == self.entries@[j]@,
            decreases self.entries@.len() - i,
        {
            r.push(self.entries[i].duplicate());
            i = i + 1;
        }
        assert(r@.map_values(|o: Outbound| o@) =~= self@.entities);
        r
    }

    /// Every name, in declaration order.
    pub fn ordered_names(&self) -> (r: Vec<String>)
        requires
            self.wf(),
        ensures
            views(r@) == self@.names(),
    {
        proof {
            self.lemma_names();
        }
        copy_names(&self.names)
    }

    /// The group called `name`, where it takes a manual selection.
    pub fn control_handle(&self, name: &str) -> (r: Result<&SelectorGroup, SelectError>)
        requires
            self.wf(),
        ensures
            handle_view(r) == self@.control(name@),
            r matches Ok(g) ==> g.wf(),
    {
        match self.find(name) {
            None => Err(SelectError::NotFound),
            Some(i) => match &self.entries[i] {
                Outbound::Backend(_) => Err(SelectError::NotSelectable),
                Outbound::Group(g) => {
                    if g.kind() == GroupKind::Select {
                        Ok(g)
                    } else {
                        Err(SelectError::NotSelectable)
                    }
                },
            },
        }
    }

    /// Asks the group called `group` to make `member` its active member; returns
    /// the member it replaces. A refusal changes nothing.
    pub fn select(&mut self, group: &str, member: &str) -> (r: Result<String, SelectError>)
        requires
            old(self).wf(),
        ensures
            final(self).wf(),
            final(self)@ == old(self)@.select_state(group@, member@),
            outcome_view(r) == old(self)@.select_outcome(group@, member@),
    {
        let i = match self.find(group) {
            None => return Err(SelectError::NotFound),
            Some(i) => i,
        };
        let mut g = match &self.entries[i] {
            Outbound::Backend(_) => return Err(SelectError::NotSelectable),
            Outbound::Group(g) => {
                if g.kind() != GroupKind::Select {
                    return Err(SelectError::NotSelectable);
                }
                g.duplicate()
            },
        };
        let r = g.select(member);
        let ghost old_view = self@;
        self.entries.set(i, Outbound::Group(g));
        proof {
            assert(self@.entities =~= old_view.entities.update(i as int, self.entries@[i as int]@));
            assert(self@.names() =~= old_view.names());
        }
        r
    }

    /// Whether every entry's aggregate can count one more success.
    pub fn can_record(&self) -> (r: bool)
        requires
            self.wf(),
        ensures
            r == forall|i: int| 0 <= i < self@.stats.len() ==> (#[trigger] self@.stats[i]).successes
                < u64::MAX,
    {
        let mut i: usize = 0;
        while i < self.stats.len()
            invariant
                i <= self.stats@.len(),
                forall|j: int| 0 <= j < i ==> (#[trigger] self.stats@[j]).successes < u64::MAX,
            decreases self.stats@.len() - i,
        {
            if self.stats[i].successes == u64::MAX {
                assert(self@.stats[i as int].successes == u64::MAX);
                return false;
            }
            i = i + 1;
        }
        true
    }

    /// Folds the outcome of one probe of the entry called `name` into its
    /// running mean; `None`, and no change, where no entry is called so.
    pub fn record_probe(&mut self, name: &str, latency: Option<u64>) -> (r: Option<ProbeResult>)
        requires
            old(self).wf(),
            forall|i: int|
                0 <= i < old(self)@.stats.len() ==> (#[trigger] old(self)@.stats[i]).successes
                    < u64::MAX,
        ensures
            final(self).wf(),
            final(self)@.entities == old(self)@.entities,
            match r {
                None => !old(self)@.names().contains(name@) && final(self)@ == old(self)@,
                Some(p) => {
                    let i = old(self)@.index_of(name@);
                    &&& old(self)@.names().contains(name@)
                    &&& final(self)@.stats == old(self)@.stats.update(
                        i,
                        old(self)@.stats[i].record_spec(latency),
                    )
                    &&& p.backend_name@ == name@
                    &&& p.latency == latency
                    &&& p.mean_latency == final(self)@.stats[i].mean_spec()
                },
            },
    {
        let i = match self.find(name) {
            None => return None,
            Some(i) => i,
        };
        let mut s = self.stats[i];
        let result = ProbeResult::fold(String::from_str(name), &mut s, latency);
        self.stats.set(i, s);
        Some(result)
    }

    /// The registry that a normalized configuration seeds.
    fn from_config(cfg: &Config, Ghost(c): Ghost<RawConfig>) -> (r: Self)
        requires
            cfg.normalizes(c),
            c.fault() is None,
        ensures
            r.wf(),
            r@ == seed_view(c),
    {
        proof {
            crate::config::lemma_accepted_names_unique(c);
        }
        let names = copy_names(&cfg.proxy_names);
        let mut entries: Vec<Outbound> = Vec::new();
        let mut stats: Vec<ProbeStats> = Vec::new();
        let ghost seed = seed_view(c);
        let np = cfg.proxies.len();
        let mut i: usize = 0;
        while i < np
            invariant
                cfg.normalizes(c),
                seed == seed_view(c),
                np == cfg.proxies@.len(),
                i <= np,
                entries@.len() == i,
                stats@.len() == i,
                forall|j: int|
                    0 <= j < i ==> {
                        &&& (#[trigger] entries@[j])@ == seed.entities[j]
                        &&& entries@[j].wf()
                        &&& stats@[j] == ProbeStats::fresh()
                    },
            decreases np - i,
        {
            let b = &cfg.proxies[i];
            entries.push(Outbound::Backend(Backend { name: b.name.clone(), protocol: b.protocol.clone() }));
            stats.push(ProbeStats::new());
            proof {
                if i >= 2 {
                    assert(cfg.proxies@[(i - 2) + 2].name@ == c.proxies@[i - 2].name@);
                }
            }
            i = i + 1;
        }
        let ng = cfg.proxy_groups.len();
        let mut g: usize = 0;
        while g < ng
            invariant
                cfg.normalizes(c),
                seed == seed_view(c),
                np == cfg.proxies@.len(),
                ng == cfg.proxy_groups@.len(),
                g <= ng,
                entries@.len() == np + g,
                stats@.len() == np + g,
                forall|j: int|
                    0 <= j < np + g ==> {
                        &&& (#[trigger] entries@[j])@ == seed.entities[j]
                        &&& entries@[j].wf()
                        &&& stats@[j] == ProbeStats::fresh()
                    },
            decreases ng - g,
        {
            let sg = cfg.proxy_groups[g].duplicate();
            entries.push(Outbound::Group(sg));
            stats.push(ProbeStats::new());
            proof {
                assert(seed.entities[np + g] == seeded_group(c, g as int));
            }
            g = g + 1;
        }
        let r = OutboundRegistry { names, entries, stats };
        proof {
            assert(r@.entities =~= seed.entities);
            assert(seed.entities.len() == np + ng);
            assert(seed.stats.len() == np + ng);
            assert forall|j: int| 0 <= j < np + ng implies r@.stats[j] == seed.stats[j] by {
                assert(r.entries@[j]@ == seed.entities[j]);
                assert(r.stats@[j] == ProbeStats::fresh());
            }
            assert(r@.stats =~= seed.stats);
            assert forall|j: int| 0 <= j < r@.entities.len() implies (#[trigger] r@.entities[j] matches EntityView::Group(gv)
                ==> gv.wf()) by {
                if let Outbound::Group(sg) = r.entries@[j] {
                    assert(r.entries@[j].wf());
                    sg.lemma_view_wf();
                }
            }
            assert(views(names@) == c.declared_names());
            assert(r@.names() =~= c.declared_names()) by {
                assert forall|j: int| 0 <= j < r@.names().len() implies r@.names()[j]
                    == c.declared_names()[j] by {
                    if j >= 2 + c.proxies@.len() {
                        assert(seed.entities[j] == seeded_group(c, j - 2 - c.proxies@.len()));
                    }
                }
            }
            assert forall|j: int| 0 <= j < r.entries@.len() implies (#[trigger] r.names@[j])@
                == r.entries@[j]@.name() by {
                assert(views(names@)[j] == r@.names()[j]);
            }
        }
        r
    }

    /// Normalizes `c` and builds the registry it seeds; refuses `c` with the
    /// first fault in declaration order.
    pub fn load(c: RawConfig) -> (r: Result<Self, ConfigError>)
        ensures
            match r {
                Ok(reg) => c.fault() is None && reg.wf() && reg@ == seed_view(c)
                    && reg@.names() == c.declared_names(),
                Err(e) => c.fault() == Some(e@),
            },
    {
        let ghost raw = c;
        match Config::try_from(c) {
            Ok(cfg) => {
                let reg = Self::from_config(&cfg, Ghost(raw));
                proof {
                    lemma_seed_names(raw);
                }
                Ok(reg)
            },
            Err(e) => Err(e),
        }
    }

    /// Replaces every entry with those that `c` seeds, all at once; where `c` is
    /// refused the registry stays as it was.
    pub fn reload(&mut self, c: RawConfig) -> (r: Result<(), ConfigError>)
        requires
            old(self).wf(),
        ensures
            final(self).wf(),
            final(self)@ == old(self)@.reload_state(c),
            match r {
                Ok(()) => c.fault() is None,
                Err(e) => c.fault() == Some(e@),
            },
    {
        match Self::load(c) {
            Ok(reg) => {
                *self = reg;
                Ok(())
            },
            Err(e) => Err(e),
        }
    }
}

/// The names of the registry that `c` seeds are the names `c` declares.
pub proof fn lemma_seed_names(c: RawConfig)
    ensures
        seed_view(c).names() == c.declared_names(),
{
    let s = seed_view(c);
    assert forall|j: int| 0 <= j < s.names().len() implies s.names()[j] == c.declared_names()[j] by {
        if j >= 2 + c.proxies@.len() {
            assert(s.entities[j] == seeded_group(c, j - 2 - c.proxies@.len()));
        }
    }
    assert(s.names() =~= c.declared_names());
}

/// Lookups see one generation only: after an accepted reload every lookup
/// answers from the new configuration alone, whatever the registry held
/// before; after a refused reload, from the old state alone.
pub proof fn lemma_reload_atomic(before: RegistryView, c: RawConfig, name: Seq<char>)
    ensures
        c.fault() is None ==> before.reload_state(c).lookup(name) == seed_view(c).lookup(name),
        c.fault() is Some ==> before.reload_state(c).lookup(name) == before.lookup(name),
        c.fault() is Some ==> before.reload_state(c) == before,
{
}

/// Asking a selectable group, through the registry, for the member already
/// active reports that member and changes nothing.
pub proof fn lemma_registry_select_idempotent(v: RegistryView, group: Seq<char>)
    requires
        v.wf(),
        v.control(group) is Ok,
    ensures
        v.select_state(group, v.control(group)->Ok_0.active) == v,
        v.select_outcome(group, v.control(group)->Ok_0.active) == Ok::<Seq<char>, SelectError>(
            v.control(group)->Ok_0.active,
        ),
{
    let g = v.control(group)->Ok_0;
    let i = v.index_of(group);
    assert(v.entities[i] == EntityView::Group(g));
    assert(g.wf());
    assert(v.entities.update(i, EntityView::Group(g.select_state(g.active))) =~= v.entities);
}

/// A configuration that declares no backend, no group and no rule seeds a
/// registry holding exactly `DIRECT` and `REJECT`.
pub proof fn lemma_reserved_registry(c: RawConfig)
    requires
        c.proxies@.len() == 0,
        c.proxy_groups@.len() == 0,
        c.rules@.len() == 0,
    ensures
        c.fault() is None,
        seed_view(c).names() == reserved_names(),
{
    crate::config::lemma_reserved_only(c);
    lemma_seed_names(c);
}

} // verus!
