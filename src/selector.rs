use vstd::prelude::*;

use crate::names::{copy_names, position, views};

verus! {

/// The strategy of a group. Only `Select` groups take a manual selection; the
/// others pick their member automatically.
#[derive(Clone, Copy, Debug, PartialEq, Eq, Structural)]
pub enum GroupKind {
    Select,
    UrlTest,
    Fallback,
    LoadBalance,
    Relay,
}

/// Why a selection change was refused.
#[derive(Clone, Copy, Debug, PartialEq, Eq, Structural)]
pub enum SelectError {
    /// No entry of that name exists.
    NotFound,
    /// The entry exists but does not take a manual selection.
    NotSelectable,
    /// The candidate is not one of the group's members.
    NotAMember,
}

/// The abstract state of a group: its name, kind, ordered members and the
/// active member.
pub ghost struct GroupView {
    pub name: Seq<char>,
    pub kind: GroupKind,
    pub members: Seq<Seq<char>>,
    pub active: Seq<char>,
}

impl GroupView {
    pub open spec fn wf(self) -> bool {
        &&& self.members.len() > 0
        &&& self.members.contains(self.active)
    }

    /// The state after selecting `candidate`: the active member changes only
    /// when the candidate is a member.
    pub open spec fn select_state(self, candidate: Seq<char>) -> GroupView {
        if self.members.contains(candidate) {
            GroupView { active: candidate, ..self }
        } else {
            self
        }
    }

    /// What selecting `candidate` reports: the previous active member, or
    /// `NotAMember`.
    pub open spec fn select_outcome(self, candidate: Seq<char>) -> Result<Seq<char>, SelectError> {
        if self.members.contains(candidate) {
            Ok(self.active)
        } else {
            Err(SelectError::NotAMember)
        }
    }
}

/// The text of a selection outcome.
pub open spec fn outcome_view(r: Result<String, SelectError>) -> Result<Seq<char>, SelectError> {
    match r {
        Ok(s) => Ok(s@),
        Err(e) => Err(e),
    }
}

/// The state and the outcomes of applying the selections `cs` one after another.
pub open spec fn run_selects(g: GroupView, cs: Seq<Seq<char>>) -> (GroupView, Seq<
    Result<Seq<char>, SelectError>,
>)
    decreases cs.len(),
{
    if cs.len() == 0 {
        (g, Seq::empty())
    } else {
        let (h, rs) = run_selects(g, cs.drop_last());
        (h.select_state(cs.last()), rs.push(h.select_outcome(cs.last())))
    }
}

/// A named group of members with one active member.
pub struct SelectorGroup {
    name: String,
    kind: GroupKind,
    members: Vec<String>,
    active: usize,
}

impl View for SelectorGroup {
    type V = GroupView;

    closed spec fn view(&self) -> GroupView {
        GroupView {
            name: self.name@,
            kind: self.kind,
            members: views(self.members@),
            active: self.members@[self.active as int]@,
        }
    }
}

impl SelectorGroup {
    /// The concrete layout matches the view: the active index is in range.
    pub closed spec fn wf(&self) -> bool {
        &&& self.active < self.members@.len()
        &&& self@.wf()
    }

    /// A well-formed group has a well-formed view.
    pub proof fn lemma_view_wf(&self)
        requires
            self.wf(),
        ensures
            self@.wf(),
    {
    }

    /// A group whose active member is its first member.
    pub fn new(name: String, kind: GroupKind, members: Vec<String>) -> (r: Self)
        requires
            members@.len() > 0,
        ensures
            r.wf(),
            r@.name == name@,
            r@.kind == kind,
            r@.members == views(members@),
            r@.active == members@[0]@,
    {
        let r = SelectorGroup { name, kind, members, active: 0 };
        assert(views(r.members@)[0] == r.members@[0]@);
        r
    }

    pub fn name(&self) -> (r: &str)
        ensures
            r@ == self@.name,
    {
        self.name.as_str()
    }

    pub fn kind(&self) -> (r: GroupKind)
        ensures
            r == self@.kind,
    {
        self.kind
    }

    pub fn members(&self) -> (r: Vec<String>)
        ensures
            views(r@) == self@.members,
    {
        copy_names(&self.members)
    }

    /// The active member at the instant of the call.
    pub fn current(&self) -> (r: String)
        requires
            self.wf(),
        ensures
            r@ == self@.active,
    {
        self.members[self.active].clone()
    }

    /// Makes `candidate` the active member and returns the one it replaces;
    /// refuses a candidate that is not a member and then changes nothing.
    pub fn select(&mut self, candidate: &str) -> (r: Result<String, SelectError>)
        requires
            old(self).wf(),
        ensures
            final(self).wf(),
            final(self)@ == old(self)@.select_state(candidate@),
            outcome_view(r) == old(self)@.select_outcome(candidate@),
    {
        match position(&self.members, candidate) {
            Some(i) => {
                let previous = self.members[self.active].clone();
                self.active = i;
                assert(views(self.members@)[i as int] == candidate@);
                Ok(previous)
            },
            None => Err(SelectError::NotAMember),
        }
    }

    /// A copy of the group with the same state.
    pub fn duplicate(&self) -> (r: Self)
        requires
            self.wf(),
        ensures
            r.wf(),
            r@ == self@,
    {
        let members = copy_names(&self.members);
        SelectorGroup { name: self.name.clone(), kind: self.kind, members, active: self.active }
    }
}

/// Selecting the member that is already active reports it as the previous one
/// and leaves the state as it was.
pub proof fn lemma_select_idempotent(g: GroupView)
    requires
        g.wf(),
    ensures
        g.select_state(g.active) == g,
        g.select_outcome(g.active) == Ok::<Seq<char>, SelectError>(g.active),
{
}

/// Selecting a name that is not a member fails with `NotAMember`, and the
/// active member stays what it was.
pub proof fn lemma_select_rejects_non_member(g: GroupView, candidate: Seq<char>)
    requires
        g.wf(),
        !g.members.contains(candidate),
    ensures
        g.select_outcome(candidate) == Err::<Seq<char>, SelectError>(SelectError::NotAMember),
        g.select_state(candidate) == g,
        g.select_state(candidate).active == g.active,
{
}

/// Selections on one group, applied in some total order, lose no update: the
/// group ends at the last candidate, the first call reports the initial active
/// member and every later call reports the candidate of the call before it.
pub proof fn lemma_selects_serialize(g: GroupView, cs: Seq<Seq<char>>)
    requires
        g.wf(),
        forall|i: int| 0 <= i < cs.len() ==> g.members.contains(#[trigger] cs[i]),
    ensures
        run_selects(g, cs).0.wf(),
        run_selects(g, cs).0.members == g.members,
        run_selects(g, cs).1.len() == cs.len(),
        cs.len() > 0 ==> run_selects(g, cs).0.active == cs.last(),
        cs.len() == 0 ==> run_selects(g, cs).0 == g,
        cs.len() > 0 ==> run_selects(g, cs).1[0] == Ok::<Seq<char>, SelectError>(g.active),
        forall|i: int|
            0 < i < cs.len() ==> run_selects(g, cs).1[i] == Ok::<Seq<char>, SelectError>(cs[i - 1]),
    decreases cs.len(),
{
    if cs.len() > 0 {
        let front = cs.drop_last();
        lemma_selects_serialize(g, front);
        let (h, rs) = run_selects(g, front);
        assert(g.members.contains(cs[cs.len() - 1]));
        if front.len() > 0 {
            assert(front.last() == cs[cs.len() - 2]);
        }
        assert forall|i: int| 0 < i < cs.len() implies run_selects(g, cs).1[i] == Ok::<
            Seq<char>,
            SelectError,
        >(cs[i - 1]) by {
            if i < cs.len() - 1 {
                assert(front[i - 1] == cs[i - 1]);
            }
        }
    }
}

} // verus!
