use vstd::prelude::*;

use crate::registry::OutboundRegistry;
use crate::selector::{SelectError, outcome_view};

verus! {

/// The status that the control surface answers a selection change with:
/// accepted, no such selectable group, or a refused member.
pub open spec fn select_status_spec(r: Result<Seq<char>, SelectError>) -> u16 {
    match r {
        Ok(_) => 202,
        Err(SelectError::NotFound) => 404,
        Err(SelectError::NotSelectable) => 404,
        Err(SelectError::NotAMember) => 400,
    }
}

/// The state that the control surface serves: the registry of outbounds.
pub struct ProxyState {
    pub outbound_manager: OutboundRegistry,
}

impl ProxyState {
    pub fn new(outbound_manager: OutboundRegistry) -> (r: Self)
        ensures
            r.outbound_manager@ == outbound_manager@,
            r.outbound_manager.wf() == outbound_manager.wf(),
    {
        ProxyState { outbound_manager }
    }

    /// Handles a request to make `member` the active member of `proxy`: one
    /// control handle, one selection, no retry. Returns the status to answer
    /// with and what the selection reported.
    pub fn update_proxy(&mut self, proxy: &str, member: &str) -> (r: (u16, Result<String, SelectError>))
        requires
            old(self).outbound_manager.wf(),
        ensures
            final(self).outbound_manager.wf(),
            final(self).outbound_manager@ == old(self).outbound_manager@.select_state(proxy@, member@),
            outcome_view(r.1) == old(self).outbound_manager@.select_outcome(proxy@, member@),
            r.0 == select_status_spec(outcome_view(r.1)),
    {
        let r = self.outbound_manager.select(proxy, member);
        let status: u16 = match &r {
            Ok(_) => 202,
            Err(SelectError::NotFound) => 404,
            Err(SelectError::NotSelectable) => 404,
            Err(SelectError::NotAMember) => 400,
        };
        (status, r)
    }
}

} // verus!
