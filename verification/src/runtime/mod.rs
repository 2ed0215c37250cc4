//! The durable bookkeeping between control messages and bulk transport.

use vstd::prelude::*;

use crate::runtime::intake::EngineError;
use crate::runtime::state::RuntimeState;

pub mod backoff;
pub mod candidate_laws;
pub mod decision_laws;
pub mod drain;
pub mod fetch;
pub mod fetch_laws;
pub mod intake;
pub mod intake_laws;
pub mod laws;
pub mod listing;
pub mod obligations;
pub mod pass_laws;
pub mod plan;
pub mod plan_laws;
pub mod record_laws;
pub mod settle_laws;
pub mod state;
pub mod wanted_laws;

verus! {

/// What one route publication did: how many routes were published, and how
/// many announcements carried a route that does not decode.
#[derive(Debug, Clone, Copy, PartialEq, Eq, Structural)]
pub struct RouteReport {
    pub published: usize,
    pub undecodable: usize,
}

/// A source that takes the recorded routes before a fetch pass.
pub trait RoutePublishing {
    /// Publishes every route that the state records.
    fn publish_routes(&mut self, state: &RuntimeState) -> (r: Result<RouteReport, EngineError>);
}

} // verus!
