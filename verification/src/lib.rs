//! Core engine for a crowdsourced link ("go link") service.
//!
//! Users register short keys ("sources") that map either to a literal
//! destination URL or, transitively, to another registered key (an alias).
//! This crate holds the verified core: the link store gateway with its
//! uniqueness invariant, the alias resolver with cycle detection, the query
//! planner that turns (search, paging, sort) requests into ranked pages, and
//! the codec for the shareable query-string state fragments.
//!
//! HTTP routing, HTML rendering, persistence and configuration are external
//! collaborators and are not part of this crate.

pub mod codec;
pub mod distance;
pub mod model;
pub mod planner;
pub mod resolve;
pub mod schema;
pub mod store;

use vstd::prelude::*;

verus! {

/// Error taxonomy shared by the store gateway and the query planner.
///
/// `Cycle` and `NotImplemented` are deliberate terminal outcomes: they are
/// never degraded to an empty result, preserving the distinction between
/// "nothing found" and "the operation cannot logically complete".
#[derive(Clone, Copy, PartialEq, Eq, Structural, Debug)]
pub enum Error {
    NotFound,
    DuplicateKey,
    Cycle,
    InvalidInput,
    NotImplemented,
    Unavailable,
}

} // verus!
