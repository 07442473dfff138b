//! Verified core of a Matrix homeserver: room state storage, event graph
//! ordering, outgoing transaction scheduling and the request-level
//! decisions that surround them.
use vstd::prelude::*;

pub mod text;
pub mod compressed;
pub mod state_set;
pub mod delta;
pub mod graph;
pub mod auth_chain;
pub mod auth;
pub mod space;
pub mod admin;
pub mod sending;
pub mod identifiers;
pub mod sync;
pub mod timeline;
pub mod destination;
pub mod appservice;
pub mod media;
pub mod alias;
pub mod incoming;
pub mod visibility;
pub mod uiaa;
pub mod typing;
pub mod acl;
pub mod relations;
pub mod sliding_sync;
pub mod state_event;
pub mod store;

verus! {
} // verus!
