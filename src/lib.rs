//! Runtime of a small cluster of peers that accept image-encryption requests,
//! elect a coordinator by load, route requests to the least-loaded peer and
//! keep encrypted images per recipient under a view quota.
use vstd::prelude::*;

pub mod balancer;
pub mod chunking;
pub mod client;
pub mod detector;
pub mod election;
pub mod encryption;
pub mod messages;
pub mod monitor;
pub mod node;
pub mod store;
pub mod table;

verus! {

} // verus!
