//! Nodes of a distributed system that talk in line-delimited messages: the
//! message envelope and its reply rule, the node state machine interface,
//! and a gossip-based broadcast node whose values reach every node of a
//! connected topology.

use vstd::prelude::*;

pub mod broadcast;
pub mod broadcast_laws;
pub mod echo;
pub mod node;
pub mod protocol;
pub mod unique_ids;

verus! {

} // verus!
