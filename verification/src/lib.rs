//! The core of a gossip-driven overlay node: the versioned, signed graph
//! database of known peers with its gossip acceptance algorithm, and the
//! CORES package pipeline that turns an outgoing message plus a chosen
//! route into on-wire bytes (and back).

use vstd::prelude::*;

pub mod codec;
pub mod cryptde;
pub mod encodings;
pub mod gossip;
pub mod gossip_acceptor;
pub mod hopper;
pub mod logger;
pub mod masquerader;
pub mod neighborhood_database;
pub mod node_addr;
pub mod record_codec;
pub mod route;

verus! {

} // verus!
