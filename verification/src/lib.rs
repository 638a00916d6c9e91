//! A sync gateway for nodes of a peer-to-peer chain.
//!
//! A node connects to the gateway instead of to real peers. The gateway relays the node's traffic
//! to one of a pool of upstream peers, pushes live blocks to it, and can start a node from a
//! captured bootstrap. This library holds the rules and the state of all that; it does no input
//! or output. Programs around it read and write sockets and files, hand it what came, and do what
//! it says.
//!
//! - [`wire`], [`frames`]: integers and frames as they stand on the wire, rows of frames.
//! - [`lz4`], [`protocol`]: the round of a compressed block, which rounds are plausible, and the
//!   gate that passes every round on once and in rising order.
//! - [`text`], [`lists`], [`order`]: texts, lists of peers and stable ordering.
//! - [`peers`], [`probe`], [`peerd`], [`peer_files`]: addresses, probes for live blocks, the pool
//!   that the peer daemon keeps, and the files it writes.
//! - [`push`]: the merge of several peers, failover between upstreams, push sessions.
//! - [`cache`], [`capture`]: the cached bootstrap and how it is captured.
//! - [`select`], [`client_blocks`], [`nodes`], [`gateway`]: the choice of peers, client-block
//!   requests, what is kept for each node, and the state that all connections share.
//! - [`testing`]: a store of live blocks, a mock peer, a benchmark and a synthetic node.
pub mod cache;
pub mod capture;
pub mod client_blocks;
pub mod frames;
pub mod gateway;
pub mod lists;
pub mod lz4;
pub mod nodes;
pub mod order;
pub mod peer_files;
pub mod peerd;
pub mod peers;
pub mod probe;
pub mod protocol;
pub mod push;
pub mod select;
pub mod testing;
pub mod text;
pub mod wire;
