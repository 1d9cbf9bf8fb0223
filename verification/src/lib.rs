//! A small distributed forum: a tree of posts addressed by hierarchical
//! binary identifiers, stored in an ordered key-value store with a
//! secondary root-list index, spoken to over a framed binary protocol.
//!
//! The crate is organised leaves-first:
//! - `error`: the closed set of domain errors;
//! - `idspace`: construction and classification of node identifiers;
//! - `identity`: author names, passphrases and one-way masking;
//! - `types`: nodes, actions and responses;
//! - `codec`: the length-prefixed binary encoding of every wire value;
//! - `order`: the sort orders used when listing nodes;
//! - `util`: byte and string helpers shared by codec and identity;
//! - `store`: the storage engine with its write-time invariants;
//! - `ops`: dispatch of decoded actions onto the store;
//! - `wire`: frame assembly and parsing;
//! - `session`: the per-connection server logic;
//! - `link`: the client connection state machine.

pub mod codec;
pub mod error;
pub mod identity;
pub mod idspace;
pub mod link;
pub mod ops;
pub mod order;
pub mod session;
pub mod store;
pub mod types;
pub mod util;
pub mod wire;

pub use error::Error;
pub use identity::Author;
pub use identity::Pass;
pub use idspace::NodeId;
pub use types::Action;
pub use types::ListTarget;
pub use types::Node;
pub use types::Response;
