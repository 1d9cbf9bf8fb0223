//! The closed enumeration of domain errors. Every failure that a client can
//! see is one of these; storage and socket faults are never surfaced as a
//! response.

use vstd::prelude::*;

verus! {

/// A domain error, carried on the wire inside `Response::Err`.
#[derive(Debug, Clone, Copy, PartialEq, Eq, Structural)]
pub enum Error {
    /// A mutation was submitted with an already-masked pass, so the server
    /// cannot check authorship.
    NeedUnMaskPass,
    /// A post used an identifier that is already present.
    NodeExist,
    /// A mutation addressed an identifier that is not present.
    NodeNotExist,
    /// An identifier whose length is not a positive multiple of the layer
    /// width, or a reply whose top-level row is absent.
    IdInvalid,
    /// The supplied name and passphrase do not match the stored author.
    PassNotMatch,
    /// A delete arrived after the permitted window had closed.
    DeleteLimitOverdue,
    /// The peer cannot be reached; produced only on the client side.
    NetworkError,
}

} // verus!
