//! Node identifiers. An identifier is a byte string made of 16-byte
//! layers: the first layer names the top-level post, each further layer
//! one reply level below. A layer packs the creation time (seconds since
//! the Unix epoch) into the high 64 bits and a random tail into the low
//! 64 bits, and is serialised as 16 little-endian bytes.

use crate::error::Error;
use vstd::bytes::*;
use vstd::prelude::*;
use vstd::slice::*;

verus! {

/// A node identifier: a concatenation of 16-byte layers.
pub type NodeId = Vec<u8>;

/// Width in bytes of one identifier layer.
pub const LAYER_BYTES: usize = 16;

/// A well-formed identifier: non-empty, and a whole number of layers.
pub open spec fn id_wf(id: Seq<u8>) -> bool {
    id.len() >= 16 && id.len() % 16 == 0
}

/// The numeric value of a layer built at `secs` with random tail `tail`.
pub open spec fn spec_layer(secs: u64, tail: u64) -> u128 {
    ((secs as u128) << 64) | (tail as u128)
}

/// The 16 bytes that a layer value is serialised to.
pub open spec fn spec_layer_bytes(secs: u64, tail: u64) -> Seq<u8> {
    spec_u128_to_le_bytes(spec_layer(secs, tail))
}

/// An identifier with exactly one layer names a top-level post.
pub open spec fn spec_is_top_level(id: Seq<u8>) -> bool {
    id.len() == 16
}

/// The identifier of the top-level ancestor: the first layer.
pub open spec fn spec_top_prefix(id: Seq<u8>) -> Seq<u8> {
    id.subrange(0, 16)
}

/// The identifier of the parent: all but the last layer.
pub open spec fn spec_parent_prefix(id: Seq<u8>) -> Seq<u8> {
    id.subrange(0, id.len() - 16)
}

/// The numeric value of the last layer.
pub open spec fn spec_last_layer(id: Seq<u8>) -> u128 {
    spec_u128_from_le_bytes(id.subrange(id.len() - 16, id.len() as int))
}

/// Whether `id` is a well-formed identifier.
pub fn is_valid_id(id: &[u8]) -> (b: bool)
    ensures
        b == id_wf(id@),
{
    id.len() >= 16 && id.len() % 16 == 0
}

/// How many layers `id` has; rejects a malformed identifier.
pub fn layers(id: &[u8]) -> (r: Result<usize, Error>)
    ensures
        match r {
            Ok(n) => id_wf(id@) && n == id@.len() / 16,
            Err(e) => !id_wf(id@) && e == Error::IdInvalid,
        },
{
    if is_valid_id(id) {
        Ok(id.len() / 16)
    } else {
        Err(Error::IdInvalid)
    }
}

/// Whether `id` names a top-level post; rejects a malformed identifier.
pub fn is_top_level(id: &[u8]) -> (r: Result<bool, Error>)
    ensures
        match r {
            Ok(b) => id_wf(id@) && b == spec_is_top_level(id@),
            Err(e) => !id_wf(id@) && e == Error::IdInvalid,
        },
{
    if is_valid_id(id) {
        Ok(id.len() == 16)
    } else {
        Err(Error::IdInvalid)
    }
}

/// The first layer of `id`, as bytes; rejects a malformed identifier.
pub fn top_prefix(id: &[u8]) -> (r: Result<Vec<u8>, Error>)
    ensures
        match r {
            Ok(p) => id_wf(id@) && p@ == spec_top_prefix(id@),
            Err(e) => !id_wf(id@) && e == Error::IdInvalid,
        },
{
    if is_valid_id(id) {
        Ok(slice_to_vec(slice_subrange(id, 0, 16)))
    } else {
        Err(Error::IdInvalid)
    }
}

/// All but the last layer of `id`; rejects a malformed identifier.
/// For a top-level identifier the parent is the empty byte string.
pub fn parent_prefix(id: &[u8]) -> (r: Result<Vec<u8>, Error>)
    ensures
        match r {
            Ok(p) => id_wf(id@) && p@ == spec_parent_prefix(id@),
            Err(e) => !id_wf(id@) && e == Error::IdInvalid,
        },
{
    if is_valid_id(id) {
        Ok(slice_to_vec(slice_subrange(id, 0, id.len() - 16)))
    } else {
        Err(Error::IdInvalid)
    }
}

/// The numeric value of the last layer; rejects a malformed identifier.
pub fn last_layer_u128(id: &[u8]) -> (r: Result<u128, Error>)
    ensures
        match r {
            Ok(x) => id_wf(id@) && x == spec_last_layer(id@),
            Err(e) => !id_wf(id@) && e == Error::IdInvalid,
        },
{
    if is_valid_id(id) {
        Ok(u128_from_le_bytes(slice_subrange(id, id.len() - 16, id.len())))
    } else {
        Err(Error::IdInvalid)
    }
}

/// Serialise the layer built at `secs` with tail `tail` into 16 bytes.
pub fn make_layer(secs: u64, tail: u64) -> (r: Vec<u8>)
    ensures
        r@ == spec_layer_bytes(secs, tail),
        r@.len() == 16,
{
    let value: u128 = ((secs as u128) << 64u128) | (tail as u128);
    u128_to_le_bytes(value)
}

/// A child identifier under `parent`: the parent bytes with one fresh
/// layer appended. With an empty parent this creates a top-level
/// identifier.
pub fn child_id(parent: &[u8], secs: u64, tail: u64) -> (r: Vec<u8>)
    ensures
        r@ == parent@ + spec_layer_bytes(secs, tail),
        r@.len() == parent@.len() + 16,
{
    let mut id = slice_to_vec(parent);
    let layer = make_layer(secs, tail);
    id.extend_from_slice(layer.as_slice());
    id
}

/// The creation second recorded in a layer is recovered by dropping the
/// random tail.
pub proof fn lemma_layer_time(secs: u64, tail: u64)
    ensures
        spec_layer(secs, tail) >> 64 == secs,
{
    assert(((secs as u128) << 64 | (tail as u128)) >> 64 == secs) by (bit_vector);
}

/// Composition of identifiers: a child built under a well-formed parent
/// has that parent as its parent prefix, the parent's first layer as its
/// top prefix, and its own layer as its last layer.
pub proof fn lemma_child_id_composition(parent: Seq<u8>, secs: u64, tail: u64)
    requires
        parent.len() % 16 == 0,
    ensures
        id_wf(parent + spec_layer_bytes(secs, tail)),
        spec_parent_prefix(parent + spec_layer_bytes(secs, tail)) == parent,
        spec_last_layer(parent + spec_layer_bytes(secs, tail)) == spec_layer(secs, tail),
        parent.len() >= 16 ==> spec_top_prefix(parent + spec_layer_bytes(secs, tail))
            == spec_top_prefix(parent),
        parent.len() == 0 ==> spec_top_prefix(parent + spec_layer_bytes(secs, tail))
            == spec_layer_bytes(secs, tail),
{
    lemma_auto_spec_u128_to_from_le_bytes();
    let child = parent + spec_layer_bytes(secs, tail);
    assert(spec_layer_bytes(secs, tail).len() == 16);
    assert(child.len() == parent.len() + 16);
    assert(spec_parent_prefix(child) =~= parent);
    assert(child.subrange(child.len() - 16, child.len() as int) =~= spec_layer_bytes(
        secs,
        tail,
    ));
    if parent.len() >= 16 {
        assert(spec_top_prefix(child) =~= spec_top_prefix(parent));
    }
    if parent.len() == 0 {
        assert(spec_top_prefix(child) =~= spec_layer_bytes(secs, tail));
    }
}

} // verus!
