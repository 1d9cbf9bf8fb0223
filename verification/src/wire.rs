//! Frame assembly and parsing. Each frame on the wire is a four-byte
//! little-endian payload length followed by that many payload bytes; a
//! length of zero is the end-of-stream sentinel, after which the sender
//! writes nothing more.

use vstd::bytes::*;
use vstd::prelude::*;
use vstd::slice::slice_subrange;

verus! {

/// The bytes of a frame around `payload`.
pub open spec fn spec_frame(payload: Seq<u8>) -> Seq<u8> {
    spec_u32_to_le_bytes(payload.len() as u32) + payload
}

/// The four sentinel bytes that end a stream.
pub open spec fn spec_eos() -> Seq<u8> {
    spec_u32_to_le_bytes(0)
}

/// Wrap a payload in a frame. An empty payload is refused — it would
/// read as the sentinel — and so is one whose length does not fit the
/// length field.
pub fn encode_frame(payload: &Vec<u8>) -> (r: Option<Vec<u8>>)
    ensures
        match r {
            Some(f) => 0 < payload@.len() <= u32::MAX && f@ == spec_frame(payload@),
            None => payload@.len() == 0 || payload@.len() > u32::MAX,
        },
{
    if payload.len() == 0 {
        return None;
    }
    if payload.len() > u32::MAX as usize {
        return None;
    }
    let mut out = u32_to_le_bytes(payload.len() as u32);
    out.extend_from_slice(payload.as_slice());
    proof {
        assert(out@ =~= spec_frame(payload@));
    }
    Some(out)
}

/// The end-of-stream sentinel.
pub fn eos_frame() -> (r: Vec<u8>)
    ensures
        r@ == spec_eos(),
        r@.len() == 4,
{
    proof {
        lemma_auto_spec_u32_to_from_le_bytes();
    }
    u32_to_le_bytes(0)
}

/// Read a frame header: the length of the payload that follows. Zero
/// announces end of stream.
pub fn header_len(header: &[u8]) -> (r: u32)
    requires
        header@.len() == 4,
    ensures
        r == spec_u32_from_le_bytes(header@),
{
    proof {
        assert(header@.subrange(0, 4) =~= header@);
    }
    u32_from_le_bytes(slice_subrange(header, 0, 4))
}

/// A frame parses back to its payload: reading the header of a built
/// frame gives the payload length, and the rest is the payload itself.
pub proof fn lemma_frame_round_trip(payload: Seq<u8>)
    requires
        0 < payload.len() <= u32::MAX,
    ensures
        spec_frame(payload).len() == 4 + payload.len(),
        spec_u32_from_le_bytes(spec_frame(payload).subrange(0, 4)) == payload.len(),
        spec_frame(payload).subrange(4, spec_frame(payload).len() as int) == payload,
        spec_u32_from_le_bytes(spec_frame(payload).subrange(0, 4)) != 0,
{
    lemma_auto_spec_u32_to_from_le_bytes();
    let f = spec_frame(payload);
    assert(spec_u32_to_le_bytes(payload.len() as u32).len() == 4);
    assert(f.subrange(0, 4) =~= spec_u32_to_le_bytes(payload.len() as u32));
    assert(spec_u32_from_le_bytes(spec_u32_to_le_bytes(payload.len() as u32)) == payload.len()
        as u32);
    assert(payload.len() as u32 == payload.len());
    assert(f.subrange(4, f.len() as int) =~= payload);
}

/// The sentinel is unmistakable: no real frame's header reads zero.
pub proof fn lemma_eos_distinct()
    ensures
        spec_u32_from_le_bytes(spec_eos()) == 0,
        forall|payload: Seq<u8>|
            0 < payload.len() <= u32::MAX ==> spec_u32_from_le_bytes(
                #[trigger] spec_frame(payload).subrange(0, 4),
            ) != 0,
{
    lemma_auto_spec_u32_to_from_le_bytes();
    assert(spec_u32_to_le_bytes(0u32).len() == 4);
    assert(spec_u32_from_le_bytes(spec_u32_to_le_bytes(0u32)) == 0);
    assert forall|payload: Seq<u8>|
        0 < payload.len() <= u32::MAX implies spec_u32_from_le_bytes(
        #[trigger] spec_frame(payload).subrange(0, 4),
    ) != 0 by {
        lemma_frame_round_trip(payload);
    }
}

} // verus!
