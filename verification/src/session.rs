//! The per-connection server logic, stripped of its sockets: what to do
//! with one request payload, and what notification a storage change
//! fans out to every session. The surrounding tasks — reading frames,
//! watching the subscription stream, writing the outbound queue — only
//! move bytes that these functions produced.

use crate::codec::dec_action;
use crate::codec::dec_body;
use crate::codec::decode_action;
use crate::codec::decode_body;
use crate::codec::enc_response;
use crate::codec::encode_response;
use crate::identity::AuthorV;
use crate::identity::PassV;
use crate::ops::take_action;
use crate::store::DbFault;
use crate::store::Store;
use crate::types::ActionV;
use crate::types::ListTargetV;
use crate::types::Node;
use crate::types::NodeV;
use crate::types::Response;
use crate::types::ResponseV;
use crate::wire::encode_frame;
use crate::wire::spec_frame;
use vstd::prelude::*;

verus! {

/// Handle one request payload at second `now`: decode it, run the
/// action, and return the reply. A payload that does not decode to
/// exactly one action is dropped — the client sees no reply for it and
/// the store is untouched.
pub fn handle_payload(store: &mut Store, payload: &Vec<u8>, now: u64) -> (res: Result<
    Option<Response>,
    DbFault,
>)
    requires
        old(store).wf(),
    ensures
        (match dec_action(payload@, 0) {
            Some((a, end)) => end != payload@.len(),
            None => true,
        }) ==> (res matches Ok(out) && out is None && *final(store) == *old(store)),
        match res {
            Ok(out) => {
                &&& final(store).wf()
                &&& match dec_action(payload@, 0) {
                    Some((a, end)) => if end == payload@.len() {
                        match out {
                            Some(resp) => crate::store::response_masked(resp@) && match a {
                                ActionV::Post(n) => (
                                    final(store).content_map(),
                                    final(store).root_map(),
                                    resp@,
                                ) == crate::store::spec_post(
                                    old(store).content_map(),
                                    old(store).root_map(),
                                    n,
                                    now,
                                ),
                                ActionV::Update(n) => (
                                    final(store).content_map(),
                                    final(store).root_map(),
                                    resp@,
                                ) == crate::store::spec_update(
                                    old(store).content_map(),
                                    old(store).root_map(),
                                    n,
                                ),
                                ActionV::Delete(n) => (
                                    final(store).content_map(),
                                    final(store).root_map(),
                                    resp@,
                                ) == crate::store::spec_delete(
                                    old(store).content_map(),
                                    old(store).root_map(),
                                    n,
                                    now,
                                ),
                                ActionV::List(ListTargetV::Root) => *final(store) == *old(store)
                                    && match resp@ {
                                    ResponseV::List(l) => crate::store::listing_of(
                                        old(store).root_map(),
                                        Seq::<u8>::empty(),
                                        l,
                                    ) && crate::order::sorted_by_reply_desc(l),
                                    _ => false,
                                },
                                ActionV::List(ListTargetV::Node(id)) => *final(store) == *old(
                                    store,
                                ) && match resp@ {
                                    ResponseV::List(l) => crate::store::listing_of(
                                        old(store).content_map(),
                                        id,
                                        l,
                                    ) && crate::order::sorted_by_id(l),
                                    _ => false,
                                },
                            },
                            None => false,
                        }
                    } else {
                        out is None && *final(store) == *old(store)
                    },
                    None => out is None && *final(store) == *old(store),
                }
            },
            Err(_) => true,
        },
{
    let action = match decode_action(payload.as_slice()) {
        Some(a) => a,
        None => {
            return Ok(None);
        },
    };
    match take_action(store, action, now) {
        Ok(resp) => Ok(Some(resp)),
        Err(fault) => Err(fault),
    }
}

/// Frame a response for the outbound stream. A response too large for
/// the length field cannot be sent and yields nothing.
pub fn response_frame(resp: &Response) -> (r: Option<Vec<u8>>)
    ensures
        match r {
            Some(f) => f@ == spec_frame(enc_response(resp@)) && 0 < enc_response(resp@).len()
                <= u32::MAX,
            None => enc_response(resp@).len() == 0 || enc_response(resp@).len() > u32::MAX,
        },
{
    let payload = encode_response(resp);
    encode_frame(&payload)
}

/// The stand-in node that a deletion notification carries: only the
/// identifier is meaningful; the author is an empty mask, so even this
/// synthetic node leaks no passphrase.
pub open spec fn spec_tombstone(id: Seq<u8>) -> NodeV {
    NodeV {
        id: id,
        title: Seq::<char>::empty(),
        author: AuthorV { name: Seq::<char>::empty(), pass: PassV::Mask(Seq::<char>::empty()) },
        content: Seq::<char>::empty(),
        publish_time: 0,
        last_reply: 0,
        edited: false,
    }
}

/// Derive the notification that one storage change fans out to every
/// session: a write becomes an update notification carrying the stored
/// node, a removal a deletion notification carrying only the
/// identifier. A write whose bytes do not decode to one masked body is
/// not forwarded.
pub fn subscription_response(key: &Vec<u8>, value: Option<&Vec<u8>>) -> (r: Option<Response>)
    ensures
        match value {
            Some(v) => match dec_body(v@, 0, key@) {
                Some((n, end)) => if end == v@.len() && n.author.is_masked() {
                    r matches Some(resp) && resp@ == ResponseV::Update(n)
                } else {
                    r is None
                },
                None => r is None,
            },
            None => r matches Some(resp) && resp@ == ResponseV::Delete(spec_tombstone(key@)),
        },
        match r {
            Some(resp) => crate::store::response_masked(resp@),
            None => true,
        },
{
    match value {
        Some(v) => match decode_body(key.as_slice(), v.as_slice()) {
            Some(node) => {
                if node.author.is_masked() {
                    Some(Response::Update(node))
                } else {
                    None
                }
            },
            None => None,
        },
        None => {
            let tombstone = Node {
                id: vstd::slice::slice_to_vec(key.as_slice()),
                title: String::new(),
                author: crate::identity::Author {
                    name: String::new(),
                    pass: crate::identity::Pass::Mask(String::new()),
                },
                content: String::new(),
                publish_time: 0,
                last_reply: 0,
                edited: false,
            };
            Some(Response::Delete(tombstone))
        },
    }
}

} // verus!
