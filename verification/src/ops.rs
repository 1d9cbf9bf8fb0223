//! Dispatch of decoded client actions onto the store. Each action maps
//! to exactly one store operation; the response is whatever that
//! operation produced, and domain errors travel inside the response
//! rather than failing the call.

use crate::store::listing_of;
use crate::store::response_masked;
use crate::store::spec_delete;
use crate::store::spec_post;
use crate::store::spec_update;
use crate::store::DbFault;
use crate::store::Store;
use crate::types::Action;
use crate::types::ActionV;
use crate::types::ListTarget;
use crate::types::ListTargetV;
use crate::types::Response;
use crate::types::ResponseV;
use vstd::prelude::*;

verus! {

/// Run one decoded action against the store at second `now`.
///
/// A mutation leaves behind exactly the maps its specification names; a
/// listing leaves the store untouched and returns the matching rows in
/// their display order. Every response shows only masked authors.
pub fn take_action(store: &mut Store, action: Action, now: u64) -> (res: Result<Response, DbFault>)
    requires
        old(store).wf(),
    ensures
        match action@ {
            ActionV::Post(n) => !crate::idspace::id_wf(n.id) ==> (res matches Ok(resp) && resp@
                == ResponseV::Error(crate::error::Error::IdInvalid) && *final(store) == *old(
                store,
            )),
            ActionV::Update(n) => n.author.is_masked() ==> (res matches Ok(resp) && resp@
                == ResponseV::Error(crate::error::Error::NeedUnMaskPass) && *final(store) == *old(
                store,
            )),
            ActionV::Delete(n) => n.author.is_masked() ==> (res matches Ok(resp) && resp@
                == ResponseV::Error(crate::error::Error::NeedUnMaskPass) && *final(store) == *old(
                store,
            )),
            ActionV::List(_) => true,
        },
        match res {
            Ok(resp) => {
                &&& final(store).wf()
                &&& response_masked(resp@)
                &&& match action@ {
                    ActionV::Post(n) => (
                        final(store).content_map(),
                        final(store).root_map(),
                        resp@,
                    ) == spec_post(old(store).content_map(), old(store).root_map(), n, now),
                    ActionV::Update(n) => (
                        final(store).content_map(),
                        final(store).root_map(),
                        resp@,
                    ) == spec_update(old(store).content_map(), old(store).root_map(), n),
                    ActionV::Delete(n) => (
                        final(store).content_map(),
                        final(store).root_map(),
                        resp@,
                    ) == spec_delete(old(store).content_map(), old(store).root_map(), n, now),
                    ActionV::List(ListTargetV::Root) => *final(store) == *old(store) && match resp@ {
                        ResponseV::List(l) => listing_of(old(store).root_map(), Seq::<u8>::empty(), l)
                            && crate::order::sorted_by_reply_desc(l),
                        _ => false,
                    },
                    ActionV::List(ListTargetV::Node(id)) => *final(store) == *old(store)
                        && match resp@ {
                        ResponseV::List(l) => listing_of(old(store).content_map(), id, l)
                            && crate::order::sorted_by_id(l),
                        _ => false,
                    },
                }
            },
            Err(_) => true,
        },
{
    match action {
        Action::Post(node) => store.post(node, now),
        Action::Delete(node) => store.delete(node, now),
        Action::Update(node) => store.update(node),
        Action::List(ListTarget::Root) => store.list_root(),
        Action::List(ListTarget::Node(node_id)) => store.list(&node_id),
    }
}

} // verus!
