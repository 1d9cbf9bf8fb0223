//! The storage engine: two ordered byte-keyed trees of one embedded
//! database. The `content` tree keys every node body by its full
//! identifier; the `root_list` tree mirrors the rows of the top-level
//! nodes for cheap thread listings. Every mutation keeps the two in
//! step, stores only masked authors, and checks the write-time rules of
//! the forum: fresh identifiers, an existing top row for replies,
//! authenticated updates and deletes, and the delete time window.
//!
//! The trees are modelled as maps from byte keys to byte values; each
//! operation's contract states the exact map it leaves behind and the
//! exact response it returns.

use crate::codec::dec_body;
use crate::codec::dec_bytes;
use crate::codec::dec_pass;
use crate::codec::dec_str;
use crate::codec::dec_u32;
use crate::codec::decode_body;
use crate::codec::enc_body;
use crate::codec::encode_body;
use crate::codec::node_encodable;
use crate::codec::note_node_encodable;
use crate::codec::str_encodable;
use crate::codec::lemma_body_round_trip;
use crate::error::Error;
use crate::identity::spec_match_pass;
use crate::idspace::id_wf;
use crate::types::views_of;
use crate::types::Node;
use crate::types::NodeV;
use crate::types::Response;
use crate::types::ResponseV;
use vstd::prelude::*;
use vstd::utf8::decode_utf8_encode_utf8;

verus! {

// ---------------------------------------------------------------------
// The trusted boundary to the embedded database.
// ---------------------------------------------------------------------
#[verifier::external_type_specification]
#[verifier::external_body]
pub struct ExTree(sled::Tree);

/// A storage-engine fault: never surfaced to clients as a response.
#[derive(Debug, Clone, Copy, PartialEq, Eq, Structural)]
pub struct DbFault;

/// The storage engine: the `content` tree and its `root_list` mirror,
/// two trees of one embedded database. The handle is opaque; the two
/// maps below are its whole model.
#[verifier::external_body]
pub struct Store {
    content: sled::Tree,
    root_list: sled::Tree,
}

/// The rows of the content tree. Relies on sled::Tree being a map from
/// byte keys to byte values.
pub uninterp spec fn content_of(s: Store) -> Map<Seq<u8>, Seq<u8>>;

/// The rows of the root-list tree. Relies on sled::Tree being a map
/// from byte keys to byte values.
pub uninterp spec fn rootlist_of(s: Store) -> Map<Seq<u8>, Seq<u8>>;

/// The name a tree was opened under. Relies on sled::Tree::name; sled
/// hands out one tree per name, so trees with different names are
/// different trees.
pub uninterp spec fn name_of(t: sled::Tree) -> Seq<u8>;

/// Relies on sled::Tree::name: the name the tree was opened under.
#[verifier::external_body]
fn tree_name(t: &sled::Tree) -> (r: Vec<u8>)
    ensures
        r@ == name_of(*t),
{
    t.name().to_vec()
}

/// Wrap two freshly opened trees. Nothing is known of what they hold
/// until they are cleared or reconciled.
#[verifier::external_body]
fn store_attach(content: sled::Tree, root_list: sled::Tree) -> Store {
    Store { content, root_list }
}

/// Relies on sled::Tree::clear, on both trees: afterwards the store
/// holds nothing.
#[verifier::external_body]
fn store_clear_both(s: &mut Store) -> (r: Result<(), DbFault>)
    ensures
        match r {
            Ok(_) => content_of(*final(s)) == Map::<Seq<u8>, Seq<u8>>::empty() && rootlist_of(
                *final(s),
            ) == Map::<Seq<u8>, Seq<u8>>::empty(),
            Err(_) => true,
        },
{
    s.content.clear().map_err(|_| DbFault)?;
    s.root_list.clear().map_err(|_| DbFault)
}

/// Relies on sled::Tree::clear on the root-list tree alone; the
/// content tree is untouched.
#[verifier::external_body]
fn root_clear(s: &mut Store) -> (r: Result<(), DbFault>)
    ensures
        match r {
            Ok(_) => rootlist_of(*final(s)) == Map::<Seq<u8>, Seq<u8>>::empty() && content_of(
                *final(s),
            ) == content_of(*old(s)),
            Err(_) => true,
        },
{
    s.root_list.clear().map_err(|_| DbFault)
}

/// Relies on sled::Tree::get on the content tree: the value stored
/// under the key, if any.
#[verifier::external_body]
fn content_get(s: &Store, key: &Vec<u8>) -> (r: Result<Option<Vec<u8>>, DbFault>)
    ensures
        match r {
            Ok(Some(v)) => content_of(*s).contains_key(key@) && content_of(*s)[key@] == v@,
            Ok(None) => !content_of(*s).contains_key(key@),
            Err(_) => true,
        },
{
    match s.content.get(key) {
        Ok(Some(v)) => Ok(Some(v.to_vec())),
        Ok(None) => Ok(None),
        Err(_) => Err(DbFault),
    }
}

/// Relies on sled::Batch (`default`, `insert`) and
/// sled::Tree::apply_batch on the content tree: writes one or two rows
/// in one atomic batch; the root list is untouched.
#[verifier::external_body]
fn content_apply_two(
    s: &mut Store,
    k1: &Vec<u8>,
    v1: &Vec<u8>,
    second: &Option<(Vec<u8>, Vec<u8>)>,
) -> (r: Result<(), DbFault>)
    ensures
        match r {
            Ok(_) => content_of(*final(s)) == (match second {
                Some(pair) => content_of(*old(s)).insert(k1@, v1@).insert(pair.0@, pair.1@),
                None => content_of(*old(s)).insert(k1@, v1@),
            }) && rootlist_of(*final(s)) == rootlist_of(*old(s)),
            Err(_) => true,
        },
{
    let mut batch = sled::Batch::default();
    batch.insert(k1.as_slice(), v1.as_slice());
    if let Some((k2, v2)) = second {
        batch.insert(k2.as_slice(), v2.as_slice());
    }
    s.content.apply_batch(batch).map_err(|_| DbFault)
}

/// Relies on sled::Tree::remove on the content tree; the root list is
/// untouched.
#[verifier::external_body]
fn content_remove(s: &mut Store, key: &Vec<u8>) -> (r: Result<(), DbFault>)
    ensures
        match r {
            Ok(_) => content_of(*final(s)) == content_of(*old(s)).remove(key@) && rootlist_of(
                *final(s),
            ) == rootlist_of(*old(s)),
            Err(_) => true,
        },
{
    s.content.remove(key.as_slice()).map(|_| ()).map_err(|_| DbFault)
}

/// Relies on sled::Tree::insert on the root-list tree; the content tree
/// is untouched.
#[verifier::external_body]
fn root_insert(s: &mut Store, key: &Vec<u8>, value: &Vec<u8>) -> (r: Result<(), DbFault>)
    ensures
        match r {
            Ok(_) => rootlist_of(*final(s)) == rootlist_of(*old(s)).insert(key@, value@)
                && content_of(*final(s)) == content_of(*old(s)),
            Err(_) => true,
        },
{
    s.root_list.insert(key.as_slice(), value.as_slice()).map(|_| ()).map_err(|_| DbFault)
}

/// Relies on sled::Tree::remove on the root-list tree; the content tree
/// is untouched.
#[verifier::external_body]
fn root_remove(s: &mut Store, key: &Vec<u8>) -> (r: Result<(), DbFault>)
    ensures
        match r {
            Ok(_) => rootlist_of(*final(s)) == rootlist_of(*old(s)).remove(key@) && content_of(
                *final(s),
            ) == content_of(*old(s)),
            Err(_) => true,
        },
{
    s.root_list.remove(key.as_slice()).map(|_| ()).map_err(|_| DbFault)
}

/// Relies on sled::Tree::scan_prefix on the content tree: exactly the
/// pairs whose key starts with the prefix, each key once.
#[verifier::external_body]
fn content_scan(s: &Store, prefix: &Vec<u8>) -> (r: Result<Vec<(Vec<u8>, Vec<u8>)>, DbFault>)
    ensures
        match r {
            Ok(pairs) => scan_ok(content_of(*s), prefix@, pairs@),
            Err(_) => true,
        },
{
    let mut out: Vec<(Vec<u8>, Vec<u8>)> = Vec::new();
    for item in s.content.scan_prefix(prefix.as_slice()) {
        let (k, v) = match item {
            Ok(pair) => pair,
            Err(_) => {
                return Err(DbFault);
            },
        };
        out.push((k.to_vec(), v.to_vec()));
    }
    Ok(out)
}

/// Relies on sled::Tree::scan_prefix on the root-list tree: exactly the
/// pairs whose key starts with the prefix, each key once.
#[verifier::external_body]
fn root_scan(s: &Store, prefix: &Vec<u8>) -> (r: Result<Vec<(Vec<u8>, Vec<u8>)>, DbFault>)
    ensures
        match r {
            Ok(pairs) => scan_ok(rootlist_of(*s), prefix@, pairs@),
            Err(_) => true,
        },
{
    let mut out: Vec<(Vec<u8>, Vec<u8>)> = Vec::new();
    for item in s.root_list.scan_prefix(prefix.as_slice()) {
        let (k, v) = match item {
            Ok(pair) => pair,
            Err(_) => {
                return Err(DbFault);
            },
        };
        out.push((k.to_vec(), v.to_vec()));
    }
    Ok(out)
}

/// What a prefix scan hands back: every pair it lists is in the map,
/// carries the map's value and the prefix; every key of the map under
/// the prefix is listed; no key is listed twice.
pub open spec fn scan_ok(
    m: Map<Seq<u8>, Seq<u8>>,
    prefix: Seq<u8>,
    pairs: Seq<(Vec<u8>, Vec<u8>)>,
) -> bool {
    &&& forall|i: int|
        0 <= i < pairs.len() ==> m.contains_key((#[trigger] pairs[i]).0@) && m[pairs[i].0@]
            == pairs[i].1@ && is_prefix_of(prefix, pairs[i].0@)
    &&& forall|k: Seq<u8>|
        m.contains_key(k) && is_prefix_of(prefix, k) ==> exists|i: int|
            0 <= i < pairs.len() && (#[trigger] pairs[i]).0@ == k
    &&& forall|i: int, j: int|
        0 <= i < j < pairs.len() ==> (#[trigger] pairs[i]).0@ != (#[trigger] pairs[j]).0@
}

// ---------------------------------------------------------------------
// The model of the rows.
// ---------------------------------------------------------------------
/// Whether `p` is a prefix of `k`.
pub open spec fn is_prefix_of(p: Seq<u8>, k: Seq<u8>) -> bool {
    p.len() <= k.len() && k.subrange(0, p.len() as int) == p
}

/// A stored row is good when its value is exactly one decodable node
/// body whose author is already masked, under a well-formed identifier.
pub open spec fn row_ok(k: Seq<u8>, v: Seq<u8>) -> bool {
    &&& id_wf(k)
    &&& k.len() <= u64::MAX
    &&& v.len() <= u64::MAX
    &&& match dec_body(v, 0, k) {
        Some((n, end)) => end == v.len() && n.author.is_masked(),
        None => false,
    }
}

/// The node stored in a good row.
pub open spec fn row_node(k: Seq<u8>, v: Seq<u8>) -> NodeV
    recommends
        row_ok(k, v),
{
    dec_body(v, 0, k).unwrap().0
}

/// Well-formed pair of trees: every content row is good, and the root
/// list holds exactly the top-level content rows, byte for byte.
pub open spec fn wf_maps(m: Map<Seq<u8>, Seq<u8>>, r: Map<Seq<u8>, Seq<u8>>) -> bool {
    &&& forall|k: Seq<u8>| #[trigger] m.contains_key(k) ==> row_ok(k, m[k])
    &&& forall|k: Seq<u8>|
        #[trigger] r.contains_key(k) ==> m.contains_key(k) && k.len() == 16 && r[k] == m[k]
    &&& forall|k: Seq<u8>| #[trigger] m.contains_key(k) && k.len() == 16 ==> r.contains_key(k)
}

// ---------------------------------------------------------------------
// The store's operations.
// ---------------------------------------------------------------------
impl Store {
    /// The content rows, as a map from identifier to encoded body.
    pub open spec fn content_map(self) -> Map<Seq<u8>, Seq<u8>> {
        content_of(self)
    }

    /// The root-list rows, as a map from identifier to encoded body.
    pub open spec fn root_map(self) -> Map<Seq<u8>, Seq<u8>> {
        rootlist_of(self)
    }

    /// Both trees are well formed and in step.
    pub open spec fn wf(self) -> bool {
        wf_maps(self.content_map(), self.root_map())
    }

    /// The node stored under `k`.
    pub open spec fn stored(self, k: Seq<u8>) -> NodeV {
        row_node(k, self.content_map()[k])
    }

    /// Open a store over the two given trees, clearing both: the store
    /// starts empty. Trees opened under the same name are one tree —
    /// such a pair would break the two-map model, and is refused.
    pub fn new(content: sled::Tree, root_list: sled::Tree) -> (r: Result<Store, DbFault>)
        ensures
            name_of(content) == name_of(root_list) ==> r is Err,
            match r {
                Ok(s) => s.wf() && s.content_map() == Map::<Seq<u8>, Seq<u8>>::empty()
                    && s.root_map() == Map::<Seq<u8>, Seq<u8>>::empty(),
                Err(_) => true,
            },
    {
        let content_name = tree_name(&content);
        let root_name = tree_name(&root_list);
        if crate::util::bytes_eq(content_name.as_slice(), root_name.as_slice()) {
            return Err(DbFault);
        }
        let mut s = store_attach(content, root_list);
        if store_clear_both(&mut s).is_err() {
            return Err(DbFault);
        }
        Ok(s)
    }

    /// Forget every row of both trees.
    pub fn clear(&mut self) -> (r: Result<(), DbFault>)
        ensures
            match r {
                Ok(_) => final(self).wf() && final(self).content_map() == Map::<
                    Seq<u8>,
                    Seq<u8>,
                >::empty() && final(self).root_map() == Map::<Seq<u8>, Seq<u8>>::empty(),
                Err(_) => true,
            },
    {
        store_clear_both(self)
    }

    /// Memoise a received node, as the client cache does: store its
    /// masked body under its identifier, mirroring a top-level row into
    /// the root list. A node with a malformed identifier is ignored and
    /// `false` is returned.
    pub fn insert(&mut self, node: &Node) -> (r: Result<bool, DbFault>)
        requires
            old(self).wf(),
        ensures
            !id_wf(node@.id) ==> r == Ok::<bool, DbFault>(false) && *final(self) == *old(self),
            match r {
                Ok(stored) => final(self).wf() && if stored {
                    &&& id_wf(node@.id)
                    &&& final(self).content_map() == old(self).content_map().insert(
                        node@.id,
                        enc_body(node@.masked()),
                    )
                    &&& final(self).root_map() == if node@.id.len() == 16 {
                        old(self).root_map().insert(node@.id, enc_body(node@.masked()))
                    } else {
                        old(self).root_map()
                    }
                } else {
                    !id_wf(node@.id) && *final(self) == *old(self)
                },
                Err(_) => true,
            },
    {
        if !crate::idspace::is_valid_id(node.id.as_slice()) {
            return Ok(false);
        }
        let mut masked = node.clone_node();
        masked.author.mask();
        let body = encode_body(&masked);
        note_node_encodable(&masked);
        proof {
            lemma_body_round_trip(masked@);
            assert(masked@ == node@.masked());
            assert(row_ok(node@.id, body@));
        }
        if content_apply_two(self, &node.id, &body, &None).is_err() {
            return Err(DbFault);
        }
        if node.id.len() == 16 {
            if root_insert(self, &node.id, &body).is_err() {
                return Err(DbFault);
            }
        }
        proof {
            lemma_insert_wf(
                old(self).content_map(),
                old(self).root_map(),
                node@.id,
                body@,
            );
        }
        Ok(true)
    }

    /// Drop a node from the cache, and from the root list when it is
    /// top level.
    pub fn remove(&mut self, node: &Node) -> (r: Result<(), DbFault>)
        requires
            old(self).wf(),
        ensures
            match r {
                Ok(_) => final(self).wf() && final(self).content_map() == old(
                    self,
                ).content_map().remove(node@.id) && final(self).root_map() == old(
                    self,
                ).root_map().remove(node@.id),
                Err(_) => true,
            },
    {
        if content_remove(self, &node.id).is_err() {
            return Err(DbFault);
        }
        if root_remove(self, &node.id).is_err() {
            return Err(DbFault);
        }
        proof {
            lemma_remove_wf(old(self).content_map(), old(self).root_map(), node@.id);
        }
        Ok(())
    }
}

/// Inserting a good row under a well-formed identifier, mirrored when
/// top level, preserves well-formedness.
proof fn lemma_insert_wf(m: Map<Seq<u8>, Seq<u8>>, r: Map<Seq<u8>, Seq<u8>>, k: Seq<u8>, v: Seq<u8>)
    requires
        wf_maps(m, r),
        id_wf(k),
        row_ok(k, v),
    ensures
        wf_maps(
            m.insert(k, v),
            if k.len() == 16 {
                r.insert(k, v)
            } else {
                r
            },
        ),
{
}

/// Removing the same key from both trees preserves well-formedness.
proof fn lemma_remove_wf(m: Map<Seq<u8>, Seq<u8>>, r: Map<Seq<u8>, Seq<u8>>, k: Seq<u8>)
    requires
        wf_maps(m, r),
    ensures
        wf_maps(m.remove(k), r.remove(k)),
{
}


// ---------------------------------------------------------------------
// The mathematical specification of each mutating operation: the maps
// it leaves behind and the response it returns.
// ---------------------------------------------------------------------
/// The node a successful post stores: author masked, both timestamps
/// set to the posting second.
pub open spec fn post_stamped(n: NodeV, now: u64) -> NodeV {
    NodeV { author: n.author.masked(), publish_time: now, last_reply: now, ..n }
}

/// The first layer of an identifier: the key of its top-level row.
pub open spec fn top_key(id: Seq<u8>) -> Seq<u8> {
    id.subrange(0, 16)
}

/// What a post does: reject a malformed identifier, a taken identifier,
/// or a reply without a top row; otherwise store the stamped body and,
/// for a reply, bump the top row's last-reply time — mirroring the
/// touched top-level row into the root list either way.
pub open spec fn spec_post(
    m: Map<Seq<u8>, Seq<u8>>,
    r: Map<Seq<u8>, Seq<u8>>,
    node: NodeV,
    now: u64,
) -> (Map<Seq<u8>, Seq<u8>>, Map<Seq<u8>, Seq<u8>>, ResponseV) {
    let stamped = post_stamped(node, now);
    let row = enc_body(stamped);
    if !id_wf(node.id) {
        (m, r, ResponseV::Error(Error::IdInvalid))
    } else if m.contains_key(node.id) {
        (m, r, ResponseV::Error(Error::NodeExist))
    } else if node.id.len() == 16 {
        (m.insert(node.id, row), r.insert(node.id, row), ResponseV::Post(stamped))
    } else if !m.contains_key(top_key(node.id)) {
        (m, r, ResponseV::Error(Error::IdInvalid))
    } else {
        let top = top_key(node.id);
        let top1 = NodeV { last_reply: now, ..row_node(top, m[top]) };
        let top_row = enc_body(top1);
        (
            m.insert(node.id, row).insert(top, top_row),
            r.insert(top, top_row),
            ResponseV::Post(stamped),
        )
    }
}

/// What an update does: demand a plain passphrase, an existing row and
/// a matching pass; then replace title, content and author (masked),
/// set the edited flag, and keep the stored identifier and timestamps.
pub open spec fn spec_update(
    m: Map<Seq<u8>, Seq<u8>>,
    r: Map<Seq<u8>, Seq<u8>>,
    node: NodeV,
) -> (Map<Seq<u8>, Seq<u8>>, Map<Seq<u8>, Seq<u8>>, ResponseV) {
    if node.author.is_masked() {
        (m, r, ResponseV::Error(Error::NeedUnMaskPass))
    } else if !m.contains_key(node.id) {
        (m, r, ResponseV::Error(Error::NodeNotExist))
    } else {
        let stored = row_node(node.id, m[node.id]);
        if !spec_match_pass(stored.author, node.author.name, node.author.pass.text()) {
            (m, r, ResponseV::Error(Error::PassNotMatch))
        } else {
            let updated = NodeV {
                author: node.author.masked(),
                edited: true,
                publish_time: stored.publish_time,
                last_reply: stored.last_reply,
                ..node
            };
            let row = enc_body(updated);
            let m1 = m.insert(node.id, row);
            let r1 = if node.id.len() == 16 {
                r.insert(node.id, row)
            } else {
                r
            };
            (m1, r1, ResponseV::Update(updated))
        }
    }
}

/// The delete window, in seconds: a node may be deleted for five hours
/// after it was published.
pub const DELETE_WINDOW_SECS: u64 = 18000;

/// What a delete does: the same authentication pipeline as an update;
/// then refuse a row published more than the window before `now`, and
/// otherwise drop the row — and its root-list mirror when top level.
pub open spec fn spec_delete(
    m: Map<Seq<u8>, Seq<u8>>,
    r: Map<Seq<u8>, Seq<u8>>,
    node: NodeV,
    now: u64,
) -> (Map<Seq<u8>, Seq<u8>>, Map<Seq<u8>, Seq<u8>>, ResponseV) {
    if node.author.is_masked() {
        (m, r, ResponseV::Error(Error::NeedUnMaskPass))
    } else if !m.contains_key(node.id) {
        (m, r, ResponseV::Error(Error::NodeNotExist))
    } else {
        let stored = row_node(node.id, m[node.id]);
        if !spec_match_pass(stored.author, node.author.name, node.author.pass.text()) {
            (m, r, ResponseV::Error(Error::PassNotMatch))
        } else if now > stored.publish_time + DELETE_WINDOW_SECS {
            (m, r, ResponseV::Error(Error::DeleteLimitOverdue))
        } else {
            let m1 = m.remove(node.id);
            let r1 = if node.id.len() == 16 {
                r.remove(node.id)
            } else {
                r
            };
            (m1, r1, ResponseV::Delete(node.masked()))
        }
    }
}

/// Every node a response carries shows a masked author.
pub open spec fn response_masked(r: ResponseV) -> bool {
    match r {
        ResponseV::Post(n) => n.author.is_masked(),
        ResponseV::Update(n) => n.author.is_masked(),
        ResponseV::Delete(n) => n.author.is_masked(),
        ResponseV::List(l) => forall|i: int|
            0 <= i < l.len() ==> (#[trigger] l[i]).author.is_masked(),
        ResponseV::Error(_) => true,
    }
}

/// Storing a reply and its refreshed top row preserves
/// well-formedness.
proof fn lemma_reply_wf(
    m: Map<Seq<u8>, Seq<u8>>,
    r: Map<Seq<u8>, Seq<u8>>,
    id: Seq<u8>,
    v: Seq<u8>,
    top: Seq<u8>,
    tv: Seq<u8>,
)
    requires
        wf_maps(m, r),
        id_wf(id),
        id.len() != 16,
        row_ok(id, v),
        top.len() == 16,
        row_ok(top, tv),
    ensures
        wf_maps(m.insert(id, v).insert(top, tv), r.insert(top, tv)),
{
    let m1 = m.insert(id, v).insert(top, tv);
    let r1 = r.insert(top, tv);
    assert forall|k: Seq<u8>| #[trigger] m1.contains_key(k) implies row_ok(k, m1[k]) by {
        if k != id && k != top {
            assert(m.contains_key(k));
        }
    }
    assert forall|k: Seq<u8>| #[trigger] r1.contains_key(k) implies m1.contains_key(k) && k.len()
        == 16 && r1[k] == m1[k] by {
        if k != top {
            assert(r.contains_key(k));
            assert(k.len() == 16);
            assert(k != id);
        }
    }
    assert forall|k: Seq<u8>| #[trigger] m1.contains_key(k) && k.len() == 16 implies r1.contains_key(
        k,
    ) by {
        if k != top {
            assert(k != id);
            assert(m.contains_key(k));
        }
    }
}

/// Dropping a row, and its mirror when top level, preserves
/// well-formedness.
proof fn lemma_delete_wf(m: Map<Seq<u8>, Seq<u8>>, r: Map<Seq<u8>, Seq<u8>>, k: Seq<u8>)
    requires
        wf_maps(m, r),
    ensures
        wf_maps(
            m.remove(k),
            if k.len() == 16 {
                r.remove(k)
            } else {
                r
            },
        ),
{
    if k.len() != 16 {
        assert(!r.contains_key(k));
    }
}

impl Store {
    /// Store a fresh node at second `now`: the post operation of the
    /// forum, exactly as `spec_post` describes it.
    pub fn post(&mut self, node: Node, now: u64) -> (res: Result<Response, DbFault>)
        requires
            old(self).wf(),
        ensures
            !id_wf(node@.id) ==> (res matches Ok(resp) && resp@ == ResponseV::Error(
                Error::IdInvalid,
            ) && *final(self) == *old(self)),
            match res {
                Ok(resp) => {
                    &&& final(self).wf()
                    &&& (
                        final(self).content_map(),
                        final(self).root_map(),
                        resp@,
                    ) == spec_post(old(self).content_map(), old(self).root_map(), node@, now)
                    &&& response_masked(resp@)
                },
                Err(_) => true,
            },
    {
        let ghost m0 = self.content_map();
        let ghost r0 = self.root_map();
        if !crate::idspace::is_valid_id(node.id.as_slice()) {
            return Ok(Response::Error(Error::IdInvalid));
        }
        let mut node = node;
        node.author.mask();
        node.publish_time = now;
        node.last_reply = now;
        let taken = match content_get(self, &node.id) {
            Ok(o) => o.is_some(),
            Err(_) => {
                return Err(DbFault);
            },
        };
        if taken {
            return Ok(Response::Error(Error::NodeExist));
        }
        let body = encode_body(&node);
        note_node_encodable(&node);
        proof {
            lemma_body_round_trip(node@);
            assert(row_ok(node@.id, body@));
        }
        if node.id.len() == 16 {
            if content_apply_two(self, &node.id, &body, &None).is_err() {
                return Err(DbFault);
            }
            if root_insert(self, &node.id, &body).is_err() {
                return Err(DbFault);
            }
            proof {
                lemma_insert_wf(m0, r0, node@.id, body@);
            }
            Ok(Response::Post(node))
        } else {
            let top = match crate::idspace::top_prefix(node.id.as_slice()) {
                Ok(t) => t,
                Err(_) => {
                    proof {
                        assert(false);
                    }
                    return Err(DbFault);
                },
            };
            let top_row = match content_get(self, &top) {
                Ok(Some(v)) => v,
                Ok(None) => {
                    return Ok(Response::Error(Error::IdInvalid));
                },
                Err(_) => {
                    return Err(DbFault);
                },
            };
            let mut top_node = match decode_body(top.as_slice(), top_row.as_slice()) {
                Some(n) => n,
                None => {
                    proof {
                        assert(false);
                    }
                    return Err(DbFault);
                },
            };
            top_node.last_reply = now;
            let top_body = encode_body(&top_node);
            note_node_encodable(&top_node);
            proof {
                lemma_body_round_trip(top_node@);
                assert(row_ok(top@, top_body@));
            }
            let top2 = vstd::slice::slice_to_vec(top.as_slice());
            if content_apply_two(self, &node.id, &body, &Some((top, top_body))).is_err() {
                return Err(DbFault);
            }
            let top_body2 = match content_get(self, &top2) {
                Ok(Some(v)) => v,
                Ok(None) => {
                    proof {
                        assert(false);
                    }
                    return Err(DbFault);
                },
                Err(_) => {
                    return Err(DbFault);
                },
            };
            if root_insert(self, &top2, &top_body2).is_err() {
                return Err(DbFault);
            }
            proof {
                lemma_reply_wf(m0, r0, node@.id, body@, top2@, top_body2@);
            }
            Ok(Response::Post(node))
        }
    }

    /// Rewrite a stored node: the update operation of the forum,
    /// exactly as `spec_update` describes it.
    pub fn update(&mut self, node: Node) -> (res: Result<Response, DbFault>)
        requires
            old(self).wf(),
        ensures
            node@.author.is_masked() ==> (res matches Ok(resp) && resp@ == ResponseV::Error(
                Error::NeedUnMaskPass,
            ) && *final(self) == *old(self)),
            match res {
                Ok(resp) => {
                    &&& final(self).wf()
                    &&& (
                        final(self).content_map(),
                        final(self).root_map(),
                        resp@,
                    ) == spec_update(old(self).content_map(), old(self).root_map(), node@)
                    &&& response_masked(resp@)
                },
                Err(_) => true,
            },
    {
        let ghost m0 = self.content_map();
        let ghost r0 = self.root_map();
        if node.author.is_masked() {
            return Ok(Response::Error(Error::NeedUnMaskPass));
        }
        let row = match content_get(self, &node.id) {
            Ok(Some(v)) => v,
            Ok(None) => {
                return Ok(Response::Error(Error::NodeNotExist));
            },
            Err(_) => {
                return Err(DbFault);
            },
        };
        let stored = match decode_body(node.id.as_slice(), row.as_slice()) {
            Some(n) => n,
            None => {
                proof {
                    assert(false);
                }
                return Err(DbFault);
            },
        };
        if !stored.author.match_pass(node.author.name.as_str(), node.author.pass.get_pass()) {
            return Ok(Response::Error(Error::PassNotMatch));
        }
        let mut node = node;
        node.author.mask();
        node.edited = true;
        node.publish_time = stored.publish_time;
        node.last_reply = stored.last_reply;
        let body = encode_body(&node);
        note_node_encodable(&node);
        proof {
            lemma_body_round_trip(node@);
            assert(row_ok(node@.id, body@));
        }
        if content_apply_two(self, &node.id, &body, &None).is_err() {
            return Err(DbFault);
        }
        if node.id.len() == 16 {
            if root_insert(self, &node.id, &body).is_err() {
                return Err(DbFault);
            }
        }
        proof {
            lemma_insert_wf(m0, r0, node@.id, body@);
        }
        Ok(Response::Update(node))
    }

    /// Drop a stored node: the delete operation of the forum, exactly
    /// as `spec_delete` describes it.
    pub fn delete(&mut self, node: Node, now: u64) -> (res: Result<Response, DbFault>)
        requires
            old(self).wf(),
        ensures
            node@.author.is_masked() ==> (res matches Ok(resp) && resp@ == ResponseV::Error(
                Error::NeedUnMaskPass,
            ) && *final(self) == *old(self)),
            match res {
                Ok(resp) => {
                    &&& final(self).wf()
                    &&& (
                        final(self).content_map(),
                        final(self).root_map(),
                        resp@,
                    ) == spec_delete(old(self).content_map(), old(self).root_map(), node@, now)
                    &&& response_masked(resp@)
                },
                Err(_) => true,
            },
    {
        let ghost m0 = self.content_map();
        let ghost r0 = self.root_map();
        if node.author.is_masked() {
            return Ok(Response::Error(Error::NeedUnMaskPass));
        }
        let row = match content_get(self, &node.id) {
            Ok(Some(v)) => v,
            Ok(None) => {
                return Ok(Response::Error(Error::NodeNotExist));
            },
            Err(_) => {
                return Err(DbFault);
            },
        };
        let stored = match decode_body(node.id.as_slice(), row.as_slice()) {
            Some(n) => n,
            None => {
                proof {
                    assert(false);
                }
                return Err(DbFault);
            },
        };
        if !stored.author.match_pass(node.author.name.as_str(), node.author.pass.get_pass()) {
            return Ok(Response::Error(Error::PassNotMatch));
        }
        if now > DELETE_WINDOW_SECS && now - DELETE_WINDOW_SECS > stored.publish_time {
            return Ok(Response::Error(Error::DeleteLimitOverdue));
        }
        proof {
            assert(!(now > stored@.publish_time + DELETE_WINDOW_SECS));
        }
        if content_remove(self, &node.id).is_err() {
            return Err(DbFault);
        }
        if node.id.len() == 16 {
            if root_remove(self, &node.id).is_err() {
                return Err(DbFault);
            }
        }
        proof {
            lemma_delete_wf(m0, r0, node@.id);
        }
        let mut resp_node = node;
        resp_node.author.mask();
        Ok(Response::Delete(resp_node))
    }
}


// ---------------------------------------------------------------------
// Listings.
// ---------------------------------------------------------------------
/// A decoded row keeps the identifier it was keyed by, and its stored
/// masked author.
proof fn lemma_row_node_shape(k: Seq<u8>, v: Seq<u8>)
    requires
        row_ok(k, v),
    ensures
        row_node(k, v).id == k,
        row_node(k, v).author.is_masked(),
{
}

/// A permutation of a listing with pairwise-distinct identifiers has
/// pairwise-distinct identifiers itself.
proof fn lemma_permutation_keeps_distinct_ids(a: Seq<NodeV>, b: Seq<NodeV>)
    requires
        a.to_multiset() == b.to_multiset(),
        forall|i: int, j: int| 0 <= i < j < a.len() ==> (#[trigger] a[i]).id != (#[trigger] a[j]).id,
    ensures
        forall|i: int, j: int| 0 <= i < j < b.len() ==> (#[trigger] b[i]).id != (#[trigger] b[j]).id,
{
    broadcast use vstd::seq_lib::group_to_multiset_ensures;

    assert(a.no_duplicates()) by {
        assert forall|i: int, j: int|
            0 <= i < a.len() && 0 <= j < a.len() && i != j implies a[i] != a[j] by {
            if i < j {
                assert(a[i].id != a[j].id);
            } else {
                assert(a[j].id != a[i].id);
            }
        }
    }
    a.lemma_multiset_has_no_duplicates();
    b.lemma_multiset_has_no_duplicates_conv();
    assert forall|i: int, j: int|
        0 <= i < j < b.len() implies (#[trigger] b[i]).id != (#[trigger] b[j]).id by {
        if b[i].id == b[j].id {
            assert(b[i] != b[j]);
            assert(b.contains(b[i]) && b.contains(b[j]));
            assert(a.to_multiset().count(b[i]) > 0);
            assert(a.to_multiset().count(b[j]) > 0);
            assert(a.contains(b[i]) && a.contains(b[j]));
            let p = choose|p: int| 0 <= p < a.len() && a[p] == b[i];
            let q = choose|q: int| 0 <= q < a.len() && a[q] == b[j];
            assert(p != q);
            if p < q {
                assert(a[p].id != a[q].id);
            } else {
                assert(a[q].id != a[p].id);
            }
            assert(false);
        }
    }
}

/// Two sequences with equal multisets hold the same elements.
proof fn lemma_multiset_same_elems(a: Seq<NodeV>, b: Seq<NodeV>)
    requires
        a.to_multiset() == b.to_multiset(),
    ensures
        forall|x: NodeV| a.contains(x) <==> b.contains(x),
{
    broadcast use vstd::seq_lib::group_to_multiset_ensures;

    assert forall|x: NodeV| a.contains(x) <==> b.contains(x) by {
        assert(a.contains(x) <==> a.to_multiset().count(x) > 0);
        assert(b.contains(x) <==> b.to_multiset().count(x) > 0);
    }
}

/// A correct listing of the rows of `m` under `prefix`: every entry is
/// a row of `m` under the prefix, decoded; every such row appears; and
/// no row appears twice.
pub open spec fn listing_of(m: Map<Seq<u8>, Seq<u8>>, prefix: Seq<u8>, l: Seq<NodeV>) -> bool {
    &&& forall|i: int|
        0 <= i < l.len() ==> m.contains_key((#[trigger] l[i]).id) && l[i] == row_node(
            l[i].id,
            m[l[i].id],
        ) && is_prefix_of(prefix, l[i].id)
    &&& forall|k: Seq<u8>|
        m.contains_key(k) && is_prefix_of(prefix, k) ==> exists|i: int|
            0 <= i < l.len() && (#[trigger] l[i]).id == k
    &&& forall|i: int, j: int| 0 <= i < j < l.len() ==> (#[trigger] l[i]).id != (#[trigger] l[j]).id
}

/// Decode every scanned pair into a node.
fn decode_rows(pairs: &Vec<(Vec<u8>, Vec<u8>)>, ghost_wf: Ghost<Map<Seq<u8>, Seq<u8>>>) -> (res:
    Result<Vec<Node>, DbFault>)
    requires
        forall|i: int|
            0 <= i < pairs@.len() ==> ghost_wf@.contains_key((#[trigger] pairs@[i]).0@)
                && ghost_wf@[pairs@[i].0@] == pairs@[i].1@ && row_ok(pairs@[i].0@, pairs@[i].1@),
    ensures
        match res {
            Ok(nodes) => nodes@.len() == pairs@.len() && forall|i: int|
                0 <= i < pairs@.len() ==> (#[trigger] nodes@[i])@ == row_node(
                    pairs@[i].0@,
                    pairs@[i].1@,
                ) && nodes@[i]@.id == pairs@[i].0@,
            Err(_) => true,
        },
{
    let mut nodes: Vec<Node> = Vec::new();
    let n = pairs.len();
    let mut i: usize = 0;
    while i < n
        invariant
            i <= n,
            n == pairs@.len(),
            nodes@.len() == i,
            forall|j: int|
                0 <= j < pairs@.len() ==> row_ok((#[trigger] pairs@[j]).0@, pairs@[j].1@),
            forall|j: int|
                0 <= j < i ==> (#[trigger] nodes@[j])@ == row_node(pairs@[j].0@, pairs@[j].1@)
                    && nodes@[j]@.id == pairs@[j].0@,
        decreases n - i,
    {
        let pair = &pairs[i];
        let node = match decode_body(pair.0.as_slice(), pair.1.as_slice()) {
            Some(node) => node,
            None => {
                proof {
                    assert(false);
                }
                return Err(DbFault);
            },
        };
        proof {
            lemma_row_node_shape(pair.0@, pair.1@);
        }
        nodes.push(node);
        i = i + 1;
    }
    Ok(nodes)
}

impl Store {
    /// List the subtree under `root`: every stored node whose
    /// identifier starts with it, in subtree order.
    pub fn list(&self, root: &Vec<u8>) -> (res: Result<Response, DbFault>)
        requires
            self.wf(),
        ensures
            match res {
                Ok(resp) => match resp@ {
                    ResponseV::List(l) => {
                        &&& listing_of(self.content_map(), root@, l)
                        &&& crate::order::sorted_by_id(l)
                        &&& response_masked(resp@)
                    },
                    _ => false,
                },
                Err(_) => true,
            },
    {
        let pairs = match content_scan(self, root) {
            Ok(p) => p,
            Err(_) => {
                return Err(DbFault);
            },
        };
        let nodes = match decode_rows(&pairs, Ghost(self.content_map())) {
            Ok(v) => v,
            Err(_) => {
                return Err(DbFault);
            },
        };
        let ghost pre = views_of(nodes@);
        let sorted = crate::order::sort_by_id_exec(nodes);
        proof {
            assert forall|i: int, j: int|
                0 <= i < j < pre.len() implies (#[trigger] pre[i]).id != (#[trigger] pre[j]).id by {
                assert(pre[i].id == pairs@[i].0@);
                assert(pre[j].id == pairs@[j].0@);
            }
            lemma_permutation_keeps_distinct_ids(pre, views_of(sorted@));
            lemma_multiset_same_elems(pre, views_of(sorted@));
            let l = views_of(sorted@);
            assert forall|i: int|
                0 <= i < l.len() implies self.content_map().contains_key((#[trigger] l[i]).id)
                && l[i] == row_node(l[i].id, self.content_map()[l[i].id]) && is_prefix_of(
                root@,
                l[i].id,
            ) && l[i].author.is_masked() by {
                assert(l.contains(l[i]));
                assert(pre.contains(l[i]));
                let j = choose|j: int| 0 <= j < pre.len() && pre[j] == l[i];
                assert(pre[j] == views_of(nodes@)[j]);
            }
            assert forall|k: Seq<u8>|
                self.content_map().contains_key(k) && is_prefix_of(root@, k) implies exists|i: int|
                0 <= i < l.len() && (#[trigger] l[i]).id == k by {
                let j = choose|j: int|
                    0 <= j < pairs@.len() && (#[trigger] pairs@[j]).0@ == k;
                assert(pre[j].id == k);
                assert(pre.contains(pre[j]));
                assert(l.contains(pre[j]));
                let i = choose|i: int| 0 <= i < l.len() && l[i] == pre[j];
                assert(l[i].id == k);
            }
        }
        Ok(Response::List(sorted))
    }

    /// List every top-level node, freshest reply first.
    pub fn list_root(&self) -> (res: Result<Response, DbFault>)
        requires
            self.wf(),
        ensures
            match res {
                Ok(resp) => match resp@ {
                    ResponseV::List(l) => {
                        &&& listing_of(self.root_map(), Seq::<u8>::empty(), l)
                        &&& crate::order::sorted_by_reply_desc(l)
                        &&& response_masked(resp@)
                    },
                    _ => false,
                },
                Err(_) => true,
            },
    {
        let empty_prefix: Vec<u8> = Vec::new();
        let pairs = match root_scan(self, &empty_prefix) {
            Ok(p) => p,
            Err(_) => {
                return Err(DbFault);
            },
        };
        proof {
            assert forall|i: int| 0 <= i < pairs@.len() implies row_ok(
                (#[trigger] pairs@[i]).0@,
                pairs@[i].1@,
            ) by {
                let k = pairs@[i].0@;
                assert(self.root_map().contains_key(k));
                assert(self.content_map().contains_key(k));
                assert(self.root_map()[k] == self.content_map()[k]);
            }
        }
        let nodes = match decode_rows(&pairs, Ghost(self.root_map())) {
            Ok(v) => v,
            Err(_) => {
                return Err(DbFault);
            },
        };
        let ghost pre = views_of(nodes@);
        let sorted = crate::order::sort_by_reply_desc_exec(nodes);
        proof {
            assert forall|i: int, j: int|
                0 <= i < j < pre.len() implies (#[trigger] pre[i]).id != (#[trigger] pre[j]).id by {
                assert(pre[i].id == pairs@[i].0@);
                assert(pre[j].id == pairs@[j].0@);
            }
            lemma_permutation_keeps_distinct_ids(pre, views_of(sorted@));
            lemma_multiset_same_elems(pre, views_of(sorted@));
            let l = views_of(sorted@);
            assert(empty_prefix@ == Seq::<u8>::empty());
            assert forall|i: int|
                0 <= i < l.len() implies self.root_map().contains_key((#[trigger] l[i]).id) && l[i]
                == row_node(l[i].id, self.root_map()[l[i].id]) && l[i].author.is_masked()
                && is_prefix_of(Seq::<u8>::empty(), l[i].id) by {
                assert(l.contains(l[i]));
                assert(pre.contains(l[i]));
                let j = choose|j: int| 0 <= j < pre.len() && pre[j] == l[i];
                assert(pre[j] == views_of(nodes@)[j]);
                assert(l[i].id.subrange(0, 0) =~= Seq::<u8>::empty());
            }
            assert forall|k: Seq<u8>| self.root_map().contains_key(k) implies exists|i: int|
                0 <= i < l.len() && (#[trigger] l[i]).id == k by {
                assert(is_prefix_of(empty_prefix@, k)) by {
                    assert(k.subrange(0, 0) =~= empty_prefix@);
                }
                assert(exists|j: int| 0 <= j < pairs@.len() && (#[trigger] pairs@[j]).0@ == k);
                let j = choose|j: int|
                    0 <= j < pairs@.len() && (#[trigger] pairs@[j]).0@ == k;
                assert(pre[j].id == k);
                assert(pre.contains(pre[j]));
                assert(l.contains(pre[j]));
                let i = choose|i: int| 0 <= i < l.len() && l[i] == pre[j];
                assert(l[i].id == k);
            }
        }
        Ok(Response::List(sorted))
    }
}


// ---------------------------------------------------------------------
// Last-reply coherence. A well-run store keeps, for every top-level
// node, its last-reply time at the newest publish time found in its
// subtree. The upper half (no node outruns its top's last-reply time)
// is kept by every operation under a monotone clock; the attained half
// (the time is actually some node's publish time) is kept by post and
// update, while a delete may strand the top node's last-reply time at
// the publish time of the row it removed.
// ---------------------------------------------------------------------
/// Every stored timestamp lies at or before `t`.
pub open spec fn published_before(m: Map<Seq<u8>, Seq<u8>>, t: u64) -> bool {
    forall|k: Seq<u8>|
        #[trigger] m.contains_key(k) ==> row_node(k, m[k]).publish_time <= t && row_node(
            k,
            m[k],
        ).last_reply <= t
}

/// Upper half: no stored node under a top-level node (itself included)
/// was published after that node's last-reply time.
pub open spec fn reply_upper_ok(m: Map<Seq<u8>, Seq<u8>>) -> bool {
    forall|t: Seq<u8>, k: Seq<u8>|
        #[trigger] m.contains_key(t) && t.len() == 16 && #[trigger] m.contains_key(k)
            && is_prefix_of(t, k) ==> row_node(k, m[k]).publish_time <= row_node(
            t,
            m[t],
        ).last_reply
}

/// Attained half: each top-level node's last-reply time is the publish
/// time of some stored node under it.
pub open spec fn reply_attained_ok(m: Map<Seq<u8>, Seq<u8>>) -> bool {
    forall|t: Seq<u8>|
        #[trigger] m.contains_key(t) && t.len() == 16 ==> exists|k: Seq<u8>|
            #[trigger] m.contains_key(k) && is_prefix_of(t, k) && row_node(k, m[k]).publish_time
                == row_node(t, m[t]).last_reply
}

/// A prefix of sixteen bytes is the key of the top-level row.
proof fn lemma_prefix16_is_top(t: Seq<u8>, k: Seq<u8>)
    requires
        t.len() == 16,
        is_prefix_of(t, k),
    ensures
        t == top_key(k),
{
}

/// A text the decoder produced fits a length field again: its UTF-8
/// encoding is the very byte slice it was decoded from.
proof fn lemma_dec_str_encodable(data: Seq<u8>, pos: int)
    requires
        data.len() <= u64::MAX,
        dec_str(data, pos) is Some,
    ensures
        str_encodable(dec_str(data, pos).unwrap().0),
{
    match dec_bytes(data, pos) {
        Some((b, _p)) => {
            decode_utf8_encode_utf8(b);
        },
        None => {},
    }
}

/// A decoded row is encodable again: every field it carries fits the
/// length fields of the encoding.
proof fn lemma_row_encodable(k: Seq<u8>, v: Seq<u8>)
    requires
        row_ok(k, v),
    ensures
        node_encodable(row_node(k, v)),
{
    lemma_dec_str_encodable(v, 0);
    let p1 = dec_str(v, 0).unwrap().1;
    lemma_dec_str_encodable(v, p1);
    let p1n = dec_str(v, p1).unwrap().1;
    let pt = dec_u32(v, p1n).unwrap().1;
    lemma_dec_str_encodable(v, pt);
    let p2 = dec_pass(v, p1n).unwrap().1;
    lemma_dec_str_encodable(v, p2);
}

/// Inserting a fresh row whose two timestamps sit at `now`, and
/// refreshing the touched top row's last-reply time to `now` when the
/// fresh row is a reply, keeps the coherence. This is the shared core
/// of the post argument.
#[verifier::spinoff_prover]
#[verifier::rlimit(100)]
proof fn lemma_fresh_row_keeps_reply(
    m: Map<Seq<u8>, Seq<u8>>,
    m1: Map<Seq<u8>, Seq<u8>>,
    id: Seq<u8>,
    top: Seq<u8>,
    now: u64,
)
    requires
        published_before(m, now),
        reply_upper_ok(m),
        !m.contains_key(id),
        id.len() >= 16,
        top == top_key(id),
        m1.contains_key(id),
        m1.contains_key(top),
        row_node(id, m1[id]).publish_time == now,
        row_node(id, m1[id]).last_reply == now,
        row_node(top, m1[top]).last_reply == now,
        id == top || id.len() != 16,
        id == top || row_node(top, m1[top]).publish_time == row_node(top, m[top]).publish_time,
        id == top || m.contains_key(top),
        forall|k: Seq<u8>|
            #[trigger] m1.contains_key(k) && k != id && k != top ==> m.contains_key(k) && m1[k]
                == m[k],
        forall|k: Seq<u8>| #[trigger] m.contains_key(k) && k != id && k != top ==> m1.contains_key(k),
    ensures
        published_before(m1, now),
        reply_upper_ok(m1),
        reply_attained_ok(m) ==> reply_attained_ok(m1),
{
    assert forall|k: Seq<u8>| #[trigger] m1.contains_key(k) implies row_node(
        k,
        m1[k],
    ).publish_time <= now && row_node(k, m1[k]).last_reply <= now by {
        if k != id && k != top {
            assert(m.contains_key(k) && m1[k] == m[k]);
        }
    }
    assert forall|t: Seq<u8>, k: Seq<u8>|
        #[trigger] m1.contains_key(t) && t.len() == 16 && #[trigger] m1.contains_key(k)
            && is_prefix_of(t, k) implies row_node(k, m1[k]).publish_time <= row_node(
        t,
        m1[t],
    ).last_reply by {
        if t == top {
            assert(row_node(t, m1[t]).last_reply == now);
        } else {
            lemma_prefix16_is_top(t, k);
            assert(top.len() == 16);
            assert(top_key(top) =~= top);
            assert(k != id && k != top);
            assert(t != id && t != top);
        }
    }
    if reply_attained_ok(m) {
        assert forall|t: Seq<u8>| #[trigger] m1.contains_key(t) && t.len() == 16 implies exists|
            k: Seq<u8>,
        |
            #[trigger] m1.contains_key(k) && is_prefix_of(t, k) && row_node(k, m1[k]).publish_time
                == row_node(t, m1[t]).last_reply by {
            if t == top {
                assert(is_prefix_of(top, id)) by {
                    assert(id.subrange(0, 16) =~= top_key(id));
                    assert(id.subrange(0, top.len() as int) == top);
                }
                assert(m1.contains_key(id) && is_prefix_of(t, id) && row_node(
                    id,
                    m1[id],
                ).publish_time == row_node(t, m1[t]).last_reply);
            } else {
                let k0 = choose|k0: Seq<u8>|
                    #[trigger] m.contains_key(k0) && is_prefix_of(t, k0) && row_node(
                        k0,
                        m[k0],
                    ).publish_time == row_node(t, m[t]).last_reply;
                assert(k0 != id);
                if k0 == top {
                    lemma_prefix16_is_top(t, k0);
                    assert(top.len() == 16);
                    assert(top_key(top) =~= top);
                    assert(false);
                }
                assert(m1.contains_key(k0) && is_prefix_of(t, k0) && row_node(
                    k0,
                    m1[k0],
                ).publish_time == row_node(t, m1[t]).last_reply);
            }
        }
    }
}

/// Last-reply coherence across a post, under a clock that has not run
/// backwards: the upper half and the stored-times bound are kept, and
/// so is the attained half.
#[verifier::spinoff_prover]
#[verifier::rlimit(100)]
pub proof fn lemma_post_keeps_reply(
    m: Map<Seq<u8>, Seq<u8>>,
    r: Map<Seq<u8>, Seq<u8>>,
    node: NodeV,
    now: u64,
)
    requires
        wf_maps(m, r),
        node_encodable(post_stamped(node, now)),
        published_before(m, now),
        reply_upper_ok(m),
    ensures
        ({
            let (m1, r1, resp) = spec_post(m, r, node, now);
            &&& published_before(m1, now)
            &&& reply_upper_ok(m1)
            &&& reply_attained_ok(m) ==> reply_attained_ok(m1)
        }),
{
    let stamped = post_stamped(node, now);
    let row = enc_body(stamped);
    let (m1, r1, resp) = spec_post(m, r, node, now);
    if !id_wf(node.id) || m.contains_key(node.id) {
    } else if node.id.len() == 16 {
        lemma_body_round_trip(stamped);
        let id = node.id;
        assert(top_key(id) =~= id);
        lemma_fresh_row_keeps_reply(m, m1, id, id, now);
    } else if !m.contains_key(top_key(node.id)) {
    } else {
        let id = node.id;
        let top = top_key(id);
        let top0 = row_node(top, m[top]);
        let top1 = NodeV { last_reply: now, ..top0 };
        let top_row = enc_body(top1);
        lemma_body_round_trip(stamped);
        lemma_row_encodable(top, m[top]);
        lemma_body_round_trip(top1);
        assert(row_node(id, row) == stamped);
        assert(row_node(top, top_row) == top1);
        assert(top != id);
        lemma_fresh_row_keeps_reply(m, m1, id, top, now);
    }
}

/// Last-reply coherence across an update: an update keeps the stored
/// timestamps, so every half of the coherence survives it.
pub proof fn lemma_update_keeps_reply(
    m: Map<Seq<u8>, Seq<u8>>,
    r: Map<Seq<u8>, Seq<u8>>,
    node: NodeV,
    now: u64,
)
    requires
        wf_maps(m, r),
        m.contains_key(node.id) ==> node_encodable(
            NodeV {
                author: node.author.masked(),
                edited: true,
                publish_time: row_node(node.id, m[node.id]).publish_time,
                last_reply: row_node(node.id, m[node.id]).last_reply,
                ..node
            },
        ),
    ensures
        ({
            let (m1, r1, resp) = spec_update(m, r, node);
            &&& published_before(m, now) ==> published_before(m1, now)
            &&& reply_upper_ok(m) ==> reply_upper_ok(m1)
            &&& reply_attained_ok(m) ==> reply_attained_ok(m1)
        }),
{
    let (m1, r1, resp) = spec_update(m, r, node);
    if !(resp is Update) {
    } else {
        let id = node.id;
        let stored = row_node(id, m[id]);
        let updated = NodeV {
            author: node.author.masked(),
            edited: true,
            publish_time: stored.publish_time,
            last_reply: stored.last_reply,
            ..node
        };
        lemma_body_round_trip(updated);
        assert(row_node(id, enc_body(updated)) == updated);
        assert(forall|k: Seq<u8>|
            #[trigger] m1.contains_key(k) ==> m.contains_key(k) && row_node(
                k,
                m1[k],
            ).publish_time == row_node(k, m[k]).publish_time && row_node(k, m1[k]).last_reply
                == row_node(k, m[k]).last_reply);
        assert(forall|k: Seq<u8>| #[trigger] m.contains_key(k) ==> m1.contains_key(k));
        if reply_attained_ok(m) {
            assert forall|t: Seq<u8>| #[trigger] m1.contains_key(t) && t.len() == 16 implies
                exists|k: Seq<u8>|
                    #[trigger] m1.contains_key(k) && is_prefix_of(t, k) && row_node(
                        k,
                        m1[k],
                    ).publish_time == row_node(t, m1[t]).last_reply by {
                let k0 = choose|k0: Seq<u8>|
                    #[trigger] m.contains_key(k0) && is_prefix_of(t, k0) && row_node(
                        k0,
                        m[k0],
                    ).publish_time == row_node(t, m[t]).last_reply;
                assert(m1.contains_key(k0) && is_prefix_of(t, k0) && row_node(
                    k0,
                    m1[k0],
                ).publish_time == row_node(t, m1[t]).last_reply);
            }
        }
    }
}

/// Last-reply coherence across a delete: the stored-times bound and
/// the upper half survive a delete. The attained half may not: the
/// removed row may have been the one that set its top node's
/// last-reply time.
pub proof fn lemma_delete_keeps_reply(
    m: Map<Seq<u8>, Seq<u8>>,
    r: Map<Seq<u8>, Seq<u8>>,
    node: NodeV,
    now: u64,
    bound: u64,
)
    requires
        wf_maps(m, r),
    ensures
        ({
            let (m1, r1, resp) = spec_delete(m, r, node, now);
            &&& published_before(m, bound) ==> published_before(m1, bound)
            &&& reply_upper_ok(m) ==> reply_upper_ok(m1)
        }),
{
    let (m1, r1, resp) = spec_delete(m, r, node, now);
    if resp is Delete {
        assert(forall|k: Seq<u8>|
            #[trigger] m1.contains_key(k) ==> m.contains_key(k) && m1[k] == m[k]);
    }
}


// ---------------------------------------------------------------------
// Cold-start reconciliation.
// ---------------------------------------------------------------------
impl Store {
    /// Open a store over trees recovered from disk, reconciling them:
    /// every content row that does not decode to exactly one masked
    /// body under a well-formed identifier is dropped, and the root
    /// list is rebuilt from the surviving top-level rows. A crash
    /// between a content write and its mirror write is repaired here.
    /// As in `new`, a pair of trees opened under one name is refused.
    #[verifier::rlimit(100)]
    pub fn open(content: sled::Tree, root_list: sled::Tree) -> (res: Result<Store, DbFault>)
        ensures
            name_of(content) == name_of(root_list) ==> res is Err,
            match res {
                Ok(s) => s.wf(),
                Err(_) => true,
            },
    {
        let content_name = tree_name(&content);
        let root_name = tree_name(&root_list);
        if crate::util::bytes_eq(content_name.as_slice(), root_name.as_slice()) {
            return Err(DbFault);
        }
        let mut s = store_attach(content, root_list);
        if root_clear(&mut s).is_err() {
            return Err(DbFault);
        }
        let empty_prefix: Vec<u8> = Vec::new();
        let pairs = match content_scan(&s, &empty_prefix) {
            Ok(p) => p,
            Err(_) => {
                return Err(DbFault);
            },
        };
        let ghost m0 = s.content_map();
        let n = pairs.len();
        let mut i: usize = 0;
        while i < n
            invariant
                i <= n,
                n == pairs@.len(),
                scan_ok(m0, Seq::<u8>::empty(), pairs@),
                forall|k: Seq<u8>|
                    #[trigger] s.root_map().contains_key(k) <==> exists|j: int|
                        0 <= j < i && (#[trigger] pairs@[j]).0@ == k && k.len() == 16 && row_ok(
                            k,
                            pairs@[j].1@,
                        ),
                forall|k: Seq<u8>|
                    #[trigger] s.root_map().contains_key(k) ==> m0.contains_key(k)
                        && s.root_map()[k] == m0[k],
                forall|k: Seq<u8>|
                    #[trigger] s.content_map().contains_key(k) <==> (m0.contains_key(k) && !(
                    exists|j: int|
                        0 <= j < i && (#[trigger] pairs@[j]).0@ == k && !row_ok(
                            k,
                            pairs@[j].1@,
                        ))),
                forall|k: Seq<u8>|
                    #[trigger] s.content_map().contains_key(k) ==> s.content_map()[k] == m0[k],
            decreases n - i,
        {
            let ghost old_rootm = s.root_map();
            let ghost old_contm = s.content_map();
            let ghost ki = pairs@[i as int].0@;
            let ghost vi = pairs@[i as int].1@;
            let key_len = pairs[i].0.len();
            let val_len = pairs[i].1.len();
            let good = crate::idspace::is_valid_id(pairs[i].0.as_slice()) && match decode_body(
                pairs[i].0.as_slice(),
                pairs[i].1.as_slice(),
            ) {
                Some(node) => node.author.is_masked(),
                None => false,
            };
            proof {
                assert(key_len <= u64::MAX && val_len <= u64::MAX);
                assert(good == row_ok(ki, vi));
            }
            if good {
                if key_len == 16 {
                    let key = vstd::slice::slice_to_vec(pairs[i].0.as_slice());
                    let val = vstd::slice::slice_to_vec(pairs[i].1.as_slice());
                    if root_insert(&mut s, &key, &val).is_err() {
                        return Err(DbFault);
                    }
                }
            } else {
                let key = vstd::slice::slice_to_vec(pairs[i].0.as_slice());
                if content_remove(&mut s, &key).is_err() {
                    return Err(DbFault);
                }
            }
            proof {
                let i1 = i as int + 1;
                assert forall|k: Seq<u8>| #[trigger] s.root_map().contains_key(k) implies (exists|
                    j: int,
                |
                    0 <= j < i1 && (#[trigger] pairs@[j]).0@ == k && k.len() == 16 && row_ok(
                        k,
                        pairs@[j].1@,
                    )) by {
                    if good && key_len == 16 && k == ki {
                        assert(0 <= (i as int) < i1 && pairs@[i as int].0@ == k && k.len() == 16
                            && row_ok(k, pairs@[i as int].1@));
                    } else {
                        assert(old_rootm.contains_key(k));
                        let j = choose|j: int|
                            0 <= j < i && (#[trigger] pairs@[j]).0@ == k && k.len() == 16
                                && row_ok(k, pairs@[j].1@);
                        assert(0 <= j < i1 && pairs@[j].0@ == k && k.len() == 16 && row_ok(
                            k,
                            pairs@[j].1@,
                        ));
                    }
                }
                assert forall|j: int|
                    0 <= j < i1 && (#[trigger] pairs@[j]).0@.len() == 16 && row_ok(
                        pairs@[j].0@,
                        pairs@[j].1@,
                    ) implies s.root_map().contains_key(pairs@[j].0@) by {
                    let k = pairs@[j].0@;
                    if j < i {
                        assert(old_rootm.contains_key(k));
                        if !good && k == ki {
                            assert(pairs@[j].0@ == pairs@[i as int].0@);
                            assert(false);
                        }
                    } else {
                        assert(good && key_len == 16);
                    }
                }
                assert forall|k: Seq<u8>| #[trigger] s.content_map().contains_key(k) implies (
                m0.contains_key(k) && !(exists|j: int|
                    0 <= j < i1 && (#[trigger] pairs@[j]).0@ == k && !row_ok(
                        k,
                        pairs@[j].1@,
                    ))) by {
                    assert(old_contm.contains_key(k));
                    if exists|j: int|
                        0 <= j < i1 && (#[trigger] pairs@[j]).0@ == k && !row_ok(
                            k,
                            pairs@[j].1@,
                        ) {
                        let j = choose|j: int|
                            0 <= j < i1 && (#[trigger] pairs@[j]).0@ == k && !row_ok(
                                k,
                                pairs@[j].1@,
                            );
                        if j < i {
                            assert(false);
                        } else {
                            assert(k == ki && !good);
                            assert(!s.content_map().contains_key(k));
                            assert(false);
                        }
                    }
                }
                assert forall|k: Seq<u8>|
                    m0.contains_key(k) && !(exists|j: int|
                        0 <= j < i1 && (#[trigger] pairs@[j]).0@ == k && !row_ok(
                            k,
                            pairs@[j].1@,
                        )) implies #[trigger] s.content_map().contains_key(k) by {
                    assert(!(exists|j: int|
                        0 <= j < i && (#[trigger] pairs@[j]).0@ == k && !row_ok(
                            k,
                            pairs@[j].1@,
                        )));
                    assert(old_contm.contains_key(k));
                    if !good && k == ki {
                        assert(0 <= (i as int) < i1 && pairs@[i as int].0@ == k && !row_ok(
                            k,
                            pairs@[i as int].1@,
                        ));
                        assert(false);
                    }
                }
            }
            i = i + 1;
        }
        proof {
            assert forall|k: Seq<u8>| #[trigger] s.content_map().contains_key(k) implies row_ok(
                k,
                s.content_map()[k],
            ) by {
                assert(is_prefix_of(Seq::<u8>::empty(), k)) by {
                    assert(k.subrange(0, 0) =~= Seq::<u8>::empty());
                }
                let j = choose|j: int|
                    0 <= j < pairs@.len() && (#[trigger] pairs@[j]).0@ == k;
                assert(pairs@[j].1@ == m0[k]);
                assert(row_ok(k, pairs@[j].1@));
            }
            assert forall|k: Seq<u8>| #[trigger] s.root_map().contains_key(k) implies s.content_map().contains_key(
                k,
            ) && k.len() == 16 && s.root_map()[k] == s.content_map()[k] by {
                let j = choose|j: int|
                    0 <= j < pairs@.len() && (#[trigger] pairs@[j]).0@ == k && k.len() == 16
                        && row_ok(k, pairs@[j].1@);
                assert(m0.contains_key(k));
                if exists|j2: int|
                    0 <= j2 < pairs@.len() && (#[trigger] pairs@[j2]).0@ == k && !row_ok(
                        k,
                        pairs@[j2].1@,
                    ) {
                    let j2 = choose|j2: int|
                        0 <= j2 < pairs@.len() && (#[trigger] pairs@[j2]).0@ == k && !row_ok(
                            k,
                            pairs@[j2].1@,
                        );
                    assert(j2 == j);
                    assert(false);
                }
                assert(s.content_map().contains_key(k));
                assert(s.content_map()[k] == m0[k]);
                assert(s.root_map()[k] == m0[k]);
            }
            assert forall|k: Seq<u8>|
                #[trigger] s.content_map().contains_key(k) && k.len() == 16 implies s.root_map().contains_key(
                k,
            ) by {
                assert(is_prefix_of(Seq::<u8>::empty(), k)) by {
                    assert(k.subrange(0, 0) =~= Seq::<u8>::empty());
                }
                let j = choose|j: int|
                    0 <= j < pairs@.len() && (#[trigger] pairs@[j]).0@ == k;
                assert(pairs@[j].1@ == m0[k]);
                assert(row_ok(k, pairs@[j].1@));
            }
        }
        Ok(s)
    }
}

} // verus!
