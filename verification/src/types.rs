//! Nodes and the request/response vocabulary. A node is one post or
//! reply; actions carry client requests, responses carry the server's
//! replies and its unsolicited change notifications.

use crate::error::Error;
use crate::identity::Author;
use crate::identity::AuthorV;
use crate::idspace;
use crate::idspace::spec_is_top_level;
use crate::idspace::spec_layer_bytes;
use crate::idspace::spec_top_prefix;
use crate::idspace::NodeId;
use vstd::bytes::spec_u128_from_le_bytes;
use vstd::prelude::*;

verus! {

/// One post or reply in the tree.
#[derive(Debug, Clone)]
pub struct Node {
    /// Unique identifier; a whole number of 16-byte layers.
    pub id: NodeId,
    /// Required display title.
    pub title: String,
    /// The author; the pass is masked once the server stores the node.
    pub author: Author,
    /// Arbitrary text, possibly over several lines.
    pub content: String,
    /// Seconds since the Unix epoch, set by the server on a successful
    /// post.
    pub publish_time: u64,
    /// For a top-level node, the publish time of its newest descendant
    /// (or its own); bumped by the server on every descendant insert.
    pub last_reply: u64,
    /// Set by the server on a successful update.
    pub edited: bool,
}

/// The mathematical value of a `Node`.
pub struct NodeV {
    pub id: Seq<u8>,
    pub title: Seq<char>,
    pub author: AuthorV,
    pub content: Seq<char>,
    pub publish_time: u64,
    pub last_reply: u64,
    pub edited: bool,
}

impl NodeV {
    /// The same node with its author's passphrase masked.
    pub open spec fn masked(self) -> NodeV {
        NodeV { author: self.author.masked(), ..self }
    }
}

impl View for Node {
    type V = NodeV;

    open spec fn view(&self) -> NodeV {
        NodeV {
            id: self.id@,
            title: self.title@,
            author: self.author@,
            content: self.content@,
            publish_time: self.publish_time,
            last_reply: self.last_reply,
            edited: self.edited,
        }
    }
}

/// What a list request ranges over: every top-level post, or the subtree
/// under one node.
#[derive(Debug, Clone)]
pub enum ListTarget {
    Root,
    Node(NodeId),
}

/// The mathematical value of a `ListTarget`.
pub enum ListTargetV {
    Root,
    Node(Seq<u8>),
}

impl View for ListTarget {
    type V = ListTargetV;

    open spec fn view(&self) -> ListTargetV {
        match self {
            ListTarget::Root => ListTargetV::Root,
            ListTarget::Node(id) => ListTargetV::Node(id@),
        }
    }
}

/// A client request.
#[derive(Debug, Clone)]
pub enum Action {
    Delete(Node),
    List(ListTarget),
    Update(Node),
    Post(Node),
}

/// The mathematical value of an `Action`.
pub enum ActionV {
    Delete(NodeV),
    List(ListTargetV),
    Update(NodeV),
    Post(NodeV),
}

impl View for Action {
    type V = ActionV;

    open spec fn view(&self) -> ActionV {
        match self {
            Action::Delete(n) => ActionV::Delete(n@),
            Action::List(t) => ActionV::List(t@),
            Action::Update(n) => ActionV::Update(n@),
            Action::Post(n) => ActionV::Post(n@),
        }
    }
}

/// A server reply, or an unsolicited change notification.
#[derive(Debug, Clone)]
pub enum Response {
    Post(Node),
    Update(Node),
    Delete(Node),
    List(Vec<Node>),
    Error(Error),
}

/// The views of a sequence of nodes, element by element.
pub open spec fn views_of(l: Seq<Node>) -> Seq<NodeV> {
    l.map_values(|n: Node| n@)
}

/// The mathematical value of a `Response`.
pub enum ResponseV {
    Post(NodeV),
    Update(NodeV),
    Delete(NodeV),
    List(Seq<NodeV>),
    Error(Error),
}

impl View for Response {
    type V = ResponseV;

    open spec fn view(&self) -> ResponseV {
        match self {
            Response::Post(n) => ResponseV::Post(n@),
            Response::Update(n) => ResponseV::Update(n@),
            Response::Delete(n) => ResponseV::Delete(n@),
            Response::List(l) => ResponseV::List(views_of(l@)),
            Response::Error(e) => ResponseV::Error(*e),
        }
    }
}

/// Relies on `std::time::SystemTime`: the wall clock, read as whole
/// seconds since the Unix epoch. Nothing is promised of the sampled
/// value; a clock before the epoch reads as zero.
#[verifier::external_body]
fn now_seconds() -> u64 {
    match std::time::SystemTime::now().duration_since(std::time::UNIX_EPOCH) {
        Ok(d) => d.as_secs(),
        Err(_) => 0,
    }
}

/// The node that a client assembles at second `now` under `parent_id`
/// with random tail `tail`: a fresh one-layer extension of the parent,
/// both timestamps at `now`, not yet edited.
pub open spec fn spec_new_node(
    parent_id: Seq<u8>,
    title: Seq<char>,
    author: AuthorV,
    content: Seq<char>,
    tail: u64,
    now: u64,
) -> NodeV {
    NodeV {
        id: parent_id + spec_layer_bytes(now, tail),
        title: title,
        author: author,
        content: content,
        publish_time: now,
        last_reply: now,
        edited: false,
    }
}

impl Node {
    /// A copy of this node.
    pub fn clone_node(&self) -> (r: Node)
        ensures
            r@ == self@,
    {
        Node {
            id: vstd::slice::slice_to_vec(self.id.as_slice()),
            title: self.title.clone(),
            author: self.author.clone_author(),
            content: self.content.clone(),
            publish_time: self.publish_time,
            last_reply: self.last_reply,
            edited: self.edited,
        }
    }

    /// Assemble a fresh node under `parent_id` at the given second.
    pub fn with_time(
        parent_id: &[u8],
        title: String,
        author: Author,
        content: String,
        tail: u64,
        now: u64,
    ) -> (r: Self)
        ensures
            r@ == spec_new_node(parent_id@, title@, author@, content@, tail, now),
    {
        let id = idspace::child_id(parent_id, now, tail);
        Node {
            id,
            title,
            author,
            content,
            publish_time: now,
            last_reply: now,
            edited: false,
        }
    }

    /// Assemble a fresh node under `parent_id`, stamped with the current
    /// wall-clock second.
    pub fn new(parent_id: &[u8], title: String, author: Author, content: String, tail: u64) -> (r:
        Self)
        ensures
            r@ == spec_new_node(parent_id@, title@, author@, content@, tail, r@.publish_time),
    {
        let now = now_seconds();
        Self::with_time(parent_id, title, author, content, tail, now)
    }

    /// Wrap this node in a post request, masking the author first.
    pub fn post(self) -> (r: Action)
        ensures
            r@ == ActionV::Post(self@.masked()),
    {
        let mut node = self;
        node.author.mask();
        Action::Post(node)
    }

    /// Wrap this node in an update request. The passphrase must still be
    /// plain, or the server could not check authorship.
    pub fn update(self) -> (r: Result<Action, Error>)
        ensures
            match r {
                Ok(a) => !self@.author.is_masked() && a@ == ActionV::Update(
                    NodeV { edited: true, ..self@ },
                ),
                Err(e) => self@.author.is_masked() && e == Error::NeedUnMaskPass,
            },
    {
        if self.author.is_masked() {
            return Err(Error::NeedUnMaskPass);
        }
        let mut node = self;
        node.edited = true;
        Ok(Action::Update(node))
    }

    /// Wrap this node in a delete request. The passphrase must still be
    /// plain, or the server could not check authorship.
    pub fn delete(self) -> (r: Result<Action, Error>)
        ensures
            match r {
                Ok(a) => !self@.author.is_masked() && a@ == ActionV::Delete(self@),
                Err(e) => self@.author.is_masked() && e == Error::NeedUnMaskPass,
            },
    {
        if self.author.is_masked() {
            return Err(Error::NeedUnMaskPass);
        }
        Ok(Action::Delete(self))
    }

    /// The numeric value of the last layer of this node's identifier.
    pub fn last_id(&self) -> (r: Result<u128, Error>)
        ensures
            match r {
                Ok(x) => idspace::id_wf(self@.id) && x == idspace::spec_last_layer(self@.id),
                Err(e) => !idspace::id_wf(self@.id) && e == Error::IdInvalid,
            },
    {
        idspace::last_layer_u128(self.id.as_slice())
    }

    /// The numeric value of the first layer of this node's identifier.
    pub fn top_id(&self) -> (r: Result<u128, Error>)
        ensures
            match r {
                Ok(x) => idspace::id_wf(self@.id) && x == spec_u128_from_le_bytes(
                    spec_top_prefix(self@.id),
                ),
                Err(e) => !idspace::id_wf(self@.id) && e == Error::IdInvalid,
            },
    {
        let prefix = idspace::top_prefix(self.id.as_slice())?;
        Ok(vstd::bytes::u128_from_le_bytes(prefix.as_slice()))
    }

    /// The first layer of this node's identifier, as bytes.
    pub fn top_id_bin(&self) -> (r: Result<Vec<u8>, Error>)
        ensures
            match r {
                Ok(p) => idspace::id_wf(self@.id) && p@ == spec_top_prefix(self@.id),
                Err(e) => !idspace::id_wf(self@.id) && e == Error::IdInvalid,
            },
    {
        idspace::top_prefix(self.id.as_slice())
    }

    /// Whether this node is a top-level post: exactly one layer.
    pub fn is_top_level(&self) -> (r: bool)
        ensures
            r == spec_is_top_level(self@.id),
    {
        self.id.len() == 16
    }
}

} // verus!
