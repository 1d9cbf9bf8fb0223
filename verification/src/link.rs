//! The client connection state machine. The transport driver owns the
//! sockets and the channels; every decision it takes — what to send,
//! when to redial, which queued requests to discard — is the verdict of
//! `link_step` on the current state and the event at hand.
//!
//! While connected, requests are converted to actions and framed; a
//! relink tears the session down cleanly, clears the local cache and
//! redials; after a failure every queued request but relink and
//! shutdown is drained and discarded.

use crate::types::Action;
use crate::types::ActionV;
use crate::types::ListTarget;
use crate::types::Node;
use crate::types::NodeV;
use crate::idspace::NodeId;
use vstd::prelude::*;

verus! {

/// A request the interface hands to the transport driver.
#[derive(Debug)]
pub enum Request {
    /// Tear the link down cleanly and dial the configured endpoint.
    Relink,
    /// Ask for every top-level node.
    ListRoot,
    Post(Node),
    Update(Node),
    Delete(Node),
    /// Ask for the subtree under one node.
    List(NodeId),
    /// Tear the link down cleanly and stop.
    Shutdown,
}

/// The mathematical value of a `Request`.
pub enum RequestV {
    Relink,
    ListRoot,
    Post(NodeV),
    Update(NodeV),
    Delete(NodeV),
    List(Seq<u8>),
    Shutdown,
}

impl View for Request {
    type V = RequestV;

    open spec fn view(&self) -> RequestV {
        match self {
            Request::Relink => RequestV::Relink,
            Request::ListRoot => RequestV::ListRoot,
            Request::Post(n) => RequestV::Post(n@),
            Request::Update(n) => RequestV::Update(n@),
            Request::Delete(n) => RequestV::Delete(n@),
            Request::List(id) => RequestV::List(id@),
            Request::Shutdown => RequestV::Shutdown,
        }
    }
}

impl Request {
    /// Whether this request ends the driver for good.
    pub fn is_shutdown(&self) -> (r: bool)
        ensures
            r == (self@ is Shutdown),
    {
        matches!(self, Request::Shutdown)
    }
}

/// The action a request maps to on the wire; the two link-control
/// requests map to none.
pub open spec fn spec_action_of_request(req: RequestV) -> Option<ActionV> {
    match req {
        RequestV::ListRoot => Some(ActionV::List(crate::types::ListTargetV::Root)),
        RequestV::List(id) => Some(ActionV::List(crate::types::ListTargetV::Node(id))),
        RequestV::Post(n) => Some(ActionV::Post(n)),
        RequestV::Update(n) => Some(ActionV::Update(n)),
        RequestV::Delete(n) => Some(ActionV::Delete(n)),
        RequestV::Relink => None,
        RequestV::Shutdown => None,
    }
}

/// Convert a request to the action it carries; the link-control
/// requests carry none.
pub fn action_of_request(req: Request) -> (r: Option<Action>)
    ensures
        match r {
            Some(a) => spec_action_of_request(req@) == Some(a@),
            None => spec_action_of_request(req@) is None,
        },
{
    match req {
        Request::ListRoot => Some(Action::List(ListTarget::Root)),
        Request::List(id) => Some(Action::List(ListTarget::Node(id))),
        Request::Post(node) => Some(Action::Post(node)),
        Request::Update(node) => Some(Action::Update(node)),
        Request::Delete(node) => Some(Action::Delete(node)),
        Request::Relink => None,
        Request::Shutdown => None,
    }
}

/// Where the link stands.
#[derive(Debug, Clone, Copy, PartialEq, Eq, Structural)]
pub enum LinkState {
    /// Dialling the configured endpoint.
    Connecting,
    /// A session is up: requests flow out, responses flow in.
    Connected,
    /// The session is gone; queued requests are drained until a relink
    /// or a shutdown arrives.
    WaitRelink,
    /// The driver has stopped for good.
    Closed,
}

/// What the driver observes.
#[derive(Debug)]
pub enum LinkEvent {
    /// The dial succeeded.
    DialOk,
    /// The dial failed.
    DialFailed,
    /// The interface queued a request.
    FromUi(Request),
    /// The socket failed, in either direction.
    SocketError,
    /// The peer sent its end-of-stream sentinel.
    PeerClosed,
}

/// What the driver must do next.
#[derive(Debug)]
pub enum LinkCmd {
    /// Frame and send this action.
    Send(Action),
    /// Send the end-of-stream sentinel.
    SendEos,
    /// Report a network error to the interface.
    EmitNetworkError,
    /// Clear the local node cache.
    ClearCache,
}

/// The mathematical value of a `LinkCmd`.
pub enum LinkCmdV {
    Send(ActionV),
    SendEos,
    EmitNetworkError,
    ClearCache,
}

impl View for LinkCmd {
    type V = LinkCmdV;

    open spec fn view(&self) -> LinkCmdV {
        match self {
            LinkCmd::Send(a) => LinkCmdV::Send(a@),
            LinkCmd::SendEos => LinkCmdV::SendEos,
            LinkCmd::EmitNetworkError => LinkCmdV::EmitNetworkError,
            LinkCmd::ClearCache => LinkCmdV::ClearCache,
        }
    }
}

/// The views of a command sequence, element by element.
pub open spec fn cmd_views(l: Seq<LinkCmd>) -> Seq<LinkCmdV> {
    l.map_values(|c: LinkCmd| c@)
}

/// One step of the link: the next state, and the commands the driver
/// performs in order.
pub fn link_step(state: LinkState, event: LinkEvent) -> (r: (LinkState, Vec<LinkCmd>))
    ensures
        ({
            let (next, cmds) = r;
            match state {
                LinkState::Connecting => match event {
                    LinkEvent::DialOk => next == LinkState::Connected && cmd_views(cmds@)
                        =~= Seq::<LinkCmdV>::empty(),
                    LinkEvent::DialFailed | LinkEvent::SocketError | LinkEvent::PeerClosed => next
                        == LinkState::WaitRelink && cmd_views(cmds@) =~= seq![
                        LinkCmdV::EmitNetworkError,
                    ],
                    LinkEvent::FromUi(req) => next == LinkState::Connecting && cmd_views(cmds@)
                        =~= Seq::<LinkCmdV>::empty(),
                },
                LinkState::Connected => match event {
                    LinkEvent::FromUi(req) => match spec_action_of_request(req@) {
                        Some(a) => next == LinkState::Connected && cmd_views(cmds@) =~= seq![
                            LinkCmdV::Send(a),
                        ],
                        None => if req@ is Shutdown {
                            next == LinkState::Closed && cmd_views(cmds@) =~= seq![
                                LinkCmdV::SendEos,
                            ]
                        } else {
                            next == LinkState::Connecting && cmd_views(cmds@) =~= seq![
                                LinkCmdV::SendEos,
                                LinkCmdV::ClearCache,
                            ]
                        },
                    },
                    LinkEvent::SocketError | LinkEvent::PeerClosed => next == LinkState::WaitRelink
                        && cmd_views(cmds@) =~= seq![LinkCmdV::EmitNetworkError],
                    LinkEvent::DialOk | LinkEvent::DialFailed => next == LinkState::Connected
                        && cmd_views(cmds@) =~= Seq::<LinkCmdV>::empty(),
                },
                LinkState::WaitRelink => match event {
                    LinkEvent::FromUi(req) => if req@ is Shutdown {
                        next == LinkState::Closed && cmd_views(cmds@) =~= Seq::<LinkCmdV>::empty()
                    } else if req@ is Relink {
                        next == LinkState::Connecting && cmd_views(cmds@) =~= seq![
                            LinkCmdV::ClearCache,
                        ]
                    } else {
                        next == LinkState::WaitRelink && cmd_views(cmds@) =~= Seq::<
                            LinkCmdV,
                        >::empty()
                    },
                    _ => next == LinkState::WaitRelink && cmd_views(cmds@) =~= Seq::<
                        LinkCmdV,
                    >::empty(),
                },
                LinkState::Closed => next == LinkState::Closed && cmd_views(cmds@) =~= Seq::<
                    LinkCmdV,
                >::empty(),
            }
        }),
{
    match state {
        LinkState::Connecting => match event {
            LinkEvent::DialOk => (LinkState::Connected, Vec::new()),
            LinkEvent::DialFailed | LinkEvent::SocketError | LinkEvent::PeerClosed => {
                let mut cmds: Vec<LinkCmd> = Vec::new();
                cmds.push(LinkCmd::EmitNetworkError);
                (LinkState::WaitRelink, cmds)
            },
            LinkEvent::FromUi(_) => (LinkState::Connecting, Vec::new()),
        },
        LinkState::Connected => match event {
            LinkEvent::FromUi(req) => {
                let shutdown = req.is_shutdown();
                match action_of_request(req) {
                    Some(a) => {
                        let mut cmds: Vec<LinkCmd> = Vec::new();
                        cmds.push(LinkCmd::Send(a));
                        (LinkState::Connected, cmds)
                    },
                    None => {
                        if shutdown {
                            let mut cmds: Vec<LinkCmd> = Vec::new();
                            cmds.push(LinkCmd::SendEos);
                            (LinkState::Closed, cmds)
                        } else {
                            let mut cmds: Vec<LinkCmd> = Vec::new();
                            cmds.push(LinkCmd::SendEos);
                            cmds.push(LinkCmd::ClearCache);
                            (LinkState::Connecting, cmds)
                        }
                    },
                }
            },
            LinkEvent::SocketError | LinkEvent::PeerClosed => {
                let mut cmds: Vec<LinkCmd> = Vec::new();
                cmds.push(LinkCmd::EmitNetworkError);
                (LinkState::WaitRelink, cmds)
            },
            LinkEvent::DialOk | LinkEvent::DialFailed => (LinkState::Connected, Vec::new()),
        },
        LinkState::WaitRelink => match event {
            LinkEvent::FromUi(req) => {
                if req.is_shutdown() {
                    (LinkState::Closed, Vec::new())
                } else {
                    match req {
                        Request::Relink => {
                            let mut cmds: Vec<LinkCmd> = Vec::new();
                            cmds.push(LinkCmd::ClearCache);
                            (LinkState::Connecting, cmds)
                        },
                        _ => (LinkState::WaitRelink, Vec::new()),
                    }
                }
            },
            _ => (LinkState::WaitRelink, Vec::new()),
        },
        LinkState::Closed => (LinkState::Closed, Vec::new()),
    }
}

} // verus!
