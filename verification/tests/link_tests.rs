use terminus::identity::Author;
use terminus::link::action_of_request;
use terminus::link::link_step;
use terminus::link::LinkCmd;
use terminus::link::LinkEvent;
use terminus::link::LinkState;
use terminus::link::Request;
use terminus::types::Action;
use terminus::types::ListTarget;
use terminus::types::Node;

fn node() -> Node {
    let author = Author::new("alice".to_string(), "pw".to_string());
    Node::with_time(&[], "t".to_string(), author, "c".to_string(), 1, 100)
}

#[test]
fn requests_map_to_actions() {
    assert!(matches!(
        action_of_request(Request::ListRoot),
        Some(Action::List(ListTarget::Root))
    ));
    assert!(matches!(
        action_of_request(Request::List(vec![1u8; 16])),
        Some(Action::List(ListTarget::Node(_)))
    ));
    assert!(matches!(action_of_request(Request::Post(node())), Some(Action::Post(_))));
    assert!(matches!(action_of_request(Request::Update(node())), Some(Action::Update(_))));
    assert!(matches!(action_of_request(Request::Delete(node())), Some(Action::Delete(_))));
    assert!(action_of_request(Request::Relink).is_none());
    assert!(action_of_request(Request::Shutdown).is_none());
    assert!(Request::Shutdown.is_shutdown());
    assert!(!Request::Relink.is_shutdown());
}

#[test]
fn dialling_settles_into_a_session() {
    let (next, cmds) = link_step(LinkState::Connecting, LinkEvent::DialOk);
    assert_eq!(next, LinkState::Connected);
    assert!(cmds.is_empty());
    let (next, cmds) = link_step(LinkState::Connecting, LinkEvent::DialFailed);
    assert_eq!(next, LinkState::WaitRelink);
    assert!(matches!(cmds.as_slice(), [LinkCmd::EmitNetworkError]));
}

#[test]
fn connected_requests_go_on_the_wire() {
    let (next, cmds) = link_step(LinkState::Connected, LinkEvent::FromUi(Request::ListRoot));
    assert_eq!(next, LinkState::Connected);
    assert!(matches!(cmds.as_slice(), [LinkCmd::Send(Action::List(ListTarget::Root))]));
}

#[test]
fn shutdown_sends_the_sentinel() {
    let (next, cmds) = link_step(LinkState::Connected, LinkEvent::FromUi(Request::Shutdown));
    assert_eq!(next, LinkState::Closed);
    assert!(matches!(cmds.as_slice(), [LinkCmd::SendEos]));
    let (next, cmds) = link_step(LinkState::Closed, LinkEvent::DialOk);
    assert_eq!(next, LinkState::Closed);
    assert!(cmds.is_empty());
}

#[test]
fn relink_clears_cache_and_redials() {
    // A relink of a live session tears it down first.
    let (next, cmds) = link_step(LinkState::Connected, LinkEvent::FromUi(Request::Relink));
    assert_eq!(next, LinkState::Connecting);
    assert!(matches!(cmds.as_slice(), [LinkCmd::SendEos, LinkCmd::ClearCache]));
    // After a failure, a relink redials and clears the cache.
    let (next, cmds) = link_step(LinkState::WaitRelink, LinkEvent::FromUi(Request::Relink));
    assert_eq!(next, LinkState::Connecting);
    assert!(matches!(cmds.as_slice(), [LinkCmd::ClearCache]));
}

#[test]
fn failures_wait_for_relink_and_drain() {
    let (next, cmds) = link_step(LinkState::Connected, LinkEvent::SocketError);
    assert_eq!(next, LinkState::WaitRelink);
    assert!(matches!(cmds.as_slice(), [LinkCmd::EmitNetworkError]));
    // Queued ordinary requests are drained and discarded.
    let (next, cmds) = link_step(LinkState::WaitRelink, LinkEvent::FromUi(Request::ListRoot));
    assert_eq!(next, LinkState::WaitRelink);
    assert!(cmds.is_empty());
    let (next, cmds) = link_step(LinkState::WaitRelink, LinkEvent::FromUi(Request::Post(node())));
    assert_eq!(next, LinkState::WaitRelink);
    assert!(cmds.is_empty());
    // A shutdown still ends the driver.
    let (next, cmds) = link_step(LinkState::WaitRelink, LinkEvent::FromUi(Request::Shutdown));
    assert_eq!(next, LinkState::Closed);
    assert!(cmds.is_empty());
}
