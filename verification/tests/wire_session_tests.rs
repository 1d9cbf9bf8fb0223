use std::time::Duration;
use terminus::codec::encode_action;
use terminus::identity::Author;
use terminus::ops::take_action;
use terminus::session::handle_payload;
use terminus::session::response_frame;
use terminus::session::subscription_response;
use terminus::store::Store;
use terminus::types::Action;
use terminus::types::ListTarget;
use terminus::types::Node;
use terminus::types::Response;
use terminus::wire;

fn alice() -> Author {
    Author::new("alice".to_string(), "pw".to_string())
}

#[test]
fn frame_round_trip() {
    let payload = vec![1u8, 2, 3, 4, 5];
    let frame = wire::encode_frame(&payload).unwrap();
    assert_eq!(frame.len(), 4 + payload.len());
    assert_eq!(wire::header_len(&frame[0..4]), payload.len() as u32);
    assert_eq!(&frame[4..], payload.as_slice());
}

#[test]
fn eos_is_four_zero_bytes() {
    let eos = wire::eos_frame();
    assert_eq!(eos, vec![0u8, 0, 0, 0]);
    assert_eq!(wire::header_len(&eos), 0);
    assert!(wire::encode_frame(&Vec::new()).is_none());
}

fn fresh_store() -> (sled::Db, Store) {
    let db = sled::Config::new().temporary(true).open().unwrap();
    let content = db.open_tree("content").unwrap();
    let root_list = db.open_tree("root_list").unwrap();
    let store = Store::new(content, root_list).unwrap();
    (db, store)
}

#[test]
fn session_answers_decoded_requests() {
    let (_db, mut store) = fresh_store();
    let node = Node::with_time(&[], "t".to_string(), alice(), "c".to_string(), 1, 100);
    let payload = encode_action(&Action::Post(node));
    let reply = handle_payload(&mut store, &payload, 100).unwrap();
    assert!(matches!(reply, Some(Response::Post(_))));
    let list_payload = encode_action(&Action::List(ListTarget::Root));
    match handle_payload(&mut store, &list_payload, 101).unwrap() {
        Some(Response::List(l)) => assert_eq!(l.len(), 1),
        other => panic!("expected a listing, got {:?}", other),
    }
}

#[test]
fn session_drops_garbage_requests() {
    let (_db, mut store) = fresh_store();
    assert!(handle_payload(&mut store, &vec![7u8, 7, 7], 100).unwrap().is_none());
    assert!(handle_payload(&mut store, &Vec::new(), 100).unwrap().is_none());
    assert_eq!(
        match store.list_root().unwrap() {
            Response::List(l) => l.len(),
            _ => panic!("expected a listing"),
        },
        0
    );
}

#[test]
fn responses_frame_cleanly() {
    let resp = Response::Error(terminus::Error::NodeNotExist);
    let frame = response_frame(&resp).unwrap();
    let len = wire::header_len(&frame[0..4]);
    assert!(len > 0);
    assert_eq!(frame.len(), 4 + len as usize);
    let back = terminus::codec::decode_response(&frame[4..]).unwrap();
    assert_eq!(format!("{:?}", back), format!("{:?}", resp));
}

#[test]
fn subscription_fans_out_inserts() {
    let db = sled::Config::new().temporary(true).open().unwrap();
    let content = db.open_tree("content").unwrap();
    let watched = content.clone();
    let root_list = db.open_tree("root_list").unwrap();
    let mut store = Store::new(content, root_list).unwrap();
    let mut subscriber = watched.watch_prefix(vec![]);
    let node = Node::with_time(&[], "t".to_string(), alice(), "c".to_string(), 1, 100);
    let n = match store.post(node, 100).unwrap() {
        Response::Post(n) => n,
        other => panic!("expected a post reply, got {:?}", other),
    };
    let event = subscriber.next_timeout(Duration::from_secs(5)).unwrap();
    match event {
        sled::Event::Insert { key, value } => {
            let key = key.to_vec();
            let value = value.to_vec();
            assert_eq!(key, n.id);
            match subscription_response(&key, Some(&value)) {
                Some(Response::Update(seen)) => {
                    assert_eq!(seen.id, n.id);
                    assert_eq!(seen.title, "t");
                    assert!(seen.author.is_masked());
                },
                other => panic!("expected an update notification, got {:?}", other),
            }
        },
        sled::Event::Remove { .. } => panic!("expected an insert event"),
    }
}

#[test]
fn subscription_marks_removals() {
    let key = terminus::idspace::make_layer(100, 1);
    match subscription_response(&key, None) {
        Some(Response::Delete(tombstone)) => {
            assert_eq!(tombstone.id, key);
            assert_eq!(tombstone.title, "");
            assert!(tombstone.author.is_masked());
        },
        other => panic!("expected a delete notification, got {:?}", other),
    }
}

#[test]
fn dispatch_covers_every_action() {
    let (_db, mut store) = fresh_store();
    let node = Node::with_time(&[], "t".to_string(), alice(), "c".to_string(), 1, 100);
    let posted = match take_action(&mut store, Action::Post(node), 100).unwrap() {
        Response::Post(n) => n,
        other => panic!("expected a post reply, got {:?}", other),
    };
    let mut change = posted.clone_node();
    change.author = alice();
    change.title = "t2".to_string();
    assert!(matches!(
        take_action(&mut store, Action::Update(change), 150).unwrap(),
        Response::Update(_)
    ));
    assert!(matches!(
        take_action(&mut store, Action::List(ListTarget::Node(posted.id.clone())), 150).unwrap(),
        Response::List(_)
    ));
    let mut del = posted.clone_node();
    del.author = alice();
    assert!(matches!(
        take_action(&mut store, Action::Delete(del), 200).unwrap(),
        Response::Delete(_)
    ));
}
