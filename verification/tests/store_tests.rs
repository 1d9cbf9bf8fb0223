use terminus::identity::Author;
use terminus::store::Store;
use terminus::types::Node;
use terminus::types::Response;
use terminus::Error;

fn fresh_store() -> (sled::Db, Store) {
    let db = sled::Config::new().temporary(true).open().unwrap();
    let content = db.open_tree("content").unwrap();
    let root_list = db.open_tree("root_list").unwrap();
    let store = Store::new(content, root_list).unwrap();
    (db, store)
}

fn alice() -> Author {
    Author::new("alice".to_string(), "pw".to_string())
}

fn expected_mask(name: &str, pass: &str) -> String {
    let mut input = name.to_owned();
    input.push_str(pass);
    base64::encode(blake3::hash(input.as_bytes()).as_bytes())
}

fn posted(resp: Response) -> Node {
    match resp {
        Response::Post(n) => n,
        other => panic!("expected a post reply, got {:?}", other),
    }
}

fn listed(resp: Response) -> Vec<Node> {
    match resp {
        Response::List(l) => l,
        other => panic!("expected a listing, got {:?}", other),
    }
}

#[test]
fn post_top_level() {
    let (_db, mut store) = fresh_store();
    let node = Node::with_time(&[], "t".to_string(), alice(), "c".to_string(), 7, 1000);
    let n = posted(store.post(node, 1000).unwrap());
    assert_eq!(n.id.len(), 16);
    assert!(!n.edited);
    assert_eq!(n.publish_time, 1000);
    assert_eq!(n.last_reply, 1000);
    assert!(n.author.is_masked());
    assert_eq!(n.author.pass.get_pass(), expected_mask("alice", "pw"));
    let roots = listed(store.list_root().unwrap());
    assert_eq!(roots.len(), 1);
    assert_eq!(roots[0].id, n.id);
    assert_eq!(roots[0].title, "t");
    assert_eq!(roots[0].content, "c");
}

#[test]
fn reply_updates_parent_last_reply() {
    let (_db, mut store) = fresh_store();
    let top = Node::with_time(&[], "t".to_string(), alice(), "c".to_string(), 7, 1000);
    let top = posted(store.post(top, 1000).unwrap());
    let reply = Node::with_time(&top.id, "r".to_string(), alice(), "x".to_string(), 8, 1060);
    let reply = posted(store.post(reply, 1060).unwrap());
    assert_eq!(reply.id.len(), 32);
    let roots = listed(store.list_root().unwrap());
    assert_eq!(roots.len(), 1);
    assert_eq!(roots[0].last_reply, reply.publish_time);
    assert!(roots[0].last_reply > top.publish_time);
    // The subtree listing shows the top first, then its reply.
    let all = listed(store.list(&top.id).unwrap());
    assert_eq!(all.len(), 2);
    assert_eq!(all[0].id, top.id);
    assert_eq!(all[1].id, reply.id);
}

#[test]
fn duplicate_post_fails() {
    let (_db, mut store) = fresh_store();
    let node = Node::with_time(&[], "t".to_string(), alice(), "c".to_string(), 7, 1000);
    let copy = node.clone_node();
    posted(store.post(node, 1000).unwrap());
    match store.post(copy, 1001).unwrap() {
        Response::Error(Error::NodeExist) => {},
        other => panic!("expected NodeExist, got {:?}", other),
    }
}

#[test]
fn reply_without_top_is_invalid() {
    let (_db, mut store) = fresh_store();
    let orphan_parent = terminus::idspace::make_layer(900, 1);
    let reply = Node::with_time(&orphan_parent, "r".to_string(), alice(), "x".to_string(), 2, 1000);
    match store.post(reply, 1000).unwrap() {
        Response::Error(Error::IdInvalid) => {},
        other => panic!("expected IdInvalid, got {:?}", other),
    }
    let bad = Node {
        id: vec![1, 2, 3],
        ..Node::with_time(&[], "t".to_string(), alice(), "c".to_string(), 1, 1000)
    };
    match store.post(bad, 1000).unwrap() {
        Response::Error(Error::IdInvalid) => {},
        other => panic!("expected IdInvalid, got {:?}", other),
    }
}

#[test]
fn update_with_wrong_pass_fails() {
    let (_db, mut store) = fresh_store();
    let node = Node::with_time(&[], "t".to_string(), alice(), "c".to_string(), 7, 1000);
    let n = posted(store.post(node, 1000).unwrap());
    let mut forged = n.clone_node();
    forged.author = Author::new("alice".to_string(), "wrong".to_string());
    forged.title = "changed".to_string();
    match store.update(forged).unwrap() {
        Response::Error(Error::PassNotMatch) => {},
        other => panic!("expected PassNotMatch, got {:?}", other),
    }
    let roots = listed(store.list_root().unwrap());
    assert_eq!(roots[0].title, "t");
}

#[test]
fn update_needs_plain_pass() {
    let (_db, mut store) = fresh_store();
    let node = Node::with_time(&[], "t".to_string(), alice(), "c".to_string(), 7, 1000);
    let n = posted(store.post(node, 1000).unwrap());
    // The server reply carries a masked author; sending it back as-is
    // cannot prove authorship.
    match store.update(n).unwrap() {
        Response::Error(Error::NeedUnMaskPass) => {},
        other => panic!("expected NeedUnMaskPass, got {:?}", other),
    }
}

#[test]
fn update_edits_and_keeps_times() {
    let (_db, mut store) = fresh_store();
    let node = Node::with_time(&[], "t".to_string(), alice(), "c".to_string(), 7, 1000);
    let n = posted(store.post(node, 1000).unwrap());
    let mut change = n.clone_node();
    change.author = alice();
    change.title = "t2".to_string();
    change.content = "c2".to_string();
    change.publish_time = 9999;
    change.last_reply = 9999;
    match store.update(change).unwrap() {
        Response::Update(u) => {
            assert!(u.edited);
            assert_eq!(u.title, "t2");
            assert_eq!(u.publish_time, 1000);
            assert_eq!(u.last_reply, 1000);
            assert!(u.author.is_masked());
        },
        other => panic!("expected an update reply, got {:?}", other),
    }
    let roots = listed(store.list_root().unwrap());
    assert_eq!(roots[0].title, "t2");
    assert!(roots[0].edited);
    assert_eq!(roots[0].publish_time, 1000);
}

#[test]
fn delete_after_window_fails() {
    let (_db, mut store) = fresh_store();
    let node = Node::with_time(&[], "t".to_string(), alice(), "c".to_string(), 7, 1000);
    let n = posted(store.post(node, 1000).unwrap());
    let mut del = n.clone_node();
    del.author = alice();
    // Five hours and one second after publication.
    match store.delete(del, 1000 + 18000 + 1).unwrap() {
        Response::Error(Error::DeleteLimitOverdue) => {},
        other => panic!("expected DeleteLimitOverdue, got {:?}", other),
    }
    assert_eq!(listed(store.list_root().unwrap()).len(), 1);
}

#[test]
fn delete_within_window_removes() {
    let (_db, mut store) = fresh_store();
    let node = Node::with_time(&[], "t".to_string(), alice(), "c".to_string(), 7, 1000);
    let n = posted(store.post(node, 1000).unwrap());
    let mut del = n.clone_node();
    del.author = alice();
    // Exactly five hours after publication is still allowed.
    match store.delete(del, 1000 + 18000).unwrap() {
        Response::Delete(d) => assert!(d.author.is_masked()),
        other => panic!("expected a delete reply, got {:?}", other),
    }
    assert_eq!(listed(store.list_root().unwrap()).len(), 0);
    assert_eq!(listed(store.list(&n.id).unwrap()).len(), 0);
}

#[test]
fn root_list_parity_after_mixed_operations() {
    let (_db, mut store) = fresh_store();
    let a = posted(
        store.post(Node::with_time(&[], "a".to_string(), alice(), "1".to_string(), 1, 100), 100).unwrap(),
    );
    let b = posted(
        store.post(Node::with_time(&[], "b".to_string(), alice(), "2".to_string(), 2, 200), 200).unwrap(),
    );
    posted(store.post(Node::with_time(&a.id, "r".to_string(), alice(), "3".to_string(), 3, 300), 300).unwrap());
    let mut change = b.clone_node();
    change.author = alice();
    change.content = "2b".to_string();
    store.update(change).unwrap();
    let mut del = a.clone_node();
    del.author = alice();
    // Deleting the reply's top leaves the reply orphaned but keeps the
    // two trees in step.
    store.delete(del, 400).unwrap();
    let roots = listed(store.list_root().unwrap());
    let everything = listed(store.list(&[].to_vec()).unwrap());
    let tops: Vec<&Node> = everything.iter().filter(|n| n.id.len() == 16).collect();
    assert_eq!(roots.len(), tops.len());
    for root in &roots {
        let matching = tops.iter().find(|n| n.id == root.id).unwrap();
        assert_eq!(format!("{:?}", root), format!("{:?}", *matching));
    }
}

#[test]
fn last_reply_is_subtree_maximum() {
    let (_db, mut store) = fresh_store();
    let top = posted(
        store.post(Node::with_time(&[], "t".to_string(), alice(), "c".to_string(), 1, 100), 100).unwrap(),
    );
    store.post(Node::with_time(&top.id, "r1".to_string(), alice(), "x".to_string(), 2, 150), 150).unwrap();
    store.post(Node::with_time(&top.id, "r2".to_string(), alice(), "y".to_string(), 3, 170), 170).unwrap();
    let everything = listed(store.list(&top.id).unwrap());
    let stored_top = everything.iter().find(|n| n.id == top.id).unwrap();
    let max_publish = everything.iter().map(|n| n.publish_time).max().unwrap();
    assert_eq!(stored_top.last_reply, max_publish);
}

#[test]
fn responses_never_leak_plain_pass() {
    let (_db, mut store) = fresh_store();
    let responses = vec![
        store.post(Node::with_time(&[], "t".to_string(), alice(), "c".to_string(), 1, 100), 100).unwrap(),
        store.list_root().unwrap(),
        store.list(&[].to_vec()).unwrap(),
    ];
    for resp in responses {
        match resp {
            Response::Post(n) | Response::Update(n) | Response::Delete(n) => {
                assert!(n.author.is_masked())
            },
            Response::List(l) => {
                for n in l {
                    assert!(n.author.is_masked());
                }
            },
            Response::Error(_) => {},
        }
    }
}

#[test]
fn root_listing_is_freshest_first() {
    let (_db, mut store) = fresh_store();
    store.post(Node::with_time(&[], "old".to_string(), alice(), "1".to_string(), 1, 100), 100).unwrap();
    store.post(Node::with_time(&[], "new".to_string(), alice(), "2".to_string(), 2, 300), 300).unwrap();
    store.post(Node::with_time(&[], "mid".to_string(), alice(), "3".to_string(), 3, 200), 200).unwrap();
    let roots = listed(store.list_root().unwrap());
    let titles: Vec<&str> = roots.iter().map(|n| n.title.as_str()).collect();
    assert_eq!(titles, vec!["new", "mid", "old"]);
}

#[test]
fn cache_insert_remove_clear() {
    let (_db, mut cache) = fresh_store();
    let node = Node::with_time(&[], "t".to_string(), alice(), "c".to_string(), 1, 100);
    assert!(cache.insert(&node).unwrap());
    assert_eq!(listed(cache.list_root().unwrap()).len(), 1);
    cache.remove(&node).unwrap();
    assert_eq!(listed(cache.list_root().unwrap()).len(), 0);
    assert!(cache.insert(&node).unwrap());
    cache.clear().unwrap();
    assert_eq!(listed(cache.list_root().unwrap()).len(), 0);
    assert_eq!(listed(cache.list(&[].to_vec()).unwrap()).len(), 0);
    let bad = Node { id: vec![1], ..node };
    assert!(!cache.insert(&bad).unwrap());
}

#[test]
fn aliased_trees_are_refused() {
    let db = sled::Config::new().temporary(true).open().unwrap();
    let first = db.open_tree("content").unwrap();
    let second = db.open_tree("content").unwrap();
    assert!(Store::new(first, second).is_err());
    let first = db.open_tree("content").unwrap();
    let second = db.open_tree("content").unwrap();
    assert!(Store::open(first, second).is_err());
}
