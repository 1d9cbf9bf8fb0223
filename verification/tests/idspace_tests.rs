use std::time::SystemTime;
use std::time::UNIX_EPOCH;
use terminus::identity::Author;
use terminus::idspace;
use terminus::types::Node;
use terminus::Error;

fn author() -> Author {
    Author::new("alice".to_string(), "pw".to_string())
}

#[test]
fn child_id_composition() {
    let parent = idspace::make_layer(1000, 42);
    let node = Node::with_time(&parent, "t".to_string(), author(), "c".to_string(), 9, 2000);
    assert_eq!(node.id.len(), 32);
    assert_eq!(idspace::parent_prefix(&node.id).unwrap(), parent);
    assert_eq!(idspace::top_prefix(&node.id).unwrap(), parent);
    assert_eq!(idspace::last_layer_u128(&node.id).unwrap(), (2000u128 << 64) | 9u128);
    assert_eq!(idspace::layers(&node.id).unwrap(), 2);
    assert!(!node.is_top_level());
}

#[test]
fn top_level_node_has_one_layer() {
    let node = Node::with_time(&[], "t".to_string(), author(), "c".to_string(), 5, 1234);
    assert_eq!(node.id.len(), 16);
    assert!(node.is_top_level());
    assert_eq!(idspace::parent_prefix(&node.id).unwrap(), Vec::<u8>::new());
    assert_eq!(node.last_id().unwrap() >> 64, 1234);
    assert_eq!(node.top_id().unwrap(), node.last_id().unwrap());
    assert_eq!(node.top_id_bin().unwrap(), node.id);
}

#[test]
fn fresh_layer_carries_the_clock() {
    let before = SystemTime::now().duration_since(UNIX_EPOCH).unwrap().as_secs() as u128;
    let node = Node::new(&[], "t".to_string(), author(), "c".to_string(), 77);
    let after = SystemTime::now().duration_since(UNIX_EPOCH).unwrap().as_secs() as u128;
    let secs = node.last_id().unwrap() >> 64;
    assert!(before <= secs + 2 && secs <= after + 2);
    assert_eq!(node.publish_time, node.last_reply);
    assert!(!node.edited);
}

#[test]
fn malformed_identifiers_are_rejected() {
    for bad in [vec![], vec![0u8; 15], vec![0u8; 17], vec![0u8; 31]] {
        assert!(matches!(idspace::layers(&bad), Err(Error::IdInvalid)));
        assert!(matches!(idspace::top_prefix(&bad), Err(Error::IdInvalid)));
        assert!(matches!(idspace::parent_prefix(&bad), Err(Error::IdInvalid)));
        assert!(matches!(idspace::last_layer_u128(&bad), Err(Error::IdInvalid)));
        assert!(matches!(idspace::is_top_level(&bad), Err(Error::IdInvalid)));
    }
}

#[test]
fn layer_bytes_are_little_endian() {
    let layer = idspace::make_layer(1, 2);
    let value = (1u128 << 64) | 2u128;
    assert_eq!(layer, value.to_le_bytes().to_vec());
}
