use terminus::codec::decode_action;
use terminus::codec::decode_body;
use terminus::codec::decode_node;
use terminus::codec::decode_response;
use terminus::codec::encode_action;
use terminus::codec::encode_body;
use terminus::codec::encode_node;
use terminus::codec::encode_response;
use terminus::error::Error;
use terminus::identity::Author;
use terminus::identity::Pass;
use terminus::types::Action;
use terminus::types::ListTarget;
use terminus::types::Node;
use terminus::types::Response;

fn sample_node() -> Node {
    let author = Author::new("alice".to_string(), "pw".to_string());
    Node::with_time(&[], "title 標題".to_string(), author, "body\nlines".to_string(), 7, 1000)
}

#[test]
fn disperse_and_assemble() {
    let me = Author::new("Me!".to_string(), "ME!ME!ME!".to_string());
    let node = Node::new(&[], "Hi".to_string(), me, "nothing".to_string(), 90);
    let origin = format!("{:?}", &node);
    let id = node.id.clone();
    let body = encode_body(&node);
    let node = decode_body(&id, &body).unwrap();
    let back = format!("{:?}", &node);
    assert_eq!(origin, back);
}

#[test]
fn node_round_trip() {
    let node = sample_node();
    let bytes = encode_node(&node);
    let back = decode_node(&bytes).unwrap();
    assert_eq!(format!("{:?}", node), format!("{:?}", back));
}

#[test]
fn node_round_trip_masked() {
    let mut node = sample_node();
    node.author.mask();
    node.edited = true;
    let bytes = encode_node(&node);
    let back = decode_node(&bytes).unwrap();
    assert_eq!(format!("{:?}", node), format!("{:?}", back));
}

#[test]
fn action_round_trips() {
    let cases = vec![
        Action::Post(sample_node()),
        Action::Update(sample_node()),
        Action::Delete(sample_node()),
        Action::List(ListTarget::Root),
        Action::List(ListTarget::Node(sample_node().id)),
    ];
    for action in cases {
        let bytes = encode_action(&action);
        let back = decode_action(&bytes).unwrap();
        assert_eq!(format!("{:?}", action), format!("{:?}", back));
    }
}

#[test]
fn response_round_trips() {
    let cases = vec![
        Response::Post(sample_node()),
        Response::Update(sample_node()),
        Response::Delete(sample_node()),
        Response::List(vec![]),
        Response::List(vec![sample_node(), sample_node()]),
        Response::Error(Error::NeedUnMaskPass),
        Response::Error(Error::NodeExist),
        Response::Error(Error::NodeNotExist),
        Response::Error(Error::IdInvalid),
        Response::Error(Error::PassNotMatch),
        Response::Error(Error::DeleteLimitOverdue),
        Response::Error(Error::NetworkError),
    ];
    for resp in cases {
        let bytes = encode_response(&resp);
        let back = decode_response(&bytes).unwrap();
        assert_eq!(format!("{:?}", resp), format!("{:?}", back));
    }
}

#[test]
fn frozen_discriminants() {
    // The first four bytes are the little-endian variant tag.
    let post = encode_action(&Action::Post(sample_node()));
    assert_eq!(&post[0..4], &[3, 0, 0, 0]);
    let del = encode_action(&Action::Delete(sample_node()));
    assert_eq!(&del[0..4], &[0, 0, 0, 0]);
    let list_root = encode_action(&Action::List(ListTarget::Root));
    assert_eq!(&list_root[0..8], &[1, 0, 0, 0, 0, 0, 0, 0]);
    let err = encode_response(&Response::Error(Error::NetworkError));
    assert_eq!(err, vec![4, 0, 0, 0, 6, 0, 0, 0]);
}

#[test]
fn decode_rejects_trailing_and_truncated() {
    let node = sample_node();
    let mut bytes = encode_node(&node);
    bytes.push(0);
    assert!(decode_node(&bytes).is_none());
    bytes.pop();
    bytes.pop();
    assert!(decode_node(&bytes).is_none());
    assert!(decode_action(&[9, 0, 0, 0]).is_none());
    assert!(decode_response(&[]).is_none());
}

#[test]
fn decode_rejects_invalid_utf8() {
    // A one-byte title whose byte is not valid UTF-8.
    let mut bytes: Vec<u8> = Vec::new();
    bytes.extend_from_slice(&1u64.to_le_bytes());
    bytes.push(0xff);
    assert!(decode_body(&[0u8; 16], &bytes).is_none());
}

#[test]
fn pass_variant_tags() {
    let plain = Author { name: "a".to_string(), pass: Pass::Pass("p".to_string()) };
    let masked = Author { name: "a".to_string(), pass: Pass::Mask("p".to_string()) };
    let node_plain = Node::with_time(&[], "t".to_string(), plain, "c".to_string(), 1, 5);
    let node_masked = Node::with_time(&[], "t".to_string(), masked, "c".to_string(), 1, 5);
    let enc_plain = encode_body(&node_plain);
    let enc_masked = encode_body(&node_masked);
    assert_ne!(enc_plain, enc_masked);
}
