use terminus::identity::Author;
use terminus::identity::Pass;

fn mask_of(name: &str, pass: &str) -> String {
    let mut input = name.to_owned();
    input.push_str(pass);
    base64::encode(blake3::hash(input.as_bytes()).as_bytes())
}

#[test]
fn mask_unlock() {
    let name = String::from("donadona");
    let pass = String::from("xmicjsuUHXahuxaHU");
    let mut author = Author::new(name.clone(), pass.clone());
    author.mask();
    assert!(author.match_pass(&name, &pass));
}

#[test]
fn mask_round_trip_accepts_and_rejects() {
    let mut author = Author::new("alice".to_string(), "pw".to_string());
    author.mask();
    assert!(author.is_masked());
    assert!(author.match_pass("alice", "pw"));
    assert!(!author.match_pass("alice", "wrong"));
    assert!(!author.match_pass("bob", "pw"));
}

#[test]
fn mask_is_idempotent() {
    let mut author = Author::new("alice".to_string(), "pw".to_string());
    author.mask();
    let once = author.pass.get_pass().to_owned();
    author.mask();
    assert_eq!(once, author.pass.get_pass());
}

#[test]
fn mask_digest_matches_reference_crates() {
    let mut author = Author::new("alice".to_string(), "pw".to_string());
    author.mask();
    assert_eq!(author.pass.get_pass(), mask_of("alice", "pw"));
    assert!(matches!(author.pass, Pass::Mask(_)));
}

#[test]
fn plain_author_matches_plainly() {
    let author = Author::new("alice".to_string(), "pw".to_string());
    assert!(!author.is_masked());
    assert!(author.match_pass("alice", "pw"));
    assert!(!author.match_pass("alice", "pW"));
}

#[test]
fn encode_pass_is_digest_prefix() {
    let author = Author::new("alice".to_string(), "pw".to_string());
    let shown = author.encode_pass(6);
    let full = blake3::hash("pw".as_bytes()).to_hex().to_string();
    assert_eq!(shown.len(), 6);
    assert_eq!(shown, full[0..6].to_ascii_lowercase());
    let masked = {
        let mut a = Author::new("alice".to_string(), "pw".to_string());
        a.mask();
        a
    };
    let digest_text = masked.pass.get_pass().to_owned();
    let expect = blake3::hash(digest_text.as_bytes()).to_hex().to_string();
    assert_eq!(masked.encode_pass(8), expect[0..8].to_ascii_lowercase());
}
