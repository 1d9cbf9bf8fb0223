//! Authors and passphrases. A passphrase travels in the clear from the
//! posting client, is masked by the server with a one-way digest before
//! storage, and is checked against later mutations by recomputing that
//! digest from the supplied name and passphrase.

use crate::util::hex_prefix;
use crate::util::spec_hex;
use crate::util::str_eq;
use vstd::prelude::*;
use vstd::utf8::encode_utf8;

verus! {

/// Digest of the byte string `input`. Relies on `blake3::hash`: a 32-byte
/// value that depends on the input bytes alone.
pub uninterp spec fn blake3_of(input: Seq<u8>) -> Seq<u8>;

/// Base64 rendering (standard alphabet, padded) of the byte string
/// `input`. Relies on `base64::encode`: a function of the input bytes
/// alone.
pub uninterp spec fn base64_of(input: Seq<u8>) -> Seq<char>;

/// Relies on `blake3::hash`, whose result depends on the input bytes
/// alone; the digest is 32 bytes long.
#[verifier::external_body]
fn blake3_digest(input: &[u8]) -> (r: Vec<u8>)
    ensures
        r@ == blake3_of(input@),
        r@.len() == 32,
{
    blake3::hash(input).as_bytes().to_vec()
}

/// Relies on `base64::encode` with the standard alphabet and padding,
/// whose result depends on the input bytes alone.
#[verifier::external_body]
fn base64_string(input: &[u8]) -> (r: String)
    ensures
        r@ == base64_of(input@),
{
    base64::encode(input)
}

/// The masking digest for a name and a plain passphrase: base64 of the
/// digest of the name's bytes followed by the passphrase's bytes.
pub open spec fn mask_digest(name: Seq<char>, pass: Seq<char>) -> Seq<char> {
    base64_of(blake3_of(encode_utf8(name) + encode_utf8(pass)))
}

/// Compute the masking digest of `name` and `pass`.
fn mask_name_pass(name: &str, pass: &str) -> (r: String)
    ensures
        r@ == mask_digest(name@, pass@),
{
    let mut input: Vec<u8> = Vec::new();
    input.extend_from_slice(name.as_bytes());
    input.extend_from_slice(pass.as_bytes());
    proof {
        assert(input@ =~= encode_utf8(name@) + encode_utf8(pass@));
    }
    let digest = blake3_digest(input.as_slice());
    base64_string(digest.as_slice())
}

/// A passphrase as it travels or rests: either still plain, or replaced
/// by its one-way masking digest.
#[derive(Debug, Clone)]
pub enum Pass {
    /// The plain passphrase, known only to its author.
    Pass(String),
    /// The one-way digest stored by the server and shown to readers.
    Mask(String),
}

/// The mathematical value of a `Pass`.
pub enum PassV {
    Plain(Seq<char>),
    Mask(Seq<char>),
}

impl PassV {
    /// The carried text, whichever variant holds it.
    pub open spec fn text(self) -> Seq<char> {
        match self {
            PassV::Plain(s) => s,
            PassV::Mask(s) => s,
        }
    }

    /// Whether the passphrase has been masked.
    pub open spec fn is_masked(self) -> bool {
        self is Mask
    }
}

impl View for Pass {
    type V = PassV;

    open spec fn view(&self) -> PassV {
        match self {
            Pass::Pass(s) => PassV::Plain(s@),
            Pass::Mask(s) => PassV::Mask(s@),
        }
    }
}

impl Pass {
    /// A copy of this passphrase.
    pub fn clone_pass(&self) -> (r: Pass)
        ensures
            r@ == self@,
    {
        match self {
            Pass::Pass(s) => Pass::Pass(s.clone()),
            Pass::Mask(s) => Pass::Mask(s.clone()),
        }
    }

    /// The carried text, plain or masked.
    pub fn get_pass(&self) -> (r: &str)
        ensures
            r@ == self@.text(),
    {
        match self {
            Pass::Pass(pass) => pass.as_str(),
            Pass::Mask(pass) => pass.as_str(),
        }
    }
}

/// A post's author: a display name and a passphrase.
#[derive(Debug, Clone)]
pub struct Author {
    pub name: String,
    pub pass: Pass,
}

/// The mathematical value of an `Author`.
pub struct AuthorV {
    pub name: Seq<char>,
    pub pass: PassV,
}

impl AuthorV {
    /// The author with its passphrase masked; masking an already-masked
    /// author changes nothing.
    pub open spec fn masked(self) -> AuthorV {
        match self.pass {
            PassV::Mask(_) => self,
            PassV::Plain(p) => AuthorV { name: self.name, pass: PassV::Mask(mask_digest(self.name, p)) },
        }
    }

    /// Whether the passphrase has been masked.
    pub open spec fn is_masked(self) -> bool {
        self.pass.is_masked()
    }
}

impl View for Author {
    type V = AuthorV;

    open spec fn view(&self) -> AuthorV {
        AuthorV { name: self.name@, pass: self.pass@ }
    }
}

/// Whether the stored author `a` accepts a mutation signed with `name`
/// and the plain passphrase `pass`: the names must be equal, and the
/// stored passphrase must either equal `pass` in the clear or equal the
/// masking digest of `(name, pass)`.
pub open spec fn spec_match_pass(a: AuthorV, name: Seq<char>, pass: Seq<char>) -> bool {
    a.name == name && match a.pass {
        PassV::Mask(d) => d == mask_digest(name, pass),
        PassV::Plain(p) => p == pass,
    }
}

impl Author {
    /// A copy of this author.
    pub fn clone_author(&self) -> (r: Author)
        ensures
            r@ == self@,
    {
        Author { name: self.name.clone(), pass: self.pass.clone_pass() }
    }

    /// An author freshly supplied by a client: the passphrase still plain.
    pub fn new(name: String, pass: String) -> (r: Self)
        ensures
            r@ == (AuthorV { name: name@, pass: PassV::Plain(pass@) }),
    {
        Author { name, pass: Pass::Pass(pass) }
    }

    /// Whether the passphrase has been masked.
    pub fn is_masked(&self) -> (r: bool)
        ensures
            r == self@.is_masked(),
    {
        match &self.pass {
            Pass::Mask(_) => true,
            Pass::Pass(_) => false,
        }
    }

    /// Replace a plain passphrase by its masking digest. Idempotent: an
    /// already-masked author is left as it is.
    pub fn mask(&mut self)
        ensures
            final(self)@ == old(self)@.masked(),
    {
        let digest = match &self.pass {
            Pass::Mask(_) => None,
            Pass::Pass(pass) => Some(mask_name_pass(self.name.as_str(), pass.as_str())),
        };
        match digest {
            Some(d) => {
                self.pass = Pass::Mask(d);
            },
            None => {},
        }
    }

    /// Whether this stored author accepts a mutation signed with `name`
    /// and plain passphrase `pass`.
    pub fn match_pass(&self, name: &str, pass: &str) -> (r: bool)
        ensures
            r == spec_match_pass(self@, name@, pass@),
    {
        if !str_eq(self.name.as_str(), name) {
            return false;
        }
        match &self.pass {
            Pass::Mask(inner) => {
                let expect = mask_name_pass(name, pass);
                str_eq(inner.as_str(), expect.as_str())
            },
            Pass::Pass(inner) => str_eq(inner.as_str(), pass),
        }
    }

    /// A short fingerprint of the passphrase text for display: the first
    /// `len` lowercase hexadecimal digits of its digest.
    pub fn encode_pass(&self, len: usize) -> (r: String)
        requires
            len <= 64,
        ensures
            r@ == spec_hex(blake3_of(encode_utf8(self@.pass.text()))).take(len as int),
            r@.len() == len,
    {
        let digest = blake3_digest(self.pass.get_pass().as_bytes());
        hex_prefix(digest.as_slice(), len)
    }
}

/// Auth round trip, accepting half: an author freshly built from a name
/// and passphrase and then masked accepts exactly that name and
/// passphrase.
pub proof fn lemma_mask_accepts(name: Seq<char>, pass: Seq<char>)
    ensures
        spec_match_pass(
            (AuthorV { name: name, pass: PassV::Plain(pass) }).masked(),
            name,
            pass,
        ),
{
}

/// Auth round trip, rejecting half, for a masked author: a different
/// passphrase is rejected whenever its masking digest differs — digest
/// collisions are the one case left open.
pub proof fn lemma_mask_rejects(name: Seq<char>, pass: Seq<char>, other: Seq<char>)
    requires
        mask_digest(name, other) != mask_digest(name, pass),
    ensures
        !spec_match_pass(
            (AuthorV { name: name, pass: PassV::Plain(pass) }).masked(),
            name,
            other,
        ),
{
}

/// Auth round trip, rejecting half, for a plain author: any different
/// passphrase is rejected, and so is any different name, masked or not.
pub proof fn lemma_plain_rejects(name: Seq<char>, pass: Seq<char>, other_name: Seq<char>, other: Seq<char>)
    ensures
        other != pass ==> !spec_match_pass(
            AuthorV { name: name, pass: PassV::Plain(pass) },
            name,
            other,
        ),
        other_name != name ==> !spec_match_pass(
            AuthorV { name: name, pass: PassV::Plain(pass) },
            other_name,
            other,
        ),
        other_name != name ==> !spec_match_pass(
            (AuthorV { name: name, pass: PassV::Plain(pass) }).masked(),
            other_name,
            other,
        ),
{
}

} // verus!
