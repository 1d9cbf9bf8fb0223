//! The binary encoding shared by the wire protocol and the storage rows.
//!
//! Integers are little-endian and fixed-width; byte strings and text
//! carry a `u64` length prefix; tagged values carry a `u32` discriminant
//! followed by the payload of the chosen variant; text is UTF-8. The
//! discriminants are frozen: changing any of them breaks the protocol.
//!
//! Every value is specified twice: a spec-level encoder over the
//! mathematical views, and a spec-level decoder that is total over
//! arbitrary byte strings. The executable encoder and decoder are proved
//! to agree exactly with those, and the decoder is proved to invert the
//! encoder.

use crate::error::Error;
use crate::identity::Author;
use crate::identity::AuthorV;
use crate::identity::Pass;
use crate::identity::PassV;
use crate::types::views_of;
use crate::types::Action;
use crate::types::ActionV;
use crate::types::ListTarget;
use crate::types::ListTargetV;
use crate::types::Node;
use crate::types::NodeV;
use crate::types::Response;
use crate::types::ResponseV;
use crate::util::string_from_utf8;
use vstd::bytes::*;
use vstd::prelude::*;
use vstd::slice::*;
use vstd::utf8::*;

verus! {

// ---------------------------------------------------------------------
// Spec-level encoders for the primitives.
// ---------------------------------------------------------------------
/// Four little-endian bytes.
pub open spec fn enc_u32(x: u32) -> Seq<u8> {
    spec_u32_to_le_bytes(x)
}

/// Eight little-endian bytes.
pub open spec fn enc_u64(x: u64) -> Seq<u8> {
    spec_u64_to_le_bytes(x)
}

/// One byte: zero for false, one for true.
pub open spec fn enc_bool(b: bool) -> Seq<u8> {
    seq![if b { 1u8 } else { 0u8 }]
}

/// A `u64` length prefix followed by the raw bytes.
pub open spec fn enc_bytes(b: Seq<u8>) -> Seq<u8> {
    enc_u64(b.len() as u64) + b
}

/// A length-prefixed UTF-8 encoding of the text.
pub open spec fn enc_str(s: Seq<char>) -> Seq<u8> {
    enc_bytes(encode_utf8(s))
}

// ---------------------------------------------------------------------
// Spec-level decoders for the primitives. Each is total: it consumes
// `data` from `pos` and yields the value and the next position, or
// nothing when the bytes there do not parse.
// ---------------------------------------------------------------------
/// Decode four little-endian bytes.
pub open spec fn dec_u32(data: Seq<u8>, pos: int) -> Option<(u32, int)> {
    if 0 <= pos && pos + 4 <= data.len() {
        Some((spec_u32_from_le_bytes(data.subrange(pos, pos + 4)), pos + 4))
    } else {
        None
    }
}

/// Decode eight little-endian bytes.
pub open spec fn dec_u64(data: Seq<u8>, pos: int) -> Option<(u64, int)> {
    if 0 <= pos && pos + 8 <= data.len() {
        Some((spec_u64_from_le_bytes(data.subrange(pos, pos + 8)), pos + 8))
    } else {
        None
    }
}

/// Decode one boolean byte; any byte but zero or one is rejected.
pub open spec fn dec_bool(data: Seq<u8>, pos: int) -> Option<(bool, int)> {
    if 0 <= pos && pos + 1 <= data.len() {
        if data[pos] == 1u8 {
            Some((true, pos + 1))
        } else if data[pos] == 0u8 {
            Some((false, pos + 1))
        } else {
            None
        }
    } else {
        None
    }
}

/// Decode a length-prefixed byte string.
pub open spec fn dec_bytes(data: Seq<u8>, pos: int) -> Option<(Seq<u8>, int)> {
    match dec_u64(data, pos) {
        None => None,
        Some((len, p)) => if p + len <= data.len() {
            Some((data.subrange(p, p + len), p + len))
        } else {
            None
        },
    }
}

/// Decode a length-prefixed UTF-8 text.
pub open spec fn dec_str(data: Seq<u8>, pos: int) -> Option<(Seq<char>, int)> {
    match dec_bytes(data, pos) {
        None => None,
        Some((b, p)) => if valid_utf8(b) {
            Some((decode_utf8(b), p))
        } else {
            None
        },
    }
}

// ---------------------------------------------------------------------
// Inversion lemmas for the primitives: wherever an encoding sits inside
// a larger byte string, the decoder finds exactly the encoded value.
// ---------------------------------------------------------------------
/// Decoding inverts `enc_u32` wherever its bytes sit.
pub proof fn lemma_dec_enc_u32(data: Seq<u8>, pos: int, x: u32)
    requires
        0 <= pos,
        pos + 4 <= data.len(),
        data.subrange(pos, pos + 4) == enc_u32(x),
    ensures
        dec_u32(data, pos) == Some((x, pos + 4)),
{
    lemma_auto_spec_u32_to_from_le_bytes();
    assert(spec_u32_to_le_bytes(x).len() == 4);
    assert(spec_u32_from_le_bytes(spec_u32_to_le_bytes(x)) == x);
    assert(data.subrange(pos, pos + 4) == spec_u32_to_le_bytes(x));
}

/// Decoding inverts `enc_u64` wherever its bytes sit.
pub proof fn lemma_dec_enc_u64(data: Seq<u8>, pos: int, x: u64)
    requires
        0 <= pos,
        pos + 8 <= data.len(),
        data.subrange(pos, pos + 8) == enc_u64(x),
    ensures
        dec_u64(data, pos) == Some((x, pos + 8)),
{
    lemma_auto_spec_u64_to_from_le_bytes();
    assert(spec_u64_to_le_bytes(x).len() == 8);
    assert(spec_u64_from_le_bytes(spec_u64_to_le_bytes(x)) == x);
    assert(data.subrange(pos, pos + 8) == spec_u64_to_le_bytes(x));
}

/// Decoding inverts `enc_bool` wherever its byte sits.
pub proof fn lemma_dec_enc_bool(data: Seq<u8>, pos: int, b: bool)
    requires
        0 <= pos,
        pos + 1 <= data.len(),
        data.subrange(pos, pos + 1) == enc_bool(b),
    ensures
        dec_bool(data, pos) == Some((b, pos + 1)),
{
    assert(data[pos] == enc_bool(b)[0]);
}

/// A byte string whose length prefix fits its field. Every byte string
/// held in memory satisfies this.
pub open spec fn bytes_encodable(b: Seq<u8>) -> bool {
    b.len() <= u64::MAX
}

/// A text whose UTF-8 encoding fits its length field. Every text held
/// in memory satisfies this.
pub open spec fn str_encodable(s: Seq<char>) -> bool {
    encode_utf8(s).len() <= u64::MAX
}

/// Decoding inverts `enc_bytes` wherever its bytes sit.
pub proof fn lemma_dec_enc_bytes(data: Seq<u8>, pos: int, b: Seq<u8>)
    requires
        bytes_encodable(b),
        0 <= pos,
        pos + enc_bytes(b).len() <= data.len(),
        data.subrange(pos, pos + enc_bytes(b).len()) == enc_bytes(b),
    ensures
        dec_bytes(data, pos) == Some((b, pos + enc_bytes(b).len())),
{
    let whole = enc_bytes(b);
    let n = b.len() as int;
    lemma_auto_spec_u64_to_from_le_bytes();
    assert(spec_u64_to_le_bytes(b.len() as u64).len() == 8);
    assert(whole.len() == 8 + n);
    assert(data.subrange(pos, pos + 8) =~= whole.subrange(0, 8));
    assert(whole.subrange(0, 8) =~= enc_u64(b.len() as u64));
    lemma_dec_enc_u64(data, pos, b.len() as u64);
    assert(data.subrange(pos + 8, pos + 8 + n) =~= whole.subrange(8, 8 + n));
    assert(whole.subrange(8, 8 + n) =~= b);
}

/// Decoding inverts `enc_str` wherever its bytes sit.
pub proof fn lemma_dec_enc_str(data: Seq<u8>, pos: int, s: Seq<char>)
    requires
        str_encodable(s),
        0 <= pos,
        pos + enc_str(s).len() <= data.len(),
        data.subrange(pos, pos + enc_str(s).len()) == enc_str(s),
    ensures
        dec_str(data, pos) == Some((s, pos + enc_str(s).len())),
{
    lemma_dec_enc_bytes(data, pos, encode_utf8(s));
    encode_utf8_valid_utf8(s);
    encode_utf8_decode_utf8(s);
}

// ---------------------------------------------------------------------
// Executable encoders for the primitives. Each appends onto an output
// buffer.
// ---------------------------------------------------------------------
/// Append the encoding of `x` to `out`.
fn e_u32(out: &mut Vec<u8>, x: u32)
    ensures
        final(out)@ == old(out)@ + enc_u32(x),
{
    let bytes = u32_to_le_bytes(x);
    out.extend_from_slice(bytes.as_slice());
}

/// Append the encoding of `x` to `out`.
fn e_u64(out: &mut Vec<u8>, x: u64)
    ensures
        final(out)@ == old(out)@ + enc_u64(x),
{
    let bytes = u64_to_le_bytes(x);
    out.extend_from_slice(bytes.as_slice());
}

/// Append the encoding of `b` to `out`.
fn e_bool(out: &mut Vec<u8>, b: bool)
    ensures
        final(out)@ == old(out)@ + enc_bool(b),
{
    out.push(if b { 1u8 } else { 0u8 });
    proof {
        assert(final(out)@ =~= old(out)@ + enc_bool(b));
    }
}

/// Append the length-prefixed encoding of `b` to `out`.
fn e_bytes(out: &mut Vec<u8>, b: &[u8])
    ensures
        final(out)@ == old(out)@ + enc_bytes(b@),
{
    e_u64(out, b.len() as u64);
    out.extend_from_slice(b);
    proof {
        assert(final(out)@ =~= old(out)@ + enc_bytes(b@));
    }
}

/// Append the length-prefixed UTF-8 encoding of `s` to `out`.
fn e_str(out: &mut Vec<u8>, s: &str)
    ensures
        final(out)@ == old(out)@ + enc_str(s@),
{
    e_bytes(out, s.as_bytes());
}

// ---------------------------------------------------------------------
// Executable decoders for the primitives. Each is proved to agree
// exactly with its spec-level decoder.
// ---------------------------------------------------------------------
/// Decode four little-endian bytes at `pos`.
fn d_u32(data: &[u8], pos: usize) -> (r: Option<(u32, usize)>)
    ensures
        match r {
            Some((x, end)) => dec_u32(data@, pos as int) == Some((x, end as int)),
            None => dec_u32(data@, pos as int) is None,
        },
{
    if pos <= data.len() && data.len() - pos >= 4 {
        let x = u32_from_le_bytes(slice_subrange(data, pos, pos + 4));
        Some((x, pos + 4))
    } else {
        None
    }
}

/// Decode eight little-endian bytes at `pos`.
fn d_u64(data: &[u8], pos: usize) -> (r: Option<(u64, usize)>)
    ensures
        match r {
            Some((x, end)) => dec_u64(data@, pos as int) == Some((x, end as int)),
            None => dec_u64(data@, pos as int) is None,
        },
{
    if pos <= data.len() && data.len() - pos >= 8 {
        let x = u64_from_le_bytes(slice_subrange(data, pos, pos + 8));
        Some((x, pos + 8))
    } else {
        None
    }
}

/// Decode one boolean byte at `pos`.
fn d_bool(data: &[u8], pos: usize) -> (r: Option<(bool, usize)>)
    ensures
        match r {
            Some((b, end)) => dec_bool(data@, pos as int) == Some((b, end as int)),
            None => dec_bool(data@, pos as int) is None,
        },
{
    if pos < data.len() {
        let byte = *slice_index_get(data, pos);
        if byte == 1u8 {
            Some((true, pos + 1))
        } else if byte == 0u8 {
            Some((false, pos + 1))
        } else {
            None
        }
    } else {
        None
    }
}

/// Decode a length-prefixed byte string at `pos`.
fn d_bytes(data: &[u8], pos: usize) -> (r: Option<(Vec<u8>, usize)>)
    ensures
        match r {
            Some((b, end)) => dec_bytes(data@, pos as int) == Some((b@, end as int)),
            None => dec_bytes(data@, pos as int) is None,
        },
{
    let (len, p) = match d_u64(data, pos) {
        None => {
            return None;
        },
        Some(x) => x,
    };
    if len <= (data.len() - p) as u64 {
        let end = p + (len as usize);
        let b = slice_to_vec(slice_subrange(data, p, end));
        Some((b, end))
    } else {
        None
    }
}

/// Splitting a concatenation found inside a larger byte string yields
/// its two halves at their own positions.
proof fn lemma_split_concat(data: Seq<u8>, pos: int, a: Seq<u8>, b: Seq<u8>)
    requires
        0 <= pos,
        pos + a.len() + b.len() <= data.len(),
        data.subrange(pos, pos + a.len() + b.len()) == a + b,
    ensures
        data.subrange(pos, pos + a.len()) == a,
        data.subrange(pos + a.len(), pos + a.len() + b.len()) == b,
{
    assert forall|i: int| 0 <= i < a.len() implies data.subrange(pos, pos + a.len())[i] == a[i] by {
        assert(data.subrange(pos, pos + a.len() + b.len())[i] == (a + b)[i]);
    }
    assert(data.subrange(pos, pos + a.len()) =~= a);
    assert forall|i: int|
        0 <= i < b.len() implies data.subrange(pos + a.len(), pos + a.len() + b.len())[i] == b[i] by {
        assert((a + b)[a.len() + i] == b[i]);
        assert(data.subrange(pos, pos + a.len() + b.len())[a.len() + i] == data[pos + a.len() + i]);
        assert(data.subrange(pos + a.len(), pos + a.len() + b.len())[i] == data[pos + a.len() + i]);
    }
    assert(data.subrange(pos + a.len(), pos + a.len() + b.len()) =~= b);
}

/// Decode a length-prefixed UTF-8 text at `pos`.
fn d_str(data: &[u8], pos: usize) -> (r: Option<(String, usize)>)
    ensures
        match r {
            Some((s, end)) => dec_str(data@, pos as int) == Some((s@, end as int)),
            None => dec_str(data@, pos as int) is None,
        },
{
    let (b, end) = match d_bytes(data, pos) {
        None => {
            return None;
        },
        Some(x) => x,
    };
    match string_from_utf8(b) {
        None => None,
        Some(s) => {
            proof {
                encode_utf8_decode_utf8(s@);
            }
            Some((s, end))
        },
    }
}


// ---------------------------------------------------------------------
// Passphrases. Discriminants: 0 plain, 1 masked.
// ---------------------------------------------------------------------
/// Encoding of a passphrase.
pub open spec fn enc_pass(p: PassV) -> Seq<u8> {
    match p {
        PassV::Plain(s) => enc_u32(0) + enc_str(s),
        PassV::Mask(s) => enc_u32(1) + enc_str(s),
    }
}

/// A passphrase whose text fits its length field.
pub open spec fn pass_encodable(p: PassV) -> bool {
    str_encodable(p.text())
}

/// Decode a passphrase.
pub open spec fn dec_pass(data: Seq<u8>, pos: int) -> Option<(PassV, int)> {
    match dec_u32(data, pos) {
        None => None,
        Some((tag, p)) => if tag == 0 {
            match dec_str(data, p) {
                None => None,
                Some((s, end)) => Some((PassV::Plain(s), end)),
            }
        } else if tag == 1 {
            match dec_str(data, p) {
                None => None,
                Some((s, end)) => Some((PassV::Mask(s), end)),
            }
        } else {
            None
        },
    }
}

/// Decoding inverts `enc_pass` wherever its bytes sit.
pub proof fn lemma_dec_enc_pass(data: Seq<u8>, pos: int, p: PassV)
    requires
        pass_encodable(p),
        0 <= pos,
        pos + enc_pass(p).len() <= data.len(),
        data.subrange(pos, pos + enc_pass(p).len()) == enc_pass(p),
    ensures
        dec_pass(data, pos) == Some((p, pos + enc_pass(p).len())),
{
    lemma_auto_spec_u32_to_from_le_bytes();
    match p {
        PassV::Plain(s) => {
            lemma_split_concat(data, pos, enc_u32(0), enc_str(s));
            lemma_dec_enc_u32(data, pos, 0);
            lemma_dec_enc_str(data, pos + 4, s);
        },
        PassV::Mask(s) => {
            lemma_split_concat(data, pos, enc_u32(1), enc_str(s));
            lemma_dec_enc_u32(data, pos, 1);
            lemma_dec_enc_str(data, pos + 4, s);
        },
    }
}

/// Append the encoding of `p` to `out`.
fn e_pass(out: &mut Vec<u8>, p: &Pass)
    ensures
        final(out)@ == old(out)@ + enc_pass(p@),
{
    match p {
        Pass::Pass(s) => {
            e_u32(out, 0);
            e_str(out, s.as_str());
        },
        Pass::Mask(s) => {
            e_u32(out, 1);
            e_str(out, s.as_str());
        },
    }
    proof {
        assert(final(out)@ =~= old(out)@ + enc_pass(p@));
    }
}

/// Decode a passphrase at `pos`.
fn d_pass(data: &[u8], pos: usize) -> (r: Option<(Pass, usize)>)
    ensures
        match r {
            Some((p, end)) => dec_pass(data@, pos as int) == Some((p@, end as int)),
            None => dec_pass(data@, pos as int) is None,
        },
{
    let (tag, p) = match d_u32(data, pos) {
        None => {
            return None;
        },
        Some(x) => x,
    };
    if tag == 0 {
        match d_str(data, p) {
            None => None,
            Some((s, end)) => Some((Pass::Pass(s), end)),
        }
    } else if tag == 1 {
        match d_str(data, p) {
            None => None,
            Some((s, end)) => Some((Pass::Mask(s), end)),
        }
    } else {
        None
    }
}

// ---------------------------------------------------------------------
// Authors: name, then passphrase.
// ---------------------------------------------------------------------
/// Encoding of an author.
pub open spec fn enc_author(a: AuthorV) -> Seq<u8> {
    enc_str(a.name) + enc_pass(a.pass)
}

/// An author whose fields fit their length fields.
pub open spec fn author_encodable(a: AuthorV) -> bool {
    str_encodable(a.name) && pass_encodable(a.pass)
}

/// Decode an author.
pub open spec fn dec_author(data: Seq<u8>, pos: int) -> Option<(AuthorV, int)> {
    match dec_str(data, pos) {
        None => None,
        Some((name, p)) => match dec_pass(data, p) {
            None => None,
            Some((pass, end)) => Some((AuthorV { name, pass }, end)),
        },
    }
}

/// Decoding inverts `enc_author` wherever its bytes sit.
pub proof fn lemma_dec_enc_author(data: Seq<u8>, pos: int, a: AuthorV)
    requires
        author_encodable(a),
        0 <= pos,
        pos + enc_author(a).len() <= data.len(),
        data.subrange(pos, pos + enc_author(a).len()) == enc_author(a),
    ensures
        dec_author(data, pos) == Some((a, pos + enc_author(a).len())),
{
    lemma_split_concat(data, pos, enc_str(a.name), enc_pass(a.pass));
    lemma_dec_enc_str(data, pos, a.name);
    lemma_dec_enc_pass(data, pos + enc_str(a.name).len(), a.pass);
}

/// Append the encoding of `a` to `out`.
fn e_author(out: &mut Vec<u8>, a: &Author)
    ensures
        final(out)@ == old(out)@ + enc_author(a@),
{
    e_str(out, a.name.as_str());
    e_pass(out, &a.pass);
    proof {
        assert(final(out)@ =~= old(out)@ + enc_author(a@));
    }
}

/// Decode an author at `pos`.
fn d_author(data: &[u8], pos: usize) -> (r: Option<(Author, usize)>)
    ensures
        match r {
            Some((a, end)) => dec_author(data@, pos as int) == Some((a@, end as int)),
            None => dec_author(data@, pos as int) is None,
        },
{
    let (name, p) = match d_str(data, pos) {
        None => {
            return None;
        },
        Some(x) => x,
    };
    match d_pass(data, p) {
        None => None,
        Some((pass, end)) => Some((Author { name, pass }, end)),
    }
}

// ---------------------------------------------------------------------
// Node bodies: every field but the identifier, in declaration order.
// This is the row format of the stores, where the identifier is the key.
// ---------------------------------------------------------------------
/// Encoding of a node body.
pub open spec fn enc_body(n: NodeV) -> Seq<u8> {
    enc_str(n.title) + (enc_author(n.author) + (enc_str(n.content) + (enc_u64(n.publish_time)
        + (enc_u64(n.last_reply) + enc_bool(n.edited)))))
}

/// A node whose fields fit their length fields.
pub open spec fn node_encodable(n: NodeV) -> bool {
    bytes_encodable(n.id) && str_encodable(n.title) && author_encodable(n.author)
        && str_encodable(n.content)
}

/// Decode a node body, filling in the identifier `id`.
pub open spec fn dec_body(data: Seq<u8>, pos: int, id: Seq<u8>) -> Option<(NodeV, int)> {
    match dec_str(data, pos) {
        None => None,
        Some((title, p1)) => match dec_author(data, p1) {
            None => None,
            Some((author, p2)) => match dec_str(data, p2) {
                None => None,
                Some((content, p3)) => match dec_u64(data, p3) {
                    None => None,
                    Some((publish_time, p4)) => match dec_u64(data, p4) {
                        None => None,
                        Some((last_reply, p5)) => match dec_bool(data, p5) {
                            None => None,
                            Some((edited, end)) => Some(
                                (
                                    NodeV {
                                        id,
                                        title,
                                        author,
                                        content,
                                        publish_time,
                                        last_reply,
                                        edited,
                                    },
                                    end,
                                ),
                            ),
                        },
                    },
                },
            },
        },
    }
}

/// Decoding inverts `enc_body` wherever its bytes sit, recovering the
/// node whose identifier is supplied alongside.
#[verifier::rlimit(60)]
pub proof fn lemma_dec_enc_body(data: Seq<u8>, pos: int, n: NodeV)
    requires
        node_encodable(n),
        0 <= pos,
        pos + enc_body(n).len() <= data.len(),
        data.subrange(pos, pos + enc_body(n).len()) == enc_body(n),
    ensures
        dec_body(data, pos, n.id) == Some((n, pos + enc_body(n).len())),
{
    let f1 = enc_str(n.title);
    let f2 = enc_author(n.author);
    let f3 = enc_str(n.content);
    let f4 = enc_u64(n.publish_time);
    let f5 = enc_u64(n.last_reply);
    let f6 = enc_bool(n.edited);
    let p1 = pos + f1.len();
    let p2 = p1 + f2.len();
    let p3 = p2 + f3.len();
    let p4 = p3 + f4.len();
    let p5 = p4 + f5.len();
    lemma_auto_spec_u64_to_from_le_bytes();
    assert(f4.len() == 8 && f5.len() == 8 && f6.len() == 1);
    assert((f5 + f6).len() == f5.len() + f6.len());
    assert((f4 + (f5 + f6)).len() == f4.len() + f5.len() + f6.len());
    assert((f3 + (f4 + (f5 + f6))).len() == f3.len() + f4.len() + f5.len() + f6.len());
    assert((f2 + (f3 + (f4 + (f5 + f6)))).len() == f2.len() + f3.len() + f4.len() + f5.len()
        + f6.len());
    assert(enc_body(n).len() == f1.len() + f2.len() + f3.len() + f4.len() + f5.len() + f6.len());
    lemma_split_concat(data, pos, f1, f2 + (f3 + (f4 + (f5 + f6))));
    lemma_dec_enc_str(data, pos, n.title);
    lemma_split_concat(data, p1, f2, f3 + (f4 + (f5 + f6)));
    lemma_dec_enc_author(data, p1, n.author);
    lemma_split_concat(data, p2, f3, f4 + (f5 + f6));
    lemma_dec_enc_str(data, p2, n.content);
    lemma_split_concat(data, p3, f4, f5 + f6);
    lemma_dec_enc_u64(data, p3, n.publish_time);
    lemma_split_concat(data, p4, f5, f6);
    lemma_dec_enc_u64(data, p4, n.last_reply);
    lemma_dec_enc_bool(data, p5, n.edited);
}

/// Encode the body of `n` (all fields but the identifier).
pub fn encode_body(n: &Node) -> (r: Vec<u8>)
    ensures
        r@ == enc_body(n@),
        r@.len() <= u64::MAX,
{
    let mut out: Vec<u8> = Vec::new();
    e_str(&mut out, n.title.as_str());
    e_author(&mut out, &n.author);
    e_str(&mut out, n.content.as_str());
    e_u64(&mut out, n.publish_time);
    e_u64(&mut out, n.last_reply);
    e_bool(&mut out, n.edited);
    proof {
        broadcast use vstd::std_specs::vec::axiom_spec_len;

        assert(out@ =~= enc_body(n@));
        assert(vstd::std_specs::vec::spec_vec_len(&out) == out@.len());
    }
    out
}

/// Decode a node body at `pos`, attaching the identifier `id`.
fn d_body(data: &[u8], pos: usize, id: Vec<u8>) -> (r: Option<(Node, usize)>)
    ensures
        match r {
            Some((n, end)) => dec_body(data@, pos as int, id@) == Some((n@, end as int)),
            None => dec_body(data@, pos as int, id@) is None,
        },
{
    let (title, p1) = match d_str(data, pos) {
        None => {
            return None;
        },
        Some(x) => x,
    };
    let (author, p2) = match d_author(data, p1) {
        None => {
            return None;
        },
        Some(x) => x,
    };
    let (content, p3) = match d_str(data, p2) {
        None => {
            return None;
        },
        Some(x) => x,
    };
    let (publish_time, p4) = match d_u64(data, p3) {
        None => {
            return None;
        },
        Some(x) => x,
    };
    let (last_reply, p5) = match d_u64(data, p4) {
        None => {
            return None;
        },
        Some(x) => x,
    };
    let (edited, end) = match d_bool(data, p5) {
        None => {
            return None;
        },
        Some(x) => x,
    };
    Some((Node { id, title, author, content, publish_time, last_reply, edited }, end))
}

/// Decode a stored row: a whole buffer holding exactly one node body,
/// under the identifier `id` that keyed it.
pub fn decode_body(id: &[u8], data: &[u8]) -> (r: Option<Node>)
    ensures
        match r {
            Some(n) => dec_body(data@, 0, id@) == Some((n@, data@.len() as int)),
            None => match dec_body(data@, 0, id@) {
                None => true,
                Some((_, end)) => end != data@.len(),
            },
        },
{
    let id_vec = slice_to_vec(id);
    match d_body(data, 0, id_vec) {
        None => None,
        Some((n, end)) => if end == data.len() {
            Some(n)
        } else {
            None
        },
    }
}

// ---------------------------------------------------------------------
// Whole nodes: identifier, then body.
// ---------------------------------------------------------------------
/// Encoding of a whole node.
pub open spec fn enc_node(n: NodeV) -> Seq<u8> {
    enc_bytes(n.id) + enc_body(n)
}

/// Decode a whole node.
pub open spec fn dec_node(data: Seq<u8>, pos: int) -> Option<(NodeV, int)> {
    match dec_bytes(data, pos) {
        None => None,
        Some((id, p)) => dec_body(data, p, id),
    }
}

/// Decoding inverts `enc_node` wherever its bytes sit.
pub proof fn lemma_dec_enc_node(data: Seq<u8>, pos: int, n: NodeV)
    requires
        node_encodable(n),
        0 <= pos,
        pos + enc_node(n).len() <= data.len(),
        data.subrange(pos, pos + enc_node(n).len()) == enc_node(n),
    ensures
        dec_node(data, pos) == Some((n, pos + enc_node(n).len())),
{
    lemma_split_concat(data, pos, enc_bytes(n.id), enc_body(n));
    lemma_dec_enc_bytes(data, pos, n.id);
    lemma_dec_enc_body(data, pos + enc_bytes(n.id).len(), n);
}

/// Encode a whole node.
pub fn encode_node(n: &Node) -> (r: Vec<u8>)
    ensures
        r@ == enc_node(n@),
{
    let mut out: Vec<u8> = Vec::new();
    e_bytes(&mut out, n.id.as_slice());
    let body = encode_body(n);
    out.extend_from_slice(body.as_slice());
    proof {
        assert(out@ =~= enc_node(n@));
    }
    out
}

/// Decode a whole node at `pos`.
fn d_node(data: &[u8], pos: usize) -> (r: Option<(Node, usize)>)
    ensures
        match r {
            Some((n, end)) => dec_node(data@, pos as int) == Some((n@, end as int)),
            None => dec_node(data@, pos as int) is None,
        },
{
    let (id, p) = match d_bytes(data, pos) {
        None => {
            return None;
        },
        Some(x) => x,
    };
    d_body(data, p, id)
}

/// Decode a whole buffer holding exactly one node.
pub fn decode_node(data: &[u8]) -> (r: Option<Node>)
    ensures
        match r {
            Some(n) => dec_node(data@, 0) == Some((n@, data@.len() as int)),
            None => match dec_node(data@, 0) {
                None => true,
                Some((_, end)) => end != data@.len(),
            },
        },
{
    match d_node(data, 0) {
        None => None,
        Some((n, end)) => if end == data.len() {
            Some(n)
        } else {
            None
        },
    }
}


// ---------------------------------------------------------------------
// Errors: a bare discriminant.
// ---------------------------------------------------------------------
/// The frozen discriminant of a domain error.
pub open spec fn err_tag(e: Error) -> u32 {
    match e {
        Error::NeedUnMaskPass => 0,
        Error::NodeExist => 1,
        Error::NodeNotExist => 2,
        Error::IdInvalid => 3,
        Error::PassNotMatch => 4,
        Error::DeleteLimitOverdue => 5,
        Error::NetworkError => 6,
    }
}

/// Encoding of a domain error.
pub open spec fn enc_err(e: Error) -> Seq<u8> {
    enc_u32(err_tag(e))
}

/// Decode a domain error.
pub open spec fn dec_err(data: Seq<u8>, pos: int) -> Option<(Error, int)> {
    match dec_u32(data, pos) {
        None => None,
        Some((tag, p)) => if tag == 0 {
            Some((Error::NeedUnMaskPass, p))
        } else if tag == 1 {
            Some((Error::NodeExist, p))
        } else if tag == 2 {
            Some((Error::NodeNotExist, p))
        } else if tag == 3 {
            Some((Error::IdInvalid, p))
        } else if tag == 4 {
            Some((Error::PassNotMatch, p))
        } else if tag == 5 {
            Some((Error::DeleteLimitOverdue, p))
        } else if tag == 6 {
            Some((Error::NetworkError, p))
        } else {
            None
        },
    }
}

/// Decoding inverts `enc_err` wherever its bytes sit.
pub proof fn lemma_dec_enc_err(data: Seq<u8>, pos: int, e: Error)
    requires
        0 <= pos,
        pos + 4 <= data.len(),
        data.subrange(pos, pos + 4) == enc_err(e),
    ensures
        dec_err(data, pos) == Some((e, pos + 4)),
{
    lemma_auto_spec_u32_to_from_le_bytes();
    lemma_dec_enc_u32(data, pos, err_tag(e));
}

/// Append the encoding of `e` to `out`.
fn e_err(out: &mut Vec<u8>, e: &Error)
    ensures
        final(out)@ == old(out)@ + enc_err(*e),
{
    let tag: u32 = match e {
        Error::NeedUnMaskPass => 0,
        Error::NodeExist => 1,
        Error::NodeNotExist => 2,
        Error::IdInvalid => 3,
        Error::PassNotMatch => 4,
        Error::DeleteLimitOverdue => 5,
        Error::NetworkError => 6,
    };
    e_u32(out, tag);
}

/// Decode a domain error at `pos`.
fn d_err(data: &[u8], pos: usize) -> (r: Option<(Error, usize)>)
    ensures
        match r {
            Some((e, end)) => dec_err(data@, pos as int) == Some((e, end as int)),
            None => dec_err(data@, pos as int) is None,
        },
{
    let (tag, p) = match d_u32(data, pos) {
        None => {
            return None;
        },
        Some(x) => x,
    };
    if tag == 0 {
        Some((Error::NeedUnMaskPass, p))
    } else if tag == 1 {
        Some((Error::NodeExist, p))
    } else if tag == 2 {
        Some((Error::NodeNotExist, p))
    } else if tag == 3 {
        Some((Error::IdInvalid, p))
    } else if tag == 4 {
        Some((Error::PassNotMatch, p))
    } else if tag == 5 {
        Some((Error::DeleteLimitOverdue, p))
    } else if tag == 6 {
        Some((Error::NetworkError, p))
    } else {
        None
    }
}

// ---------------------------------------------------------------------
// List targets. Discriminants: 0 the root list, 1 one subtree.
// ---------------------------------------------------------------------
/// Encoding of a list target.
pub open spec fn enc_target(t: ListTargetV) -> Seq<u8> {
    match t {
        ListTargetV::Root => enc_u32(0),
        ListTargetV::Node(id) => enc_u32(1) + enc_bytes(id),
    }
}

/// A list target whose identifier fits its length field.
pub open spec fn target_encodable(t: ListTargetV) -> bool {
    match t {
        ListTargetV::Root => true,
        ListTargetV::Node(id) => bytes_encodable(id),
    }
}

/// Decode a list target.
pub open spec fn dec_target(data: Seq<u8>, pos: int) -> Option<(ListTargetV, int)> {
    match dec_u32(data, pos) {
        None => None,
        Some((tag, p)) => if tag == 0 {
            Some((ListTargetV::Root, p))
        } else if tag == 1 {
            match dec_bytes(data, p) {
                None => None,
                Some((id, end)) => Some((ListTargetV::Node(id), end)),
            }
        } else {
            None
        },
    }
}

/// Decoding inverts `enc_target` wherever its bytes sit.
pub proof fn lemma_dec_enc_target(data: Seq<u8>, pos: int, t: ListTargetV)
    requires
        target_encodable(t),
        0 <= pos,
        pos + enc_target(t).len() <= data.len(),
        data.subrange(pos, pos + enc_target(t).len()) == enc_target(t),
    ensures
        dec_target(data, pos) == Some((t, pos + enc_target(t).len())),
{
    lemma_auto_spec_u32_to_from_le_bytes();
    match t {
        ListTargetV::Root => {
            lemma_dec_enc_u32(data, pos, 0);
        },
        ListTargetV::Node(id) => {
            lemma_split_concat(data, pos, enc_u32(1), enc_bytes(id));
            lemma_dec_enc_u32(data, pos, 1);
            lemma_dec_enc_bytes(data, pos + 4, id);
        },
    }
}

/// Append the encoding of `t` to `out`.
fn e_target(out: &mut Vec<u8>, t: &ListTarget)
    ensures
        final(out)@ == old(out)@ + enc_target(t@),
{
    match t {
        ListTarget::Root => {
            e_u32(out, 0);
        },
        ListTarget::Node(id) => {
            e_u32(out, 1);
            e_bytes(out, id.as_slice());
            proof {
                assert(final(out)@ =~= old(out)@ + enc_target(t@));
            }
        },
    }
}

/// Decode a list target at `pos`.
fn d_target(data: &[u8], pos: usize) -> (r: Option<(ListTarget, usize)>)
    ensures
        match r {
            Some((t, end)) => dec_target(data@, pos as int) == Some((t@, end as int)),
            None => dec_target(data@, pos as int) is None,
        },
{
    let (tag, p) = match d_u32(data, pos) {
        None => {
            return None;
        },
        Some(x) => x,
    };
    if tag == 0 {
        Some((ListTarget::Root, p))
    } else if tag == 1 {
        match d_bytes(data, p) {
            None => None,
            Some((id, end)) => Some((ListTarget::Node(id), end)),
        }
    } else {
        None
    }
}

// ---------------------------------------------------------------------
// Actions. Discriminants: 0 delete, 1 list, 2 update, 3 post.
// ---------------------------------------------------------------------
/// Encoding of an action.
pub open spec fn enc_action(a: ActionV) -> Seq<u8> {
    match a {
        ActionV::Delete(n) => enc_u32(0) + enc_node(n),
        ActionV::List(t) => enc_u32(1) + enc_target(t),
        ActionV::Update(n) => enc_u32(2) + enc_node(n),
        ActionV::Post(n) => enc_u32(3) + enc_node(n),
    }
}

/// An action whose payload fits its length fields.
pub open spec fn action_encodable(a: ActionV) -> bool {
    match a {
        ActionV::Delete(n) => node_encodable(n),
        ActionV::List(t) => target_encodable(t),
        ActionV::Update(n) => node_encodable(n),
        ActionV::Post(n) => node_encodable(n),
    }
}

/// Decode an action.
pub open spec fn dec_action(data: Seq<u8>, pos: int) -> Option<(ActionV, int)> {
    match dec_u32(data, pos) {
        None => None,
        Some((tag, p)) => if tag == 0 {
            match dec_node(data, p) {
                None => None,
                Some((n, end)) => Some((ActionV::Delete(n), end)),
            }
        } else if tag == 1 {
            match dec_target(data, p) {
                None => None,
                Some((t, end)) => Some((ActionV::List(t), end)),
            }
        } else if tag == 2 {
            match dec_node(data, p) {
                None => None,
                Some((n, end)) => Some((ActionV::Update(n), end)),
            }
        } else if tag == 3 {
            match dec_node(data, p) {
                None => None,
                Some((n, end)) => Some((ActionV::Post(n), end)),
            }
        } else {
            None
        },
    }
}

/// Decoding inverts `enc_action` wherever its bytes sit.
pub proof fn lemma_dec_enc_action(data: Seq<u8>, pos: int, a: ActionV)
    requires
        action_encodable(a),
        0 <= pos,
        pos + enc_action(a).len() <= data.len(),
        data.subrange(pos, pos + enc_action(a).len()) == enc_action(a),
    ensures
        dec_action(data, pos) == Some((a, pos + enc_action(a).len())),
{
    lemma_auto_spec_u32_to_from_le_bytes();
    match a {
        ActionV::Delete(n) => {
            lemma_split_concat(data, pos, enc_u32(0), enc_node(n));
            lemma_dec_enc_u32(data, pos, 0);
            lemma_dec_enc_node(data, pos + 4, n);
        },
        ActionV::List(t) => {
            lemma_split_concat(data, pos, enc_u32(1), enc_target(t));
            lemma_dec_enc_u32(data, pos, 1);
            lemma_dec_enc_target(data, pos + 4, t);
        },
        ActionV::Update(n) => {
            lemma_split_concat(data, pos, enc_u32(2), enc_node(n));
            lemma_dec_enc_u32(data, pos, 2);
            lemma_dec_enc_node(data, pos + 4, n);
        },
        ActionV::Post(n) => {
            lemma_split_concat(data, pos, enc_u32(3), enc_node(n));
            lemma_dec_enc_u32(data, pos, 3);
            lemma_dec_enc_node(data, pos + 4, n);
        },
    }
}

/// Encode an action.
pub fn encode_action(a: &Action) -> (r: Vec<u8>)
    ensures
        r@ == enc_action(a@),
{
    let mut out: Vec<u8> = Vec::new();
    match a {
        Action::Delete(n) => {
            e_u32(&mut out, 0);
            let body = encode_node(n);
            out.extend_from_slice(body.as_slice());
        },
        Action::List(t) => {
            e_u32(&mut out, 1);
            e_target(&mut out, t);
        },
        Action::Update(n) => {
            e_u32(&mut out, 2);
            let body = encode_node(n);
            out.extend_from_slice(body.as_slice());
        },
        Action::Post(n) => {
            e_u32(&mut out, 3);
            let body = encode_node(n);
            out.extend_from_slice(body.as_slice());
        },
    }
    proof {
        assert(out@ =~= enc_action(a@));
    }
    out
}

/// Decode a whole buffer holding exactly one action.
pub fn decode_action(data: &[u8]) -> (r: Option<Action>)
    ensures
        match r {
            Some(a) => dec_action(data@, 0) == Some((a@, data@.len() as int)),
            None => match dec_action(data@, 0) {
                None => true,
                Some((_, end)) => end != data@.len(),
            },
        },
{
    let (tag, p) = match d_u32(data, 0) {
        None => {
            return None;
        },
        Some(x) => x,
    };
    let parsed: Option<(Action, usize)> = if tag == 0 {
        match d_node(data, p) {
            None => None,
            Some((n, end)) => Some((Action::Delete(n), end)),
        }
    } else if tag == 1 {
        match d_target(data, p) {
            None => None,
            Some((t, end)) => Some((Action::List(t), end)),
        }
    } else if tag == 2 {
        match d_node(data, p) {
            None => None,
            Some((n, end)) => Some((Action::Update(n), end)),
        }
    } else if tag == 3 {
        match d_node(data, p) {
            None => None,
            Some((n, end)) => Some((Action::Post(n), end)),
        }
    } else {
        None
    };
    match parsed {
        None => None,
        Some((a, end)) => if end == data.len() {
            Some(a)
        } else {
            None
        },
    }
}

// ---------------------------------------------------------------------
// Node sequences: used by the list response.
// ---------------------------------------------------------------------
/// Encoding of the elements of a node sequence, in order.
pub open spec fn enc_node_seq(l: Seq<NodeV>) -> Seq<u8>
    decreases l.len(),
{
    if l.len() == 0 {
        Seq::empty()
    } else {
        enc_node(l[0]) + enc_node_seq(l.drop_first())
    }
}

/// Encoding of a node list: a count, then the elements.
pub open spec fn enc_node_list(l: Seq<NodeV>) -> Seq<u8> {
    enc_u64(l.len() as u64) + enc_node_seq(l)
}

/// A node sequence whose count and elements fit their fields.
pub open spec fn nodes_encodable(l: Seq<NodeV>) -> bool {
    l.len() <= u64::MAX && forall|i: int| 0 <= i < l.len() ==> node_encodable(#[trigger] l[i])
}

/// Decode exactly `count` nodes.
pub open spec fn dec_node_seq(data: Seq<u8>, pos: int, count: int) -> Option<(Seq<NodeV>, int)>
    decreases count,
{
    if count <= 0 {
        Some((Seq::empty(), pos))
    } else {
        match dec_node(data, pos) {
            None => None,
            Some((n, p)) => match dec_node_seq(data, p, count - 1) {
                None => None,
                Some((l, end)) => Some((seq![n] + l, end)),
            },
        }
    }
}

/// Decode a node list.
pub open spec fn dec_node_list(data: Seq<u8>, pos: int) -> Option<(Seq<NodeV>, int)> {
    match dec_u64(data, pos) {
        None => None,
        Some((count, p)) => dec_node_seq(data, p, count as int),
    }
}

/// Decoding inverts `enc_node_seq` wherever its bytes sit.
pub proof fn lemma_dec_enc_node_seq(data: Seq<u8>, pos: int, l: Seq<NodeV>)
    requires
        nodes_encodable(l),
        0 <= pos,
        pos + enc_node_seq(l).len() <= data.len(),
        data.subrange(pos, pos + enc_node_seq(l).len()) == enc_node_seq(l),
    ensures
        dec_node_seq(data, pos, l.len() as int) == Some((l, pos + enc_node_seq(l).len())),
    decreases l.len(),
{
    if l.len() == 0 {
        assert(l =~= Seq::<NodeV>::empty());
    } else {
        lemma_split_concat(data, pos, enc_node(l[0]), enc_node_seq(l.drop_first()));
        lemma_dec_enc_node(data, pos, l[0]);
        assert(nodes_encodable(l.drop_first())) by {
            assert(forall|i: int|
                0 <= i < l.drop_first().len() ==> #[trigger] l.drop_first()[i] == l[i + 1]);
        }
        lemma_dec_enc_node_seq(data, pos + enc_node(l[0]).len(), l.drop_first());
        assert(seq![l[0]] + l.drop_first() =~= l);
    }
}

/// Decoding inverts `enc_node_list` wherever its bytes sit.
pub proof fn lemma_dec_enc_node_list(data: Seq<u8>, pos: int, l: Seq<NodeV>)
    requires
        nodes_encodable(l),
        0 <= pos,
        pos + enc_node_list(l).len() <= data.len(),
        data.subrange(pos, pos + enc_node_list(l).len()) == enc_node_list(l),
    ensures
        dec_node_list(data, pos) == Some((l, pos + enc_node_list(l).len())),
{
    lemma_auto_spec_u64_to_from_le_bytes();
    lemma_split_concat(data, pos, enc_u64(l.len() as u64), enc_node_seq(l));
    lemma_dec_enc_u64(data, pos, l.len() as u64);
    lemma_dec_enc_node_seq(data, pos + 8, l);
}

/// Taking one more element extends the element encoding by that
/// element's encoding.
proof fn lemma_enc_node_seq_snoc(l: Seq<NodeV>, i: int)
    requires
        0 <= i < l.len(),
    ensures
        enc_node_seq(l.take(i + 1)) == enc_node_seq(l.take(i)) + enc_node(l[i]),
    decreases i,
{
    if i == 0 {
        assert(l.take(1) =~= seq![l[0]]);
        assert(l.take(0) =~= Seq::<NodeV>::empty());
        assert(seq![l[0]].drop_first() =~= Seq::<NodeV>::empty());
        assert(enc_node_seq(l.take(1)) =~= enc_node_seq(l.take(0)) + enc_node(l[0]));
    } else {
        lemma_enc_node_seq_snoc(l.drop_first(), i - 1);
        assert(l.take(i + 1).drop_first() =~= l.drop_first().take(i));
        assert(l.take(i).drop_first() =~= l.drop_first().take(i - 1));
        assert(l.take(i + 1)[0] == l[0]);
        assert(l.take(i)[0] == l[0]);
        assert(l.drop_first()[i - 1] == l[i]);
        assert(enc_node_seq(l.take(i + 1)) =~= enc_node_seq(l.take(i)) + enc_node(l[i]));
    }
}

/// Encode the nodes of `list`, count first.
fn e_node_list(out: &mut Vec<u8>, list: &Vec<Node>)
    ensures
        final(out)@ == old(out)@ + enc_node_list(views_of(list@)),
{
    let ghost l = views_of(list@);
    e_u64(out, list.len() as u64);
    proof {
        assert(l.len() == list@.len());
    }
    let n = list.len();
    let mut i: usize = 0;
    while i < n
        invariant
            i <= n,
            n == list@.len(),
            l == views_of(list@),
            l.len() == n,
            out@ == old(out)@ + enc_u64(n as u64) + enc_node_seq(l.take(i as int)),
        decreases n - i,
    {
        proof {
            assert(l.take(i as int + 1) == l.take(i as int).push(l[i as int]));
            lemma_enc_node_seq_snoc(l, i as int);
        }
        let body = encode_node(&list[i]);
        out.extend_from_slice(body.as_slice());
        proof {
            assert(l[i as int] == list@[i as int]@);
            assert(out@ =~= old(out)@ + enc_u64(n as u64) + enc_node_seq(l.take(i as int + 1)));
        }
        i = i + 1;
    }
    proof {
        assert(l.take(n as int) =~= l);
        assert(final(out)@ =~= old(out)@ + enc_node_list(l));
    }
}

/// Decode exactly `count` nodes starting at `pos`.
fn d_node_vec(data: &[u8], pos: usize, count: u64) -> (r: Option<(Vec<Node>, usize)>)
    ensures
        match r {
            Some((v, end)) => dec_node_seq(data@, pos as int, count as int) == Some(
                (views_of(v@), end as int),
            ),
            None => dec_node_seq(data@, pos as int, count as int) is None,
        },
{
    let mut acc: Vec<Node> = Vec::new();
    let mut p = pos;
    let mut i: u64 = 0;
    proof {
        assert(views_of(acc@) =~= Seq::<NodeV>::empty());
    }
    while i < count
        invariant
            i <= count,
            dec_node_seq(data@, pos as int, count as int) == (match dec_node_seq(
                data@,
                p as int,
                count - i,
            ) {
                None => None::<(Seq<NodeV>, int)>,
                Some((l, e)) => Some((views_of(acc@) + l, e)),
            }),
        decreases count - i,
    {
        let (node, p2) = match d_node(data, p) {
            None => {
                return None;
            },
            Some(x) => x,
        };
        proof {
            let am = views_of(acc@);
            match dec_node_seq(data@, p2 as int, count - i - 1) {
                None => {},
                Some((l, e)) => {
                    assert((am + seq![node@]) + l =~= am + (seq![node@] + l));
                },
            }
            assert(views_of(acc@.push(node)) =~= am + seq![node@]);
        }
        acc.push(node);
        p = p2;
        i = i + 1;
    }
    proof {
        assert(views_of(acc@) + Seq::<NodeV>::empty() =~= views_of(acc@));
    }
    Some((acc, p))
}

// ---------------------------------------------------------------------
// Responses. Discriminants: 0 post, 1 update, 2 delete, 3 list, 4 error.
// ---------------------------------------------------------------------
/// Encoding of a response.
pub open spec fn enc_response(r: ResponseV) -> Seq<u8> {
    match r {
        ResponseV::Post(n) => enc_u32(0) + enc_node(n),
        ResponseV::Update(n) => enc_u32(1) + enc_node(n),
        ResponseV::Delete(n) => enc_u32(2) + enc_node(n),
        ResponseV::List(l) => enc_u32(3) + enc_node_list(l),
        ResponseV::Error(e) => enc_u32(4) + enc_err(e),
    }
}

/// A response whose payload fits its length fields.
pub open spec fn response_encodable(r: ResponseV) -> bool {
    match r {
        ResponseV::Post(n) => node_encodable(n),
        ResponseV::Update(n) => node_encodable(n),
        ResponseV::Delete(n) => node_encodable(n),
        ResponseV::List(l) => nodes_encodable(l),
        ResponseV::Error(_) => true,
    }
}

/// Decode a response.
pub open spec fn dec_response(data: Seq<u8>, pos: int) -> Option<(ResponseV, int)> {
    match dec_u32(data, pos) {
        None => None,
        Some((tag, p)) => if tag == 0 {
            match dec_node(data, p) {
                None => None,
                Some((n, end)) => Some((ResponseV::Post(n), end)),
            }
        } else if tag == 1 {
            match dec_node(data, p) {
                None => None,
                Some((n, end)) => Some((ResponseV::Update(n), end)),
            }
        } else if tag == 2 {
            match dec_node(data, p) {
                None => None,
                Some((n, end)) => Some((ResponseV::Delete(n), end)),
            }
        } else if tag == 3 {
            match dec_node_list(data, p) {
                None => None,
                Some((l, end)) => Some((ResponseV::List(l), end)),
            }
        } else if tag == 4 {
            match dec_err(data, p) {
                None => None,
                Some((e, end)) => Some((ResponseV::Error(e), end)),
            }
        } else {
            None
        },
    }
}

/// Decoding inverts `enc_response` wherever its bytes sit.
pub proof fn lemma_dec_enc_response(data: Seq<u8>, pos: int, r: ResponseV)
    requires
        response_encodable(r),
        0 <= pos,
        pos + enc_response(r).len() <= data.len(),
        data.subrange(pos, pos + enc_response(r).len()) == enc_response(r),
    ensures
        dec_response(data, pos) == Some((r, pos + enc_response(r).len())),
{
    lemma_auto_spec_u32_to_from_le_bytes();
    match r {
        ResponseV::Post(n) => {
            lemma_split_concat(data, pos, enc_u32(0), enc_node(n));
            lemma_dec_enc_u32(data, pos, 0);
            lemma_dec_enc_node(data, pos + 4, n);
        },
        ResponseV::Update(n) => {
            lemma_split_concat(data, pos, enc_u32(1), enc_node(n));
            lemma_dec_enc_u32(data, pos, 1);
            lemma_dec_enc_node(data, pos + 4, n);
        },
        ResponseV::Delete(n) => {
            lemma_split_concat(data, pos, enc_u32(2), enc_node(n));
            lemma_dec_enc_u32(data, pos, 2);
            lemma_dec_enc_node(data, pos + 4, n);
        },
        ResponseV::List(l) => {
            lemma_split_concat(data, pos, enc_u32(3), enc_node_list(l));
            lemma_dec_enc_u32(data, pos, 3);
            lemma_dec_enc_node_list(data, pos + 4, l);
        },
        ResponseV::Error(e) => {
            lemma_split_concat(data, pos, enc_u32(4), enc_err(e));
            lemma_dec_enc_u32(data, pos, 4);
            lemma_dec_enc_err(data, pos + 4, e);
        },
    }
}

/// Encode a response.
pub fn encode_response(r: &Response) -> (out: Vec<u8>)
    ensures
        out@ == enc_response(r@),
{
    let mut out: Vec<u8> = Vec::new();
    match r {
        Response::Post(n) => {
            e_u32(&mut out, 0);
            let body = encode_node(n);
            out.extend_from_slice(body.as_slice());
        },
        Response::Update(n) => {
            e_u32(&mut out, 1);
            let body = encode_node(n);
            out.extend_from_slice(body.as_slice());
        },
        Response::Delete(n) => {
            e_u32(&mut out, 2);
            let body = encode_node(n);
            out.extend_from_slice(body.as_slice());
        },
        Response::List(list) => {
            e_u32(&mut out, 3);
            e_node_list(&mut out, list);
        },
        Response::Error(e) => {
            e_u32(&mut out, 4);
            e_err(&mut out, e);
        },
    }
    proof {
        assert(out@ =~= enc_response(r@));
    }
    out
}

/// Decode a whole buffer holding exactly one response.
pub fn decode_response(data: &[u8]) -> (r: Option<Response>)
    ensures
        match r {
            Some(resp) => dec_response(data@, 0) == Some((resp@, data@.len() as int)),
            None => match dec_response(data@, 0) {
                None => true,
                Some((_, end)) => end != data@.len(),
            },
        },
{
    let (tag, p) = match d_u32(data, 0) {
        None => {
            return None;
        },
        Some(x) => x,
    };
    let parsed: Option<(Response, usize)> = if tag == 0 {
        match d_node(data, p) {
            None => None,
            Some((n, end)) => Some((Response::Post(n), end)),
        }
    } else if tag == 1 {
        match d_node(data, p) {
            None => None,
            Some((n, end)) => Some((Response::Update(n), end)),
        }
    } else if tag == 2 {
        match d_node(data, p) {
            None => None,
            Some((n, end)) => Some((Response::Delete(n), end)),
        }
    } else if tag == 3 {
        match d_u64(data, p) {
            None => None,
            Some((count, p2)) => match d_node_vec(data, p2, count) {
                None => None,
                Some((v, end)) => Some((Response::List(v), end)),
            },
        }
    } else if tag == 4 {
        match d_err(data, p) {
            None => None,
            Some((e, end)) => Some((Response::Error(e), end)),
        }
    } else {
        None
    };
    match parsed {
        None => None,
        Some((resp, end)) => if end == data.len() {
            Some(resp)
        } else {
            None
        },
    }
}

// ---------------------------------------------------------------------
// Round trips: decoding an encoded value yields the value back, having
// consumed every byte.
// ---------------------------------------------------------------------
/// Codec round trip for whole nodes.
pub proof fn lemma_node_round_trip(n: NodeV)
    requires
        node_encodable(n),
    ensures
        dec_node(enc_node(n), 0) == Some((n, enc_node(n).len() as int)),
{
    let data = enc_node(n);
    assert(data.subrange(0, data.len() as int) =~= data);
    lemma_dec_enc_node(data, 0, n);
}

/// Codec round trip for node bodies, under any identifier.
pub proof fn lemma_body_round_trip(n: NodeV)
    requires
        node_encodable(n),
    ensures
        dec_body(enc_body(n), 0, n.id) == Some((n, enc_body(n).len() as int)),
{
    let data = enc_body(n);
    assert(data.subrange(0, data.len() as int) =~= data);
    lemma_dec_enc_body(data, 0, n);
}

/// Codec round trip for actions.
pub proof fn lemma_action_round_trip(a: ActionV)
    requires
        action_encodable(a),
    ensures
        dec_action(enc_action(a), 0) == Some((a, enc_action(a).len() as int)),
{
    let data = enc_action(a);
    assert(data.subrange(0, data.len() as int) =~= data);
    lemma_dec_enc_action(data, 0, a);
}

/// Codec round trip for responses.
pub proof fn lemma_response_round_trip(r: ResponseV)
    requires
        response_encodable(r),
    ensures
        dec_response(enc_response(r), 0) == Some((r, enc_response(r).len() as int)),
{
    let data = enc_response(r);
    assert(data.subrange(0, data.len() as int) =~= data);
    lemma_dec_enc_response(data, 0, r);
}

/// Record that a node held in memory is encodable: every length read
/// from it fits the `u64` length fields of the encoding.
pub fn note_node_encodable(n: &Node)
    ensures
        node_encodable(n@),
{
    let id_len: usize = n.id.len();
    let title_bytes: &[u8] = n.title.as_str().as_bytes();
    let name_bytes: &[u8] = n.author.name.as_str().as_bytes();
    let pass_bytes: &[u8] = n.author.pass.get_pass().as_bytes();
    let content_bytes: &[u8] = n.content.as_str().as_bytes();
    let title_len: usize = title_bytes.len();
    let name_len: usize = name_bytes.len();
    let pass_len: usize = pass_bytes.len();
    let content_len: usize = content_bytes.len();
    proof {
        assert(n.id@.len() == id_len);
        assert(encode_utf8(n.title@).len() == title_len);
        assert(encode_utf8(n.author.name@).len() == name_len);
        assert(encode_utf8(n.author.pass@.text()).len() == pass_len);
        assert(encode_utf8(n.content@).len() == content_len);
    }
}

} // verus!
