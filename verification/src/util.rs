//! Small executable helpers shared by the codec and the identity module:
//! byte-slice and string equality, string assembly from UTF-8 bytes, and
//! lowercase hexadecimal rendering.

use vstd::prelude::*;
use vstd::slice::*;
use vstd::utf8::*;

verus! {

/// Whether two byte slices hold the same bytes.
pub fn bytes_eq(a: &[u8], b: &[u8]) -> (r: bool)
    ensures
        r == (a@ == b@),
{
    if a.len() != b.len() {
        assert(a@ != b@);
        return false;
    }
    let n = a.len();
    let mut i: usize = 0;
    while i < n
        invariant
            n == a@.len(),
            a@.len() == b@.len(),
            i <= n,
            forall|j: int| 0 <= j < i ==> a@[j] == b@[j],
        decreases n - i,
    {
        if *slice_index_get(a, i) != *slice_index_get(b, i) {
            return false;
        }
        i = i + 1;
    }
    proof {
        assert(a@ =~= b@);
    }
    true
}

/// Whether two string slices hold the same characters.
pub fn str_eq(a: &str, b: &str) -> (r: bool)
    ensures
        r == (a@ == b@),
{
    let r = bytes_eq(a.as_bytes(), b.as_bytes());
    proof {
        encode_utf8_decode_utf8(a@);
        encode_utf8_decode_utf8(b@);
    }
    r
}

/// Relies on `String::from_utf8`: it returns the string whose UTF-8
/// encoding is exactly the input, and fails exactly on input that is not
/// valid UTF-8.
#[verifier::external_body]
pub fn string_from_utf8(v: Vec<u8>) -> (r: Option<String>)
    ensures
        match r {
            Some(s) => encode_utf8(s@) == v@ && valid_utf8(v@),
            None => !valid_utf8(v@),
        },
{
    String::from_utf8(v).ok()
}

/// The character for one hexadecimal digit, lowercase.
pub open spec fn nibble_char(n: u8) -> char
    recommends
        n < 16,
{
    if n < 10 {
        ((48 + n) as char)  // '0' through '9'
    } else {
        ((87 + n) as char)  // 'a' through 'f'
    }
}

/// The nibble rendered at position `j` of the hexadecimal form of `bytes`:
/// high nibble first, then low nibble, for each byte in turn.
pub open spec fn spec_nibble_at(bytes: Seq<u8>, j: int) -> u8 {
    if j % 2 == 0 {
        bytes[j / 2] / 16
    } else {
        bytes[j / 2] % 16
    }
}

/// Lowercase hexadecimal rendering of a byte string: two digits per byte,
/// high nibble first.
pub open spec fn spec_hex(bytes: Seq<u8>) -> Seq<char> {
    Seq::new(2 * bytes.len(), |j: int| nibble_char(spec_nibble_at(bytes, j)))
}

/// Hexadecimal digits are ASCII.
pub proof fn lemma_hex_is_ascii(bytes: Seq<u8>)
    ensures
        is_ascii_chars(spec_hex(bytes)),
{
    assert forall|i| 0 <= i < spec_hex(bytes).len() implies '\0' <= #[trigger] spec_hex(
        bytes,
    )[i] <= '\u{7f}' by {
        let n = spec_nibble_at(bytes, i);
        assert(bytes[i / 2] / 16 < 16 && bytes[i / 2] % 16 < 16);
        assert(n < 16);
        if n < 10 {
            assert(nibble_char(n) == (48 + n) as char);
            assert('\0' <= ((48 + n) as char) <= '\u{7f}');
        } else {
            assert(nibble_char(n) == (87 + n) as char);
            assert('\0' <= ((87 + n) as char) <= '\u{7f}');
        }
    }
}

/// The first `digits` hexadecimal digits of `bytes`, lowercase.
///
/// `digits` may not exceed the full rendering, two digits per byte.
pub fn hex_prefix(bytes: &[u8], digits: usize) -> (r: String)
    requires
        digits <= 2 * bytes@.len(),
    ensures
        r@ == spec_hex(bytes@).take(digits as int),
        r@.len() == digits,
{
    let ghost target = spec_hex(bytes@).take(digits as int);
    let mut out: Vec<u8> = Vec::new();
    let mut j: usize = 0;
    while j < digits
        invariant
            j <= digits,
            digits <= 2 * bytes@.len(),
            target == spec_hex(bytes@).take(digits as int),
            out@.len() == j,
            forall|k: int| 0 <= k < j ==> out@[k] == target[k] as u8,
        decreases digits - j,
    {
        let byte = *slice_index_get(bytes, j / 2);
        let nib: u8 = if j % 2 == 0 {
            byte / 16
        } else {
            byte % 16
        };
        let ch: u8 = if nib < 10 {
            48 + nib
        } else {
            87 + nib
        };
        proof {
            assert(target[j as int] == nibble_char(spec_nibble_at(bytes@, j as int)));
            assert(spec_nibble_at(bytes@, j as int) == nib);
            assert(nibble_char(nib) as u8 == ch);
        }
        out.push(ch);
        j = j + 1;
    }
    proof {
        lemma_hex_is_ascii(bytes@);
        assert(is_ascii_chars(target));
        is_ascii_chars_encode_utf8(target);
        assert(encode_utf8(target) =~= out@);
        encode_utf8_valid_utf8(target);
    }
    let s = string_from_utf8(out);
    match s {
        Some(s) => {
            proof {
                encode_utf8_decode_utf8(target);
                decode_utf8_encode_utf8(encode_utf8(s@));
                encode_utf8_decode_utf8(s@);
            }
            s
        },
        None => {
            proof {
                assert(false);
            }
            String::new()
        },
    }
}

} // verus!
