use vstd::prelude::*;
use base64::Engine;

use crate::bytes::occurs_at;
use crate::payload::{marker, marker_crlf, split_payload_any_newline, splits_at_marker};

verus! {

/// The first four bytes of `d` are `a`, `b`, `c`, `e`.
pub open spec fn starts_with4(d: Seq<u8>, a: u8, b: u8, c: u8, e: u8) -> bool {
    d.len() >= 4 && d[0] == a && d[1] == b && d[2] == c && d[3] == e
}

/// Raw compiled bytecode: at least five bytes, opening with the signature of a
/// standard chunk (`\x1bLua`), of a JIT chunk of version 1 or 2 (`\x1bLJ\x01`,
/// `\x1bLJ\x02`), or with a version byte from 3 to 6.
pub open spec fn is_bytecode_spec(d: Seq<u8>) -> bool {
    &&& d.len() >= 5
    &&& {
        ||| starts_with4(d, 0x1b, 76, 117, 97)
        ||| starts_with4(d, 0x1b, 76, 74, 1)
        ||| starts_with4(d, 0x1b, 76, 74, 2)
        ||| 3 <= d[0] <= 6
    }
}

/// Whether `data` is raw compiled bytecode.
pub fn is_bytecode(data: &[u8]) -> (r: bool)
    ensures
        r == is_bytecode_spec(data@),
{
    if data.len() < 5 {
        return false;
    }
    let (a, b, c, e) = (data[0], data[1], data[2], data[3]);
    (a == 0x1b && b == 76 && c == 117 && e == 97) || (a == 0x1b && b == 76 && c == 74 && e == 1) || (
    a == 0x1b && b == 76 && c == 74 && e == 2) || (3 <= a && a <= 6)
}

pub uninterp spec fn base64_encoding(b: Seq<u8>) -> Seq<u8>;

pub uninterp spec fn base64_decoding(b: Seq<u8>) -> Option<Seq<u8>>;

pub uninterp spec fn utf8_lossy(b: Seq<u8>) -> Seq<u8>;

/// Relies on base64's `STANDARD.encode`: padded standard-alphabet base64 of the
/// bytes, a function of them alone. It panics only when the encoded length
/// overflows `usize`.
#[verifier::external_body]
fn encode_base64(b: &[u8]) -> (r: Vec<u8>)
    requires
        b@.len() <= usize::MAX / 2,
    ensures
        r@ == base64_encoding(b@),
{
    base64::engine::general_purpose::STANDARD.encode(b).into_bytes()
}

/// Relies on base64's `STANDARD.decode`: the decoded bytes, or an error for input
/// that is not padded standard-alphabet base64; a function of the input alone.
#[verifier::external_body]
fn decode_base64(b: &[u8]) -> (r: Option<Vec<u8>>)
    ensures
        match r {
            Some(d) => base64_decoding(b@) == Some(d@),
            None => base64_decoding(b@) is None,
        },
{
    base64::engine::general_purpose::STANDARD.decode(b).ok()
}

/// Relies on `String::from_utf8_lossy`: the bytes with each invalid UTF-8 sequence
/// replaced by U+FFFD, a function of the bytes alone.
#[verifier::external_body]
fn lossy_utf8(b: &[u8]) -> (r: Vec<u8>)
    ensures
        r@ == utf8_lossy(b@),
{
    String::from_utf8_lossy(b).into_owned().into_bytes()
}

/// The contents are base64 text of raw bytecode.
pub open spec fn decodes_to_bytecode(c: Seq<u8>) -> bool {
    match base64_decoding(c) {
        Some(d) => is_bytecode_spec(d),
        None => false,
    }
}

/// An extraction result that holds exactly `b` and no header.
pub open spec fn plain_result(r: Option<(Vec<u8>, Option<Vec<u8>>)>, b: Seq<u8>) -> bool {
    match r {
        Some((x, None)) => x@ == b,
        _ => false,
    }
}

/// The header marker in `t` with LF or CRLF: the split that the extraction makes.
pub open spec fn header_split(t: Seq<u8>, header: Seq<u8>, bytecode: Seq<u8>) -> bool {
    ||| splits_at_marker(t, marker(), set![10u8, 13u8], header, bytecode)
    ||| ((forall|j: int| !occurs_at(t, marker(), j)) && splits_at_marker(
        t,
        marker_crlf(),
        set![10u8, 13u8],
        header,
        bytecode,
    ))
}

/// Finds the bytecode in the contents of a file. Raw bytecode comes back base64
/// encoded; base64 text of bytecode comes back as it is (as UTF-8, lossily); else
/// the encoded payload after a `-- Bytecode (Base64):` marker (LF or CRLF) comes
/// back with the header up to it. `None` when none of the three is found.
pub fn extract_bytecode(contents: &[u8]) -> (r: Option<(Vec<u8>, Option<Vec<u8>>)>)
    requires
        contents@.len() <= usize::MAX / 2,
    ensures
        is_bytecode_spec(contents@) ==> plain_result(r, base64_encoding(contents@)),
        !is_bytecode_spec(contents@) && decodes_to_bytecode(contents@) ==> plain_result(
            r,
            utf8_lossy(contents@),
        ),
        !is_bytecode_spec(contents@) && !decodes_to_bytecode(contents@) ==> match r {
            Some((b, Some(h))) => header_split(utf8_lossy(contents@), h@, b@),
            Some((_, None)) => false,
            None => (forall|j: int| !occurs_at(utf8_lossy(contents@), marker(), j)) && (forall|j: int|
                !occurs_at(utf8_lossy(contents@), marker_crlf(), j)),
        },
{
    if is_bytecode(contents) {
        return Some((encode_base64(contents), None));
    }
    if let Some(decoded) = decode_base64(contents) {
        if is_bytecode(decoded.as_slice()) {
            return Some((lossy_utf8(contents), None));
        }
    }
    let text = lossy_utf8(contents);
    match split_payload_any_newline(text.as_slice()) {
        Some(n) => Some((n.bytecode, Some(n.header))),
        None => None,
    }
}

} // verus!
