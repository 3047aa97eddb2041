use vstd::prelude::*;
use vstd::utf8::encode_utf8;

use crate::bytes::{copy_range, find_byte_from, find_bytes, occurs_at, push_all};

verus! {

/// The marker line announcing encoded bytecode, with the comment lead of the next line:
/// `-- Bytecode (Base64):\n-- `.
pub open spec fn marker() -> Seq<u8> {
    seq![45u8, 45, 32, 66, 121, 116, 101, 99, 111, 100, 101, 32, 40, 66, 97, 115, 101, 54, 52, 41, 58, 10, 45, 45, 32]
}

/// The same marker with a carriage return before the line feed.
pub open spec fn marker_crlf() -> Seq<u8> {
    seq![45u8, 45, 32, 66, 121, 116, 101, 99, 111, 100, 101, 32, 40, 66, 97, 115, 101, 54, 52, 41, 58, 13, 10, 45, 45, 32]
}

/// `-- decompilation:\n`, written before decompiled source.
pub open spec fn success_marker() -> Seq<u8> {
    seq![45u8, 45, 32, 100, 101, 99, 111, 109, 112, 105, 108, 97, 116, 105, 111, 110, 58, 10]
}

/// `-- decompilation failed:\n-- `, written before the text of a failure.
pub open spec fn failure_marker() -> Seq<u8> {
    seq![45u8, 45, 32, 100, 101, 99, 111, 109, 112, 105, 108, 97, 116, 105, 111, 110, 32, 102, 97, 105, 108, 101, 100, 58, 10, 45, 45, 32]
}

pub fn marker_bytes() -> (r: Vec<u8>)
    ensures
        r@ == marker(),
{
    let r: Vec<u8> = vec![45, 45, 32, 66, 121, 116, 101, 99, 111, 100, 101, 32, 40, 66, 97, 115, 101, 54, 52, 41, 58, 10, 45, 45, 32];
    assert(r@ =~= marker());
    r
}

pub fn marker_crlf_bytes() -> (r: Vec<u8>)
    ensures
        r@ == marker_crlf(),
{
    let r: Vec<u8> = vec![45, 45, 32, 66, 121, 116, 101, 99, 111, 100, 101, 32, 40, 66, 97, 115, 101, 54, 52, 41, 58, 13, 10, 45, 45, 32];
    assert(r@ =~= marker_crlf());
    r
}

fn success_marker_bytes() -> (r: Vec<u8>)
    ensures
        r@ == success_marker(),
{
    let r: Vec<u8> = vec![45, 45, 32, 100, 101, 99, 111, 109, 112, 105, 108, 97, 116, 105, 111, 110, 58, 10];
    assert(r@ =~= success_marker());
    r
}

fn failure_marker_bytes() -> (r: Vec<u8>)
    ensures
        r@ == failure_marker(),
{
    let r: Vec<u8> = vec![45, 45, 32, 100, 101, 99, 111, 109, 112, 105, 108, 97, 116, 105, 111, 110, 32, 102, 97, 105, 108, 101, 100, 58, 10, 45, 45, 32];
    assert(r@ =~= failure_marker());
    r
}

/// A recognized payload node: the text up to and including the marker, and the
/// encoded bytecode that follows it up to the end of its line.
pub struct PayloadNode {
    pub header: Vec<u8>,
    pub bytecode: Vec<u8>,
}

/// `text` splits at the first occurrence `p` of `m` into `header` (everything up to
/// the end of the marker) and `bytecode` (from there up to the first byte in `ends`,
/// or the end of the text).
pub open spec fn splits_at_marker(
    text: Seq<u8>,
    m: Seq<u8>,
    ends: Set<u8>,
    header: Seq<u8>,
    bytecode: Seq<u8>,
) -> bool {
    let p = header.len() - m.len();
    let e = header.len() + bytecode.len() as int;
    &&& occurs_at(text, m, p)
    &&& forall|j: int| 0 <= j < p ==> !occurs_at(text, m, j)
    &&& e <= text.len()
    &&& header == text.subrange(0, header.len() as int)
    &&& bytecode == text.subrange(header.len() as int, e)
    &&& forall|k: int| 0 <= k < bytecode.len() ==> !ends.contains(#[trigger] bytecode[k])
    &&& (e == text.len() || ends.contains(text[e]))
}

/// The line feed, the one byte that ends an encoded payload inside a document node.
pub open spec fn lf_only() -> Set<u8> {
    set![10u8]
}

/// Splits at the first `m`, ending the payload at a byte among `ends`.
fn split_with(text: &[u8], m: &[u8], cr_too: bool) -> (r: Option<PayloadNode>)
    ensures
        match r {
            None => forall|j: int| !occurs_at(text@, m@, j),
            Some(n) => splits_at_marker(
                text@,
                m@,
                if cr_too { set![10u8, 13u8] } else { lf_only() },
                n.header@,
                n.bytecode@,
            ),
        },
{
    match find_bytes(text, m) {
        None => None,
        Some(p) => {
            let n: usize = text.len();
            assert(p + m@.len() <= n);
            let start: usize = p + m.len();
            let lf: usize = find_byte_from(text, start, 10);
            let end: usize = if cr_too {
                let cr: usize = find_byte_from(text, start, 13);
                if cr < lf { cr } else { lf }
            } else {
                lf
            };
            let header = copy_range(text, 0, start);
            let bytecode = copy_range(text, start, end);
            let ghost ends = if cr_too { set![10u8, 13u8] } else { lf_only() };
            assert forall|k: int| 0 <= k < bytecode@.len() implies !ends.contains(
                #[trigger] bytecode@[k],
            ) by {
                assert(bytecode@[k] == text@[start + k]);
            }
            Some(PayloadNode { header, bytecode })
        },
    }
}

/// Parses the text of a document node for the payload convention: the first
/// `-- Bytecode (Base64):\n-- ` marker, followed by encoded bytecode up to the next
/// line feed. `None` when the marker is absent.
pub fn split_payload(text: &[u8]) -> (r: Option<PayloadNode>)
    ensures
        match r {
            None => forall|j: int| !occurs_at(text@, marker(), j),
            Some(n) => splits_at_marker(text@, marker(), lf_only(), n.header@, n.bytecode@),
        },
{
    let m = marker_bytes();
    split_with(text, m.as_slice(), false)
}

/// Splits a text at the first LF marker, else at the first CRLF marker; the payload
/// then ends at a line feed or a carriage return.
pub fn split_payload_any_newline(text: &[u8]) -> (r: Option<PayloadNode>)
    ensures
        match r {
            None => (forall|j: int| !occurs_at(text@, marker(), j)) && (forall|j: int|
                !occurs_at(text@, marker_crlf(), j)),
            Some(n) => splits_at_marker(
                text@,
                marker(),
                set![10u8, 13u8],
                n.header@,
                n.bytecode@,
            ) || ((forall|j: int| !occurs_at(text@, marker(), j)) && splits_at_marker(
                text@,
                marker_crlf(),
                set![10u8, 13u8],
                n.header@,
                n.bytecode@,
            )),
        },
{
    let m = marker_bytes();
    match split_with(text, m.as_slice(), true) {
        Some(n) => Some(n),
        None => {
            let m2 = marker_crlf_bytes();
            split_with(text, m2.as_slice(), true)
        },
    }
}

/// The bytes written for a resolved payload node: header, the original encoded
/// payload, a blank line, then the decompiled source after the success marker or the
/// failure text after the failure marker, and a final line feed.
pub open spec fn rendered(header: Seq<u8>, bytecode: Seq<u8>, outcome: Result<String, String>) -> Seq<u8> {
    header + bytecode + seq![10u8, 10u8] + match outcome {
        Ok(t) => success_marker() + encode_utf8(t@),
        Err(t) => failure_marker() + encode_utf8(t@),
    } + seq![10u8]
}

/// Renders a payload node with the outcome of its decompilation.
pub fn render_resolution(header: &[u8], bytecode: &[u8], outcome: &Result<String, String>) -> (r: Vec<u8>)
    ensures
        r@ == rendered(header@, bytecode@, *outcome),
{
    let mut out: Vec<u8> = Vec::new();
    push_all(&mut out, header);
    push_all(&mut out, bytecode);
    out.push(10);
    out.push(10);
    let ghost before = out@;
    match outcome {
        Ok(t) => {
            let m = success_marker_bytes();
            push_all(&mut out, m.as_slice());
            push_all(&mut out, t.as_str().as_bytes());
        },
        Err(t) => {
            let m = failure_marker_bytes();
            push_all(&mut out, m.as_slice());
            push_all(&mut out, t.as_str().as_bytes());
        },
    }
    out.push(10);
    assert(out@ =~= rendered(header@, bytecode@, *outcome));
    out
}

} // verus!
