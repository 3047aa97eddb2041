use oracle_decompile::assembler::Output;
use oracle_decompile::client::ClientAction;
use oracle_decompile::pipeline::{request_for, Pipeline};
use sha2::{Digest, Sha256};

const NODE: &[u8] = b"-- Bytecode (Base64):\n-- QUJD\n\n";

fn fingerprint(s: &str) -> String {
    format!("{:x}", Sha256::digest(s.as_bytes()))
}

fn drain(p: &mut Pipeline<&'static str>) -> Vec<Output<&'static str>> {
    let mut out = Vec::new();
    while let Some(o) = p.next_output() {
        out.push(o);
    }
    out
}

fn text(o: &Output<&'static str>) -> String {
    match o {
        Output::Text(b) => String::from_utf8(b.clone()).unwrap(),
        Output::Pass(s) => s.to_string(),
    }
}

#[test]
fn single_node_is_rewritten_with_decompiled_source() {
    let mut p: Pipeline<&'static str> = Pipeline::new();
    let actions = p.node(NODE, "node");
    assert_eq!(actions.len(), 1);
    match &actions[0] {
        ClientAction::Submit { bytecode, hash } => {
            assert_eq!(bytecode, b"QUJD");
            assert_eq!(hash, &fingerprint("QUJD"));
        }
        _ => panic!("expected a submission"),
    }
    assert!(p.next_output().is_none());
    let more = p.response(true, "print(1)".to_string(), &fingerprint("QUJD"));
    assert!(more.is_empty());
    let out = drain(&mut p);
    assert_eq!(out.len(), 1);
    assert_eq!(
        text(&out[0]),
        "-- Bytecode (Base64):\n-- QUJD\n\n-- decompilation:\nprint(1)\n"
    );
    assert!(p.is_finished());
    assert_eq!(p.resolved(), 1);
}

#[test]
fn two_nodes_sharing_payload_get_one_submission() {
    let mut p: Pipeline<&'static str> = Pipeline::new();
    let a = p.node(NODE, "first");
    let b = p.node(NODE, "second");
    assert_eq!(a.len(), 1);
    assert!(b.is_empty());
    p.response(true, "print(1)".to_string(), &fingerprint("QUJD"));
    let out = drain(&mut p);
    assert_eq!(out.len(), 2);
    assert_eq!(text(&out[0]), text(&out[1]));
    assert!(text(&out[0]).ends_with("-- decompilation:\nprint(1)\n"));
}

#[test]
fn failure_is_written_with_failure_marker() {
    let mut p: Pipeline<&'static str> = Pipeline::new();
    p.node(NODE, "n");
    p.response(false, "unsupported".to_string(), &fingerprint("QUJD"));
    let out = drain(&mut p);
    assert_eq!(
        text(&out[0]),
        "-- Bytecode (Base64):\n-- QUJD\n\n-- decompilation failed:\n-- unsupported\n"
    );
}

#[test]
fn output_keeps_document_order_when_completions_reverse() {
    let mut p: Pipeline<&'static str> = Pipeline::new();
    p.pass("<a>");
    p.node(b"-- Bytecode (Base64):\n-- AAAA\n", "n0");
    p.pass("<b>");
    p.node(b"-- Bytecode (Base64):\n-- BBBB\n", "n1");
    p.pass("</a>");

    p.response(true, "second".to_string(), &fingerprint("BBBB"));
    let early = drain(&mut p);
    assert_eq!(early.len(), 1);
    assert_eq!(text(&early[0]), "<a>");

    p.response(true, "first".to_string(), &fingerprint("AAAA"));
    let rest = drain(&mut p);
    let texts: Vec<String> = rest.iter().map(text).collect();
    assert_eq!(texts.len(), 4);
    assert!(texts[0].contains("AAAA") && texts[0].ends_with("first\n"));
    assert_eq!(texts[1], "<b>");
    assert!(texts[2].contains("BBBB") && texts[2].ends_with("second\n"));
    assert_eq!(texts[3], "</a>");
}

#[test]
fn every_payload_node_gets_one_resolution() {
    let mut p: Pipeline<&'static str> = Pipeline::new();
    let payloads = ["AAAA", "BBBB", "AAAA", "CCCC"];
    p.pass("<root>");
    for (k, b) in payloads.iter().enumerate() {
        let node = format!("-- Bytecode (Base64):\n-- {}\n\nold source", b);
        p.node(node.as_bytes(), "cdata");
        if k == 1 {
            p.node(b"plain text, no marker", "plain");
        }
    }
    p.pass("</root>");
    assert_eq!(p.discovered(), 4);
    for b in ["CCCC", "AAAA", "BBBB"] {
        p.response(true, format!("src {}", b), &fingerprint(b));
    }
    let out = drain(&mut p);
    assert_eq!(out.len(), 7);
    let resolutions = out.iter().filter(|o| matches!(o, Output::Text(_))).count();
    assert_eq!(resolutions, 4);
    assert_eq!(text(&out[0]), "<root>");
    assert_eq!(text(&out[3]), "plain");
    assert_eq!(text(&out[6]), "</root>");
    assert!(p.is_finished());
}

#[test]
fn rejected_node_is_written_with_its_error() {
    let mut p: Pipeline<&'static str> = Pipeline::new();
    let big = format!("-- Bytecode (Base64):\n-- {}", "A".repeat(9 * 1024 * 1024));
    let actions = p.node(big.as_bytes(), "big");
    assert_eq!(actions.len(), 1);
    let id = match &actions[0] {
        ClientAction::RejectTooLarge { id, size } => {
            assert_eq!(*size, 9 * 1024 * 1024);
            *id
        }
        _ => panic!("expected a rejection"),
    };
    assert_eq!(p.in_flight_bytes(), 0);
    assert!(p.resolve(id, Err("too large".to_string())));
    let out = drain(&mut p);
    assert_eq!(out.len(), 1);
    assert!(text(&out[0]).ends_with("-- decompilation failed:\n-- too large\n"));
}

#[test]
fn request_carries_fingerprint_and_size() {
    let r = request_for(b"QUJD", 9);
    assert_eq!(r.id, 9);
    assert_eq!(r.bytecode, b"QUJD".to_vec());
    assert_eq!(r.bytecode_len, 4);
    assert_eq!(
        r.bytecode_hash,
        "d9cae0dbdbf078b2020e2abe5fcd74bc1edba83c35f6b8a86d638ed9b8d3d1f9"
    );
    assert_ne!(r.bytecode_hash, "QUJD");
    assert_eq!(r.bytecode_hash.len(), 64);
}
