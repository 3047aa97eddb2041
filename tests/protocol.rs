use oracle_decompile::client::{ClientAction, DecompilationRequest, ProtocolClient, MAX_BYTES_IN_FLIGHT};

const MIB: u32 = 1024 * 1024;

fn request(id: u64, hash: &str, len: u32) -> DecompilationRequest {
    DecompilationRequest {
        id,
        bytecode: vec![b'A'; len as usize],
        bytecode_hash: hash.to_string(),
        bytecode_len: len,
    }
}

fn submits(actions: &[ClientAction]) -> usize {
    actions.iter().filter(|a| matches!(a, ClientAction::Submit { .. })).count()
}

#[test]
fn shared_fingerprint_is_submitted_once() {
    let mut client = ProtocolClient::new();
    let first = client.submit(request(0, "h", 4));
    let second = client.submit(request(1, "h", 4));
    assert_eq!(submits(&first), 1);
    assert!(second.is_empty());
    assert_eq!(client.open_groups(), 1);
    assert_eq!(client.in_flight_bytes(), 4);

    let done = client.on_response(true, "print(1)".to_string(), &"h".to_string());
    assert_eq!(done.len(), 2);
    for (k, a) in done.iter().enumerate() {
        match a {
            ClientAction::Resolve { id, outcome } => {
                assert_eq!(*id, k as u64);
                assert_eq!(outcome, &Ok("print(1)".to_string()));
            }
            _ => panic!("expected a fulfilment"),
        }
    }
    assert!(client.is_idle());
    assert_eq!(client.in_flight_bytes(), 0);
}

#[test]
fn failure_reaches_every_member() {
    let mut client = ProtocolClient::new();
    client.submit(request(5, "x", 10));
    client.submit(request(6, "x", 10));
    client.submit(request(7, "x", 10));
    let done = client.on_response(false, "bad chunk".to_string(), &"x".to_string());
    assert_eq!(done.len(), 3);
    for a in &done {
        match a {
            ClientAction::Resolve { outcome, .. } => assert_eq!(outcome, &Err("bad chunk".to_string())),
            _ => panic!("expected a fulfilment"),
        }
    }
}

#[test]
fn oversized_request_is_rejected_locally() {
    let mut client = ProtocolClient::new();
    let actions = client.submit(request(3, "big", 9 * MIB));
    assert_eq!(actions.len(), 1);
    match &actions[0] {
        ClientAction::RejectTooLarge { id, size } => {
            assert_eq!(*id, 3);
            assert_eq!(*size, 9 * MIB);
        }
        _ => panic!("expected a rejection"),
    }
    assert_eq!(submits(&actions), 0);
    assert_eq!(client.open_groups(), 0);
    assert_eq!(client.deferred(), 0);
    assert_eq!(client.in_flight_bytes(), 0);
    assert!(client.is_idle());
}

#[test]
fn request_at_the_cap_is_sent() {
    let mut client = ProtocolClient::new();
    let actions = client.submit(request(0, "full", MAX_BYTES_IN_FLIGHT));
    assert_eq!(submits(&actions), 1);
    assert_eq!(client.in_flight_bytes(), 8 * MIB);
}

#[test]
fn deferred_request_is_sent_when_budget_frees() {
    let mut client = ProtocolClient::new();
    let first = client.submit(request(0, "seven", 7 * MIB));
    assert_eq!(submits(&first), 1);
    assert_eq!(client.in_flight_bytes(), 7 * MIB);

    let second = client.submit(request(1, "two", 2 * MIB));
    assert!(second.is_empty());
    assert_eq!(client.deferred(), 1);
    assert_eq!(client.in_flight_bytes(), 7 * MIB);

    let done = client.on_response(true, "ok".to_string(), &"seven".to_string());
    assert_eq!(done.len(), 2);
    assert!(matches!(&done[0], ClientAction::Resolve { id: 0, .. }));
    match &done[1] {
        ClientAction::Submit { bytecode, hash } => {
            assert_eq!(bytecode.len(), 2 * MIB as usize);
            assert_eq!(hash, "two");
        }
        _ => panic!("expected the deferred submission"),
    }
    assert_eq!(client.deferred(), 0);
    assert_eq!(client.in_flight_bytes(), 2 * MIB);
}

#[test]
fn budget_never_exceeds_cap() {
    let mut client = ProtocolClient::new();
    let sizes = [3 * MIB, 3 * MIB, 3 * MIB, MIB, 5 * MIB, 2 * MIB];
    for (k, s) in sizes.iter().enumerate() {
        client.submit(request(k as u64, &format!("h{}", k), *s));
        assert!(client.in_flight_bytes() <= MAX_BYTES_IN_FLIGHT);
    }
    assert_eq!(client.in_flight_bytes(), 7 * MIB);
    assert_eq!(client.deferred(), 3);
    for k in 0..sizes.len() {
        client.on_response(true, String::new(), &format!("h{}", k));
        assert!(client.in_flight_bytes() <= MAX_BYTES_IN_FLIGHT);
    }
    let mut rounds = 0;
    while !client.is_idle() && rounds < 10 {
        for k in 0..sizes.len() {
            client.on_response(true, String::new(), &format!("h{}", k));
            assert!(client.in_flight_bytes() <= MAX_BYTES_IN_FLIGHT);
        }
        rounds += 1;
    }
    assert!(client.is_idle());
}

#[test]
fn deferred_queue_drains_first_in_first_out() {
    let mut client = ProtocolClient::new();
    client.submit(request(0, "a", 8 * MIB));
    client.submit(request(1, "b", 4 * MIB));
    client.submit(request(2, "c", 4 * MIB));
    client.submit(request(3, "d", 4 * MIB));
    let done = client.on_response(true, String::new(), &"a".to_string());
    let sent: Vec<String> = done
        .iter()
        .filter_map(|a| match a {
            ClientAction::Submit { hash, .. } => Some(hash.clone()),
            _ => None,
        })
        .collect();
    assert_eq!(sent, vec!["b".to_string(), "c".to_string()]);
    assert_eq!(client.deferred(), 1);
}

#[test]
fn deferred_request_joins_open_group_when_drained() {
    let mut client = ProtocolClient::new();
    client.submit(request(0, "a", 7 * MIB));
    client.submit(request(1, "b", 2 * MIB));
    client.submit(request(2, "b", 2 * MIB));
    assert_eq!(client.deferred(), 2);
    let done = client.on_response(true, String::new(), &"a".to_string());
    assert_eq!(submits(&done), 1);
    assert_eq!(client.open_groups(), 1);
    let finished = client.on_response(true, "same".to_string(), &"b".to_string());
    assert_eq!(finished.len(), 2);
}

#[test]
fn unknown_fingerprint_is_ignored() {
    let mut client = ProtocolClient::new();
    client.submit(request(0, "a", 1));
    let actions = client.on_response(true, String::new(), &"zzz".to_string());
    assert!(actions.is_empty());
    assert_eq!(client.open_groups(), 1);
}
