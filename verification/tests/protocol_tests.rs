use ddhpsi::protocol::{ClientSession, ServerSession};
use ddhpsi::wire::{decode_points, encode_points};

#[test]
fn run_counts_common_inputs() {
    // Both parties generate inputs 0..n, so they share min(n_client, n_server).
    let mut client = ClientSession::start(12);
    let (mut server, server_masked) = ServerSession::start(20);
    assert_eq!(server_masked.len(), 20);

    let sent = decode_points(&encode_points(&server_masked)).unwrap();
    let (server_doubly, client_masked) = client.on_server_set(sent);
    assert_eq!(server_doubly.len(), 20);
    assert_eq!(client_masked.len(), 12);

    server.on_own_doubly_masked(decode_points(&encode_points(&server_doubly)).unwrap());
    let client_doubly = server.on_client_set(decode_points(&encode_points(&client_masked)).unwrap());
    assert_eq!(client_doubly.len(), 12);

    let client_count = client.finish(decode_points(&encode_points(&client_doubly)).unwrap());
    let server_count = server.finish();
    assert_eq!(client_count, 12);
    assert_eq!(server_count, 12);
}

#[test]
fn run_with_an_empty_set() {
    let mut client = ClientSession::start(0);
    let (mut server, server_masked) = ServerSession::start(5);
    let (server_doubly, client_masked) = client.on_server_set(server_masked);
    assert!(client_masked.is_empty());
    server.on_own_doubly_masked(server_doubly);
    let client_doubly = server.on_client_set(client_masked);
    assert_eq!(client.finish(client_doubly), 0);
    assert_eq!(server.finish(), 0);
}

#[test]
fn masked_sets_hide_the_inputs() {
    let mut client = ClientSession::start(4);
    let (_server, server_masked) = ServerSession::start(4);
    let inputs = ddhpsi::points::generate_points(4);
    let (_, client_masked) = client.on_server_set(server_masked.clone());
    for m in client_masked.iter().chain(server_masked.iter()) {
        for p in &inputs {
            assert_ne!(m.to_bytes(), p.to_bytes());
        }
    }
}

#[test]
fn each_session_draws_its_own_secret() {
    let (_s1, m1) = ServerSession::start(3);
    let (_s2, m2) = ServerSession::start(3);
    let mut b1: Vec<[u8; 32]> = m1.iter().map(|p| p.to_bytes()).collect();
    let mut b2: Vec<[u8; 32]> = m2.iter().map(|p| p.to_bytes()).collect();
    b1.sort();
    b2.sort();
    assert_ne!(b1, b2);
}

#[test]
fn doubly_masked_sets_match_across_parties() {
    // Masking the server's set with the client's secret, and the client's set
    // with the server's secret, yields equal elements for equal inputs.
    let mut client = ClientSession::start(6);
    let (mut server, server_masked) = ServerSession::start(6);
    let (server_doubly, client_masked) = client.on_server_set(server_masked);
    server.on_own_doubly_masked(server_doubly.clone());
    let client_doubly = server.on_client_set(client_masked);
    let mut a: Vec<[u8; 32]> = server_doubly.iter().map(|p| p.to_bytes()).collect();
    let mut b: Vec<[u8; 32]> = client_doubly.iter().map(|p| p.to_bytes()).collect();
    a.sort();
    b.sort();
    assert_eq!(a, b);
    assert_eq!(server.finish(), 6);
}
