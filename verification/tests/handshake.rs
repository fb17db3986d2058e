use rdp::rdp_conn::{ConnState, Connection};
use rdp::rdp_error::RdpError;
use rdp::rdp_option::RdpOption;
use rdp::rdp_listener::Registry;

#[test]
fn test_handshake_establishes_both_sides() {
    let opt = RdpOption::default();
    let client_isn: u32 = 1000;
    let server_isn: u32 = 5000;
    let addr: u64 = 42;

    let (mut client, syn) = Connection::client_start(client_isn, opt);
    assert_eq!(client.state, ConnState::SynSent);

    let mut registry = Registry::new(opt);
    let (none, mut replies) = registry.handle_packet(addr, &syn, server_isn);
    assert!(none.is_none());
    assert_eq!(replies.len(), 1);
    let syn_ack = replies.remove(0);
    assert_eq!(syn_ack.header.seq_num, server_isn);
    assert_eq!(syn_ack.header.ack_num, client_isn.wrapping_add(1));

    let ack = client.client_on_synack(&syn_ack).unwrap();
    assert_eq!(client.state, ConnState::Established);
    assert_eq!(client.send_next, client_isn.wrapping_add(1));
    assert_eq!(client.recv_next, server_isn.wrapping_add(1));
    assert_eq!(ack.header.ack_num, server_isn.wrapping_add(1));

    let (promoted, rest) = registry.handle_packet(addr, &ack, 0);
    assert!(rest.is_empty());
    let server = promoted.expect("the final ACK should establish the connection");
    assert_eq!(server.state, ConnState::Established);
    assert_eq!(server.send_next, server_isn.wrapping_add(1));
    assert_eq!(server.recv_next, client_isn.wrapping_add(1));
}

#[test]
fn test_duplicate_syn_is_idempotent() {
    let opt = RdpOption::default();
    let addr: u64 = 7;
    let (_client, syn) = Connection::client_start(123, opt);

    let mut registry = Registry::new(opt);
    let (_, first) = registry.handle_packet(addr, &syn, 999);
    assert_eq!(registry.pending.len(), 1);

    // the same SYN again, even with a different fresh number on offer
    let (_, second) = registry.handle_packet(addr, &syn, 31337);
    assert_eq!(registry.pending.len(), 1, "no second pending entry may appear");
    assert_eq!(registry.pending[0].server_isn, 999);
    assert_eq!(first[0].header.seq_num, second[0].header.seq_num);
    assert_eq!(first[0].header.ack_num, second[0].header.ack_num);
    assert_eq!(first[0].header.flags, second[0].header.flags);
}

#[test]
fn test_mismatched_synack_fails_handshake() {
    let opt = RdpOption::default();
    let (mut client, _syn) = Connection::client_start(50, opt);
    let mut bad = rdp::rdp_packet::RdpPacket::new();
    bad.header.flags = 0b0000_0011;
    bad.header.seq_num = 600;
    bad.header.ack_num = 52; // not 51
    let err = client.client_on_synack(&bad).unwrap_err();
    assert_eq!(err, RdpError::HandshakeFailed);
    assert_eq!(client.state, ConnState::Closed);
}

#[test]
fn test_mismatched_ack_leaves_handshake_pending() {
    let opt = RdpOption::default();
    let addr: u64 = 9;
    let (_client, syn) = Connection::client_start(10, opt);
    let mut registry = Registry::new(opt);
    registry.handle_packet(addr, &syn, 700);

    let mut stray = rdp::rdp_packet::RdpPacket::new();
    stray.header.flags = 0b0000_0010;
    stray.header.ack_num = 9999; // not 701
    let (promoted, _) = registry.handle_packet(addr, &stray, 0);
    assert!(promoted.is_none());
    assert_eq!(registry.pending.len(), 1);
    assert!(registry.established.is_empty());
}

#[test]
fn test_syn_restart_refreshes_entry() {
    let opt = RdpOption::default();
    let addr: u64 = 8;
    let (_c1, syn1) = Connection::client_start(100, opt);
    let mut registry = Registry::new(opt);
    let (_, first) = registry.handle_packet(addr, &syn1, 500);
    assert_eq!(first[0].header.ack_num, 101);

    // the client restarted with a new initial sequence number: the
    // handshake restarts too, with a fresh entry
    let (mut c2, syn2) = Connection::client_start(7000, opt);
    let (_, mut second) = registry.handle_packet(addr, &syn2, 600);
    assert_eq!(registry.pending.len(), 1);
    assert_eq!(registry.pending[0].server_isn, 600);
    let syn_ack = second.remove(0);
    assert_eq!(syn_ack.header.ack_num, 7001);
    // and the restarted handshake completes
    let ack = c2.client_on_synack(&syn_ack).unwrap();
    let (promoted, _) = registry.handle_packet(addr, &ack, 0);
    assert!(promoted.is_some());
}

#[test]
fn test_rst_clears_pending_entry() {
    let opt = RdpOption::default();
    let addr: u64 = 13;
    let (_c, syn) = Connection::client_start(30, opt);
    let mut registry = Registry::new(opt);
    registry.handle_packet(addr, &syn, 900);
    assert_eq!(registry.pending.len(), 1);

    let mut rst = rdp::rdp_packet::RdpPacket::new();
    rst.header.flags = 0b0000_1000;
    let (none, replies) = registry.handle_packet(addr, &rst, 0);
    assert!(none.is_none());
    assert!(replies.is_empty());
    assert!(registry.pending.is_empty());
}

#[test]
fn test_fin_frees_registry_entry_for_reconnect() {
    let opt = RdpOption::default();
    let addr: u64 = 14;
    let mut registry = Registry::new(opt);

    // first connection
    let (mut c1, syn) = Connection::client_start(40, opt);
    let (_, mut r1) = registry.handle_packet(addr, &syn, 901);
    let ack = c1.client_on_synack(&r1.remove(0)).unwrap();
    let (promoted, _) = registry.handle_packet(addr, &ack, 0);
    assert!(promoted.is_some());

    // the peer's FIN reaches the listening socket: its entry is freed
    let mut fin = rdp::rdp_packet::RdpPacket::new();
    fin.header.flags = 0b0000_0110;
    let (none, _) = registry.handle_packet(addr, &fin, 0);
    assert!(none.is_none());
    assert!(registry.established.is_empty());

    // the same address can connect again
    let (mut c2, syn2) = Connection::client_start(50, opt);
    let (_, mut r2) = registry.handle_packet(addr, &syn2, 902);
    let ack2 = c2.client_on_synack(&r2.remove(0)).unwrap();
    let (promoted2, _) = registry.handle_packet(addr, &ack2, 0);
    assert!(promoted2.is_some());
}

#[test]
fn test_registry_remove_frees_address() {
    let opt = RdpOption::default();
    let addr: u64 = 11;
    let (mut client, syn) = Connection::client_start(20, opt);
    let mut registry = Registry::new(opt);
    let (_, mut replies) = registry.handle_packet(addr, &syn, 800);
    let ack = client.client_on_synack(&replies.remove(0)).unwrap();
    let (promoted, _) = registry.handle_packet(addr, &ack, 0);
    assert!(promoted.is_some());
    assert_eq!(registry.established.len(), 1);

    registry.remove(addr);
    assert!(registry.established.is_empty());
}
