use rdp::rdp_conn::Connection;
use rdp::rdp_option::RdpOption;
use rdp::rdp_packet::RdpPacket;
use rdp::rdp_listener::Registry;

/// A datagram substrate that loses every tenth packet it carries.
struct LossyWire {
    count: usize,
}

impl LossyWire {
    fn passes(&mut self) -> bool {
        self.count += 1;
        self.count % 10 != 0
    }
}

/// A client at one address connects to a listener bound at
/// "127.0.0.1:9000" and sends a 3000-byte payload with MSS 1460 across a
/// transport that drops a tenth of all datagrams; the receiver must
/// reconstruct the exact bytes in order within the retransmission budget.
#[test]
fn test_end_to_end_3000_bytes_with_loss() {
    let opt = RdpOption::default();
    assert_eq!(opt.mss, 1460);
    let payload: Vec<u8> = (0..3000u32).map(|i| (i * 31 % 251) as u8) .collect();

    let mut wire = LossyWire { count: 0 };
    let mut registry = Registry::new(opt);
    // the peer address "127.0.0.1:9000" reduced to the plain value the
    // registry keys by
    let client_addr: u64 = (127u64 << 40) | (1u64 << 16) | 9000;

    // the client retries the same SYN until the handshake completes
    let isn: u32 = 0x6001_0000;
    let server_isn: u32 = 0x9ae2_0000;
    let mut client: Option<Connection> = None;
    let mut server: Option<Connection> = None;
    let mut attempts = 0;
    while server.is_none() {
        attempts += 1;
        assert!(attempts < 50, "handshake must converge despite loss");
        let (mut c, syn) = Connection::client_start(isn, opt);
        if !wire.passes() {
            continue;
        }
        let syn2 = RdpPacket::from_be_bytes(&syn.to_be_bytes()).unwrap();
        let (_, mut replies) = registry.handle_packet(client_addr, &syn2, server_isn);
        let sa = match replies.pop() {
            Some(p) => p,
            None => continue,
        };
        if !wire.passes() {
            continue;
        }
        let sa2 = RdpPacket::from_be_bytes(&sa.to_be_bytes()).unwrap();
        let ack = match c.client_on_synack(&sa2) {
            Ok(p) => p,
            Err(_) => continue,
        };
        if !wire.passes() {
            continue;
        }
        let ack2 = RdpPacket::from_be_bytes(&ack.to_be_bytes()).unwrap();
        let (promoted, _) = registry.handle_packet(client_addr, &ack2, 0);
        if let Some(s) = promoted {
            client = Some(c);
            server = Some(s);
        }
    }
    let mut client = client.unwrap();
    let mut server = server.unwrap();

    let mut t: u64 = 0;
    let mut to_server: Vec<RdpPacket> = client.send_data(&payload, t).unwrap();
    let mut received: Vec<u8> = Vec::new();
    let mut rounds = 0;
    while received.len() < payload.len() {
        rounds += 1;
        assert!(rounds < 200, "delivery must complete within the retransmission budget");
        t += 50;
        let mut to_client: Vec<RdpPacket> = Vec::new();
        for p in to_server.drain(..) {
            if wire.passes() {
                let q = RdpPacket::from_be_bytes(&p.to_be_bytes()).unwrap();
                to_client.extend(server.on_segment(&q, t));
            }
        }
        for p in to_client.drain(..) {
            if wire.passes() {
                let q = RdpPacket::from_be_bytes(&p.to_be_bytes()).unwrap();
                to_server.extend(client.on_segment(&q, t));
            }
        }
        received.extend(server.receive(4096).unwrap());
        t += 250;
        to_server.extend(client.on_tick(t).unwrap());
    }
    assert_eq!(received.len(), 3000);
    assert_eq!(received, payload);
}
