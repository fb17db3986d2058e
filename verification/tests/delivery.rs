use rdp::rdp_conn::{ConnState, Connection};
use rdp::rdp_error::RdpError;
use rdp::rdp_option::RdpOption;
use rdp::rdp_packet::RdpPacket;

fn established_pair() -> (Connection, Connection) {
    let opt = RdpOption::default();
    let a = Connection::server_establish(100, 201, 65535, opt);
    let b = Connection::server_establish(200, 101, 65535, opt);
    (a, b)
}

fn data_packet(seq: u32, ack: u32, data: Vec<u8>) -> RdpPacket {
    let mut p = RdpPacket::new();
    p.header.seq_num = seq;
    p.header.ack_num = ack;
    p.header.flags = 0b0000_0010;
    p.header.window_size = 65535;
    p.data = data;
    p
}

#[test]
fn test_in_order_delivery() {
    let (mut a, _b) = established_pair();
    // a expects 201 next
    let out = a.on_segment(&data_packet(201, 101, vec![1, 2, 3]), 0);
    assert_eq!(a.receive(10).unwrap(), vec![1, 2, 3]);
    assert_eq!(a.recv_next, 204);
    // the acknowledgment carries the new cursor
    let ack = out.last().unwrap();
    assert_eq!(ack.header.ack_num, 204);
    assert!(ack.data.is_empty());
}

#[test]
fn test_duplicate_delivery_suppressed() {
    let (mut a, _b) = established_pair();
    let pkt = data_packet(201, 101, vec![5, 6]);
    a.on_segment(&pkt, 0);
    let out = a.on_segment(&pkt, 1);
    // the duplicate is dropped, but its acknowledgment is sent again
    assert_eq!(out.last().unwrap().header.ack_num, 203);
    assert_eq!(a.receive(100).unwrap(), vec![5, 6]);
    assert_eq!(a.receive(100).unwrap(), Vec::<u8>::new());
}

#[test]
fn test_reordered_packets_delivered_in_order() {
    let (mut a, _b) = established_pair();
    a.on_segment(&data_packet(203, 101, vec![30, 40]), 0);
    // nothing deliverable yet
    assert_eq!(a.receive(100).unwrap(), Vec::<u8>::new());
    a.on_segment(&data_packet(201, 101, vec![10, 20]), 1);
    assert_eq!(a.receive(100).unwrap(), vec![10, 20, 30, 40]);
    assert_eq!(a.recv_next, 205);
}

#[test]
fn test_window_respected_and_opened_by_ack() {
    let opt = RdpOption::default();
    let mut sender = Connection::server_establish(100, 201, 5, opt);
    assert_eq!(sender.peer_window, 5);
    let payload: Vec<u8> = (0u8..10).collect();
    // ten bytes against a five-byte window: only five leave now
    let out = sender.send_data(&payload, 0).unwrap();
    let sent: usize = out.iter().map(|p| p.data.len()).sum();
    assert!(sent <= 5, "never more in flight than the peer window");
    // the peer acknowledges everything it saw and opens the window
    let mut ack = RdpPacket::new();
    ack.header.flags = 0b0000_0010;
    ack.header.ack_num = 101u32.wrapping_add(sent as u32);
    ack.header.window_size = 65535;
    let more = sender.on_segment(&ack, 1);
    let sent_after: usize = more.iter().map(|p| p.data.len()).sum();
    assert_eq!(sent + sent_after, 10, "the queued rest follows once the window opens");
}

#[test]
fn test_lost_packet_is_retransmitted() {
    let opt = RdpOption::default();
    let mut sender = Connection::server_establish(100, 201, 65535, opt);
    let out = sender.send_data(&[7, 8, 9], 0).unwrap();
    assert_eq!(out.len(), 1);
    // the packet is lost; before the timeout nothing happens
    assert!(sender.on_tick(opt.rto - 1).unwrap().is_empty());
    // at the timeout it is sent again, identical
    let again = sender.on_tick(opt.rto).unwrap();
    assert_eq!(again.len(), 1);
    assert_eq!(again[0].header.seq_num, out[0].header.seq_num);
    assert_eq!(again[0].data, out[0].data);
}

#[test]
fn test_lost_ack_recovered_without_duplication() {
    // sender's data arrives, the acknowledgment is lost, the sender
    // retransmits: the receiver drops the duplicate and acks again
    let (mut receiver, _b) = established_pair();
    let pkt = data_packet(201, 101, vec![1, 1, 2, 3]);
    let first = receiver.on_segment(&pkt, 0);
    assert_eq!(first.last().unwrap().header.ack_num, 205);
    let second = receiver.on_segment(&pkt, 300);
    assert_eq!(second.last().unwrap().header.ack_num, 205);
    assert_eq!(receiver.receive(100).unwrap(), vec![1, 1, 2, 3]);
    assert_eq!(receiver.receive(100).unwrap(), Vec::<u8>::new());
}

#[test]
fn test_retransmission_limit_is_fatal() {
    let opt = RdpOption::default();
    let mut sender = Connection::server_establish(100, 201, 65535, opt);
    sender.send_data(&[1], 0).unwrap();
    let mut t = 0u64;
    let mut failed = false;
    for _ in 0..(opt.max_retries + 2) {
        t += opt.rto;
        match sender.on_tick(t) {
            Ok(_) => {}
            Err(e) => {
                assert_eq!(e, RdpError::RetransmissionLimitExceeded);
                failed = true;
                break;
            }
        }
    }
    assert!(failed, "a segment retransmitted past the limit must fail the connection");
    assert_eq!(sender.state, ConnState::Closed);
    assert_eq!(sender.send_data(&[2], t).unwrap_err(), RdpError::ConnectionReset);
}

#[test]
fn test_reset_aborts_connection() {
    let (mut a, _b) = established_pair();
    let mut rst = RdpPacket::new();
    rst.header.flags = 0b0000_1000;
    let out = a.on_segment(&rst, 0);
    assert!(out.is_empty());
    assert_eq!(a.state, ConnState::Closed);
    assert_eq!(a.send_data(&[1], 1).unwrap_err(), RdpError::ConnectionReset);
    assert_eq!(a.receive(1).unwrap_err(), RdpError::ConnectionReset);
}

#[test]
fn test_segmentation_by_mss() {
    let opt = RdpOption::new(4);
    let mut sender = Connection::server_establish(100, 201, 65535, opt);
    let payload: Vec<u8> = (0u8..10).collect();
    let out = sender.send_data(&payload, 0).unwrap();
    assert_eq!(out.len(), 3);
    assert_eq!(out[0].data, vec![0, 1, 2, 3]);
    assert_eq!(out[1].data, vec![4, 5, 6, 7]);
    assert_eq!(out[2].data, vec![8, 9]);
    assert_eq!(out[0].header.seq_num, 101);
    assert_eq!(out[1].header.seq_num, 105);
    assert_eq!(out[2].header.seq_num, 109);
    assert_eq!(sender.send_next, 111);
}

#[test]
fn test_out_of_window_future_data_dropped() {
    let opt = RdpOption::new(1460);
    let mut receiver = Connection::server_establish(100, 201, 65535, opt);
    // far beyond the 65535-byte window: dropped, cursor unmoved
    receiver.on_segment(&data_packet(201 + 70000, 101, vec![1]), 0);
    assert_eq!(receiver.reorder.len(), 0);
    assert_eq!(receiver.recv_next, 201);
}

#[test]
fn test_advertised_window_reflects_buffered_data() {
    let (mut a, _b) = established_pair();
    // two bytes buffered ahead of the cursor occupy the reorder buffer
    let out = a.on_segment(&data_packet(210, 101, vec![1, 2]), 0);
    assert_eq!(a.reorder.len(), 1);
    assert_eq!(out.last().unwrap().header.window_size, 65535 - 2);
    // delivering the gap drains the buffer and restores the window
    let out2 = a.on_segment(&data_packet(201, 101, vec![0; 9]), 1);
    assert_eq!(out2.last().unwrap().header.window_size, 65535);
}

#[test]
fn test_send_nothing_sends_nothing() {
    let (mut a, _b) = established_pair();
    let out = a.send_data(&[], 0).unwrap();
    assert!(out.is_empty());
    assert_eq!(a.send_next, 101);
}

#[test]
fn test_close_both_sides_reach_closed() {
    let (mut a, mut b) = established_pair();
    // a closes: FIN to b
    let fins = a.close(0);
    assert_eq!(a.state, ConnState::FinWait);
    assert_eq!(fins.len(), 1);
    // b answers with an ACK and its own FIN
    let replies = b.on_segment(&fins[0], 1);
    assert_eq!(b.state, ConnState::LastAck);
    assert!(replies.len() >= 2);
    // a takes the ACK of its FIN and closes
    let ack_of_fin = &replies[replies.len() - 2];
    let back = a.on_segment(ack_of_fin, 2);
    assert_eq!(a.state, ConnState::Closed);
    assert!(back.is_empty());
    // the final ACK for b's FIN never comes; b gives up at its deadline
    let opt = RdpOption::default();
    let r = b.on_tick(1 + opt.rto * (opt.max_retries as u64 + 1)).unwrap();
    assert!(r.is_empty());
    assert_eq!(b.state, ConnState::Closed);
    // both sides now refuse to send, and a pending read observes the
    // teardown rather than hanging
    assert_eq!(a.send_data(&[1], 9).unwrap_err(), RdpError::ConnectionClosing);
    assert_eq!(b.send_data(&[1], 9).unwrap_err(), RdpError::ConnectionClosing);
    assert_eq!(a.receive(10).unwrap_err(), RdpError::ConnectionClosing);
    assert_eq!(b.receive(10).unwrap_err(), RdpError::ConnectionClosing);
}

#[test]
fn test_fin_acknowledged_closes_passive_side() {
    let (mut a, mut b) = established_pair();
    let fins = a.close(0);
    let replies = b.on_segment(&fins[0], 1);
    // a acknowledges b's FIN while still in FIN_WAIT, then takes the ACK
    let bs_fin = replies.last().unwrap();
    let acks = a.on_segment(bs_fin, 2);
    let ack_for_b = acks.last().unwrap();
    assert_eq!(ack_for_b.header.ack_num, bs_fin.header.seq_num.wrapping_add(1));
    let done = b.on_segment(ack_for_b, 3);
    assert!(done.is_empty());
    assert_eq!(b.state, ConnState::Closed);
    assert!(!b.reset);
}
