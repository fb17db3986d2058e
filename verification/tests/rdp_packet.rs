use rdp::rdp_error::RdpError;
use rdp::rdp_packet::{RdpHeader, RdpPacket};

#[test]
fn test_rdp_header() {
    let header = RdpHeader {
        seq_num: 0x114514,
        ack_num: 0x1919810,
        flags: 0b00000001,
        window_size: 0,
        checksum: 0,
    };
    let res: [u8; 13] = [0, 17, 69, 20, 1, 145, 152, 16, 1, 0, 0, 0, 0];
    let bytes = header.to_be_bytes();

    let header1 = RdpHeader::from_be_bytes(&res).unwrap();

    assert_eq!(bytes, res);
    assert_eq!(header1.seq_num, 0x114514);
    assert_eq!(header1.ack_num, 0x1919810);
    assert_eq!(header1.flags, 0b00000001);
    assert_eq!(header1.window_size, 0);
    assert_eq!(header1.checksum, 0);
}

#[test]
fn test_rdp_packet() {
    let mut packet = RdpPacket::new();
    packet.header.seq_num = 0x90ab12cd;
    packet.header.ack_num = 0x34ef5678;
    packet.header.flags = 0b00000001;
    packet.header.window_size = 0;
    // the packet's valid checksum: the byte sum of its fields
    packet.header.checksum = 1036;
    packet.data = vec![0; 1460];
    let bytes = packet.to_be_bytes();
    let packet1 = RdpPacket::from_be_bytes(&bytes).unwrap();
    assert_eq!(packet.header.seq_num, packet1.header.seq_num);
    assert_eq!(packet.header.ack_num, packet1.header.ack_num);
    assert_eq!(packet.header.flags, packet1.header.flags);
    assert_eq!(packet.header.window_size, packet1.header.window_size);
    assert_eq!(packet.header.checksum, packet1.header.checksum);
    assert_eq!(packet.data, packet1.data);
}

#[test]
fn test_round_trip_with_payload() {
    let mut packet = RdpPacket::new();
    packet.header.seq_num = 7;
    packet.header.ack_num = 11;
    packet.header.flags = 0b0000_0010;
    packet.header.window_size = 512;
    packet.data = vec![1, 2, 3, 250, 251, 252];
    let bytes = packet.to_be_bytes();
    assert_eq!(bytes.len(), 13 + 6);
    let back = RdpPacket::from_be_bytes(&bytes).unwrap();
    assert_eq!(back.header.seq_num, 7);
    assert_eq!(back.header.ack_num, 11);
    assert_eq!(back.header.flags, 0b0000_0010);
    assert_eq!(back.header.window_size, 512);
    // the decoded header carries the checksum the encoder filled in
    assert_eq!(back.header.checksum, 781);
    assert_eq!(back.data, vec![1, 2, 3, 250, 251, 252]);
}

#[test]
fn test_encode_fills_checksum() {
    let mut packet = RdpPacket::new();
    packet.header.seq_num = 1;
    packet.data = vec![2, 3];
    let bytes = packet.to_be_bytes();
    // byte sum: seq contributes 1, payload contributes 2 + 3
    assert_eq!(bytes[11], 0);
    assert_eq!(bytes[12], 6);
}

#[test]
fn test_short_input_is_malformed() {
    assert_eq!(RdpPacket::from_be_bytes(&[0; 12]).unwrap_err(), RdpError::MalformedHeader);
    assert_eq!(RdpHeader::from_be_bytes(&[0; 12]).unwrap_err(), RdpError::MalformedHeader);
    assert_eq!(RdpHeader::from_be_bytes(&[0; 14]).unwrap_err(), RdpError::MalformedHeader);
    assert!(RdpPacket::from_be_bytes(&[0; 13]).is_ok());
}

#[test]
fn test_bit_flip_is_checksum_mismatch() {
    let mut packet = RdpPacket::new();
    packet.header.seq_num = 0xdeadbeef;
    packet.header.ack_num = 0x01020304;
    packet.header.flags = 0b0000_0010;
    packet.header.window_size = 65535;
    packet.data = vec![9, 8, 7, 6, 5];
    let bytes = packet.to_be_bytes();
    for i in 0..bytes.len() {
        if (11..13).contains(&i) {
            continue; // the checksum field itself
        }
        for k in 0..8 {
            let mut corrupt = bytes.clone();
            corrupt[i] ^= 1u8 << k;
            assert_eq!(
                RdpPacket::from_be_bytes(&corrupt).unwrap_err(),
                RdpError::ChecksumMismatch,
                "flipping bit {k} of byte {i} went unnoticed"
            );
        }
    }
}
