use vstd::prelude::*;
use crate::rdp_error::RdpError;
use crate::wire::{
    byte_sum, lemma_byte_sum_append, lemma_byte_sum_nonneg, lemma_byte_sum_update,
    lemma_mod_distinct, lemma_u16_be_round, lemma_u32_be_round, push_u16_be, push_u32_be,
    read_u16_be, read_u32_be, spec_u16_be, spec_u16_from_be, spec_u32_be, spec_u32_from_be,
    sum_slice_mod,
};

verus! {

/// The fixed wire header: 13 bytes, all multi-byte fields big-endian.
///
/// | field       | width   | meaning                                        |
/// | ----------- | ------- | ---------------------------------------------- |
/// | seq_num     | 4 bytes | sequence number of the first byte carried      |
/// | ack_num     | 4 bytes | next sequence number the sender expects back   |
/// | flags       | 1 byte  | bit 0 SYN, bit 1 ACK, bit 2 FIN, bit 3 RST     |
/// | window_size | 2 bytes | receiver's available buffer space, in bytes    |
/// | checksum    | 2 bytes | integrity check over header and payload        |
///
/// The checksum field of a freshly built packet is a placeholder that
/// encoding ignores: the value is computed when a packet is laid out on
/// the wire, and a decoded header carries the embedded value, which the
/// decoder has verified against the bytes.
#[derive(Clone, Copy, Debug, PartialEq, Eq, Structural)]
pub struct RdpHeader {
    pub seq_num: u32,
    pub ack_num: u32,
    pub flags: u8,
    pub window_size: u16,
    pub checksum: u16,
}

pub const HEADER_SIZE: usize = 13;

pub const FLAG_SYN: u8 = 0b0000_0001;

pub const FLAG_ACK: u8 = 0b0000_0010;

pub const FLAG_FIN: u8 = 0b0000_0100;

pub const FLAG_RST: u8 = 0b0000_1000;

/// A packet: header plus payload.
#[derive(Clone, Debug)]
pub struct RdpPacket {
    pub header: RdpHeader,
    pub data: Vec<u8>,
}

/// The 13 wire bytes of a header, fields laid out big-endian.
pub open spec fn spec_header_bytes(h: RdpHeader) -> Seq<u8> {
    spec_u32_be(h.seq_num) + spec_u32_be(h.ack_num) + seq![h.flags] + spec_u16_be(h.window_size)
        + spec_u16_be(h.checksum)
}

/// `h` with its checksum field replaced.
pub open spec fn with_checksum(h: RdpHeader, ck: u16) -> RdpHeader {
    RdpHeader { checksum: ck, ..h }
}

/// The header encoded at the front of a byte sequence of at least 13 bytes.
pub open spec fn spec_parse_header(s: Seq<u8>) -> RdpHeader
    recommends
        s.len() >= 13,
{
    RdpHeader {
        seq_num: spec_u32_from_be(s[0], s[1], s[2], s[3]),
        ack_num: spec_u32_from_be(s[4], s[5], s[6], s[7]),
        flags: s[8],
        window_size: spec_u16_from_be(s[9], s[10]),
        checksum: spec_u16_from_be(s[11], s[12]),
    }
}

/// The checksum a packet carries on the wire: the byte sum of its header
/// (checksum field zero) and payload, modulo 2^16.
pub open spec fn spec_checksum(h: RdpHeader, data: Seq<u8>) -> u16 {
    ((byte_sum(spec_header_bytes(with_checksum(h, 0))) + byte_sum(data)) % 0x10000) as u16
}

/// The wire bytes of a packet: the header with its computed checksum,
/// followed by the payload verbatim.
pub open spec fn spec_encode(h: RdpHeader, data: Seq<u8>) -> Seq<u8> {
    spec_header_bytes(with_checksum(h, spec_checksum(h, data))) + data
}

/// The checksum recomputed from received wire bytes: the byte sum with the
/// embedded checksum field read as zero, modulo 2^16.
pub open spec fn spec_wire_checksum(s: Seq<u8>) -> u16
    recommends
        s.len() >= 13,
{
    (byte_sum(s.update(11, 0u8).update(12, 0u8)) % 0x10000) as u16
}

/// What decoding a datagram yields: the header exactly as the first 13
/// bytes spell it, embedded checksum included, and the payload verbatim;
/// or the reason the bytes were rejected.
pub open spec fn spec_decode(s: Seq<u8>) -> Result<(RdpHeader, Seq<u8>), RdpError> {
    if s.len() < 13 {
        Err(RdpError::MalformedHeader)
    } else if spec_parse_header(s).checksum != spec_wire_checksum(s) {
        Err(RdpError::ChecksumMismatch)
    } else {
        Ok((spec_parse_header(s), s.skip(13)))
    }
}

impl RdpHeader {
    /// The SYN (synchronize) flag bit.
    pub fn syn(&self) -> (r: bool)
        ensures
            r == (self.flags & FLAG_SYN != 0),
    {
        self.flags & FLAG_SYN != 0
    }

    /// The ACK (acknowledge) flag bit.
    pub fn ack(&self) -> (r: bool)
        ensures
            r == (self.flags & FLAG_ACK != 0),
    {
        self.flags & FLAG_ACK != 0
    }

    /// The FIN (finish) flag bit.
    pub fn fin(&self) -> (r: bool)
        ensures
            r == (self.flags & FLAG_FIN != 0),
    {
        self.flags & FLAG_FIN != 0
    }

    /// The RST (reset) flag bit.
    pub fn rst(&self) -> (r: bool)
        ensures
            r == (self.flags & FLAG_RST != 0),
    {
        self.flags & FLAG_RST != 0
    }

    /// The 13 wire bytes of this header, fields written as they stand.
    pub fn to_be_bytes(&self) -> (r: Vec<u8>)
        ensures
            r@ == spec_header_bytes(*self),
            r@.len() == 13,
    {
        let mut out: Vec<u8> = Vec::new();
        push_u32_be(&mut out, self.seq_num);
        push_u32_be(&mut out, self.ack_num);
        out.push(self.flags);
        push_u16_be(&mut out, self.window_size);
        push_u16_be(&mut out, self.checksum);
        proof {
            assert(out@ =~= spec_header_bytes(*self));
        }
        out
    }

    /// A header read back from exactly 13 wire bytes, fields taken as they
    /// stand; any other length is malformed.
    pub fn from_be_bytes(bytes: &[u8]) -> (r: Result<RdpHeader, RdpError>)
        ensures
            bytes@.len() == 13 ==> r == Ok::<RdpHeader, RdpError>(spec_parse_header(bytes@)),
            bytes@.len() != 13 ==> r == Err::<RdpHeader, RdpError>(RdpError::MalformedHeader),
    {
        if bytes.len() != HEADER_SIZE {
            return Err(RdpError::MalformedHeader);
        }
        Ok(
            RdpHeader {
                seq_num: read_u32_be(bytes, 0),
                ack_num: read_u32_be(bytes, 4),
                flags: bytes[8],
                window_size: read_u16_be(bytes, 9),
                checksum: read_u16_be(bytes, 11),
            },
        )
    }
}

impl RdpPacket {
    /// An empty packet: all header fields zero, no payload.
    pub fn new() -> (r: RdpPacket)
        ensures
            r.header == (RdpHeader {
                seq_num: 0u32,
                ack_num: 0u32,
                flags: 0u8,
                window_size: 0u16,
                checksum: 0u16,
            }),
            r.data@ == Seq::<u8>::empty(),
    {
        RdpPacket {
            header: RdpHeader { seq_num: 0, ack_num: 0, flags: 0, window_size: 0, checksum: 0 },
            data: Vec::new(),
        }
    }

    /// Lay this packet out on the wire: header fields big-endian, then the
    /// payload, with the checksum computed over the whole datagram and
    /// filled into its field.
    pub fn to_be_bytes(&self) -> (r: Vec<u8>)
        ensures
            r@ == spec_encode(self.header, self.data@),
            r@.len() == 13 + self.data@.len(),
    {
        let mut out: Vec<u8> = Vec::new();
        push_u32_be(&mut out, self.header.seq_num);
        push_u32_be(&mut out, self.header.ack_num);
        out.push(self.header.flags);
        push_u16_be(&mut out, self.header.window_size);
        let ghost prefix = out@;
        let s1 = sum_slice_mod(out.as_slice());
        let s2 = sum_slice_mod(self.data.as_slice());
        let ck = ((s1 + s2) % 0x10000) as u16;
        proof {
            lemma_byte_sum_nonneg(prefix);
            lemma_byte_sum_nonneg(self.data@);
            vstd::arithmetic::div_mod::lemma_add_mod_noop(
                byte_sum(prefix),
                byte_sum(self.data@),
                0x10000,
            );
            assert(spec_u16_be(0) =~= seq![0u8, 0u8]) by {
                assert((0u16 >> 8) & 0xff == 0 && 0u16 & 0xff == 0) by (bit_vector);
            }
            assert(spec_header_bytes(with_checksum(self.header, 0)) =~= prefix + seq![0u8, 0u8]);
            lemma_byte_sum_append(prefix, seq![0u8, 0u8]);
            reveal_with_fuel(byte_sum, 3);
            assert(byte_sum(seq![0u8, 0u8]) == 0);
            assert(ck == spec_checksum(self.header, self.data@));
        }
        push_u16_be(&mut out, ck);
        out.extend_from_slice(self.data.as_slice());
        proof {
            assert(out@ =~= spec_encode(self.header, self.data@));
        }
        out
    }

    /// A packet read back from wire bytes.  Fewer than 13 bytes are a
    /// malformed header; a checksum that disagrees with the one recomputed
    /// from the bytes is a mismatch; otherwise the header is returned
    /// exactly as the bytes spell it, embedded checksum included, and the
    /// bytes beyond it become the payload verbatim.
    pub fn from_be_bytes(bytes: &[u8]) -> (r: Result<RdpPacket, RdpError>)
        ensures
            (r is Ok) == (spec_decode(bytes@) is Ok),
            r is Ok ==> r->Ok_0.header == spec_decode(bytes@)->Ok_0.0 && r->Ok_0.data@
                == spec_decode(bytes@)->Ok_0.1,
            r is Err ==> r->Err_0 == spec_decode(bytes@)->Err_0,
    {
        if bytes.len() < HEADER_SIZE {
            return Err(RdpError::MalformedHeader);
        }
        let embedded = read_u16_be(bytes, 11);
        let total = sum_slice_mod(bytes);
        let b11 = bytes[11] as u32;
        let b12 = bytes[12] as u32;
        let computed = ((total + 0x20000 - b11 - b12) % 0x10000) as u16;
        proof {
            let z = bytes@.update(11, 0u8).update(12, 0u8);
            lemma_byte_sum_update(bytes@, 11, 0u8);
            lemma_byte_sum_update(bytes@.update(11, 0u8), 12, 0u8);
            lemma_byte_sum_nonneg(z);
            lemma_byte_sum_nonneg(bytes@);
            let d = 0x20000 - b11 - b12;
            vstd::arithmetic::div_mod::lemma_add_mod_noop(byte_sum(bytes@), d as int, 0x10000);
            vstd::arithmetic::div_mod::lemma_add_mod_noop_right(
                byte_sum(bytes@) % 0x10000,
                d as int,
                0x10000,
            );
            vstd::arithmetic::div_mod::lemma_mod_add_multiples_vanish(
                byte_sum(z) + 0x10000,
                0x10000,
            );
            vstd::arithmetic::div_mod::lemma_mod_add_multiples_vanish(byte_sum(z), 0x10000);
            assert(byte_sum(bytes@) + d == byte_sum(z) + 2 * 0x10000);
            assert(computed == spec_wire_checksum(bytes@));
        }
        if embedded != computed {
            return Err(RdpError::ChecksumMismatch);
        }
        let header = RdpHeader {
            seq_num: read_u32_be(bytes, 0),
            ack_num: read_u32_be(bytes, 4),
            flags: bytes[8],
            window_size: read_u16_be(bytes, 9),
            checksum: embedded,
        };
        let data = vstd::slice::slice_to_vec(vstd::slice::slice_subrange(bytes, 13, bytes.len()));
        proof {
            assert(bytes@.subrange(13, bytes@.len() as int) =~= bytes@.skip(13));
        }
        Ok(RdpPacket { header, data })
    }
}

/// `x` with bit `k` inverted.
pub open spec fn flip_bit(x: u8, k: u8) -> u8 {
    (x ^ (1u8 << k)) as u8
}

/// Inverting a bit always changes the byte.
pub proof fn lemma_flip_bit_changes(x: u8, k: u8)
    requires
        k < 8,
    ensures
        flip_bit(x, k) != x,
{
    assert((x ^ (1u8 << k)) as u8 != x) by (bit_vector)
        requires
            k < 8,
    ;
}

/// Round trip: decoding the wire bytes of any packet gives back exactly
/// that packet, with the checksum field holding the value the encoder
/// computed and filled; every other field and the payload come back
/// untouched.
pub proof fn lemma_round_trip(h: RdpHeader, data: Seq<u8>)
    ensures
        spec_decode(spec_encode(h, data)) == Ok::<(RdpHeader, Seq<u8>), RdpError>(
            (with_checksum(h, spec_checksum(h, data)), data),
        ),
{
    let ck = spec_checksum(h, data);
    let hb = spec_header_bytes(with_checksum(h, ck));
    let s = spec_encode(h, data);
    assert(hb.len() == 13);
    assert(s.len() == 13 + data.len());
    assert forall|i: int| 0 <= i < 13 implies s[i] == hb[i] by {}
    lemma_u32_be_round(h.seq_num);
    lemma_u32_be_round(h.ack_num);
    lemma_u16_be_round(h.window_size);
    lemma_u16_be_round(ck);
    let p = spec_parse_header(s);
    assert(p.seq_num == h.seq_num);
    assert(p.ack_num == h.ack_num);
    assert(p.flags == h.flags);
    assert(p.window_size == h.window_size);
    assert(p.checksum == ck);
    // The checksum recomputed from the wire agrees with the embedded one.
    let h0 = with_checksum(h, 0);
    assert(spec_u16_be(0) =~= seq![0u8, 0u8]) by {
        assert((0u16 >> 8) & 0xff == 0 && 0u16 & 0xff == 0) by (bit_vector);
    }
    let prefix = spec_u32_be(h.seq_num) + spec_u32_be(h.ack_num) + seq![h.flags] + spec_u16_be(
        h.window_size,
    );
    assert(s.update(11, 0u8).update(12, 0u8) =~= spec_header_bytes(h0) + data);
    lemma_byte_sum_append(spec_header_bytes(h0), data);
    assert(spec_wire_checksum(s) == ck);
    assert(p == with_checksum(h, ck));
    assert(s.skip(13) =~= data);
}

/// Round trip for valid headers: when the checksum field already holds
/// the packet's checksum, decoding the wire bytes gives back the header
/// and payload exactly as they were.
pub proof fn lemma_round_trip_valid(h: RdpHeader, data: Seq<u8>)
    requires
        h.checksum == spec_checksum(h, data),
    ensures
        spec_decode(spec_encode(h, data)) == Ok::<(RdpHeader, Seq<u8>), RdpError>((h, data)),
{
    lemma_round_trip(h, data);
    assert(with_checksum(h, spec_checksum(h, data)) == h);
}

/// Corrupting any single wire byte outside the checksum field makes the
/// packet decode as a checksum mismatch.
pub proof fn lemma_corrupt_byte(h: RdpHeader, data: Seq<u8>, i: int, c: u8)
    requires
        0 <= i < spec_encode(h, data).len(),
        !(11 <= i < 13),
        c != spec_encode(h, data)[i],
    ensures
        spec_decode(spec_encode(h, data).update(i, c)) == Err::<(RdpHeader, Seq<u8>), RdpError>(
            RdpError::ChecksumMismatch,
        ),
{
    let s = spec_encode(h, data);
    let s2 = s.update(i, c);
    assert(s2.len() == s.len() >= 13);
    // The embedded checksum field is untouched.
    assert(s2[11] == s[11] && s2[12] == s[12]);
    lemma_round_trip(h, data);
    let ck = spec_parse_header(s).checksum;
    assert(spec_parse_header(s2).checksum == ck);
    assert(ck == spec_wire_checksum(s));
    // The recomputed checksum moves by the difference of the bytes.
    let z = s.update(11, 0u8).update(12, 0u8);
    let z2 = s2.update(11, 0u8).update(12, 0u8);
    assert(z2 =~= z.update(i, c));
    assert(z[i] == s[i]);
    lemma_byte_sum_update(z, i, c);
    lemma_byte_sum_nonneg(z);
    lemma_byte_sum_nonneg(z2);
    lemma_mod_distinct(byte_sum(z), byte_sum(z2), 0x10000);
    assert(spec_wire_checksum(s2) != spec_wire_checksum(s));
}

/// Flipping any single payload or header bit other than the checksum
/// field's makes the packet decode as a checksum mismatch.
pub proof fn lemma_corrupt_bit(h: RdpHeader, data: Seq<u8>, i: int, k: u8)
    requires
        0 <= i < spec_encode(h, data).len(),
        !(11 <= i < 13),
        k < 8,
    ensures
        spec_decode(
            spec_encode(h, data).update(i, flip_bit(spec_encode(h, data)[i], k)),
        ) == Err::<(RdpHeader, Seq<u8>), RdpError>(RdpError::ChecksumMismatch),
{
    lemma_flip_bit_changes(spec_encode(h, data)[i], k);
    lemma_corrupt_byte(h, data, i, flip_bit(spec_encode(h, data)[i], k));
}

} // verus!
