use vstd::prelude::*;
use crate::rdp_conn::{
    spec_client_ack_header, spec_client_accepts, spec_listener_promotes, spec_syn_header,
    spec_synack_header, ConnState, Connection, FLAGS_SYN_ACK,
};
use crate::rdp_option::RdpOption;
use crate::rdp_packet::{RdpPacket, FLAG_ACK, FLAG_FIN, FLAG_RST, FLAG_SYN};
use crate::seqnum::w_add;

verus! {

/// A handshake in progress (the peer's SYN answered, its final ACK
/// awaited): the address, the server-side initial sequence number, and
/// the sequence number expected next from the client.
#[derive(Clone, Copy, Debug, PartialEq, Eq, Structural)]
pub struct PendingEntry {
    pub addr: u64,
    pub server_isn: u32,
    pub client_next: u32,
}

/// The listening side's connection registry.  Inbound packets from one
/// shared transport are demultiplexed by peer address: addresses in
/// `pending` are mid-handshake, addresses in `established` have a live
/// connection owned by the caller.  The two sets are disjoint.
pub struct Registry {
    pub pending: Vec<PendingEntry>,
    pub established: Vec<u64>,
    pub opt: RdpOption,
}

/// Some pending entry carries this address.
pub open spec fn pending_has(p: Seq<PendingEntry>, addr: u64) -> bool {
    exists|i: int| 0 <= i < p.len() && (#[trigger] p[i]).addr == addr
}

/// The index of the pending entry for this address.
pub open spec fn pending_at(p: Seq<PendingEntry>, addr: u64) -> int {
    choose|i: int| 0 <= i < p.len() && (#[trigger] p[i]).addr == addr
}

/// No address appears in two pending entries.
pub open spec fn pending_unique(p: Seq<PendingEntry>) -> bool {
    forall|i: int, j: int|
        0 <= i < j < p.len() ==> (#[trigger] p[i]).addr != (#[trigger] p[j]).addr
}

/// The SYN+ACK a pending entry answers with: its own initial sequence
/// number, acknowledging the client's.
pub open spec fn spec_pending_synack(e: PendingEntry, win: u16) -> crate::rdp_packet::RdpHeader {
    crate::rdp_packet::RdpHeader {
        seq_num: e.server_isn,
        ack_num: e.client_next,
        flags: FLAGS_SYN_ACK,
        window_size: win,
        checksum: 0,
    }
}

/// The pending table after a SYN from `addr`: the same SYN retransmitted
/// leaves a handshake in progress exactly as it is; a SYN with a new
/// sequence number restarts it, refreshing the entry; an unknown address
/// gets a new entry with the fresh server-side number and the client's
/// next sequence number.
pub open spec fn spec_on_syn(
    p: Seq<PendingEntry>,
    addr: u64,
    fresh_isn: u32,
    syn_seq: u32,
) -> Seq<PendingEntry> {
    let e = PendingEntry { addr, server_isn: fresh_isn, client_next: w_add(syn_seq, 1) };
    if pending_has(p, addr) {
        if p[pending_at(p, addr)].client_next == w_add(syn_seq, 1) {
            p
        } else {
            p.update(pending_at(p, addr), e)
        }
    } else {
        p.push(e)
    }
}

impl Registry {
    /// Well-formedness: addresses are unique within each table and the
    /// two tables are disjoint.
    pub open spec fn wf(self) -> bool {
        &&& self.opt.mss > 0
        &&& pending_unique(self.pending@)
        &&& (forall|i: int, j: int|
            0 <= i < j < self.established@.len() ==> self.established@[i] != self.established@[j])
        &&& (forall|i: int|
            0 <= i < self.pending@.len() ==> !self.established@.contains(
                (#[trigger] self.pending@[i]).addr,
            ))
    }

    /// An empty registry listening with the given options.
    pub fn new(opt: RdpOption) -> (r: Registry)
        requires
            opt.mss > 0,
        ensures
            r.wf(),
            r.pending@.len() == 0,
            r.established@.len() == 0,
            r.opt == opt,
    {
        Registry { pending: Vec::new(), established: Vec::new(), opt }
    }

    fn find_pending(&self, addr: u64) -> (r: Option<usize>)
        ensures
            r is Some ==> r->Some_0 < self.pending@.len() && self.pending@[
                r->Some_0 as int
            ].addr == addr,
            r is None ==> !pending_has(self.pending@, addr),
    {
        let mut i: usize = 0;
        while i < self.pending.len()
            invariant
                i <= self.pending@.len(),
                forall|j: int| 0 <= j < i ==> (#[trigger] self.pending@[j]).addr != addr,
            decreases self.pending@.len() - i,
        {
            if self.pending[i].addr == addr {
                return Some(i);
            }
            i = i + 1;
        }
        None
    }

    fn is_established(&self, addr: u64) -> (r: bool)
        ensures
            r == self.established@.contains(addr),
    {
        let mut i: usize = 0;
        while i < self.established.len()
            invariant
                i <= self.established@.len(),
                forall|j: int| 0 <= j < i ==> self.established@[j] != addr,
            decreases self.established@.len() - i,
        {
            if self.established[i] == addr {
                return true;
            }
            i = i + 1;
        }
        false
    }

    /// Dispatch one inbound packet by peer address.
    ///
    /// An RST aborts whatever the address had: its pending entry and its
    /// established registration are both removed.  A SYN from an unknown
    /// address opens a pending handshake with the fresh server-side
    /// number and is answered with a SYN+ACK; the same SYN again is
    /// answered idempotently from the stored entry, and no second entry
    /// appears; a SYN with a new sequence number restarts the handshake.
    /// An ACK that acknowledges a pending entry's number promotes the
    /// address to `established` and hands the caller the new connection.
    /// A FIN from an established address frees its registry entry (the
    /// connection object itself runs the teardown exchange), so the peer
    /// may later connect afresh.  Other packets from established
    /// addresses, and packets for unknown addresses without a SYN, are
    /// not the registry's to answer: they are dropped.
    pub fn handle_packet(&mut self, addr: u64, pkt: &RdpPacket, fresh_isn: u32) -> (r: (
        Option<Connection>,
        Vec<RdpPacket>,
    ))
        requires
            old(self).wf(),
        ensures
            final(self).wf(),
            final(self).opt == old(self).opt,
            // any state, on RST: the address is gone from both tables
            pkt.header.flags & FLAG_RST != 0 ==> r.0 is None && r.1@.len() == 0 && !pending_has(
                final(self).pending@,
                addr,
            ) && !final(self).established@.contains(addr) && final(self).pending@ == (
            if pending_has(old(self).pending@, addr) {
                old(self).pending@.remove(pending_at(old(self).pending@, addr))
            } else {
                old(self).pending@
            }) && (forall|a: u64|
                a != addr ==> final(self).established@.contains(a) == old(self).established@.contains(a)),
            pkt.header.flags & FLAG_RST == 0 && pkt.header.flags & FLAG_SYN != 0 ==> r.0 is None
                && final(self).established@ == old(self).established@,
            pkt.header.flags & FLAG_RST == 0 && pkt.header.flags & FLAG_SYN != 0 && old(self).established@.contains(addr) ==> *final(self) == *old(self) && r.1@.len() == 0,
            pkt.header.flags & FLAG_RST == 0 && pkt.header.flags & FLAG_SYN != 0 && !old(self).established@.contains(addr) ==> {
                &&& final(self).pending@ == spec_on_syn(
                    old(self).pending@,
                    addr,
                    fresh_isn,
                    pkt.header.seq_num,
                )
                &&& pending_has(final(self).pending@, addr)
                &&& r.1@.len() == 1
                &&& r.1@[0].header == spec_pending_synack(
                    final(self).pending@[pending_at(final(self).pending@, addr)],
                    old(self).opt.window,
                )
                &&& r.1@[0].data@.len() == 0
            },
            pkt.header.flags & FLAG_RST == 0 && pkt.header.flags & FLAG_SYN == 0 ==> r.1@.len()
                == 0 && final(self).pending@.len() <= old(self).pending@.len(),
            // a FIN from an established address frees its registry entry
            pkt.header.flags & FLAG_RST == 0 && pkt.header.flags & FLAG_SYN == 0
                && pkt.header.flags & FLAG_FIN != 0 && old(self).established@.contains(addr)
                ==> r.0 is None && final(self).pending@ == old(self).pending@ && !final(self).established@.contains(addr) && (forall|a: u64|
                a != addr ==> final(self).established@.contains(a) == old(self).established@.contains(a)),
            pkt.header.flags & FLAG_RST == 0 && pkt.header.flags & FLAG_SYN == 0 && !(
            pkt.header.flags & FLAG_ACK != 0 && !old(self).established@.contains(addr)
                && pending_has(old(self).pending@, addr) && spec_listener_promotes(
                old(self).pending@[pending_at(old(self).pending@, addr)].server_isn,
                pkt.header,
            )) && !(pkt.header.flags & FLAG_FIN != 0 && old(self).established@.contains(addr))
                ==> *final(self) == *old(self) && r.0 is None,
            pkt.header.flags & FLAG_RST == 0 && pkt.header.flags & FLAG_SYN == 0
                && pkt.header.flags & FLAG_ACK != 0 && !old(self).established@.contains(addr)
                && pending_has(old(self).pending@, addr) && spec_listener_promotes(
                old(self).pending@[pending_at(old(self).pending@, addr)].server_isn,
                pkt.header,
            ) ==> {
                let e = old(self).pending@[pending_at(old(self).pending@, addr)];
                &&& r.0 is Some
                &&& r.0->Some_0.wf()
                &&& r.0->Some_0.state == ConnState::Established
                &&& r.0->Some_0.send_next == w_add(e.server_isn, 1)
                &&& r.0->Some_0.recv_next == e.client_next
                &&& r.0->Some_0.peer_window == pkt.header.window_size
                &&& r.0->Some_0.opt == old(self).opt
                &&& !r.0->Some_0.reset
                &&& r.0->Some_0.inbox@.len() == 0
                &&& r.0->Some_0.in_flight@.len() == 0
                &&& final(self).established@ == old(self).established@.push(addr)
                &&& final(self).pending@ == old(self).pending@.remove(
                    pending_at(old(self).pending@, addr),
                )
                &&& r.1@.len() == 0
            },
    {
        let mut out: Vec<RdpPacket> = Vec::new();
        if pkt.header.rst() {
            match self.find_pending(addr) {
                Some(i) => {
                    proof {
                        assert(pending_has(self.pending@, addr));
                        let k = pending_at(self.pending@, addr);
                        assert(0 <= k < self.pending@.len() && self.pending@[k].addr == addr);
                        assert(k == i as int);
                    }
                    let ghost pre = self.pending@;
                    let _gone = self.pending.remove(i);
                    proof {
                        assert(self.pending@ == pre.remove(i as int));
                        assert forall|j: int|
                            0 <= j < self.pending@.len() implies (#[trigger] self.pending@[j]).addr
                            != addr by {
                            if j < i as int {
                                assert(self.pending@[j] == pre[j]);
                            } else {
                                assert(self.pending@[j] == pre[j + 1]);
                            }
                        }
                        assert forall|a: int, b: int|
                            0 <= a < b < self.pending@.len() implies (
                        #[trigger] self.pending@[a]).addr != (#[trigger] self.pending@[b]).addr by {
                            let pa = if a < i as int {
                                a
                            } else {
                                a + 1
                            };
                            let pb = if b < i as int {
                                b
                            } else {
                                b + 1
                            };
                            assert(self.pending@[a] == pre[pa] && self.pending@[b] == pre[pb]);
                        }
                        assert forall|a: int|
                            0 <= a < self.pending@.len() implies !self.established@.contains(
                            (#[trigger] self.pending@[a]).addr,
                        ) by {
                            let pa = if a < i as int {
                                a
                            } else {
                                a + 1
                            };
                            assert(self.pending@[a] == pre[pa]);
                        }
                    }
                },
                None => {},
            }
            self.remove(addr);
            return (None, out);
        }
        if pkt.header.syn() {
            if self.is_established(addr) {
                return (None, out);
            }
            match self.find_pending(addr) {
                Some(i) => {
                    proof {
                        assert(pending_has(self.pending@, addr));
                        let k = pending_at(self.pending@, addr);
                        assert(0 <= k < self.pending@.len() && self.pending@[k].addr == addr);
                        assert(k == i as int);
                    }
                    let expect = crate::seqnum::seq_add(pkt.header.seq_num, 1);
                    if self.pending[i].client_next == expect {
                        // the same SYN again: answered from the stored
                        // entry, never duplicated
                        let e = self.pending[i];
                        out.push(
                            RdpPacket {
                                header: crate::rdp_packet::RdpHeader {
                                    seq_num: e.server_isn,
                                    ack_num: e.client_next,
                                    flags: FLAGS_SYN_ACK,
                                    window_size: self.opt.window,
                                    checksum: 0,
                                },
                                data: Vec::new(),
                            },
                        );
                        (None, out)
                    } else {
                        // a SYN with a new sequence number restarts this
                        // handshake: the entry is refreshed
                        let ghost pre = self.pending@;
                        let e = vstd::std_specs::vec::vec_index_mut(&mut self.pending, i);
                        *e = PendingEntry { addr, server_isn: fresh_isn, client_next: expect };
                        proof {
                            let fresh = PendingEntry {
                                addr,
                                server_isn: fresh_isn,
                                client_next: expect,
                            };
                            assert(self.pending@ == pre.update(i as int, fresh));
                            assert forall|j: int|
                                0 <= j < self.pending@.len() implies (
                            #[trigger] self.pending@[j]).addr == pre[j].addr by {
                                if j != i as int {
                                    assert(self.pending@[j] == pre[j]);
                                }
                            }
                            assert(pending_has(self.pending@, addr));
                            let k = pending_at(self.pending@, addr);
                            assert(0 <= k < self.pending@.len() && self.pending@[k].addr == addr);
                            assert(k == i as int);
                        }
                        out.push(
                            RdpPacket {
                                header: crate::rdp_packet::RdpHeader {
                                    seq_num: fresh_isn,
                                    ack_num: expect,
                                    flags: FLAGS_SYN_ACK,
                                    window_size: self.opt.window,
                                    checksum: 0,
                                },
                                data: Vec::new(),
                            },
                        );
                        (None, out)
                    }
                },
                None => {
                    let e = PendingEntry {
                        addr,
                        server_isn: fresh_isn,
                        client_next: crate::seqnum::seq_add(pkt.header.seq_num, 1),
                    };
                    let ghost pre = self.pending@;
                    self.pending.push(e);
                    out.push(
                        RdpPacket {
                            header: crate::rdp_packet::RdpHeader {
                                seq_num: fresh_isn,
                                ack_num: e.client_next,
                                flags: FLAGS_SYN_ACK,
                                window_size: self.opt.window,
                                checksum: 0,
                            },
                            data: Vec::new(),
                        },
                    );
                    proof {
                        assert(self.pending@[pre.len() as int].addr == addr);
                        assert(pending_has(self.pending@, addr));
                        let k = pending_at(self.pending@, addr);
                        assert(0 <= k < self.pending@.len() && self.pending@[k].addr == addr);
                        assert forall|j: int| 0 <= j < pre.len() implies (#[trigger] self.pending@[j]).addr
                            != addr by {
                            assert(self.pending@[j] == pre[j]);
                        }
                        assert(k == pre.len() as int);
                    }
                    (None, out)
                },
            }
        } else if pkt.header.fin() && self.is_established(addr) {
            // the connection object runs the teardown exchange; the
            // registry frees the address so the peer may connect again
            self.remove(addr);
            (None, out)
        } else if pkt.header.ack() {
            if self.is_established(addr) {
                return (None, out);
            }
            match self.find_pending(addr) {
                Some(i) => {
                    let e = self.pending[i];
                    proof {
                        let k = pending_at(self.pending@, addr);
                        assert(pending_has(self.pending@, addr));
                        assert(0 <= k < self.pending@.len() && self.pending@[k].addr == addr);
                        assert(k == i as int);
                    }
                    if !pkt.header.fin() && pkt.header.ack_num == crate::seqnum::seq_add(
                        e.server_isn,
                        1,
                    ) {
                        let _removed = self.pending.remove(i);
                        self.established.push(addr);
                        let conn = Connection::server_establish(
                            e.server_isn,
                            e.client_next,
                            pkt.header.window_size,
                            self.opt,
                        );
                        proof {
                            assert(pkt.header.flags & FLAG_ACK != 0 && pkt.header.flags & FLAG_SYN
                                == 0);
                            assert forall|a: int, b: int|
                                0 <= a < b < self.established@.len() implies self.established@[a]
                                != self.established@[b] by {
                                if b == self.established@.len() - 1 {
                                    assert(old(self).established@.contains(
                                        old(self).established@[a],
                                    ));
                                }
                            }
                            assert forall|a: int|
                                0 <= a < self.pending@.len() implies !self.established@.contains(
                                (#[trigger] self.pending@[a]).addr,
                            ) by {
                                let pa = self.pending@[a];
                                if a < i as int {
                                    assert(pa == old(self).pending@[a]);
                                } else {
                                    assert(pa == old(self).pending@[a + 1]);
                                }
                                assert(!old(self).established@.contains(pa.addr));
                                assert(pa.addr != addr);
                                assert forall|b: int|
                                    0 <= b < self.established@.len() implies self.established@[b]
                                    != pa.addr by {
                                    if b < self.established@.len() - 1 {
                                        assert(self.established@[b] == old(self).established@[b]);
                                        assert(old(self).established@.contains(
                                            old(self).established@[b],
                                        ));
                                    }
                                }
                            }
                        }
                        (Some(conn), out)
                    } else {
                        // a non-matching ACK leaves the handshake pending
                        (None, out)
                    }
                },
                None => (None, out),
            }
        } else {
            // neither SYN nor ACK from an address without a connection:
            // stray traffic, dropped
            (None, out)
        }
    }

    /// Forget an address whose connection has closed; its registry entry
    /// is removed and a later SYN may start a fresh handshake.
    pub fn remove(&mut self, addr: u64)
        requires
            old(self).wf(),
        ensures
            final(self).wf(),
            final(self).opt == old(self).opt,
            final(self).pending@ == old(self).pending@,
            !final(self).established@.contains(addr),
            forall|a: u64|
                a != addr ==> final(self).established@.contains(a) == old(self).established@.contains(a),
    {
        let mut i: usize = 0;
        while i < self.established.len()
            invariant
                old(self).wf(),
                i <= self.established@.len(),
                self.pending@ == old(self).pending@,
                self.opt == old(self).opt,
                self.established@ == old(self).established@,
                forall|j: int| 0 <= j < i ==> self.established@[j] != addr,
            decreases self.established@.len() - i,
        {
            if self.established[i] == addr {
                let _gone = self.established.remove(i);
                proof {
                    assert forall|b: int|
                        0 <= b < self.established@.len() implies self.established@[b] != addr by {
                        if b < i as int {
                            assert(self.established@[b] == old(self).established@[b]);
                        } else {
                            assert(self.established@[b] == old(self).established@[b + 1]);
                        }
                    }
                    assert forall|a: u64|
                        a != addr && old(self).established@.contains(a) implies #[trigger] self.established@.contains(
                        a,
                    ) by {
                        let j = choose|j: int|
                            0 <= j < old(self).established@.len() && old(self).established@[j]
                                == a;
                        if j < i as int {
                            assert(self.established@[j] == a);
                        } else {
                            assert(self.established@[j - 1] == a);
                        }
                    }
                    assert forall|a: int|
                        0 <= a < self.pending@.len() implies !self.established@.contains(
                        (#[trigger] self.pending@[a]).addr,
                    ) by {
                        assert forall|b: int|
                            0 <= b < self.established@.len() implies self.established@[b]
                            != self.pending@[a].addr by {
                            if b < i as int {
                                assert(self.established@[b] == old(self).established@[b]);
                            } else {
                                assert(self.established@[b] == old(self).established@[b + 1]);
                            }
                            assert(!old(self).established@.contains(self.pending@[a].addr));
                        }
                    }
                }
                return ;
            }
            i = i + 1;
        }
    }
}

/// Handshake correctness: a client's SYN, answered by a listener's
/// SYN+ACK, completed by the client's ACK, converges: the client accepts
/// the SYN+ACK and reaches ESTABLISHED, the listener's entry accepts the
/// final ACK, and each side acknowledges exactly the other's initial
/// sequence number plus one.
pub proof fn lemma_handshake_converges(ci: u32, si: u32, cw: u16, sw: u16)
    ensures
        ({
            let syn = spec_syn_header(ci, cw);
            let sa = spec_synack_header(si, syn.seq_num, sw);
            let ack = spec_client_ack_header(ci, sa, cw);
            &&& spec_client_accepts(ci, sa)
            &&& sa.ack_num == w_add(ci, 1)
            &&& spec_listener_promotes(si, ack)
            &&& ack.ack_num == w_add(si, 1)
            &&& ack.seq_num == w_add(ci, 1)
        }),
{
    assert(FLAG_ACK & FLAG_ACK != 0 && FLAG_ACK & FLAG_SYN == 0 && FLAG_ACK & FLAG_FIN == 0)
        by (bit_vector);
}

/// Duplicate SYN tolerance: a second SYN from the same address with the
/// same sequence number, before the handshake completes, leaves the
/// pending table exactly as the first left it — one entry for the
/// address, never two — so the listener's answer, drawn from that entry,
/// is the same both times.
pub proof fn lemma_duplicate_syn(
    p: Seq<PendingEntry>,
    addr: u64,
    f1: u32,
    f2: u32,
    syn_seq: u32,
)
    requires
        pending_unique(p),
    ensures
        ({
            let p1 = spec_on_syn(p, addr, f1, syn_seq);
            let p2 = spec_on_syn(p1, addr, f2, syn_seq);
            &&& p2 == p1
            &&& pending_has(p1, addr)
            &&& pending_unique(p1)
        }),
{
    let w = w_add(syn_seq, 1);
    let e1 = PendingEntry { addr, server_isn: f1, client_next: w };
    let p1 = spec_on_syn(p, addr, f1, syn_seq);
    if pending_has(p, addr) {
        let i = pending_at(p, addr);
        assert(0 <= i < p.len() && p[i].addr == addr);
        if p[i].client_next == w {
            assert(p1 == p);
        } else {
            assert(p1 == p.update(i, e1));
            assert forall|k: int|
                0 <= k < p1.len() implies (#[trigger] p1[k]).addr == p[k].addr by {
                if k != i {
                    assert(p1[k] == p[k]);
                }
            }
            assert forall|a: int, b: int|
                0 <= a < b < p1.len() implies (#[trigger] p1[a]).addr != (
            #[trigger] p1[b]).addr by {
                assert(p[a].addr != p[b].addr);
            }
        }
        // the address sits at `i` and nowhere else, expecting `w`
        assert(p1[i].addr == addr && p1[i].client_next == w);
        assert(pending_has(p1, addr));
        let j = pending_at(p1, addr);
        assert(0 <= j < p1.len() && p1[j].addr == addr);
        assert(j == i) by {
            if j != i {
                assert(p[j].addr == addr && p[i].addr == addr);
            }
        }
        assert(spec_on_syn(p1, addr, f2, syn_seq) == p1);
    } else {
        assert(p1 == p.push(e1));
        assert(p1[p.len() as int].addr == addr);
        assert(pending_has(p1, addr));
        assert forall|a: int, b: int|
            0 <= a < b < p1.len() implies (#[trigger] p1[a]).addr != (#[trigger] p1[b]).addr by {
            if b < p.len() {
                assert(p1[a] == p[a] && p1[b] == p[b]);
            } else {
                assert(p1[a] == p[a]);
                assert(p[a].addr != addr || pending_has(p, addr));
            }
        }
        let j = pending_at(p1, addr);
        assert(0 <= j < p1.len() && p1[j].addr == addr);
        assert(j == p.len()) by {
            if j < p.len() {
                assert(p[j].addr == addr);
                assert(pending_has(p, addr));
            }
        }
        assert(p1[j].client_next == w);
        assert(spec_on_syn(p1, addr, f2, syn_seq) == p1);
    }
}

} // verus!
