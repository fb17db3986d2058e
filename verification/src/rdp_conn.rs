use vstd::prelude::*;
use crate::rdp_error::RdpError;
use crate::rdp_option::RdpOption;
use crate::rdp_packet::{RdpHeader, RdpPacket, FLAG_ACK, FLAG_FIN, FLAG_RST, FLAG_SYN};
use crate::seqnum::{s_lt, seq_add, seq_lt, seq_sub, w_add, w_sub};

verus! {

/// Per-connection protocol state.
#[derive(Clone, Copy, Debug, PartialEq, Eq, Structural)]
pub enum ConnState {
    Closed,
    SynSent,
    SynReceived,
    Established,
    FinWait,
    LastAck,
}

pub const FLAGS_SYN_ACK: u8 = 0b0000_0011;

pub const FLAGS_FIN_ACK: u8 = 0b0000_0110;

/// One in-flight chunk of outgoing data.
pub struct Segment {
    pub seq: u32,
    pub data: Vec<u8>,
    pub last_sent: u64,
    pub retries: u32,
}

/// One side of a connection: the state machine together with the
/// reliable-delivery bookkeeping.  The engine is pure: callers feed it
/// packets, clock readings and initial sequence numbers, and it returns the
/// packets to transmit; all I/O stays outside.
pub struct Connection {
    /// Protocol state.
    pub state: ConnState,
    /// Our initial sequence number, fixed at `client_start`.
    pub isn: u32,
    /// Next sequence number to assign to outgoing data.
    pub send_next: u32,
    /// Lowest unacknowledged sequence number.
    pub send_unacked_base: u32,
    /// Next sequence number expected from the peer.
    pub recv_next: u32,
    /// Outgoing chunks not yet cumulatively acknowledged, in sequence
    /// order; the first `n_sent` of them have been transmitted, the rest
    /// wait for window room.
    pub in_flight: Vec<Segment>,
    /// How many segments of `in_flight` have been transmitted.
    pub n_sent: usize,
    /// Payload bytes in the transmitted prefix of `in_flight`.
    pub sent_bytes: u32,
    /// Data received ahead of `recv_next`, keyed by sequence number.
    pub reorder: Vec<(u32, Vec<u8>)>,
    /// In-order bytes ready for the application to read.
    pub inbox: Vec<u8>,
    /// The peer's most recently advertised window.
    pub peer_window: u16,
    /// When the teardown gives up waiting, once a FIN has been sent.
    pub fin_deadline: u64,
    /// Tunables.
    pub opt: RdpOption,
    /// Whether the connection ended by reset or fatal failure.
    pub reset: bool,
}

/// Total payload bytes of a run of segments.
pub open spec fn seg_bytes(s: Seq<Segment>) -> int
    decreases s.len(),
{
    if s.len() == 0 {
        0
    } else {
        s[0].data@.len() + seg_bytes(s.skip(1))
    }
}

pub proof fn lemma_seg_bytes_nonneg(s: Seq<Segment>)
    ensures
        seg_bytes(s) >= 0,
    decreases s.len(),
{
    if s.len() > 0 {
        lemma_seg_bytes_nonneg(s.skip(1));
    }
}

/// The sum splits around any prefix.
pub proof fn lemma_seg_bytes_split(s: Seq<Segment>, k: int)
    requires
        0 <= k <= s.len(),
    ensures
        seg_bytes(s) == seg_bytes(s.take(k)) + seg_bytes(s.skip(k)),
    decreases k,
{
    if k > 0 {
        lemma_seg_bytes_split(s.skip(1), k - 1);
        assert(s.take(k).skip(1) =~= s.skip(1).take(k - 1));
        assert(s.skip(1).skip(k - 1) =~= s.skip(k));
        assert(seg_bytes(s.take(k)) == s[0].data@.len() + seg_bytes(s.skip(1).take(k - 1)));
    } else {
        assert(s.take(0) =~= Seq::<Segment>::empty());
        assert(s.skip(0) =~= s);
    }
}

/// Appending one segment adds its bytes.
pub proof fn lemma_seg_bytes_push(s: Seq<Segment>, seg: Segment)
    ensures
        seg_bytes(s.push(seg)) == seg_bytes(s) + seg.data@.len(),
    decreases s.len(),
{
    reveal_with_fuel(seg_bytes, 3);
    if s.len() == 0 {
        assert(s.push(seg)[0] == seg);
        assert(s.push(seg).skip(1) =~= Seq::<Segment>::empty());
    } else {
        lemma_seg_bytes_push(s.skip(1), seg);
        assert(s.push(seg)[0] == s[0]);
        assert(s.push(seg).skip(1) =~= s.skip(1).push(seg));
    }
}

/// Total bytes of a run of reorder entries.
pub open spec fn entries_bytes(s: Seq<(u32, Seq<u8>)>) -> int
    decreases s.len(),
{
    if s.len() == 0 {
        0
    } else {
        s[0].1.len() + entries_bytes(s.skip(1))
    }
}

pub proof fn lemma_entries_bytes_nonneg(s: Seq<(u32, Seq<u8>)>)
    ensures
        entries_bytes(s) >= 0,
    decreases s.len(),
{
    if s.len() > 0 {
        lemma_entries_bytes_nonneg(s.skip(1));
    }
}

/// Reorder entries, seen relative to a base sequence number: each starts
/// strictly after the base, ends within `cap` of it, and they are sorted
/// and pairwise disjoint.
pub open spec fn entries_wf(s: Seq<(u32, Seq<u8>)>, base: u32, cap: int) -> bool {
    &&& forall|i: int|
        0 <= i < s.len() ==> 0 < w_sub((#[trigger] s[i]).0, base) && w_sub(s[i].0, base)
            + s[i].1.len() <= cap && 0 < s[i].1.len()
    &&& forall|i: int|
        0 <= i < s.len() - 1 ==> w_sub((#[trigger] s[i]).0, base) + s[i].1.len() <= w_sub(
            s[i + 1].0,
            base,
        )
}

/// Sorted disjoint entries within `cap` of the base hold at most
/// `cap` bytes in all.
pub proof fn lemma_entries_bytes_bound(s: Seq<(u32, Seq<u8>)>, base: u32, cap: int)
    requires
        entries_wf(s, base, cap),
        cap >= 0,
    ensures
        entries_bytes(s) <= cap,
    decreases s.len(),
{
    if s.len() > 0 {
        lemma_entries_bytes_bound_from(s, base, cap);
    }
}

proof fn lemma_entries_bytes_bound_from(s: Seq<(u32, Seq<u8>)>, base: u32, cap: int)
    requires
        entries_wf(s, base, cap),
        s.len() > 0,
    ensures
        entries_bytes(s) <= cap - w_sub(s[0].0, base),
    decreases s.len(),
{
    let t = s.skip(1);
    if t.len() == 0 {
        assert(entries_bytes(s) == s[0].1.len() + entries_bytes(t));
    } else {
        assert(forall|i: int|
            0 <= i < t.len() ==> #[trigger] t[i] == s[i + 1]);
        lemma_entries_bytes_bound_from(t, base, cap);
        assert(w_sub(t[0].0, base) >= w_sub(s[0].0, base) + s[0].1.len());
    }
}

impl Connection {
    /// The reorder entries with their payloads as byte sequences.
    pub open spec fn entries(self) -> Seq<(u32, Seq<u8>)> {
        self.reorder@.map_values(|e: (u32, Vec<u8>)| (e.0, e.1@))
    }

    /// One extra sequence number is consumed by our FIN while tearing down.
    pub open spec fn fin_adj(self) -> int {
        if self.state is FinWait || self.state is LastAck {
            1
        } else {
            0
        }
    }

    /// Well-formedness: the in-flight queue is a contiguous run of
    /// non-empty chunks starting at `send_unacked_base` and ending at
    /// `send_next` (less the FIN's number while closing), the transmitted
    /// prefix is tracked exactly, the reorder buffer is sorted, disjoint
    /// and within the advertised window, and a closed connection holds no
    /// buffers.
    pub open spec fn wf(self) -> bool {
        &&& self.opt.mss > 0
        &&& self.n_sent <= self.in_flight@.len()
        &&& seg_bytes(self.in_flight@) + 1 < 0x8000_0000
        &&& (forall|i: int|
            0 <= i < self.in_flight@.len() ==> (#[trigger] self.in_flight@[i]).seq == w_add(
                self.send_unacked_base,
                seg_bytes(self.in_flight@.take(i)) as u32,
            ))
        &&& (forall|i: int|
            0 <= i < self.in_flight@.len() ==> 0 < (#[trigger] self.in_flight@[i]).data@.len()
                <= self.opt.mss)
        &&& self.sent_bytes == seg_bytes(self.in_flight@.take(self.n_sent as int))
        &&& self.send_next == w_add(
            self.send_unacked_base,
            (seg_bytes(self.in_flight@) + self.fin_adj()) as u32,
        )
        &&& entries_wf(self.entries(), self.recv_next, self.opt.window as int)
        &&& (self.state is Closed ==> self.in_flight@.len() == 0 && self.reorder@.len() == 0)
    }

    /// The window this side advertises: the reorder buffer's remaining
    /// capacity.
    pub open spec fn spec_advertised(self) -> u16 {
        if entries_bytes(self.entries()) >= self.opt.window {
            0
        } else {
            (self.opt.window - entries_bytes(self.entries())) as u16
        }
    }

    /// Compute the advertised window.
    pub fn advertised_window(&self) -> (w: u16)
        requires
            self.wf(),
        ensures
            w == self.spec_advertised(),
    {
        proof {
            lemma_entries_bytes_bound(self.entries(), self.recv_next, self.opt.window as int);
            lemma_entries_bytes_nonneg(self.entries());
            assert(self.entries().skip(0) =~= self.entries());
        }
        let mut used: u32 = 0;
        let mut i: usize = 0;
        while i < self.reorder.len()
            invariant
                self.wf(),
                i <= self.reorder@.len(),
                used == entries_bytes(self.entries()) - entries_bytes(self.entries().skip(i as int)),
                entries_bytes(self.entries()) <= self.opt.window,
            decreases self.reorder@.len() - i,
        {
            proof {
                lemma_entries_bytes_nonneg(self.entries().skip(i + 1));
                assert(self.entries().skip(i as int).skip(1) =~= self.entries().skip(i + 1));
                assert(entries_bytes(self.entries().skip(i as int)) == self.entries()[i as int].1.len()
                    + entries_bytes(self.entries().skip(i + 1)));
                assert(self.entries()[i as int].1.len() == self.reorder@[i as int].1@.len());
            }
            used = used + self.reorder[i].1.len() as u32;
            i = i + 1;
        }
        proof {
            assert(self.entries().skip(self.reorder@.len() as int) =~= Seq::<(u32, Seq<u8>)>::empty());
        }
        if used >= self.opt.window as u32 {
            0
        } else {
            self.opt.window - used as u16
        }
    }
}

/// The receive side of a connection, as a mathematical value.
pub ghost struct RecvState {
    pub recv_next: u32,
    pub entries: Seq<(u32, Seq<u8>)>,
    pub inbox: Seq<u8>,
}

/// The bytes delivered when the reorder buffer is drained starting at
/// `from`: each entry that sits exactly at the cursor is delivered and
/// moves the cursor past itself; entries the cursor has already passed are
/// stale and dropped; the first entry still ahead stops the drain.
pub open spec fn drained(entries: Seq<(u32, Seq<u8>)>, from: u32) -> Seq<u8>
    decreases entries.len(),
{
    if entries.len() == 0 {
        Seq::empty()
    } else if entries[0].0 == from {
        entries[0].1 + drained(entries.skip(1), w_add(from, entries[0].1.len() as u32))
    } else if s_lt(entries[0].0, from) {
        drained(entries.skip(1), from)
    } else {
        Seq::empty()
    }
}

/// The entries left after the drain.
pub open spec fn drained_rest(entries: Seq<(u32, Seq<u8>)>, from: u32) -> Seq<(u32, Seq<u8>)>
    decreases entries.len(),
{
    if entries.len() == 0 {
        entries
    } else if entries[0].0 == from {
        drained_rest(entries.skip(1), w_add(from, entries[0].1.len() as u32))
    } else if s_lt(entries[0].0, from) {
        drained_rest(entries.skip(1), from)
    } else {
        entries
    }
}

/// Where the cursor stands after the drain.
pub open spec fn drained_next(entries: Seq<(u32, Seq<u8>)>, from: u32) -> u32
    decreases entries.len(),
{
    if entries.len() == 0 {
        from
    } else if entries[0].0 == from {
        drained_next(entries.skip(1), w_add(from, entries[0].1.len() as u32))
    } else if s_lt(entries[0].0, from) {
        drained_next(entries.skip(1), from)
    } else {
        from
    }
}

/// The receive side after an in-order data packet: its payload is
/// delivered, the cursor advances past it, and the reorder buffer is
/// drained of whatever is now contiguous.
pub open spec fn deliver_in_order(m: RecvState, data: Seq<u8>) -> RecvState {
    let f = w_add(m.recv_next, data.len() as u32);
    RecvState {
        recv_next: drained_next(m.entries, f),
        entries: drained_rest(m.entries, f),
        inbox: m.inbox + data + drained(m.entries, f),
    }
}

/// When a packet ahead of the cursor may enter the reorder buffer: it is
/// non-empty, lies wholly within the advertised window, and overlaps no
/// buffered entry.
pub open spec fn can_buffer(m: RecvState, cap: int, seq: u32, data: Seq<u8>) -> bool {
    let p = w_sub(seq, m.recv_next) as int;
    &&& 0 < p
    &&& p + data.len() <= cap
    &&& data.len() > 0
    &&& forall|i: int|
        0 <= i < m.entries.len() ==> (w_sub((#[trigger] m.entries[i]).0, m.recv_next)
            + m.entries[i].1.len() <= p || p + data.len() <= w_sub(m.entries[i].0, m.recv_next))
}

/// The buffer with a new entry placed in circular-distance order.
pub open spec fn insert_sorted(
    entries: Seq<(u32, Seq<u8>)>,
    base: u32,
    seq: u32,
    data: Seq<u8>,
) -> Seq<(u32, Seq<u8>)>
    decreases entries.len(),
{
    if entries.len() == 0 {
        seq![(seq, data)]
    } else if w_sub(entries[0].0, base) < w_sub(seq, base) {
        seq![entries[0]] + insert_sorted(entries.skip(1), base, seq, data)
    } else {
        seq![(seq, data)] + entries
    }
}

/// The receive side after a packet ahead of the cursor: buffered when it
/// may be, dropped otherwise.
pub open spec fn buffer_packet(m: RecvState, cap: int, seq: u32, data: Seq<u8>) -> RecvState {
    if can_buffer(m, cap, seq, data) {
        RecvState {
            recv_next: m.recv_next,
            entries: insert_sorted(m.entries, m.recv_next, seq, data),
            inbox: m.inbox,
        }
    } else {
        m
    }
}

/// A suffix of a well-formed run of entries is well formed.
pub proof fn lemma_entries_wf_skip(s: Seq<(u32, Seq<u8>)>, base: u32, cap: int, k: int)
    requires
        entries_wf(s, base, cap),
        0 <= k <= s.len(),
    ensures
        entries_wf(s.skip(k), base, cap),
{
    assert forall|i: int| 0 <= i < s.skip(k).len() implies #[trigger] s.skip(k)[i] == s[i + k] by {}
}

/// Every later entry lies at or past the end of the first.
pub proof fn lemma_first_min(s: Seq<(u32, Seq<u8>)>, base: u32, cap: int)
    requires
        entries_wf(s, base, cap),
        s.len() > 0,
    ensures
        forall|j: int|
            1 <= j < s.len() ==> w_sub(s[0].0, base) + s[0].1.len() <= w_sub(
                (#[trigger] s[j]).0,
                base,
            ),
    decreases s.len(),
{
    if s.len() > 1 {
        lemma_entries_wf_skip(s, base, cap, 1);
        lemma_first_min(s.skip(1), base, cap);
        assert forall|j: int|
            1 <= j < s.len() implies w_sub(s[0].0, base) + s[0].1.len() <= w_sub(
            (#[trigger] s[j]).0,
            base,
        ) by {
            if j >= 2 {
                assert(s.skip(1)[j - 1] == s[j]);
                assert(s.skip(1)[0] == s[1]);
            }
        }
    }
}

/// `insert_sorted` puts the new entry at the first index whose distance
/// reaches the new one's.
pub proof fn lemma_insert_sorted_at(
    s: Seq<(u32, Seq<u8>)>,
    base: u32,
    seq: u32,
    data: Seq<u8>,
    k: int,
)
    requires
        0 <= k <= s.len(),
        forall|j: int| 0 <= j < k ==> w_sub((#[trigger] s[j]).0, base) < w_sub(seq, base),
        k < s.len() ==> w_sub(s[k].0, base) >= w_sub(seq, base),
    ensures
        insert_sorted(s, base, seq, data) == s.take(k) + seq![(seq, data)] + s.skip(k),
    decreases k,
{
    if k == 0 {
        if s.len() == 0 {
            assert(insert_sorted(s, base, seq, data) =~= s.take(0) + seq![(seq, data)] + s.skip(0));
        } else {
            assert(insert_sorted(s, base, seq, data) =~= s.take(0) + seq![(seq, data)] + s.skip(0));
        }
    } else {
        lemma_insert_sorted_at(s.skip(1), base, seq, data, k - 1);
        assert(forall|j: int|
            0 <= j < k - 1 ==> #[trigger] s.skip(1)[j] == s[j + 1]);
        assert(k - 1 < s.skip(1).len() ==> s.skip(1)[k - 1] == s[k]);
        assert(insert_sorted(s, base, seq, data) == seq![s[0]] + insert_sorted(
            s.skip(1),
            base,
            seq,
            data,
        ));
        assert(seq![s[0]] + (s.skip(1).take(k - 1) + seq![(seq, data)] + s.skip(1).skip(k - 1))
            =~= s.take(k) + seq![(seq, data)] + s.skip(k));
    }
}

impl Connection {
    /// The receive side as a mathematical value.
    pub open spec fn recv_state(self) -> RecvState {
        RecvState { recv_next: self.recv_next, entries: self.entries(), inbox: self.inbox@ }
    }

    /// Everything but the receive side agrees with `o`.
    pub open spec fn send_side_eq(self, o: Connection) -> bool {
        &&& self.state == o.state
        &&& self.isn == o.isn
        &&& self.send_next == o.send_next
        &&& self.send_unacked_base == o.send_unacked_base
        &&& self.in_flight@ == o.in_flight@
        &&& self.n_sent == o.n_sent
        &&& self.sent_bytes == o.sent_bytes
        &&& self.peer_window == o.peer_window
        &&& self.fin_deadline == o.fin_deadline
        &&& self.opt == o.opt
        &&& self.reset == o.reset
    }

    /// The receive side agrees with `o`.
    pub open spec fn recv_side_eq(self, o: Connection) -> bool {
        &&& self.recv_next == o.recv_next
        &&& self.reorder@ == o.reorder@
        &&& self.inbox@ == o.inbox@
    }

    /// Handle one incoming data payload while ESTABLISHED.
    ///
    /// At the cursor it is delivered and the reorder buffer drained of the
    /// now-contiguous run; ahead of the cursor it is buffered when the
    /// window and the buffered entries allow; behind the cursor it is a
    /// duplicate of delivered data and dropped.
    #[verifier::rlimit(100)]
    #[verifier::spinoff_prover]
    fn on_data(&mut self, seq: u32, data: &[u8])
        requires
            old(self).wf(),
            old(self).state is Established,
            0 < data@.len() <= 0xffff,
        ensures
            final(self).wf(),
            final(self).send_side_eq(*old(self)),
            seq == old(self).recv_next ==> final(self).recv_state() == deliver_in_order(
                old(self).recv_state(),
                data@,
            ),
            s_lt(seq, old(self).recv_next) ==> final(self).recv_state() == old(self).recv_state(),
            seq != old(self).recv_next && !s_lt(seq, old(self).recv_next)
                ==> final(self).recv_state() == buffer_packet(
                old(self).recv_state(),
                old(self).opt.window as int,
                seq,
                data@,
            ),
    {
        if seq == self.recv_next {
            self.deliver_and_drain(data);
        } else if seq_lt(seq, self.recv_next) {
            // a duplicate of already-delivered data: drop
        } else {
            self.buffer_future(seq, data);
        }
    }

    /// Deliver an in-order payload and drain the now-contiguous run of the
    /// reorder buffer.
    #[verifier::rlimit(100)]
    #[verifier::spinoff_prover]
    fn deliver_and_drain(&mut self, data: &[u8])
        requires
            old(self).wf(),
            old(self).state is Established,
            0 < data@.len() <= 0xffff,
        ensures
            final(self).wf(),
            final(self).send_side_eq(*old(self)),
            final(self).recv_state() == deliver_in_order(old(self).recv_state(), data@),
    {
        let ghost base0 = self.recv_next;
        let ghost cap = self.opt.window as int;
        let ghost e0 = self.entries();
        let ghost inbox0 = self.inbox@;
        {
            let d0: usize = data.len();
            self.inbox.extend_from_slice(data);
            self.recv_next = seq_add(self.recv_next, d0 as u32);
            let ghost f0 = w_add(base0, d0 as u32);
            let ghost mut adv: int = d0 as int;
            proof {
                assert(self.entries() =~= e0);
            }
            let mut done = false;
            while !done && self.reorder.len() > 0
                invariant
                    done ==> self.entries().len() > 0 && self.entries()[0].0 != self.recv_next
                        && !s_lt(self.entries()[0].0, self.recv_next),
                    self.opt.window == cap,
                    0 < adv <= if d0 as int > cap {
                        d0 as int
                    } else {
                        cap
                    },
                    d0 <= 0xffff,
                    cap <= 0xffff,
                    self.recv_next == w_add(base0, adv as u32),
                    entries_wf(self.entries(), base0, cap),
                    self.send_side_eq(*old(self)),
                    old(self).wf(),
                    drained_next(e0, f0) == drained_next(self.entries(), self.recv_next),
                    drained_rest(e0, f0) == drained_rest(self.entries(), self.recv_next),
                    inbox0 + data@ + drained(e0, f0) == self.inbox@ + drained(
                        self.entries(),
                        self.recv_next,
                    ),
                decreases self.reorder@.len(), if done {
                    0int
                } else {
                    1int
                },
            {
                let head_seq = self.reorder[0].0;
                let ghost cur = self.entries();
                let ghost rn = self.recv_next;
                proof {
                    assert(cur[0].0 == head_seq);
                    lemma_entries_wf_skip(cur, base0, cap, 1);
                }
                if head_seq == self.recv_next {
                    let entry = self.reorder.remove(0);
                    self.inbox.extend_from_slice(entry.1.as_slice());
                    self.recv_next = seq_add(self.recv_next, entry.1.len() as u32);
                    proof {
                        assert(self.entries() =~= cur.skip(1));
                        // the accepted entry sat exactly at the cursor, so
                        // the new cursor distance is its old end offset
                        crate::seqnum::lemma_sub_add(head_seq, base0);
                        let pos = w_sub(head_seq, base0) as int;
                        assert(pos == adv);
                        adv = adv + entry.1@.len();
                        assert(pos + entry.1@.len() <= cap);
                        crate::seqnum::lemma_add_add(
                            base0,
                            (adv - entry.1@.len()) as u32,
                            entry.1@.len() as u32,
                        );
                        assert(self.recv_next == w_add(base0, adv as u32));
                        assert(drained(cur, rn) == entry.1@ + drained(cur.skip(1), self.recv_next));
                        assert(inbox0 + data@ + drained(e0, f0) == self.inbox@ + drained(
                            self.entries(),
                            self.recv_next,
                        )) by {
                            assert((self.inbox@ + drained(self.entries(), self.recv_next)) =~= (
                            inbox0 + data@ + drained(e0, f0)));
                        }
                    }
                } else if seq_lt(head_seq, self.recv_next) {
                    let _stale = self.reorder.remove(0);
                    proof {
                        assert(self.entries() =~= cur.skip(1));
                        assert(drained(cur, rn) == drained(cur.skip(1), rn));
                    }
                } else {
                    done = true;
                }
            }
            proof {
                let cur = self.entries();
                let rn = self.recv_next;
                // drain has stopped: either the buffer is empty or its
                // first entry is still ahead of the cursor
                if cur.len() == 0 {
                    assert(drained(cur, rn) =~= Seq::<u8>::empty());
                    assert(entries_wf(cur, rn, cap));
                } else {
                    assert(cur[0].0 != rn && !s_lt(cur[0].0, rn));
                    lemma_first_min(cur, base0, cap);
                    let p0 = w_sub(cur[0].0, base0) as int;
                    crate::seqnum::lemma_sub_add(cur[0].0, base0);
                    crate::seqnum::lemma_order_by_distance(base0, adv as u32, p0 as u32);
                    assert(p0 > adv);
                    assert forall|i: int| 0 <= i < cur.len() implies 0 < w_sub(
                        (#[trigger] cur[i]).0,
                        base0,
                    ) - adv && w_sub(cur[i].0, rn) == w_sub(cur[i].0, base0) - adv by {
                        let pi = w_sub(cur[i].0, base0) as int;
                        if i > 0 {
                            assert(p0 + cur[0].1.len() <= pi);
                        }
                        crate::seqnum::lemma_sub_add(cur[i].0, base0);
                        crate::seqnum::lemma_order_by_distance(base0, adv as u32, pi as u32);
                    }
                    assert(entries_wf(cur, rn, cap));
                }
                assert(self.inbox@ =~= self.inbox@ + drained(cur, rn));
                assert(self.recv_state() == deliver_in_order(old(self).recv_state(), data@));
            }
        }
    }

    /// Place a disjoint, in-window entry at scan position `k`.
    #[verifier::rlimit(100)]
    #[verifier::spinoff_prover]
    fn insert_entry(&mut self, seq: u32, data: &[u8], k: usize)
        requires
            old(self).wf(),
            old(self).state is Established,
            0 < data@.len() <= 0xffff,
            k <= old(self).reorder@.len(),
            0 < w_sub(seq, old(self).recv_next),
            w_sub(seq, old(self).recv_next) + data@.len() <= old(self).opt.window,
            forall|j: int|
                0 <= j < k ==> w_sub((#[trigger] old(self).entries()[j]).0, old(self).recv_next)
                    < w_sub(seq, old(self).recv_next),
            k < old(self).reorder@.len() ==> w_sub(old(self).entries()[k as int].0, old(self).recv_next)
                >= w_sub(seq, old(self).recv_next),
            k > 0 ==> w_sub(old(self).entries()[k - 1].0, old(self).recv_next) + old(self).entries()[k - 1].1.len() <= w_sub(seq, old(self).recv_next),
            k < old(self).reorder@.len() ==> w_sub(seq, old(self).recv_next) + data@.len() <= w_sub(
                old(self).entries()[k as int].0,
                old(self).recv_next,
            ),
        ensures
            final(self).wf(),
            final(self).send_side_eq(*old(self)),
            final(self).recv_state() == buffer_packet(
                old(self).recv_state(),
                old(self).opt.window as int,
                seq,
                data@,
            ),
    {
        let ghost cap = self.opt.window as int;
        let ghost p = w_sub(seq, self.recv_next) as int;
        {
            proof {
                let m = old(self).recv_state();
                let cur = self.entries();
                assert forall|i: int| 0 <= i < cur.len() implies (w_sub(
                    (#[trigger] cur[i]).0,
                    self.recv_next,
                ) + cur[i].1.len() <= p || p + data@.len() <= w_sub(
                    cur[i].0,
                    self.recv_next,
                )) by {
                    if i < k - 1 {
                        assert(w_sub(cur[i].0, self.recv_next) + cur[i].1.len() <= w_sub(
                            cur[i + 1].0,
                            self.recv_next,
                        ));
                    }
                    if i >= k && i > k as int {
                        lemma_entries_wf_skip(cur, self.recv_next, cap, k as int);
                        lemma_first_min(cur.skip(k as int), self.recv_next, cap);
                        assert(cur.skip(k as int)[0] == cur[k as int]);
                        assert(cur.skip(k as int)[i - k] == cur[i]);
                    }
                }
                assert(can_buffer(m, cap, seq, data@));
                lemma_insert_sorted_at(cur, self.recv_next, seq, data@, k as int);
            }
            let ghost pre = self.entries();
            let item: (u32, Vec<u8>) = (seq, vstd::slice::slice_to_vec(data));
            self.reorder.insert(k, item);
            proof {
                let cur = self.entries();
                assert(cur =~= pre.take(k as int) + seq![(seq, data@)] + pre.skip(
                    k as int,
                ));
                assert forall|i: int| 0 <= i < cur.len() implies 0 < w_sub(
                    (#[trigger] cur[i]).0,
                    self.recv_next,
                ) && w_sub(cur[i].0, self.recv_next) + cur[i].1.len() <= cap by {
                    if i < k as int {
                        assert(cur[i] == pre[i]);
                    } else if i == k as int {
                    } else {
                        assert(cur[i] == pre[i - 1]);
                    }
                }
                assert forall|i: int| 0 <= i < cur.len() - 1 implies w_sub(
                    (#[trigger] cur[i]).0,
                    self.recv_next,
                ) + cur[i].1.len() <= w_sub(cur[i + 1].0, self.recv_next) by {
                    if i < k as int - 1 {
                        assert(cur[i] == pre[i] && cur[i + 1] == pre[i + 1]);
                    } else if i == k as int - 1 {
                        assert(cur[i] == pre[i]);
                    } else if i == k as int {
                        assert(cur[i + 1] == pre[i]);
                    } else {
                        assert(cur[i] == pre[i - 1] && cur[i + 1] == pre[i]);
                    }
                }
                assert(entries_wf(cur, self.recv_next, cap));
                assert(self.recv_state() == buffer_packet(
                    old(self).recv_state(),
                    cap,
                    seq,
                    data@,
                ));
            }
        }
    }

    /// Buffer a payload that lies ahead of the cursor, when the window and
    /// the buffered entries allow; drop it otherwise.
    #[verifier::rlimit(100)]
    #[verifier::spinoff_prover]
    fn buffer_future(&mut self, seq: u32, data: &[u8])
        requires
            old(self).wf(),
            old(self).state is Established,
            0 < data@.len() <= 0xffff,
            seq != old(self).recv_next,
            !s_lt(seq, old(self).recv_next),
        ensures
            final(self).wf(),
            final(self).send_side_eq(*old(self)),
            final(self).recv_state() == buffer_packet(
                old(self).recv_state(),
                old(self).opt.window as int,
                seq,
                data@,
            ),
    {
        let ghost cap = self.opt.window as int;
        {
            // ahead of the cursor: buffer when window and entries allow
            let p = seq_sub(seq, self.recv_next);
            let fits = (p as usize) + data.len() <= self.opt.window as usize;
            if fits {
                let mut k: usize = 0;
                while k < self.reorder.len() && seq_sub(self.reorder[k].0, self.recv_next) < p
                    invariant
                        self.recv_side_eq(*old(self)),
                        self.send_side_eq(*old(self)),
                        self.wf(),
                        k <= self.reorder@.len(),
                        p == w_sub(seq, self.recv_next),
                        forall|j: int|
                            0 <= j < k ==> w_sub((#[trigger] self.entries()[j]).0, self.recv_next)
                                < p,
                    decreases self.reorder@.len() - k,
                {
                    k = k + 1;
                }
                proof {
                    if k > 0 {
                        let i = k as int - 1;
                        assert(self.entries()[i] == (self.reorder@[i].0, self.reorder@[i].1@));
                        assert(w_sub(self.entries()[i].0, self.recv_next)
                            + self.entries()[i].1.len() <= self.opt.window);
                    }
                    if k < self.reorder@.len() {
                        let i = k as int;
                        assert(self.entries()[i] == (self.reorder@[i].0, self.reorder@[i].1@));
                        assert(w_sub(self.entries()[i].0, self.recv_next)
                            + self.entries()[i].1.len() <= self.opt.window);
                    }
                }
                let ok_pred = k == 0 || (seq_sub(self.reorder[k - 1].0, self.recv_next) as usize)
                    + self.reorder[k - 1].1.len() <= p as usize;
                let ok_succ = k == self.reorder.len() || (p as usize) + data.len() <= seq_sub(
                    self.reorder[k].0,
                    self.recv_next,
                ) as usize;
                if ok_pred && ok_succ {
                    self.insert_entry(seq, data, k);
                } else {
                    proof {
                        let m = old(self).recv_state();
                        let cur = self.entries();
                        assert(m.entries == cur && m.recv_next == self.recv_next);
                        if !ok_pred {
                            let i = k as int - 1;
                            assert(w_sub(cur[i].0, m.recv_next) + cur[i].1.len() > p);
                            assert(w_sub(cur[i].0, m.recv_next) < p);
                            assert(!can_buffer(m, cap, seq, data@));
                        } else {
                            let i = k as int;
                            assert(k < self.reorder.len());
                            assert(w_sub(cur[i].0, m.recv_next) >= p);
                            assert(0 < cur[i].1.len());
                            assert(p + data@.len() > w_sub(cur[i].0, m.recv_next));
                            assert(!(w_sub(cur[i].0, m.recv_next) + cur[i].1.len() <= p));
                            assert(!can_buffer(m, cap, seq, data@));
                        }
                    }
                }
            }
        }
    }
}

/// The larger of two integers.
pub open spec fn imax(a: int, b: int) -> int {
    if a >= b {
        a
    } else {
        b
    }
}

/// One more element of a prefix adds that element's bytes.
pub proof fn lemma_seg_bytes_take_step(s: Seq<Segment>, n: int)
    requires
        0 <= n < s.len(),
    ensures
        seg_bytes(s.take(n + 1)) == seg_bytes(s.take(n)) + s[n].data@.len(),
{
    lemma_seg_bytes_split(s.take(n + 1), n);
    assert(s.take(n + 1).take(n) =~= s.take(n));
    assert(s.take(n + 1).skip(n) =~= seq![s[n]]);
    reveal_with_fuel(seg_bytes, 3);
    assert(seq![s[n]].skip(1) =~= Seq::<Segment>::empty());
}

/// Segment runs with the same payloads have the same byte count.
pub proof fn lemma_seg_bytes_data_eq(a: Seq<Segment>, b: Seq<Segment>)
    requires
        a.len() == b.len(),
        forall|i: int| 0 <= i < a.len() ==> (#[trigger] a[i]).data@ == b[i].data@,
    ensures
        seg_bytes(a) == seg_bytes(b),
    decreases a.len(),
{
    if a.len() > 0 {
        assert(forall|i: int|
            0 <= i < a.skip(1).len() ==> (#[trigger] a.skip(1)[i]).data@ == b.skip(1)[i].data@);
        lemma_seg_bytes_data_eq(a.skip(1), b.skip(1));
    }
}

/// How many whole segments a cumulative acknowledgment `d` bytes past the
/// base covers.
pub open spec fn pop_acked(s: Seq<Segment>, d: int) -> int
    decreases s.len(),
{
    if s.len() > 0 && s[0].data@.len() <= d {
        1 + pop_acked(s.skip(1), d - s[0].data@.len())
    } else {
        0
    }
}

/// The header every data, acknowledgment and keep-order packet carries:
/// its own sequence number, the cumulative acknowledgment, and the
/// advertised window.
pub open spec fn spec_data_header(seq: u32, rn: u32, win: u16) -> RdpHeader {
    RdpHeader { seq_num: seq, ack_num: rn, flags: FLAG_ACK, window_size: win, checksum: 0 }
}

/// The header of a FIN.
pub open spec fn spec_fin_header(sn: u32, rn: u32, win: u16) -> RdpHeader {
    RdpHeader { seq_num: sn, ack_num: rn, flags: FLAGS_FIN_ACK, window_size: win, checksum: 0 }
}

/// Overwrite the transmission mark of one segment.
fn seg_mark(v: &mut Vec<Segment>, i: usize, now: u64, retries: u32)
    requires
        i < old(v)@.len(),
    ensures
        final(v)@.len() == old(v)@.len(),
        forall|j: int| 0 <= j < old(v)@.len() && j != i ==> final(v)@[j] == old(v)@[j],
        final(v)@[i as int].seq == old(v)@[i as int].seq,
        final(v)@[i as int].data == old(v)@[i as int].data,
        final(v)@[i as int].last_sent == now,
        final(v)@[i as int].retries == retries,
{
    let seg = vstd::std_specs::vec::vec_index_mut(v, i);
    seg.last_sent = now;
    seg.retries = retries;
}

/// Drop the acknowledged head of the first in-flight segment: the
/// segment keeps its unacknowledged tail and starts `rem` later.
fn seg_trim_head(v: &mut Vec<Segment>, rem: u32)
    requires
        old(v)@.len() > 0,
        0 < rem < old(v)@[0].data@.len(),
    ensures
        final(v)@.len() == old(v)@.len(),
        forall|j: int| 1 <= j < old(v)@.len() ==> final(v)@[j] == old(v)@[j],
        final(v)@[0].seq == w_add(old(v)@[0].seq, rem),
        final(v)@[0].data@ == old(v)@[0].data@.skip(rem as int),
        final(v)@[0].last_sent == old(v)@[0].last_sent,
        final(v)@[0].retries == old(v)@[0].retries,
{
    let n = v[0].data.len();
    let tail = vstd::slice::slice_to_vec(
        vstd::slice::slice_subrange(v[0].data.as_slice(), rem as usize, n),
    );
    let seg = vstd::std_specs::vec::vec_index_mut(v, 0);
    seg.seq = seq_add(seg.seq, rem);
    seg.data = tail;
    proof {
        assert(v@[0].data@ =~= old(v)@[0].data@.skip(rem as int));
    }
}

impl Connection {
    /// Transmit queued segments while the peer's window has room: the
    /// sender never puts more bytes in flight than the most recently
    /// observed peer window allows, unless they were in flight already.
    #[verifier::rlimit(100)]
    #[verifier::spinoff_prover]
    fn pump(&mut self, now: u64) -> (out: Vec<RdpPacket>)
        requires
            old(self).wf(),
        ensures
            final(self).wf(),
            final(self).recv_side_eq(*old(self)),
            final(self).state == old(self).state,
            final(self).isn == old(self).isn,
            final(self).send_next == old(self).send_next,
            final(self).send_unacked_base == old(self).send_unacked_base,
            final(self).peer_window == old(self).peer_window,
            final(self).fin_deadline == old(self).fin_deadline,
            final(self).opt == old(self).opt,
            final(self).reset == old(self).reset,
            final(self).in_flight@.len() == old(self).in_flight@.len(),
            old(self).n_sent <= final(self).n_sent <= final(self).in_flight@.len(),
            forall|i: int|
                0 <= i < old(self).in_flight@.len() && !(old(self).n_sent <= i < final(self).n_sent) ==> final(self).in_flight@[i] == old(self).in_flight@[i],
            forall|i: int|
                old(self).n_sent <= i < final(self).n_sent ==> (#[trigger] final(self).in_flight@[i]).last_sent == now && final(self).in_flight@[i].retries == 0 && final(self).in_flight@[i].seq == old(self).in_flight@[i].seq && final(self).in_flight@[i].data@ == old(self).in_flight@[i].data@,
            final(self).sent_bytes <= imax(
                old(self).sent_bytes as int,
                old(self).peer_window as int,
            ),
            out@.len() == final(self).n_sent - old(self).n_sent,
            forall|j: int|
                0 <= j < out@.len() ==> (#[trigger] out@[j]).header == spec_data_header(
                    old(self).in_flight@[old(self).n_sent + j].seq,
                    old(self).recv_next,
                    old(self).spec_advertised(),
                ) && out@[j].data@ == old(self).in_flight@[old(self).n_sent + j].data@,
            // a segment is left queued only when it does not fit the window
            final(self).n_sent < final(self).in_flight@.len() ==> final(self).sent_bytes + final(self).in_flight@[final(self).n_sent as int].data@.len() > final(self).peer_window,
    {
        let win = self.advertised_window();
        let mut out: Vec<RdpPacket> = Vec::new();
        proof {
            lemma_seg_bytes_split(self.in_flight@, self.n_sent as int);
            lemma_seg_bytes_nonneg(self.in_flight@.skip(self.n_sent as int));
        }
        while self.n_sent < self.in_flight.len() && self.sent_bytes + (self.in_flight[
            self.n_sent
        ].data.len() as u32) <= self.peer_window as u32
            invariant
                self.wf(),
                self.sent_bytes < 0x8000_0000,
                self.recv_side_eq(*old(self)),
                self.state == old(self).state,
                self.isn == old(self).isn,
                self.send_next == old(self).send_next,
                self.send_unacked_base == old(self).send_unacked_base,
                self.peer_window == old(self).peer_window,
                self.fin_deadline == old(self).fin_deadline,
                self.opt == old(self).opt,
                self.reset == old(self).reset,
                self.in_flight@.len() == old(self).in_flight@.len(),
                old(self).n_sent <= self.n_sent <= self.in_flight@.len(),
                forall|i: int|
                    0 <= i < old(self).in_flight@.len() && !(old(self).n_sent <= i < self.n_sent)
                        ==> self.in_flight@[i] == old(self).in_flight@[i],
                forall|i: int|
                    old(self).n_sent <= i < self.n_sent ==> (#[trigger] self.in_flight@[i]).last_sent
                        == now && self.in_flight@[i].retries == 0 && self.in_flight@[i].seq
                        == old(self).in_flight@[i].seq && self.in_flight@[i].data@
                        == old(self).in_flight@[i].data@,
                self.sent_bytes <= imax(old(self).sent_bytes as int, old(self).peer_window as int),
                win == old(self).spec_advertised(),
                out@.len() == self.n_sent - old(self).n_sent,
                forall|j: int|
                    0 <= j < out@.len() ==> (#[trigger] out@[j]).header == spec_data_header(
                        old(self).in_flight@[old(self).n_sent + j].seq,
                        old(self).recv_next,
                        old(self).spec_advertised(),
                    ) && out@[j].data@ == old(self).in_flight@[old(self).n_sent + j].data@,
            decreases self.in_flight@.len() - self.n_sent,
        {
            let i = self.n_sent;
            let ghost pre = self.in_flight@;
            let seg_seq = self.in_flight[i].seq;
            let seg_len = self.in_flight[i].data.len();
            let body = vstd::slice::slice_to_vec(self.in_flight[i].data.as_slice());
            seg_mark(&mut self.in_flight, i, now, 0);
            proof {
                assert forall|n: int| 0 <= n <= pre.len() implies seg_bytes(
                    #[trigger] self.in_flight@.take(n),
                ) == seg_bytes(pre.take(n)) by {
                    assert(forall|t: int|
                        0 <= t < n ==> (#[trigger] self.in_flight@.take(n)[t]).data@ == pre.take(
                            n,
                        )[t].data@);
                    lemma_seg_bytes_data_eq(self.in_flight@.take(n), pre.take(n));
                }
                assert(self.in_flight@.take(pre.len() as int) =~= self.in_flight@);
                assert(pre.take(pre.len() as int) =~= pre);
                lemma_seg_bytes_take_step(self.in_flight@, i as int);
            }
            let pkt = RdpPacket {
                header: RdpHeader {
                    seq_num: seg_seq,
                    ack_num: self.recv_next,
                    flags: FLAG_ACK,
                    window_size: win,
                    checksum: 0,
                },
                data: body,
            };
            out.push(pkt);
            self.sent_bytes = self.sent_bytes + seg_len as u32;
            self.n_sent = i + 1;
            proof {
                lemma_seg_bytes_split(self.in_flight@, self.n_sent as int);
                lemma_seg_bytes_nonneg(self.in_flight@.skip(self.n_sent as int));
            }
        }
        out
    }
}

/// The payloads of a run of segments.
pub open spec fn seg_datas(s: Seq<Segment>) -> Seq<Seq<u8>> {
    s.map_values(|seg: Segment| seg.data@)
}

impl Connection {
    /// Queue application data for reliable delivery and transmit as much
    /// of it as the peer's window allows; the rest follows as
    /// acknowledgments open the window.  Data is cut into chunks of at
    /// most the maximum segment size; no byte is lost or reordered.  On a
    /// connection that is not ESTABLISHED nothing is queued: the call
    /// fails with `ConnectionReset` after a reset or fatal failure, and
    /// with `ConnectionClosing` otherwise.
    #[verifier::rlimit(100)]
    #[verifier::spinoff_prover]
    pub fn send_data(&mut self, data: &[u8], now: u64) -> (r: Result<Vec<RdpPacket>, RdpError>)
        requires
            old(self).wf(),
            seg_bytes(old(self).in_flight@) + data@.len() + 1 < 0x8000_0000,
        ensures
            final(self).wf(),
            (r is Ok) == (old(self).state is Established),
            r is Err ==> *final(self) == *old(self),
            r is Err && old(self).reset ==> r->Err_0 == RdpError::ConnectionReset,
            r is Err && !old(self).reset ==> r->Err_0 == RdpError::ConnectionClosing,
            r is Ok ==> final(self).recv_side_eq(*old(self)) && final(self).state == old(self).state && final(self).isn == old(self).isn && final(self).send_unacked_base == old(self).send_unacked_base && final(self).peer_window == old(self).peer_window && final(self).opt == old(self).opt && final(self).reset == old(self).reset && final(self).fin_deadline == old(self).fin_deadline,
            r is Ok ==> final(self).send_next == w_add(old(self).send_next, data@.len() as u32),
            r is Ok ==> final(self).in_flight@.len() >= old(self).in_flight@.len() && (forall|
                i: int,
            |
                0 <= i < old(self).in_flight@.len() ==> (#[trigger] final(self).in_flight@[i]).seq == old(self).in_flight@[i].seq && final(self).in_flight@[i].data@ == old(self).in_flight@[i].data@),
            r is Ok ==> seg_datas(
                final(self).in_flight@.skip(old(self).in_flight@.len() as int),
            ).flatten() == data@,
            // a newly queued segment's deadline starts at this call's clock
            // reading, with no retransmissions yet
            r is Ok ==> (forall|i: int|
                old(self).in_flight@.len() <= i < final(self).in_flight@.len() ==> (
                #[trigger] final(self).in_flight@[i]).last_sent == now && final(self).in_flight@[i].retries == 0),
            r is Ok ==> final(self).sent_bytes <= imax(
                old(self).sent_bytes as int,
                old(self).peer_window as int,
            ),
            r is Ok && final(self).n_sent < final(self).in_flight@.len() ==> final(self).sent_bytes + final(self).in_flight@[final(self).n_sent as int].data@.len() > final(self).peer_window,
            r is Ok ==> old(self).n_sent <= final(self).n_sent <= final(self).in_flight@.len()
                && r->Ok_0@.len() == final(self).n_sent - old(self).n_sent && (forall|j: int|
                0 <= j < r->Ok_0@.len() ==> (#[trigger] r->Ok_0@[j]).header == spec_data_header(
                    final(self).in_flight@[old(self).n_sent + j].seq,
                    old(self).recv_next,
                    old(self).spec_advertised(),
                ) && r->Ok_0@[j].data@ == final(self).in_flight@[old(self).n_sent + j].data@),
    {
        if !(self.state == ConnState::Established) {
            if self.reset {
                return Err(RdpError::ConnectionReset);
            }
            return Err(RdpError::ConnectionClosing);
        }
        let ghost len0 = self.in_flight@.len() as int;
        let ghost base_snap = *self;
        let mut off: usize = 0;
        proof {
            assert(self.in_flight@.skip(len0) =~= Seq::<Segment>::empty());
            assert(seg_datas(Seq::<Segment>::empty()) =~= Seq::<Seq<u8>>::empty());
            Seq::<Seq<u8>>::empty().lemma_flatten_one_element();
            assert(Seq::<Seq<u8>>::empty().flatten() =~= Seq::<u8>::empty());
            assert(data@.take(0) =~= Seq::<u8>::empty());
        }
        while off < data.len()
            invariant
                self.wf(),
                off <= data@.len(),
                data@.len() == data.len(),
                self.state is Established,
                self.recv_side_eq(base_snap),
                self.isn == base_snap.isn,
                self.send_unacked_base == base_snap.send_unacked_base,
                self.peer_window == base_snap.peer_window,
                self.opt == base_snap.opt,
                self.reset == base_snap.reset,
                self.fin_deadline == base_snap.fin_deadline,
                self.n_sent == base_snap.n_sent,
                self.sent_bytes == base_snap.sent_bytes,
                base_snap.wf(),
                base_snap.state is Established,
                len0 == base_snap.in_flight@.len(),
                self.n_sent <= len0,
                self.in_flight@.len() >= len0,
                forall|i: int|
                    0 <= i < len0 ==> #[trigger] self.in_flight@[i] == base_snap.in_flight@[i],
                forall|i: int|
                    len0 <= i < self.in_flight@.len() ==> (#[trigger] self.in_flight@[i]).last_sent
                        == now && self.in_flight@[i].retries == 0,
                seg_datas(self.in_flight@.skip(len0)).flatten() == data@.take(off as int),
                seg_bytes(self.in_flight@) == seg_bytes(base_snap.in_flight@) + off,
                seg_bytes(base_snap.in_flight@) + data@.len() + 1 < 0x8000_0000,
                self.send_next == w_add(base_snap.send_next, off as u32),
            decreases data@.len() - off,
        {
            let take_n = if data.len() - off > self.opt.mss as usize {
                self.opt.mss as usize
            } else {
                data.len() - off
            };
            let chunk = vstd::slice::slice_to_vec(
                vstd::slice::slice_subrange(data, off, off + take_n),
            );
            let seg = Segment { seq: self.send_next, data: chunk, last_sent: now, retries: 0 };
            let ghost pre = self.in_flight@;
            let ghost segg = seg;
            proof {
                lemma_seg_bytes_push(pre, segg);
                lemma_seg_bytes_split(base_snap.in_flight@, base_snap.n_sent as int);
                lemma_seg_bytes_nonneg(base_snap.in_flight@.skip(base_snap.n_sent as int));
            }
            self.in_flight.push(seg);
            self.send_next = seq_add(self.send_next, take_n as u32);
            off = off + take_n;
            proof {
                assert forall|i: int| 0 <= i < self.in_flight@.len() implies (#[trigger] self.in_flight@[i]).seq
                    == w_add(self.send_unacked_base, seg_bytes(self.in_flight@.take(i)) as u32) by {
                    if i < pre.len() {
                        assert(self.in_flight@.take(i) =~= pre.take(i));
                        assert(self.in_flight@[i] == pre[i]);
                    } else {
                        assert(self.in_flight@.take(i) =~= pre);
                        assert(self.in_flight@[i] == segg);
                    }
                }
                assert(self.in_flight@.take(self.n_sent as int) =~= pre.take(self.n_sent as int));
                assert(self.in_flight@.take(self.in_flight@.len() as int) =~= self.in_flight@);
                crate::seqnum::lemma_add_add(
                    base_snap.send_next,
                    (off - take_n) as u32,
                    take_n as u32,
                );
                crate::seqnum::lemma_add_add(
                    self.send_unacked_base,
                    seg_bytes(pre) as u32,
                    take_n as u32,
                );
                assert(self.in_flight@.skip(len0) =~= pre.skip(len0).push(segg));
                assert(seg_datas(pre.skip(len0).push(segg)) =~= seg_datas(pre.skip(len0)).push(
                    segg.data@,
                ));
                seg_datas(pre.skip(len0)).lemma_flatten_push(segg.data@);
                assert(data@.take(off as int) =~= data@.take((off - take_n) as int)
                    + data@.subrange(off - take_n, off as int));
            }
        }
        proof {
            assert(data@.take(data@.len() as int) =~= data@);
        }
        let ghost mid = self.in_flight@;
        let out = self.pump(now);
        proof {
            assert(self.spec_advertised() == old(self).spec_advertised());
            let a = self.in_flight@.skip(len0);
            let b = mid.skip(len0);
            assert(a.len() == b.len());
            assert forall|i: int| 0 <= i < a.len() implies (#[trigger] seg_datas(a)[i])
                == seg_datas(b)[i] by {
                assert(a[i] == self.in_flight@[i + len0]);
                assert(b[i] == mid[i + len0]);
                assert(self.in_flight@[i + len0].data@ == mid[i + len0].data@);
            }
            assert(seg_datas(a) =~= seg_datas(b));
        }
        Ok(out)
    }
}

impl Connection {
    /// Process a peer acknowledgment: adopt the advertised window, advance
    /// the unacknowledged base exactly to `ack_num` when it acknowledges
    /// transmitted bytes — discarding the wholly covered in-flight chunks
    /// and trimming the acknowledged head off a partially covered one —
    /// and transmit queued segments that now fit the window.  While
    /// tearing down, an acknowledgment of our FIN closes the connection
    /// and releases its buffers.  An acknowledgment of nothing that was
    /// transmitted, or of bytes never yet transmitted, moves no base.
    #[verifier::rlimit(100)]
    #[verifier::spinoff_prover]
    fn apply_ack(&mut self, ack_num: u32, window: u16, now: u64) -> (out: Vec<RdpPacket>)
        requires
            old(self).wf(),
            old(self).state is Established || old(self).state is FinWait || old(self).state is LastAck,
        ensures
            final(self).wf(),
            final(self).peer_window == window,
            final(self).isn == old(self).isn,
            final(self).opt == old(self).opt,
            final(self).reset == old(self).reset,
            final(self).send_next == old(self).send_next,
            final(self).fin_deadline == old(self).fin_deadline,
            final(self).recv_next == old(self).recv_next,
            final(self).inbox@ == old(self).inbox@,
            (final(self).state is Closed) == ((old(self).state is FinWait || old(self).state is LastAck) && ack_num == old(self).send_next),
            final(self).state is Closed ==> final(self).in_flight@.len() == 0 && out@.len() == 0,
            !(final(self).state is Closed) ==> final(self).state == old(self).state && final(self).reorder@ == old(self).reorder@ && ({
                let d = w_sub(ack_num, old(self).send_unacked_base) as int;
                if 0 < d <= old(self).sent_bytes {
                    let np = pop_acked(old(self).in_flight@, d);
                    let rem = d - seg_bytes(old(self).in_flight@.take(np));
                    &&& final(self).send_unacked_base == ack_num
                    &&& final(self).in_flight@.len() == old(self).in_flight@.len() - np
                    &&& (forall|i: int|
                        0 < i < final(self).in_flight@.len() ==> (#[trigger] final(self).in_flight@[i]).seq == old(self).in_flight@[i + np].seq && final(self).in_flight@[i].data@ == old(self).in_flight@[i + np].data@)
                    &&& (final(self).in_flight@.len() > 0 ==> final(self).in_flight@[0].seq
                        == w_add(old(self).in_flight@[np].seq, rem as u32) && final(self).in_flight@[0].data@ == old(self).in_flight@[np].data@.skip(rem))
                } else {
                    &&& final(self).send_unacked_base == old(self).send_unacked_base
                    &&& final(self).in_flight@.len() == old(self).in_flight@.len()
                    &&& (forall|i: int|
                        0 <= i < final(self).in_flight@.len() ==> (#[trigger] final(self).in_flight@[i]).seq == old(self).in_flight@[i].seq && final(self).in_flight@[i].data@ == old(self).in_flight@[i].data@)
                }
            }),
            final(self).sent_bytes <= imax(old(self).sent_bytes as int, window as int),
            final(self).n_sent < final(self).in_flight@.len() ==> final(self).sent_bytes + final(self).in_flight@[final(self).n_sent as int].data@.len() > final(self).peer_window,
    {
        self.peer_window = window;
        if (match self.state {
            ConnState::FinWait => true,
            ConnState::LastAck => true,
            _ => false,
        }) && ack_num == self.send_next {
            self.in_flight = Vec::new();
            self.reorder = Vec::new();
            self.n_sent = 0;
            self.sent_bytes = 0;
            self.send_unacked_base = self.send_next;
            self.state = ConnState::Closed;
            proof {
                assert(self.entries() =~= Seq::<(u32, Seq<u8>)>::empty());
                assert(self.in_flight@.take(0) =~= Seq::<Segment>::empty());
            }
            return Vec::new();
        }
        let d = seq_sub(ack_num, self.send_unacked_base);
        let ghost flight0 = self.in_flight@;
        let ghost base0 = self.send_unacked_base;
        let ghost sent0 = self.sent_bytes;
        let ghost nsent0 = self.n_sent;
        if 0 < d && d <= self.sent_bytes {
            let mut rem: u32 = d;
            let ghost mut np: int = 0;
            proof {
                assert(flight0.take(0) =~= Seq::<Segment>::empty());
                assert(self.in_flight@ =~= flight0.skip(0));
            }
            while self.in_flight.len() > 0 && (self.in_flight[0].data.len() as u32) <= rem
                invariant
                    self.wf(),
                    self.state == old(self).state,
                    self.isn == old(self).isn,
                    self.opt == old(self).opt,
                    self.reset == old(self).reset,
                    self.send_next == old(self).send_next,
                    self.fin_deadline == old(self).fin_deadline,
                    self.peer_window == window,
                    self.recv_next == old(self).recv_next,
                    self.inbox@ == old(self).inbox@,
                    self.reorder@ == old(self).reorder@,
                    0 <= np <= flight0.len(),
                    self.in_flight@ =~= flight0.skip(np),
                    self.send_unacked_base == w_add(base0, seg_bytes(flight0.take(np)) as u32),
                    rem == d - seg_bytes(flight0.take(np)),
                    rem <= self.sent_bytes,
                    self.sent_bytes == sent0 - seg_bytes(flight0.take(np)),
                    self.n_sent == nsent0 - np,
                    pop_acked(flight0, d as int) == np + pop_acked(self.in_flight@, rem as int),
                decreases self.in_flight@.len(),
            {
                let ghost cur = self.in_flight@;
                let ghost bcur = self.send_unacked_base;
                let seg = self.in_flight.remove(0);
                let seg_len = seg.data.len() as u32;
                proof {
                    assert(self.in_flight@ =~= cur.skip(1));
                    assert(self.in_flight@ =~= flight0.skip(np + 1));
                    // the popped segment is within the transmitted prefix
                    assert(self.n_sent > 0) by {
                        if self.n_sent == 0 {
                            assert(cur.take(0) =~= Seq::<Segment>::empty());
                        }
                    }
                }
                self.send_unacked_base = seq_add(self.send_unacked_base, seg_len);
                self.sent_bytes = self.sent_bytes - seg_len;
                self.n_sent = self.n_sent - 1;
                rem = rem - seg_len;
                proof {
                    np = np + 1;
                    let newf = self.in_flight@;
                    let len0 = cur[0].data@.len() as int;
                    lemma_seg_bytes_take_step(flight0, np - 1);
                    assert(flight0[np - 1] == cur[0]);
                    lemma_seg_bytes_nonneg(flight0.take(np - 1));
                    crate::seqnum::lemma_add_add(
                        base0,
                        seg_bytes(flight0.take(np - 1)) as u32,
                        seg_len,
                    );
                    assert(seg_bytes(cur) == len0 + seg_bytes(newf));
                    lemma_seg_bytes_nonneg(newf);
                    assert forall|i: int| 0 <= i < newf.len() implies (#[trigger] newf[i]).seq
                        == w_add(self.send_unacked_base, seg_bytes(newf.take(i)) as u32) by {
                        assert(newf[i] == cur[i + 1]);
                        assert(cur.take(i + 1)[0] == cur[0]);
                        assert(cur.take(i + 1).skip(1) =~= newf.take(i));
                        assert(seg_bytes(cur.take(i + 1)) == len0 + seg_bytes(newf.take(i)));
                        lemma_seg_bytes_nonneg(newf.take(i));
                        lemma_seg_bytes_split(newf, i);
                        lemma_seg_bytes_nonneg(newf.skip(i));
                        crate::seqnum::lemma_add_add(
                            bcur,
                            seg_len,
                            seg_bytes(newf.take(i)) as u32,
                        );
                    }
                    assert(cur.take(self.n_sent + 1).skip(1) =~= newf.take(self.n_sent as int));
                    assert(cur.take(self.n_sent + 1)[0] == cur[0]);
                    assert(seg_bytes(cur.take(self.n_sent + 1)) == len0 + seg_bytes(
                        newf.take(self.n_sent as int),
                    ));
                    crate::seqnum::lemma_add_add(
                        bcur,
                        seg_len,
                        (seg_bytes(newf) + self.fin_adj()) as u32,
                    );
                    assert(pop_acked(cur, rem + seg_len) == 1 + pop_acked(newf, rem as int));
                }
            }
            proof {
                assert(pop_acked(self.in_flight@, rem as int) == 0);
                lemma_seg_bytes_nonneg(flight0.take(np));
                assert(self.sent_bytes <= sent0);
            }
            if rem > 0 {
                // the acknowledgment lands inside this chunk: its
                // acknowledged head is confirmed delivered, so the chunk
                // is trimmed and the base still reaches `ack_num`
                let ghost f = self.in_flight@;
                let ghost bmid = self.send_unacked_base;
                let ghost smid = self.sent_bytes;
                proof {
                    assert(self.n_sent >= 1 && self.in_flight@.len() >= 1) by {
                        if self.n_sent == 0 {
                            assert(f.take(0) =~= Seq::<Segment>::empty());
                        }
                    }
                    assert(rem < f[0].data@.len());
                }
                seg_trim_head(&mut self.in_flight, rem);
                self.send_unacked_base = seq_add(self.send_unacked_base, rem);
                self.sent_bytes = self.sent_bytes - rem;
                proof {
                    let g = self.in_flight@;
                    let nb = self.send_unacked_base;
                    assert forall|n: int| 1 <= n <= f.len() implies seg_bytes(
                        #[trigger] g.take(n),
                    ) == seg_bytes(f.take(n)) - rem by {
                        assert(g.take(n).skip(1) =~= f.take(n).skip(1));
                        assert(g.take(n)[0] == g[0] && f.take(n)[0] == f[0]);
                        assert(seg_bytes(g.take(n)) == g[0].data@.len() + seg_bytes(
                            g.take(n).skip(1),
                        ));
                        assert(seg_bytes(f.take(n)) == f[0].data@.len() + seg_bytes(
                            f.take(n).skip(1),
                        ));
                    }
                    assert(g.take(g.len() as int) =~= g);
                    assert(f.take(f.len() as int) =~= f);
                    assert(seg_bytes(g) == seg_bytes(f) - rem);
                    lemma_seg_bytes_nonneg(g);
                    assert forall|i: int| 0 <= i < g.len() implies (#[trigger] g[i]).seq
                        == w_add(nb, seg_bytes(g.take(i)) as u32) by {
                        if i == 0 {
                            assert(f.take(0) =~= Seq::<Segment>::empty());
                            assert(g.take(0) =~= Seq::<Segment>::empty());
                            assert(f[0].seq == w_add(bmid, 0));
                            crate::seqnum::lemma_add_add(bmid, 0, rem);
                        } else {
                            assert(g[i] == f[i]);
                            lemma_seg_bytes_split(f, i);
                            lemma_seg_bytes_nonneg(f.skip(i));
                            lemma_seg_bytes_nonneg(f.take(i).skip(1));
                            crate::seqnum::lemma_add_add(
                                bmid,
                                rem,
                                (seg_bytes(f.take(i)) - rem) as u32,
                            );
                        }
                    }
                    lemma_seg_bytes_split(f, self.n_sent as int);
                    lemma_seg_bytes_nonneg(f.skip(self.n_sent as int));
                    assert(self.sent_bytes == seg_bytes(g.take(self.n_sent as int)));
                    crate::seqnum::lemma_add_add(
                        bmid,
                        rem,
                        (seg_bytes(f) - rem + self.fin_adj()) as u32,
                    );
                    assert(self.send_next == w_add(nb, (seg_bytes(g) + self.fin_adj()) as u32));
                    assert(self.wf());
                    // the base, moved past the popped chunks and the
                    // trimmed head, is exactly the acknowledged number
                    crate::seqnum::lemma_add_add(base0, seg_bytes(flight0.take(np)) as u32, rem);
                    crate::seqnum::lemma_sub_add(ack_num, base0);
                    assert(nb == ack_num);
                }
            } else {
                proof {
                    // a boundary acknowledgment: the base, moved past the
                    // popped chunks, is exactly `ack_num`
                    crate::seqnum::lemma_add_add(base0, seg_bytes(flight0.take(np)) as u32, 0);
                    crate::seqnum::lemma_sub_add(ack_num, base0);
                    assert(self.send_unacked_base == ack_num);
                    if np < flight0.len() {
                        assert(flight0[np].data@.skip(0) =~= flight0[np].data@);
                    }
                }
            }
        }
        let out = self.pump(now);
        out
    }
}

/// How long a teardown waits before giving up: one timeout for the FIN
/// and one for each allowed retransmission, clamped to the clock's range.
pub open spec fn spec_teardown_deadline(now: u64, rto: u64, max_retries: u32) -> u64 {
    if rto * (max_retries + 1) > u64::MAX {
        u64::MAX
    } else {
        now.saturating_add((rto * (max_retries + 1)) as u64)
    }
}

fn teardown_deadline(now: u64, rto: u64, max_retries: u32) -> (r: u64)
    ensures
        r == spec_teardown_deadline(now, rto, max_retries),
{
    match rto.checked_mul(max_retries as u64 + 1) {
        Some(total) => now.saturating_add(total),
        None => u64::MAX,
    }
}

/// What a deadline check that found no fatal segment leaves behind: only
/// the transmission marks of the expired transmitted segments move, each
/// of those segments stands in the output again, with its own sequence
/// number and payload, and the output holds nothing else — every packet
/// in it is the retransmission of some expired transmitted segment.
pub open spec fn tick_ok(a: Connection, b: Connection, now: u64, out: Seq<RdpPacket>) -> bool {
    &&& b.state == a.state
    &&& b.reset == a.reset
    &&& b.send_next == a.send_next
    &&& b.send_unacked_base == a.send_unacked_base
    &&& b.peer_window == a.peer_window
    &&& b.sent_bytes == a.sent_bytes
    &&& b.n_sent == a.n_sent
    &&& b.reorder@ == a.reorder@
    &&& b.in_flight@.len() == a.in_flight@.len()
    &&& (forall|i: int|
        0 <= i < a.in_flight@.len() ==> (#[trigger] b.in_flight@[i]).seq == a.in_flight@[i].seq
            && b.in_flight@[i].data@ == a.in_flight@[i].data@)
    &&& (forall|i: int|
        0 <= i < a.n_sent && expired(#[trigger] a.in_flight@[i], now, a.opt.rto)
            ==> b.in_flight@[i].last_sent == now && b.in_flight@[i].retries
            == a.in_flight@[i].retries + 1 && (exists|j: int|
            0 <= j < out.len() && (#[trigger] out[j]).header == spec_data_header(
                a.in_flight@[i].seq,
                a.recv_next,
                a.spec_advertised(),
            ) && out[j].data@ == a.in_flight@[i].data@))
    &&& (forall|i: int|
        0 <= i < a.in_flight@.len() && !(i < a.n_sent && expired(
            a.in_flight@[i],
            now,
            a.opt.rto,
        )) ==> (#[trigger] b.in_flight@[i]) == a.in_flight@[i])
    &&& (forall|j: int| 0 <= j < out.len() ==> retransmission_of(a, now, #[trigger] out[j]))
}

/// The packet is the retransmission of some expired transmitted segment.
pub open spec fn retransmission_of(a: Connection, now: u64, p: RdpPacket) -> bool {
    exists|i: int|
        0 <= i < a.n_sent && expired(#[trigger] a.in_flight@[i], now, a.opt.rto) && p.header
            == spec_data_header(a.in_flight@[i].seq, a.recv_next, a.spec_advertised())
            && p.data@ == a.in_flight@[i].data@
}

/// Changing only the transmission marks of in-flight segments keeps a
/// connection well formed.
pub proof fn lemma_wf_after_mark(a: Connection, b: Connection)
    requires
        a.wf(),
        b.state == a.state,
        b.send_next == a.send_next,
        b.send_unacked_base == a.send_unacked_base,
        b.n_sent == a.n_sent,
        b.sent_bytes == a.sent_bytes,
        b.opt == a.opt,
        b.recv_next == a.recv_next,
        b.reorder@ == a.reorder@,
        b.in_flight@.len() == a.in_flight@.len(),
        forall|i: int|
            0 <= i < a.in_flight@.len() ==> (#[trigger] b.in_flight@[i]).seq
                == a.in_flight@[i].seq && b.in_flight@[i].data@ == a.in_flight@[i].data@,
    ensures
        b.wf(),
{
    assert forall|n: int| 0 <= n <= a.in_flight@.len() implies seg_bytes(
        #[trigger] b.in_flight@.take(n),
    ) == seg_bytes(a.in_flight@.take(n)) by {
        assert(forall|t: int|
            0 <= t < n ==> (#[trigger] b.in_flight@.take(n)[t]).data@ == a.in_flight@.take(
                n,
            )[t].data@);
        lemma_seg_bytes_data_eq(b.in_flight@.take(n), a.in_flight@.take(n));
    }
    assert(b.in_flight@.take(b.in_flight@.len() as int) =~= b.in_flight@);
    assert(a.in_flight@.take(a.in_flight@.len() as int) =~= a.in_flight@);
    assert(b.entries() =~= a.entries());
}

/// A transmitted segment whose retransmission deadline has passed.
pub open spec fn expired(seg: Segment, now: u64, rto: u64) -> bool {
    now >= seg.last_sent + rto
}

impl Connection {
    /// Drop every buffer and settle in CLOSED.
    fn release(&mut self)
        requires
            old(self).wf(),
        ensures
            final(self).wf(),
            final(self).state is Closed,
            final(self).reset == old(self).reset,
            final(self).isn == old(self).isn,
            final(self).opt == old(self).opt,
            final(self).inbox@ == old(self).inbox@,
            final(self).recv_next == old(self).recv_next,
            final(self).send_next == old(self).send_next,
            final(self).peer_window == old(self).peer_window,
            final(self).fin_deadline == old(self).fin_deadline,
            final(self).in_flight@.len() == 0,
            final(self).reorder@.len() == 0,
    {
        self.state = ConnState::Closed;
        self.in_flight = Vec::new();
        self.reorder = Vec::new();
        self.n_sent = 0;
        self.sent_bytes = 0;
        self.send_unacked_base = self.send_next;
        proof {
            assert(self.entries() =~= Seq::<(u32, Seq<u8>)>::empty());
            assert(self.in_flight@.take(0) =~= Seq::<Segment>::empty());
        }
    }

    /// Abort: any packet with the RST flag closes the connection at once
    /// and releases its buffers; later operations fail with
    /// `ConnectionReset`.
    fn do_reset(&mut self)
        requires
            old(self).wf(),
        ensures
            final(self).wf(),
            final(self).state is Closed,
            final(self).reset,
            final(self).isn == old(self).isn,
            final(self).opt == old(self).opt,
            final(self).inbox@ == old(self).inbox@,
            final(self).recv_next == old(self).recv_next,
            final(self).send_next == old(self).send_next,
            final(self).peer_window == old(self).peer_window,
            final(self).fin_deadline == old(self).fin_deadline,
            final(self).in_flight@.len() == 0,
    {
        self.release();
        self.reset = true;
    }

    /// The acknowledgment this side sends after accepting a data packet:
    /// the next expected sequence number and the current window.
    fn make_ack(&self) -> (r: RdpPacket)
        requires
            self.wf(),
        ensures
            r.header == spec_data_header(self.send_next, self.recv_next, self.spec_advertised()),
            r.data@.len() == 0,
    {
        RdpPacket {
            header: RdpHeader {
                seq_num: self.send_next,
                ack_num: self.recv_next,
                flags: FLAG_ACK,
                window_size: self.advertised_window(),
                checksum: 0,
            },
            data: Vec::new(),
        }
    }

    /// Check retransmission deadlines against the clock.  Every
    /// transmitted, unacknowledged segment whose deadline has passed is
    /// sent again, with its retransmit count raised and its deadline
    /// reset; one that has already been retransmitted `max_retries` times
    /// fails the connection with `RetransmissionLimitExceeded`.  A
    /// teardown that has waited past its deadline releases the connection.
    #[verifier::rlimit(100)]
    #[verifier::spinoff_prover]
    pub fn on_tick(&mut self, now: u64) -> (r: Result<Vec<RdpPacket>, RdpError>)
        requires
            old(self).wf(),
        ensures
            final(self).wf(),
            final(self).isn == old(self).isn,
            final(self).opt == old(self).opt,
            final(self).inbox@ == old(self).inbox@,
            final(self).recv_next == old(self).recv_next,
            r is Err ==> r->Err_0 == RdpError::RetransmissionLimitExceeded && final(self).state is Closed && final(self).reset && (exists|i: int|
                0 <= i < old(self).n_sent && expired(
                    #[trigger] old(self).in_flight@[i],
                    now,
                    old(self).opt.rto,
                ) && old(self).in_flight@[i].retries >= old(self).opt.max_retries),
            (old(self).state is FinWait || old(self).state is LastAck) && now >= old(self).fin_deadline ==> r is Ok && final(self).state is Closed && r->Ok_0@.len() == 0,
            r is Ok && !((old(self).state is FinWait || old(self).state is LastAck) && now >= old(self).fin_deadline) ==> tick_ok(*old(self), *final(self), now, r->Ok_0@),
    {
        if match self.state {
            ConnState::FinWait => true,
            ConnState::LastAck => true,
            _ => false,
        } {
            if now >= self.fin_deadline {
                self.release();
                return Ok(Vec::new());
            }
        }
        self.retransmit_due(now)
    }

    /// Retransmit every transmitted segment whose deadline has passed, or
    /// fail when one has exhausted its retries.
    #[verifier::rlimit(100)]
    #[verifier::spinoff_prover]
    fn retransmit_due(&mut self, now: u64) -> (r: Result<Vec<RdpPacket>, RdpError>)
        requires
            old(self).wf(),
        ensures
            final(self).wf(),
            final(self).isn == old(self).isn,
            final(self).opt == old(self).opt,
            final(self).inbox@ == old(self).inbox@,
            final(self).recv_next == old(self).recv_next,
            r is Err ==> r->Err_0 == RdpError::RetransmissionLimitExceeded && final(self).state is Closed && final(self).reset && (exists|i: int|
                0 <= i < old(self).n_sent && expired(
                    #[trigger] old(self).in_flight@[i],
                    now,
                    old(self).opt.rto,
                ) && old(self).in_flight@[i].retries >= old(self).opt.max_retries),
            r is Ok ==> tick_ok(*old(self), *final(self), now, r->Ok_0@),
    {
        let win = self.advertised_window();
        let mut out: Vec<RdpPacket> = Vec::new();
        let mut i: usize = 0;
        let ghost flight0 = self.in_flight@;
        // which transmitted segment each output packet retransmits
        let ghost mut src: Seq<int> = Seq::empty();
        while i < self.n_sent
            invariant
                self.wf(),
                old(self).wf(),
                i <= self.n_sent,
                self.state == old(self).state,
                self.isn == old(self).isn,
                self.opt == old(self).opt,
                self.reset == old(self).reset,
                self.send_next == old(self).send_next,
                self.send_unacked_base == old(self).send_unacked_base,
                self.peer_window == old(self).peer_window,
                self.fin_deadline == old(self).fin_deadline,
                self.recv_side_eq(*old(self)),
                self.sent_bytes == old(self).sent_bytes,
                self.n_sent == old(self).n_sent,
                flight0 == old(self).in_flight@,
                self.in_flight@.len() == flight0.len(),
                win == old(self).spec_advertised(),
                forall|t: int|
                    0 <= t < flight0.len() ==> (#[trigger] self.in_flight@[t]).seq
                        == flight0[t].seq && self.in_flight@[t].data@ == flight0[t].data@,
                forall|t: int|
                    0 <= t < flight0.len() && !(t < i && expired(
                        flight0[t],
                        now,
                        self.opt.rto,
                    )) ==> (#[trigger] self.in_flight@[t]) == flight0[t],
                forall|t: int|
                    0 <= t < i && expired(#[trigger] flight0[t], now, self.opt.rto) ==> {
                        &&& flight0[t].retries < self.opt.max_retries
                        &&& self.in_flight@[t].last_sent == now
                        &&& self.in_flight@[t].retries == flight0[t].retries + 1
                        &&& exists|j: int|
                            0 <= j < out@.len() && (#[trigger] out@[j]).header
                                == spec_data_header(
                                flight0[t].seq,
                                self.recv_next,
                                old(self).spec_advertised(),
                            ) && out@[j].data@ == flight0[t].data@
                    },
                src.len() == out@.len(),
                forall|j: int|
                    0 <= j < src.len() ==> 0 <= #[trigger] src[j] < i && expired(
                        flight0[src[j]],
                        now,
                        self.opt.rto,
                    ) && out@[j].header == spec_data_header(
                        flight0[src[j]].seq,
                        self.recv_next,
                        old(self).spec_advertised(),
                    ) && out@[j].data@ == flight0[src[j]].data@,
            decreases self.n_sent - i,
        {
            let due = now >= self.in_flight[i].last_sent && now - self.in_flight[i].last_sent
                >= self.opt.rto;
            proof {
                assert(self.in_flight@[i as int] == flight0[i as int]);
                assert(due == expired(flight0[i as int], now, self.opt.rto));
            }
            if due {
                let tries = self.in_flight[i].retries;
                if tries >= self.opt.max_retries {
                    self.do_reset();
                    return Err(RdpError::RetransmissionLimitExceeded);
                }
                let seg_seq = self.in_flight[i].seq;
                let body = vstd::slice::slice_to_vec(self.in_flight[i].data.as_slice());
                let ghost pre = *self;
                let ghost pre_out = out@;
                seg_mark(&mut self.in_flight, i, now, tries + 1);
                proof {
                    lemma_wf_after_mark(pre, *self);
                }
                out.push(
                    RdpPacket {
                        header: RdpHeader {
                            seq_num: seg_seq,
                            ack_num: self.recv_next,
                            flags: FLAG_ACK,
                            window_size: win,
                            checksum: 0,
                        },
                        data: body,
                    },
                );
                proof {
                    assert(out@[out@.len() - 1].header == spec_data_header(
                        flight0[i as int].seq,
                        self.recv_next,
                        old(self).spec_advertised(),
                    ));
                    assert(out@[out@.len() - 1].data@ == flight0[i as int].data@);
                    assert forall|t: int|
                        0 <= t <= i && expired(
                            #[trigger] flight0[t],
                            now,
                            self.opt.rto,
                        ) implies exists|j: int|
                        0 <= j < out@.len() && (#[trigger] out@[j]).header == spec_data_header(
                            flight0[t].seq,
                            self.recv_next,
                            old(self).spec_advertised(),
                        ) && out@[j].data@ == flight0[t].data@ by {
                        if t < i {
                            let oj = choose|j: int|
                                0 <= j < pre_out.len() && (#[trigger] pre_out[j]).header
                                    == spec_data_header(
                                    flight0[t].seq,
                                    self.recv_next,
                                    old(self).spec_advertised(),
                                ) && pre_out[j].data@ == flight0[t].data@;
                            assert(out@[oj] == pre_out[oj]);
                        } else {
                            assert(out@[out@.len() - 1].header == spec_data_header(
                                flight0[t].seq,
                                self.recv_next,
                                old(self).spec_advertised(),
                            ));
                        }
                    }
                    src = src.push(i as int);
                }
            }
            i = i + 1;
        }
        let ghost outv = out@;
        let res: Result<Vec<RdpPacket>, RdpError> = Ok(out);
        proof {
            assert(res->Ok_0@ == outv);
            assert forall|t: int|
                0 <= t < self.n_sent && expired(
                    #[trigger] flight0[t],
                    now,
                    self.opt.rto,
                ) implies exists|j: int|
                0 <= j < res->Ok_0@.len() && (#[trigger] res->Ok_0@[j]).header
                    == spec_data_header(
                    flight0[t].seq,
                    self.recv_next,
                    old(self).spec_advertised(),
                ) && res->Ok_0@[j].data@ == flight0[t].data@ by {
                let oj = choose|j: int|
                    0 <= j < outv.len() && (#[trigger] outv[j]).header == spec_data_header(
                        flight0[t].seq,
                        self.recv_next,
                        old(self).spec_advertised(),
                    ) && outv[j].data@ == flight0[t].data@;
                assert(res->Ok_0@[oj] == outv[oj]);
            }
            assert forall|j: int| 0 <= j < res->Ok_0@.len() implies retransmission_of(
                *old(self),
                now,
                #[trigger] res->Ok_0@[j],
            ) by {
                let t = src[j];
                assert(res->Ok_0@[j] == outv[j]);
                assert(0 <= t < old(self).n_sent && expired(
                    old(self).in_flight@[t],
                    now,
                    old(self).opt.rto,
                ) && outv[j].header == spec_data_header(
                    old(self).in_flight@[t].seq,
                    old(self).recv_next,
                    old(self).spec_advertised(),
                ) && outv[j].data@ == old(self).in_flight@[t].data@);
                assert(retransmission_of(*old(self), now, outv[j]));
            }
            assert(res->Ok_0@ == outv);
            assert(tick_ok(*old(self), *self, now, res->Ok_0@));
        }
        res
    }

    /// Begin teardown.  On an ESTABLISHED connection a FIN is sent, one
    /// sequence number is consumed and the connection enters FIN_WAIT with
    /// a deadline after which the teardown gives up; data still in flight
    /// keeps being retransmitted meanwhile.  A connection already closing
    /// or closed is left as it is, and one that never reached
    /// ESTABLISHED is simply closed.
    pub fn close(&mut self, now: u64) -> (out: Vec<RdpPacket>)
        requires
            old(self).wf(),
        ensures
            final(self).wf(),
            final(self).isn == old(self).isn,
            final(self).opt == old(self).opt,
            final(self).reset == old(self).reset,
            final(self).inbox@ == old(self).inbox@,
            old(self).state is Established ==> final(self).state is FinWait && final(self).send_next == w_add(old(self).send_next, 1) && final(self).recv_next == old(self).recv_next && out@.len() == 1 && out@[0].header == spec_fin_header(
                old(self).send_next,
                old(self).recv_next,
                old(self).spec_advertised(),
            ) && out@[0].data@.len() == 0 && final(self).fin_deadline == spec_teardown_deadline(
                now,
                old(self).opt.rto,
                old(self).opt.max_retries,
            ),
            old(self).state is FinWait || old(self).state is LastAck || old(self).state is Closed ==> *final(self) == *old(self) && out@.len() == 0,
            old(self).state is SynSent || old(self).state is SynReceived ==> final(self).state is Closed && out@.len() == 0,
    {
        match self.state {
            ConnState::Established => {
                let fin = RdpPacket {
                    header: RdpHeader {
                        seq_num: self.send_next,
                        ack_num: self.recv_next,
                        flags: FLAGS_FIN_ACK,
                        window_size: self.advertised_window(),
                        checksum: 0,
                    },
                    data: Vec::new(),
                };
                self.send_next = seq_add(self.send_next, 1);
                self.state = ConnState::FinWait;
                self.fin_deadline = teardown_deadline(now, self.opt.rto, self.opt.max_retries);
                proof {
                    lemma_seg_bytes_nonneg(self.in_flight@);
                    crate::seqnum::lemma_add_add(
                        self.send_unacked_base,
                        seg_bytes(self.in_flight@) as u32,
                        1u32,
                    );
                }
                let mut out: Vec<RdpPacket> = Vec::new();
                out.push(fin);
                out
            },
            ConnState::FinWait => Vec::new(),
            ConnState::LastAck => Vec::new(),
            ConnState::Closed => Vec::new(),
            ConnState::SynSent => {
                self.release();
                Vec::new()
            },
            ConnState::SynReceived => {
                self.release();
                Vec::new()
            },
        }
    }

    /// Read up to `max` bytes of in-order data.  Data already delivered is
    /// handed out even on a closed connection.  An empty inbox reports
    /// `ConnectionReset` after a reset or fatal failure, and
    /// `ConnectionClosing` on a connection that is tearing down or
    /// closed, so a pending read observes the teardown instead of
    /// hanging.
    pub fn receive(&mut self, max: usize) -> (r: Result<Vec<u8>, RdpError>)
        requires
            old(self).wf(),
        ensures
            final(self).wf(),
            (r is Err) == (old(self).inbox@.len() == 0 && (old(self).reset || old(
                self,
            ).state is Closed || old(self).state is FinWait || old(self).state is LastAck)),
            r is Err ==> *final(self) == *old(self),
            r is Err && old(self).reset ==> r->Err_0 == RdpError::ConnectionReset,
            r is Err && !old(self).reset ==> r->Err_0 == RdpError::ConnectionClosing,
            r is Ok ==> {
                let k = if max <= old(self).inbox@.len() {
                    max as int
                } else {
                    old(self).inbox@.len() as int
                };
                &&& r->Ok_0@ == old(self).inbox@.take(k)
                &&& final(self).inbox@ == old(self).inbox@.skip(k)
                &&& final(self).send_side_eq(*old(self))
                &&& final(self).recv_next == old(self).recv_next
                &&& final(self).reorder@ == old(self).reorder@
            },
    {
        if self.inbox.len() == 0 {
            if self.reset {
                return Err(RdpError::ConnectionReset);
            }
            if match self.state {
                ConnState::Closed => true,
                ConnState::FinWait => true,
                ConnState::LastAck => true,
                _ => false,
            } {
                return Err(RdpError::ConnectionClosing);
            }
        }
        let k = if max <= self.inbox.len() {
            max
        } else {
            self.inbox.len()
        };
        let head = vstd::slice::slice_to_vec(
            vstd::slice::slice_subrange(self.inbox.as_slice(), 0, k),
        );
        let tail = vstd::slice::slice_to_vec(
            vstd::slice::slice_subrange(self.inbox.as_slice(), k, self.inbox.len()),
        );
        self.inbox = tail;
        proof {
            assert(old(self).inbox@.subrange(0, k as int) =~= old(self).inbox@.take(k as int));
            assert(old(self).inbox@.subrange(k as int, old(self).inbox@.len() as int) =~= old(self).inbox@.skip(k as int));
        }
        Ok(head)
    }

    /// Dispatch one packet received while ESTABLISHED or tearing down.
    ///
    /// An RST aborts at once.  An acknowledgment is applied to the send
    /// side.  A data payload is handed to the receive side and answered
    /// with an acknowledgment carrying the next expected sequence number
    /// (so a lost acknowledgment is replaced when the duplicate arrives).
    /// A lone in-order FIN is acknowledged; the first one also sends our
    /// own FIN and moves to LAST_ACK.  Payloads larger than any window are
    /// dropped.
    #[verifier::rlimit(100)]
    #[verifier::spinoff_prover]
    pub fn on_segment(&mut self, pkt: &RdpPacket, now: u64) -> (out: Vec<RdpPacket>)
        requires
            old(self).wf(),
            old(self).state is Established || old(self).state is FinWait || old(self).state is LastAck,
        ensures
            final(self).wf(),
            final(self).isn == old(self).isn,
            final(self).opt == old(self).opt,
            pkt.header.flags & FLAG_RST != 0 ==> final(self).state is Closed && final(self).reset
                && out@.len() == 0 && final(self).inbox@ == old(self).inbox@,
            pkt.header.flags & FLAG_RST == 0 ==> final(self).reset == old(self).reset,
            // a packet carrying neither RST nor FIN leaves an established
            // connection established
            pkt.header.flags & FLAG_RST == 0 && pkt.header.flags & FLAG_FIN == 0
                && old(self).state is Established ==> final(self).state is Established,
            // the send side under an acknowledgment
            pkt.header.flags & FLAG_RST == 0 && pkt.header.flags & FLAG_ACK != 0 ==> final(self).peer_window == pkt.header.window_size && final(self).sent_bytes <= imax(
                old(self).sent_bytes as int,
                pkt.header.window_size as int,
            ),
            pkt.header.flags & FLAG_RST == 0 && pkt.header.flags & FLAG_ACK != 0 && (old(self).state is FinWait || old(self).state is LastAck) && pkt.header.ack_num == old(self).send_next ==> final(self).state is Closed && final(self).reset == old(self).reset,
            // cumulative acknowledgment: an acknowledgment of transmitted
            // bytes advances the base exactly to `ack_num`, discarding the
            // wholly covered chunks and trimming a partially covered one;
            // an acknowledgment of nothing transmitted moves nothing
            pkt.header.flags & FLAG_RST == 0 && pkt.header.flags & FLAG_ACK != 0
                && old(self).state is Established ==> ({
                let d = w_sub(pkt.header.ack_num, old(self).send_unacked_base) as int;
                if 0 < d <= old(self).sent_bytes {
                    let np = pop_acked(old(self).in_flight@, d);
                    let rem = d - seg_bytes(old(self).in_flight@.take(np));
                    &&& final(self).send_unacked_base == pkt.header.ack_num
                    &&& final(self).in_flight@.len() == old(self).in_flight@.len() - np
                    &&& (forall|i: int|
                        0 < i < final(self).in_flight@.len() ==> (#[trigger] final(self).in_flight@[i]).seq == old(self).in_flight@[i + np].seq && final(self).in_flight@[i].data@ == old(self).in_flight@[i + np].data@)
                    &&& (final(self).in_flight@.len() > 0 ==> final(self).in_flight@[0].seq
                        == w_add(old(self).in_flight@[np].seq, rem as u32) && final(self).in_flight@[0].data@ == old(self).in_flight@[np].data@.skip(rem))
                } else {
                    &&& final(self).send_unacked_base == old(self).send_unacked_base
                    &&& final(self).in_flight@.len() == old(self).in_flight@.len()
                    &&& (forall|i: int|
                        0 <= i < final(self).in_flight@.len() ==> (#[trigger] final(self).in_flight@[i]).seq == old(self).in_flight@[i].seq && final(self).in_flight@[i].data@ == old(self).in_flight@[i].data@)
                }
            }),
            // without ACK, FIN or RST nothing on the send side moves
            pkt.header.flags & FLAG_RST == 0 && pkt.header.flags & FLAG_ACK == 0
                && pkt.header.flags & FLAG_FIN == 0 ==> final(self).send_side_eq(*old(self)),
            // the receive side under a data payload
            pkt.header.flags & FLAG_RST == 0 && old(self).state is Established && 0
                < pkt.data@.len() <= 0xffff ==> {
                let m0 = old(self).recv_state();
                &&& (pkt.header.seq_num == old(self).recv_next ==> final(self).recv_state()
                    == deliver_in_order(m0, pkt.data@))
                &&& (s_lt(pkt.header.seq_num, old(self).recv_next) ==> final(self).recv_state()
                    == m0)
                &&& (pkt.header.seq_num != old(self).recv_next && !s_lt(
                    pkt.header.seq_num,
                    old(self).recv_next,
                ) ==> final(self).recv_state() == buffer_packet(
                    m0,
                    old(self).opt.window as int,
                    pkt.header.seq_num,
                    pkt.data@,
                ))
                &&& out@.len() >= 1
                &&& (pkt.header.flags & FLAG_ACK == 0 ==> out@.len() == 1)
                &&& out@.last().header == spec_data_header(
                    final(self).send_next,
                    final(self).recv_next,
                    final(self).spec_advertised(),
                )
                &&& out@.last().data@.len() == 0
            },
            // data packets never touch these
            pkt.header.flags & FLAG_RST == 0 && pkt.data@.len() == 0 && pkt.header.flags
                & FLAG_FIN == 0 ==> final(self).inbox@ == old(self).inbox@,
            // a lone in-order FIN while established: acknowledge, send our
            // own FIN, await its acknowledgment
            pkt.header.flags & FLAG_RST == 0 && pkt.header.flags & FLAG_FIN != 0
                && pkt.data@.len() == 0 && old(self).state is Established && pkt.header.seq_num
                == old(self).recv_next ==> final(self).state is LastAck && final(self).recv_next
                == w_add(old(self).recv_next, 1) && final(self).send_next == w_add(
                old(self).send_next,
                1,
            ) && out@.len() >= 2 && out@[out@.len() - 2].header.ack_num == w_add(
                old(self).recv_next,
                1,
            ) && out@[out@.len() - 2].header.flags == FLAG_ACK && out@[out@.len()
                - 2].header.window_size == old(self).opt.window && out@.last().header
                == spec_fin_header(
                old(self).send_next,
                w_add(old(self).recv_next, 1),
                old(self).opt.window,
            ) && out@.last().data@.len() == 0,
            // a FIN that also acknowledges ours: close, and still answer it
            pkt.header.flags & FLAG_RST == 0 && pkt.header.flags & FLAG_FIN != 0
                && pkt.header.flags & FLAG_ACK != 0 && pkt.data@.len() == 0 && old(self).state is FinWait && pkt.header.ack_num == old(self).send_next && pkt.header.seq_num
                == old(self).recv_next && !old(self).reset ==> final(self).state is Closed
                && final(self).recv_next == w_add(old(self).recv_next, 1) && out@.len() >= 1
                && out@.last().header.ack_num == w_add(old(self).recv_next, 1)
                && out@.last().header.flags == FLAG_ACK && out@.last().header.window_size
                == old(self).opt.window && out@.last().data@.len() == 0,
    {
        let mut out: Vec<RdpPacket> = Vec::new();
        if pkt.header.rst() {
            self.do_reset();
            return out;
        }
        if pkt.header.ack() {
            let mut acked = self.apply_ack(pkt.header.ack_num, pkt.header.window_size, now);
            out.append(&mut acked);
        }
        if self.state == ConnState::Established && pkt.data.len() > 0 && pkt.data.len() <= 0xffff {
            self.on_data(pkt.header.seq_num, pkt.data.as_slice());
            let ack = self.make_ack();
            out.push(ack);
        }
        if pkt.header.fin() && pkt.data.len() == 0 {
            if self.state == ConnState::Established && pkt.header.seq_num == self.recv_next {
                self.recv_next = seq_add(self.recv_next, 1);
                self.reorder = Vec::new();
                out.push(
                    RdpPacket {
                        header: RdpHeader {
                            seq_num: self.send_next,
                            ack_num: self.recv_next,
                            flags: FLAG_ACK,
                            window_size: self.opt.window,
                            checksum: 0,
                        },
                        data: Vec::new(),
                    },
                );
                let fin = RdpPacket {
                    header: RdpHeader {
                        seq_num: self.send_next,
                        ack_num: self.recv_next,
                        flags: FLAGS_FIN_ACK,
                        window_size: self.opt.window,
                        checksum: 0,
                    },
                    data: Vec::new(),
                };
                self.send_next = seq_add(self.send_next, 1);
                self.state = ConnState::LastAck;
                self.fin_deadline = teardown_deadline(now, self.opt.rto, self.opt.max_retries);
                out.push(fin);
                proof {
                    assert(self.entries() =~= Seq::<(u32, Seq<u8>)>::empty());
                    lemma_seg_bytes_nonneg(self.in_flight@);
                    crate::seqnum::lemma_add_add(
                        self.send_unacked_base,
                        seg_bytes(self.in_flight@) as u32,
                        1u32,
                    );
                }
            } else if (self.state == ConnState::FinWait || (self.state == ConnState::Closed
                && !self.reset)) && pkt.header.seq_num == self.recv_next {
                // the peer's FIN deserves its acknowledgment even when the
                // packet that carried it also acknowledged ours
                self.recv_next = seq_add(self.recv_next, 1);
                self.reorder = Vec::new();
                out.push(
                    RdpPacket {
                        header: RdpHeader {
                            seq_num: self.send_next,
                            ack_num: self.recv_next,
                            flags: FLAG_ACK,
                            window_size: self.opt.window,
                            checksum: 0,
                        },
                        data: Vec::new(),
                    },
                );
                proof {
                    assert(self.entries() =~= Seq::<(u32, Seq<u8>)>::empty());
                }
            }
        }
        out
    }
}

/// The receive side's reaction to one data packet, as `on_segment`
/// guarantees it: at the cursor the payload is delivered and the buffer
/// drained, behind the cursor it is a duplicate and nothing changes,
/// ahead of it the payload is buffered when window and entries allow.
pub open spec fn recv_transition(m: RecvState, cap: int, seq: u32, data: Seq<u8>) -> RecvState {
    if seq == m.recv_next {
        deliver_in_order(m, data)
    } else if s_lt(seq, m.recv_next) {
        m
    } else {
        buffer_packet(m, cap, seq, data)
    }
}

/// Draining advances the cursor by at least the delivered payload and at
/// most to the end of the window.
proof fn lemma_drained_next_bound(entries: Seq<(u32, Seq<u8>)>, start: u32, d: int, cap: int)
    requires
        entries_wf(entries, start, cap),
        0 < d <= 0x7fff_0000,
        0 <= cap <= 0xffff,
    ensures
        ({
            let nx = drained_next(entries, w_add(start, d as u32));
            d <= w_sub(nx, start) <= imax(d, cap)
        }),
    decreases entries.len(),
{
    let from = w_add(start, d as u32);
    crate::seqnum::lemma_add_sub(start, d as u32);
    if entries.len() == 0 {
    } else if entries[0].0 == from {
        let len0 = entries[0].1.len() as int;
        crate::seqnum::lemma_sub_add(entries[0].0, start);
        assert(w_sub(entries[0].0, start) == d);
        lemma_entries_wf_skip(entries, start, cap, 1);
        crate::seqnum::lemma_add_add(start, d as u32, len0 as u32);
        lemma_drained_next_bound(entries.skip(1), start, d + len0, cap);
    } else if s_lt(entries[0].0, from) {
        lemma_entries_wf_skip(entries, start, cap, 1);
        lemma_drained_next_bound(entries.skip(1), start, d, cap);
    } else {
    }
}

/// Duplicate delivery suppression: once a data packet has been delivered
/// at the cursor, delivering the very same packet again changes nothing —
/// its sequence number now lies behind the cursor and it is dropped, so
/// exactly one copy of the payload ever reaches the application.
pub proof fn lemma_duplicate_suppressed(m: RecvState, cap: int, data: Seq<u8>)
    requires
        entries_wf(m.entries, m.recv_next, cap),
        0 < data.len() <= 0xffff,
        0 <= cap <= 0xffff,
    ensures
        ({
            let m1 = recv_transition(m, cap, m.recv_next, data);
            &&& s_lt(m.recv_next, m1.recv_next)
            &&& recv_transition(m1, cap, m.recv_next, data) == m1
        }),
{
    lemma_drained_next_bound(m.entries, m.recv_next, data.len() as int, cap);
    let m1 = recv_transition(m, cap, m.recv_next, data);
    assert(m1.recv_next == drained_next(m.entries, w_add(m.recv_next, data.len() as u32)));
    assert(s_lt(m.recv_next, m1.recv_next));
}

/// Reordering: when two consecutive data packets arrive in the wrong
/// order at an empty reorder buffer, the later one is buffered and the
/// earlier one's arrival delivers both, in order, in one step.
pub proof fn lemma_reordered_delivery(m: RecvState, cap: int, d1: Seq<u8>, d2: Seq<u8>)
    requires
        m.entries.len() == 0,
        0 < d1.len(),
        0 < d2.len(),
        d1.len() + d2.len() <= cap,
        0 <= cap <= 0xffff,
    ensures
        ({
            let s2 = w_add(m.recv_next, d1.len() as u32);
            let mb = recv_transition(m, cap, s2, d2);
            let m2 = recv_transition(mb, cap, m.recv_next, d1);
            &&& mb.inbox == m.inbox
            &&& m2.inbox == m.inbox + d1 + d2
            &&& m2.recv_next == w_add(m.recv_next, (d1.len() + d2.len()) as u32)
            &&& m2.entries.len() == 0
        }),
{
    let rn = m.recv_next;
    let s2 = w_add(rn, d1.len() as u32);
    crate::seqnum::lemma_add_sub(rn, d1.len() as u32);
    assert(w_sub(s2, rn) == d1.len());
    assert(s2 != rn && !s_lt(s2, rn));
    assert(can_buffer(m, cap, s2, d2));
    let mb = recv_transition(m, cap, s2, d2);
    assert(mb.entries =~= seq![(s2, d2)]);
    assert(mb.recv_next == rn && mb.inbox == m.inbox);
    let m2 = recv_transition(mb, cap, rn, d1);
    reveal_with_fuel(drained, 3);
    reveal_with_fuel(drained_rest, 3);
    reveal_with_fuel(drained_next, 3);
    assert(mb.entries[0].0 == s2);
    assert(mb.entries.skip(1) =~= Seq::<(u32, Seq<u8>)>::empty());
    assert(drained(mb.entries, s2) == d2 + drained(
        mb.entries.skip(1),
        w_add(s2, d2.len() as u32),
    ));
    assert(drained(mb.entries.skip(1), w_add(s2, d2.len() as u32)) =~= Seq::<u8>::empty());
    assert(drained(mb.entries, s2) =~= d2);
    assert(m2.inbox =~= m.inbox + d1 + d2);
    crate::seqnum::lemma_add_add(rn, d1.len() as u32, d2.len() as u32);
    assert(m2.recv_next == w_add(rn, (d1.len() + d2.len()) as u32));
    assert(m2.entries.len() == 0);
}

/// The header of the SYN a client opens with.
pub open spec fn spec_syn_header(isn: u32, win: u16) -> RdpHeader {
    RdpHeader { seq_num: isn, ack_num: 0, flags: FLAG_SYN, window_size: win, checksum: 0 }
}

/// The header of the SYN+ACK a listener answers a SYN with.
pub open spec fn spec_synack_header(server_isn: u32, client_seq: u32, win: u16) -> RdpHeader {
    RdpHeader {
        seq_num: server_isn,
        ack_num: w_add(client_seq, 1),
        flags: FLAGS_SYN_ACK,
        window_size: win,
        checksum: 0,
    }
}

/// When a client in SYN_SENT accepts a reply as the matching SYN+ACK:
/// both flag bits set and our initial sequence number acknowledged.
pub open spec fn spec_client_accepts(isn: u32, h: RdpHeader) -> bool {
    h.flags == FLAGS_SYN_ACK && h.ack_num == w_add(isn, 1)
}

/// The header of the final ACK a client completes the handshake with.
pub open spec fn spec_client_ack_header(isn: u32, synack: RdpHeader, win: u16) -> RdpHeader {
    RdpHeader {
        seq_num: w_add(isn, 1),
        ack_num: w_add(synack.seq_num, 1),
        flags: FLAG_ACK,
        window_size: win,
        checksum: 0,
    }
}

/// When a listener promotes a pending handshake on a packet: an ACK that
/// carries neither SYN nor FIN and acknowledges the server's initial
/// sequence number.
pub open spec fn spec_listener_promotes(server_isn: u32, h: RdpHeader) -> bool {
    h.flags & FLAG_ACK != 0 && h.flags & FLAG_SYN == 0 && h.flags & FLAG_FIN == 0 && h.ack_num
        == w_add(server_isn, 1)
}

impl Connection {
    /// Client side of `connect`: CLOSED → SYN_SENT, choosing the given
    /// initial sequence number and returning the SYN to transmit.
    pub fn client_start(isn: u32, opt: RdpOption) -> (r: (Connection, RdpPacket))
        requires
            opt.mss > 0,
        ensures
            r.0.wf(),
            r.0.state is SynSent,
            r.0.isn == isn,
            r.0.opt == opt,
            !r.0.reset,
            r.0.inbox@.len() == 0,
            r.0.in_flight@.len() == 0,
            r.0.reorder@.len() == 0,
            r.0.send_next == w_add(isn, 1),
            r.0.send_unacked_base == w_add(isn, 1),
            r.1.header == spec_syn_header(isn, opt.window),
            r.1.data@.len() == 0,
    {
        let conn = Connection {
            state: ConnState::SynSent,
            isn,
            send_next: seq_add(isn, 1),
            send_unacked_base: seq_add(isn, 1),
            recv_next: 0,
            in_flight: Vec::new(),
            n_sent: 0,
            sent_bytes: 0,
            reorder: Vec::new(),
            inbox: Vec::new(),
            peer_window: 0,
            fin_deadline: 0,
            opt,
            reset: false,
        };
        let pkt = RdpPacket {
            header: RdpHeader {
                seq_num: isn,
                ack_num: 0,
                flags: FLAG_SYN,
                window_size: opt.window,
                checksum: 0,
            },
            data: Vec::new(),
        };
        proof {
            assert(conn.entries() =~= Seq::<(u32, Seq<u8>)>::empty());
            assert(conn.in_flight@.take(0) =~= Seq::<Segment>::empty());
        }
        (conn, pkt)
    }

    /// Client side of the handshake's second step, in SYN_SENT.  The
    /// matching SYN+ACK establishes the connection and returns the final
    /// ACK to transmit; anything else closes it and fails with
    /// `HandshakeFailed`.
    pub fn client_on_synack(&mut self, pkt: &RdpPacket) -> (r: Result<RdpPacket, RdpError>)
        requires
            old(self).wf(),
            old(self).state is SynSent,
            old(self).in_flight@.len() == 0,
            old(self).reorder@.len() == 0,
            !old(self).reset,
            old(self).send_next == w_add(old(self).isn, 1),
            old(self).send_unacked_base == w_add(old(self).isn, 1),
        ensures
            final(self).wf(),
            final(self).opt == old(self).opt,
            final(self).isn == old(self).isn,
            !final(self).reset,
            final(self).inbox@ == old(self).inbox@,
            final(self).in_flight@.len() == 0,
            final(self).reorder@.len() == 0,
            (r is Ok) == spec_client_accepts(old(self).isn, pkt.header),
            r is Ok ==> final(self).state is Established && final(self).send_next == w_add(
                old(self).isn,
                1,
            ) && final(self).send_unacked_base == w_add(old(self).isn, 1) && final(self).recv_next
                == w_add(pkt.header.seq_num, 1) && final(self).peer_window
                == pkt.header.window_size && r->Ok_0.header == spec_client_ack_header(
                old(self).isn,
                pkt.header,
                old(self).opt.window,
            ) && r->Ok_0.data@.len() == 0,
            r is Err ==> final(self).state is Closed && r->Err_0 == RdpError::HandshakeFailed,
    {
        if pkt.header.flags == FLAGS_SYN_ACK && pkt.header.ack_num == seq_add(self.isn, 1) {
            self.state = ConnState::Established;
            self.recv_next = seq_add(pkt.header.seq_num, 1);
            self.peer_window = pkt.header.window_size;
            let ack = RdpPacket {
                header: RdpHeader {
                    seq_num: self.send_next,
                    ack_num: self.recv_next,
                    flags: FLAG_ACK,
                    window_size: self.opt.window,
                    checksum: 0,
                },
                data: Vec::new(),
            };
            proof {
                assert(self.entries() =~= Seq::<(u32, Seq<u8>)>::empty());
            }
            Ok(ack)
        } else {
            self.state = ConnState::Closed;
            proof {
                assert(self.entries() =~= Seq::<(u32, Seq<u8>)>::empty());
            }
            Err(RdpError::HandshakeFailed)
        }
    }

    /// The listener side of a completed handshake: a connection in
    /// ESTABLISHED with the server's numbers in place.
    pub fn server_establish(server_isn: u32, client_next: u32, peer_window: u16, opt: RdpOption) -> (r:
        Connection)
        requires
            opt.mss > 0,
        ensures
            r.wf(),
            r.state is Established,
            r.isn == server_isn,
            r.send_next == w_add(server_isn, 1),
            r.send_unacked_base == w_add(server_isn, 1),
            r.recv_next == client_next,
            r.peer_window == peer_window,
            r.opt == opt,
            !r.reset,
            r.inbox@.len() == 0,
            r.in_flight@.len() == 0,
            r.reorder@.len() == 0,
    {
        let conn = Connection {
            state: ConnState::Established,
            isn: server_isn,
            send_next: seq_add(server_isn, 1),
            send_unacked_base: seq_add(server_isn, 1),
            recv_next: client_next,
            in_flight: Vec::new(),
            n_sent: 0,
            sent_bytes: 0,
            reorder: Vec::new(),
            inbox: Vec::new(),
            peer_window,
            fin_deadline: 0,
            opt,
            reset: false,
        };
        proof {
            assert(conn.entries() =~= Seq::<(u32, Seq<u8>)>::empty());
            assert(conn.in_flight@.take(0) =~= Seq::<Segment>::empty());
        }
        conn
    }
}

} // verus!
