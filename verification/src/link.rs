//! Unidirectional links between apps, implemented as bounded circular ring
//! buffers of packets.
//!
//! A link has a `read` and a `write` cursor into a ring of
//! `LINK_RING_SIZE` slots; the usual one-empty-slot convention leaves
//! `LINK_MAX_PACKETS` usable entries. Transmitting onto a full link drops
//! the packet (it is freed and counted in `txdrop`); receiving from an
//! empty link is excluded by contract. The view of a link is the sequence
//! of queued packets, oldest first.

use vstd::prelude::*;

verus! {

use crate::packet;
use crate::packet::Packet;
use crate::packet::Freelist;
use crate::packet::cleared;
use crate::engine::EngineStats;
use crate::engine::spec_freebits;

/// Size of the ring buffer.
pub const LINK_RING_SIZE: usize = 1024;

/// Capacity of a link: one ring slot always stays empty.
pub const LINK_MAX_PACKETS: usize = LINK_RING_SIZE - 1;

pub struct Link {
    /// The circular ring: a slot holds a packet exactly when it lies in the
    /// cyclic interval [read, write). Managed by `transmit` and `receive`;
    /// not meant to be touched directly.
    pub packets: Vec<Option<Packet>>,
    /// The next slot to be read.
    pub read: usize,
    /// The next slot to be written.
    pub write: usize,
    /// Packets stored by `transmit`.
    pub txpackets: u64,
    /// Bytes stored by `transmit`.
    pub txbytes: u64,
    /// Packets dropped by `transmit` because the ring was full.
    pub txdrop: u64,
    /// Packets taken by `receive`.
    pub rxpackets: u64,
    /// Bytes taken by `receive`.
    pub rxbytes: u64,
}

impl Link {
    /// The `read` cursor, for stating cursor invariants.
    pub closed spec fn read_cursor(&self) -> int {
        self.read as int
    }

    /// The `write` cursor, for stating cursor invariants.
    pub closed spec fn write_cursor(&self) -> int {
        self.write as int
    }

    /// Number of queued packets: the cyclic distance from `read` to
    /// `write`.
    closed spec fn occupancy(&self) -> int {
        if self.write >= self.read {
            self.write - self.read
        } else {
            self.write + LINK_RING_SIZE - self.read
        }
    }

    /// Ring slot holding the `k`-th queued packet.
    closed spec fn pos(&self, k: int) -> int {
        if self.read + k < LINK_RING_SIZE {
            self.read + k
        } else {
            self.read + k - LINK_RING_SIZE
        }
    }

    /// Whether ring slot `i` lies in the cyclic interval [read, write).
    closed spec fn slot_occupied(&self, i: int) -> bool {
        if self.write >= self.read {
            self.read <= i < self.write
        } else {
            i < self.write || self.read <= i
        }
    }

    /// Well-formed ring: cursors in range, occupied slots hold sound
    /// packets and only those, and the transmit/receive counters measure
    /// exactly the queued packets.
    pub closed spec fn wf(&self) -> bool {
        &&& self.packets@.len() == LINK_RING_SIZE
        &&& self.read < LINK_RING_SIZE
        &&& self.write < LINK_RING_SIZE
        &&& (forall|i: int|
            0 <= i < LINK_RING_SIZE ==> ((#[trigger] self.packets@[i]) is Some
                <==> self.slot_occupied(i)))
        &&& (forall|i: int|
            0 <= i < LINK_RING_SIZE && (#[trigger] self.packets@[i]) is Some
                ==> self.packets@[i]->Some_0.wf())
        &&& self.txpackets == self.rxpackets + self.occupancy()
    }
}

impl View for Link {
    type V = Seq<Packet>;

    /// The queued packets, oldest first.
    closed spec fn view(&self) -> Seq<Packet> {
        Seq::new(self.occupancy() as nat, |k: int| self.packets@[self.pos(k)]->Some_0)
    }
}

/// At all times the cyclic cursor distance `(write - read) mod
/// LINK_RING_SIZE` lies between 0 and `LINK_MAX_PACKETS`, and equals the
/// number of queued packets.
pub proof fn lemma_link_occupancy(l: &Link)
    requires
        l.wf(),
    ensures
        l.read < LINK_RING_SIZE,
        l.write < LINK_RING_SIZE,
        0 <= (l.write_cursor() - l.read_cursor()) % (LINK_RING_SIZE as int),
        (l.write_cursor() - l.read_cursor()) % (LINK_RING_SIZE as int) <= LINK_MAX_PACKETS,
        (l.write_cursor() - l.read_cursor()) % (LINK_RING_SIZE as int) == l@.len(),
{
    let d = l.write_cursor() - l.read_cursor();
    let m = LINK_RING_SIZE as int;
    if l.write_cursor() >= l.read_cursor() {
        vstd::arithmetic::div_mod::lemma_small_mod(d as nat, m as nat);
    } else {
        vstd::arithmetic::div_mod::lemma_fundamental_div_mod_converse(d, m, -1, d + m);
    }
}

/// Every queued packet of a well-formed link is structurally sound.
pub proof fn lemma_queue_wf(l: &Link)
    requires
        l.wf(),
    ensures
        forall|k: int| 0 <= k < l@.len() ==> (#[trigger] l@[k]).wf(),
        l@.len() <= LINK_MAX_PACKETS,
{
    assert forall|k: int| 0 <= k < l@.len() implies (#[trigger] l@[k]).wf() by {
        assert(l.packets@[l.pos(k)] is Some);
    }
}

/// On a well-formed link `txpackets` never lags `rxpackets`, and their
/// difference is exactly the number of packets now queued.
pub proof fn lemma_link_counters(l: &Link)
    requires
        l.wf(),
    ensures
        l.txpackets == l.rxpackets + l@.len(),
        l.rxpackets <= l.txpackets,
{
}

/// Sum of the payload lengths of the queued packets.
pub open spec fn sum_lengths(q: Seq<Packet>) -> int
    decreases q.len(),
{
    if q.len() == 0 {
        0
    } else {
        q[0].length + sum_lengths(q.subrange(1, q.len() as int))
    }
}

/// Sum of the 10 GbE on-wire costs of the queued packets, in bits.
pub open spec fn sum_freebits(q: Seq<Packet>) -> int
    decreases q.len(),
{
    if q.len() == 0 {
        0
    } else {
        spec_freebits(q[0].length) + sum_freebits(q.subrange(1, q.len() as int))
    }
}

/// The payload-length sum of a queue of sound packets is bounded by the
/// queue length times the packet capacity, and the on-wire bit sum by the
/// largest per-packet cost.
pub proof fn lemma_sum_bounds(q: Seq<Packet>)
    requires
        forall|k: int| 0 <= k < q.len() ==> (#[trigger] q[k]).wf(),
    ensures
        0 <= sum_lengths(q) <= q.len() * (packet::PAYLOAD_SIZE as int),
        0 <= sum_freebits(q) <= q.len() * spec_freebits(packet::PAYLOAD_SIZE as u16),
    decreases q.len(),
{
    if q.len() > 0 {
        let rest = q.subrange(1, q.len() as int);
        assert(forall|k: int| 0 <= k < rest.len() ==> (#[trigger] rest[k]).wf());
        lemma_sum_bounds(rest);
        assert(q[0].length <= packet::PAYLOAD_SIZE);
        assert(spec_freebits(q[0].length) <= spec_freebits(packet::PAYLOAD_SIZE as u16));
        assert((q.len() - 1) * (packet::PAYLOAD_SIZE as int) + (packet::PAYLOAD_SIZE as int)
            == q.len() * (packet::PAYLOAD_SIZE as int)) by (nonlinear_arith);
        assert((q.len() - 1) * spec_freebits(packet::PAYLOAD_SIZE as u16) + spec_freebits(
            packet::PAYLOAD_SIZE as u16,
        ) == q.len() * spec_freebits(packet::PAYLOAD_SIZE as u16)) by (nonlinear_arith);
    }
}

/// Extending a prefix by one element adds that element's length and
/// on-wire cost to the prefix sums.
pub proof fn lemma_sum_prefix_step(q: Seq<Packet>, f: int)
    requires
        0 <= f < q.len(),
    ensures
        sum_lengths(q.subrange(0, f + 1)) == sum_lengths(q.subrange(0, f)) + q[f].length,
        sum_freebits(q.subrange(0, f + 1)) == sum_freebits(q.subrange(0, f)) + spec_freebits(
            q[f].length,
        ),
    decreases f,
{
    if f == 0 {
        assert(q.subrange(0, 1).subrange(1, 1) =~= Seq::<Packet>::empty());
        assert(q.subrange(0, 0) =~= Seq::<Packet>::empty());
        assert(q.subrange(0, 1)[0] == q[0]);
    } else {
        let t = q.subrange(1, q.len() as int);
        lemma_sum_prefix_step(t, f - 1);
        assert(q.subrange(0, f + 1).subrange(1, f + 1) =~= t.subrange(0, f));
        assert(q.subrange(0, f).subrange(1, f) =~= t.subrange(0, f - 1));
        assert(q.subrange(0, f + 1)[0] == q[0]);
        assert(q.subrange(0, f)[0] == q[0]);
        assert(t[f - 1] == q[f]);
    }
}

/// Allocate a new empty link: cursors zero, counters zero.
pub fn new() -> (r: Link)
    ensures
        r.wf(),
        r@ =~= Seq::<Packet>::empty(),
        r.read == 0,
        r.write == 0,
        r.txpackets == 0,
        r.txbytes == 0,
        r.txdrop == 0,
        r.rxpackets == 0,
        r.rxbytes == 0,
{
    let mut packets: Vec<Option<Packet>> = Vec::new();
    let mut i: usize = 0;
    while i < LINK_RING_SIZE
        invariant
            i <= LINK_RING_SIZE,
            packets@.len() == i,
            forall|k: int| 0 <= k < i ==> (#[trigger] packets@[k]) is None,
        decreases LINK_RING_SIZE - i,
    {
        packets.push(None);
        i = i + 1;
    }
    Link {
        packets,
        read: 0,
        write: 0,
        txpackets: 0,
        txbytes: 0,
        txdrop: 0,
        rxpackets: 0,
        rxbytes: 0,
    }
}

/// Predicate to test if a link holds no packets.
pub fn empty(r: &Link) -> (e: bool)
    requires
        r.wf(),
    ensures
        e == (r@.len() == 0),
        e == (r.read == r.write),
{
    r.read == r.write
}

/// Predicate to test if a link is at capacity.
pub fn full(r: &Link) -> (f: bool)
    requires
        r.wf(),
    ensures
        f == (r@.len() == LINK_MAX_PACKETS),
        f == ((r.write + 1) % (LINK_RING_SIZE as int) == r.read),
{
    (r.write + 1) % LINK_RING_SIZE == r.read
}

/// Dequeue the oldest packet from the link; the caller takes exclusive
/// ownership. Receiving from an empty link is excluded by contract.
pub fn receive(r: &mut Link) -> (p: Packet)
    requires
        old(r).wf(),
        old(r)@.len() > 0,
        old(r).rxpackets < u64::MAX,
        old(r).rxbytes + packet::PAYLOAD_SIZE <= u64::MAX,
    ensures
        final(r).wf(),
        final(r)@ == old(r)@.subrange(1, old(r)@.len() as int),
        p == old(r)@[0],
        p.wf(),
        final(r).rxpackets == old(r).rxpackets + 1,
        final(r).rxbytes == old(r).rxbytes + p.length,
        final(r).txpackets == old(r).txpackets,
        final(r).txbytes == old(r).txbytes,
        final(r).txdrop == old(r).txdrop,
        final(r).read == (old(r).read + 1) % (LINK_RING_SIZE as int),
        final(r).write == old(r).write,
{
    proof {
        assert(old(r).packets@[old(r).read as int] is Some);
    }
    let mut slot: Option<Packet> = None;
    let read = r.read;
    r.packets.set_and_swap(read, &mut slot);
    let p = slot.unwrap();
    r.read = (r.read + 1) % LINK_RING_SIZE;
    proof {
        assert(r.read == if old(r).read + 1 == LINK_RING_SIZE {
            0int
        } else {
            old(r).read + 1
        });
    }
    r.rxpackets = r.rxpackets + 1;
    r.rxbytes = r.rxbytes + p.length as u64;
    proof {
        assert(r.occupancy() == old(r).occupancy() - 1);
        assert forall|i: int| 0 <= i < LINK_RING_SIZE implies ((#[trigger] r.packets@[i]) is Some
            <==> r.slot_occupied(i)) by {
            assert(old(r).packets@[i] is Some <==> old(r).slot_occupied(i));
        }
        assert(r@ =~= old(r)@.subrange(1, old(r)@.len() as int)) by {
            assert forall|k: int| 0 <= k < r@.len() implies r@[k] == old(r)@[k + 1] by {
                assert(r.pos(k) == old(r).pos(k + 1));
                assert(old(r).packets@[old(r).pos(k + 1)] is Some);
                assert(old(r).pos(k + 1) != old(r).read as int);
            }
        }
        assert(p == old(r)@[0]);
    }
    p
}

/// Enqueue a packet onto the link, transferring ownership into the ring.
/// If the link is full the packet is freed instead and the drop counted in
/// `txdrop`; otherwise it is stored and counted in `txpackets`/`txbytes`.
pub fn transmit(r: &mut Link, p: Packet, fl: &mut Freelist, stats: &mut EngineStats)
    requires
        old(r).wf(),
        p.wf(),
        old(r).txpackets < u64::MAX,
        old(r).txbytes + p.length <= u64::MAX,
        old(r).txdrop < u64::MAX,
        old(fl).wf(),
        // Only the drop path frees: capacity and counter head-room are
        // owed only when the ring is full.
        old(r)@.len() == LINK_MAX_PACKETS ==> old(fl)@.len() < packet::FREELIST_SIZE,
        old(r)@.len() == LINK_MAX_PACKETS ==> old(stats).room_for_frees(1),
    ensures
        final(r).wf(),
        final(fl).wf(),
        old(r)@.len() < LINK_MAX_PACKETS ==> {
            &&& final(r)@ == old(r)@.push(p)
            &&& final(r).txpackets == old(r).txpackets + 1
            &&& final(r).txbytes == old(r).txbytes + p.length
            &&& final(r).txdrop == old(r).txdrop
            &&& final(r).write == (old(r).write + 1) % (LINK_RING_SIZE as int)
            &&& *final(fl) == *old(fl)
            &&& *final(stats) == *old(stats)
        },
        old(r)@.len() == LINK_MAX_PACKETS ==> {
            &&& final(r)@ == old(r)@
            &&& final(r).txpackets == old(r).txpackets
            &&& final(r).txbytes == old(r).txbytes
            &&& final(r).txdrop == old(r).txdrop + 1
            &&& final(r).write == old(r).write
            &&& final(fl)@ == old(fl)@.push(cleared(p))
            &&& final(stats).frees == old(stats).frees + 1
            &&& final(stats).freebytes == old(stats).freebytes + p.length
            &&& final(stats).freebits == old(stats).freebits + spec_freebits(p.length)
        },
        final(r).read == old(r).read,
        final(r).rxpackets == old(r).rxpackets,
        final(r).rxbytes == old(r).rxbytes,
        final(stats).breaths == old(stats).breaths,
        final(fl)@.len() + final(r)@.len() == old(fl)@.len() + old(r)@.len() + 1,
{
    if full(r) {
        r.txdrop = r.txdrop + 1;
        proof {
            assert(spec_freebits(p.length) <= spec_freebits(packet::PAYLOAD_SIZE as u16));
        }
        packet::free(fl, stats, p);
    } else {
        r.txpackets = r.txpackets + 1;
        r.txbytes = r.txbytes + p.length as u64;
        let write = r.write;
        r.packets.set(write, Some(p));
        r.write = (r.write + 1) % LINK_RING_SIZE;
        proof {
            assert(r.write == if old(r).write + 1 == LINK_RING_SIZE {
                0int
            } else {
                old(r).write + 1
            });
            assert(!old(r).slot_occupied(old(r).write as int));
            assert(r.occupancy() == old(r).occupancy() + 1);
            assert forall|i: int|
                0 <= i < LINK_RING_SIZE implies ((#[trigger] r.packets@[i]) is Some
                <==> r.slot_occupied(i)) by {
                assert(old(r).packets@[i] is Some <==> old(r).slot_occupied(i));
            }
            assert(r@ =~= old(r)@.push(p)) by {
                assert forall|k: int| 0 <= k < old(r)@.len() implies r@[k] == old(r)@[k] by {
                    assert(old(r).packets@[old(r).pos(k)] is Some);
                    assert(old(r).pos(k) != old(r).write as int);
                    assert(r.pos(k) == old(r).pos(k));
                }
                assert(r.pos(old(r).occupancy()) == old(r).write as int);
                assert(r@[old(r)@.len() as int] == p);
            }
        }
    }
}

} // verus!
