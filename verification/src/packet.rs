//! Packets and the packet freelist.
//!
//! A packet is a fixed-layout buffer: a 16-bit payload length and a byte
//! array of exactly `PAYLOAD_SIZE` bytes. Packets are owned values; at any
//! instant a packet is on the freelist, enqueued on exactly one link, or
//! held by the code that allocated or received it. The freelist is a bounded
//! pool populated once at startup; `allocate` and `free` move packets out of
//! and back into it, and `free` also feeds the global statistics counters.

use vstd::prelude::*;

verus! {

use crate::engine::EngineStats;
use crate::engine::spec_freebits;

/// The exact size of every packet's data field, in bytes.
pub const PAYLOAD_SIZE: usize = 1024 * 10;

/// Number of packets the freelist holds after `init`.
pub const FREELIST_SIZE: usize = 100_000;

/// Packet of network data, with associated metadata.
pub struct Packet {
    /// Data payload length; at most `PAYLOAD_SIZE`.
    pub length: u16,
    /// Payload buffer of exactly `PAYLOAD_SIZE` bytes.
    pub data: Vec<u8>,
}

impl Packet {
    /// A structurally sound packet: a full-size buffer and an in-range
    /// length.
    pub open spec fn wf(&self) -> bool {
        &&& self.data@.len() == PAYLOAD_SIZE
        &&& self.length <= PAYLOAD_SIZE
    }
}

/// The same packet with its length reset to zero, as `free` stores it.
pub open spec fn cleared(p: Packet) -> Packet {
    Packet { length: 0, data: p.data }
}

/// Pool of pre-allocated packets. The sole source of new packets: packets
/// leave it through `allocate` and return through `free`.
pub struct Freelist {
    list: Vec<Packet>,
}

impl View for Freelist {
    type V = Seq<Packet>;

    closed spec fn view(&self) -> Seq<Packet> {
        self.list@
    }
}

impl Freelist {
    /// Every pooled packet is sound and has length zero, and the pool never
    /// exceeds its fixed capacity.
    pub open spec fn wf(&self) -> bool {
        &&& self@.len() <= FREELIST_SIZE
        &&& forall|i: int|
            0 <= i < self@.len() ==> (#[trigger] self@[i]).wf() && self@[i].length == 0
    }

    /// Number of packets currently pooled.
    pub fn nfree(&self) -> (n: usize)
        ensures
            n == self@.len(),
    {
        self.list.len()
    }
}

/// Allocate a fresh all-zero packet.
pub fn new_packet() -> (p: Packet)
    ensures
        p.wf(),
        p.length == 0,
        forall|i: int| 0 <= i < p.data@.len() ==> p.data@[i] == 0,
{
    let data: Vec<u8> = vec![0u8; PAYLOAD_SIZE];
    proof {
        assert forall|i: int| 0 <= i < data@.len() implies data@[i] == 0 by {
            assert(vstd::pervasive::cloned(0u8, data@[i]));
        }
    }
    Packet { length: 0, data }
}

/// Populate a freelist with `FREELIST_SIZE` freshly allocated packets.
/// Called once at startup, before any allocate or free.
pub fn init() -> (fl: Freelist)
    ensures
        fl.wf(),
        fl@.len() == FREELIST_SIZE,
{
    let mut list: Vec<Packet> = Vec::new();
    let mut i: usize = 0;
    while i < FREELIST_SIZE
        invariant
            i <= FREELIST_SIZE,
            list@.len() == i,
            forall|k: int|
                0 <= k < i ==> (#[trigger] list@[k]).wf() && list@[k].length == 0,
        decreases FREELIST_SIZE - i,
    {
        let p = new_packet();
        list.push(p);
        i = i + 1;
    }
    Freelist { list }
}

/// Take a packet off the freelist for use. The freelist must not be empty:
/// underflow signals a leak and is excluded by contract.
pub fn allocate(fl: &mut Freelist) -> (p: Packet)
    requires
        old(fl).wf(),
        old(fl)@.len() > 0,
    ensures
        final(fl).wf(),
        final(fl)@ == old(fl)@.drop_last(),
        p == old(fl)@.last(),
        p.wf(),
        p.length == 0,
{
    fl.list.pop().unwrap()
}

/// Return a packet to the freelist, resetting its length, without touching
/// the statistics counters.
fn free_internal(fl: &mut Freelist, mut p: Packet)
    requires
        old(fl).wf(),
        old(fl)@.len() < FREELIST_SIZE,
        p.wf(),
    ensures
        final(fl).wf(),
        final(fl)@ == old(fl)@.push(cleared(p)),
{
    p.length = 0;
    fl.list.push(p);
}

/// Return a packet to the freelist and account for it: one more free,
/// `length` bytes, and the packet's 10 GbE on-wire cost in bits (minimum
/// frame size plus CRC and inter-packet gap overhead). The freelist must
/// not be full: overflow signals a double-free and is excluded by contract.
pub fn free(fl: &mut Freelist, stats: &mut EngineStats, p: Packet)
    requires
        old(fl).wf(),
        old(fl)@.len() < FREELIST_SIZE,
        p.wf(),
        old(stats).frees < u64::MAX,
        old(stats).freebytes + p.length <= u64::MAX,
        old(stats).freebits + spec_freebits(p.length) <= u64::MAX,
    ensures
        final(fl).wf(),
        final(fl)@ == old(fl)@.push(cleared(p)),
        final(stats).frees == old(stats).frees + 1,
        final(stats).freebytes == old(stats).freebytes + p.length,
        final(stats).freebits == old(stats).freebits + spec_freebits(p.length),
        final(stats).breaths == old(stats).breaths,
{
    stats.add_frees();
    stats.add_freebytes(p.length as u64);
    // Bits of physical capacity required for the packet on 10 GbE: minimum
    // data size plus the overhead of CRC and inter-packet gap.
    let payload = if p.length as u64 >= 46 {
        p.length as u64
    } else {
        46
    };
    stats.add_freebits((payload + 4 + 5) * 8);
    free_internal(fl, p);
}

/// Allocate a new packet carrying the same payload: the length and the
/// first `length` bytes are copied.
pub fn clone(fl: &mut Freelist, p: &Packet) -> (q: Packet)
    requires
        old(fl).wf(),
        old(fl)@.len() > 0,
        p.wf(),
    ensures
        final(fl).wf(),
        final(fl)@ == old(fl)@.drop_last(),
        q.wf(),
        q.length == p.length,
        forall|i: int| 0 <= i < p.length ==> q.data@[i] == p.data@[i],
{
    let mut q = allocate(fl);
    crate::copy(&mut q.data, &p.data, p.length as usize);
    q.length = p.length;
    q
}

} // verus!
