//! The Intel 82599 driver's ring logic.
//!
//! The driver side that talks to hardware — register access, DMA mapping,
//! interrupt plumbing — cannot be verified and lives outside this crate.
//! What is verified here is everything the driver decides in software: the
//! descriptor ring index arithmetic, the composition and decoding of
//! descriptor and register words, and the batch receive/transmit/clean
//! state machines over the packet buffers the hardware co-owns. The
//! hardware's contribution enters as values: the write-back words it left
//! in the descriptor rings.

use vstd::prelude::*;

verus! {

use crate::link;
use crate::link::Link;
use crate::packet;
use crate::packet::Packet;
use crate::packet::Freelist;
use crate::engine::EngineStats;
use crate::engine::spec_freebits;

/// Descriptors per receive queue; must be a power of two.
pub const NUM_RX_QUEUE_ENTRIES: usize = 512;

/// Descriptors per transmit queue; must be a power of two.
pub const NUM_TX_QUEUE_ENTRIES: usize = 512;

/// Transmit descriptors are reclaimed in batches of this size.
pub const TX_CLEAN_BATCH: usize = 32;

/// Receive descriptor write-back: Descriptor Done.
pub const IXGBE_RXDADV_STAT_DD: u32 = 0x01;

/// Receive descriptor write-back: End Of Packet.
pub const IXGBE_RXDADV_STAT_EOP: u32 = 0x02;

/// Transmit descriptor write-back: Descriptor Done.
pub const IXGBE_ADVTXD_STAT_DD: u32 = 0x01;

/// Transmit descriptor command: End Of Packet.
pub const IXGBE_ADVTXD_DCMD_EOP: u32 = 0x0100_0000;

/// Transmit descriptor command: Report Status.
pub const IXGBE_ADVTXD_DCMD_RS: u32 = 0x0800_0000;

/// Transmit descriptor command: Insert FCS.
pub const IXGBE_ADVTXD_DCMD_IFCS: u32 = 0x0200_0000;

/// Transmit descriptor command: Descriptor Extension.
pub const IXGBE_ADVTXD_DCMD_DEXT: u32 = 0x2000_0000;

/// Transmit descriptor type: advanced data descriptor.
pub const IXGBE_ADVTXD_DTYP_DATA: u32 = 0x0030_0000;

/// Shift of the payload length field in `olinfo_status`.
pub const IXGBE_ADVTXD_PAYLEN_SHIFT: u32 = 14;

/// LINKS register: link up.
pub const IXGBE_LINKS_UP: u32 = 0x4000_0000;

/// LINKS register: speed field mask on the 82599.
pub const IXGBE_LINKS_SPEED_82599: u32 = 0x3000_0000;

/// LINKS register: 100 Mbit/s.
pub const IXGBE_LINKS_SPEED_100_82599: u32 = 0x1000_0000;

/// LINKS register: 1 Gbit/s.
pub const IXGBE_LINKS_SPEED_1G_82599: u32 = 0x2000_0000;

/// LINKS register: 10 Gbit/s.
pub const IXGBE_LINKS_SPEED_10G_82599: u32 = 0x3000_0000;

/// The slot after `index` on a descriptor ring: both rings of this
/// driver have exactly `NUM_RX_QUEUE_ENTRIES` slots, a power of two, so
/// masking wraps the increment.
pub fn wrap_ring(index: usize, ring_size: usize) -> (r: usize)
    requires
        ring_size == NUM_RX_QUEUE_ENTRIES,
        index < ring_size,
    ensures
        r == (index + 1) % (ring_size as int),
        r < ring_size,
{
    let r = (index + 1) & (ring_size - 1);
    proof {
        let a = (index + 1) as u64;
        assert((a & 511u64) == a % 512u64) by (bit_vector);
        assert(a == index + 1);
        assert(a % 512u64 == (index + 1) % 512);
    }
    r
}

/// Whether a receive descriptor write-back has its Descriptor Done bit
/// set: the hardware has filled the buffer.
pub fn rx_desc_done(status: u32) -> (r: bool)
    ensures
        r == ((status & IXGBE_RXDADV_STAT_DD) != 0),
{
    (status & IXGBE_RXDADV_STAT_DD) != 0
}

/// Whether a receive descriptor write-back has its End Of Packet bit set.
/// A done descriptor without it means the frame overran the buffer.
pub fn rx_desc_eop(status: u32) -> (r: bool)
    ensures
        r == ((status & IXGBE_RXDADV_STAT_EOP) != 0),
{
    (status & IXGBE_RXDADV_STAT_EOP) != 0
}

/// Whether a transmit descriptor write-back reports Descriptor Done: the
/// hardware is finished with the buffer.
pub fn tx_desc_done(status: u32) -> (r: bool)
    ensures
        r == ((status & IXGBE_ADVTXD_STAT_DD) != 0),
{
    (status & IXGBE_ADVTXD_STAT_DD) != 0
}

/// The command/type/length word of a transmit data descriptor for a
/// single whole packet of `length` bytes.
pub fn tx_cmd_type_len(length: u16) -> (r: u32)
    ensures
        r == (IXGBE_ADVTXD_DCMD_EOP | IXGBE_ADVTXD_DCMD_RS | IXGBE_ADVTXD_DCMD_IFCS
            | IXGBE_ADVTXD_DCMD_DEXT | IXGBE_ADVTXD_DTYP_DATA | length as u32),
{
    IXGBE_ADVTXD_DCMD_EOP | IXGBE_ADVTXD_DCMD_RS | IXGBE_ADVTXD_DCMD_IFCS | IXGBE_ADVTXD_DCMD_DEXT
        | IXGBE_ADVTXD_DTYP_DATA | length as u32
}

/// The `olinfo_status` word of a transmit data descriptor: the payload
/// length in its shifted field.
pub fn tx_olinfo_status(length: u16) -> (r: u32)
    ensures
        r == (length as u32) << IXGBE_ADVTXD_PAYLEN_SHIFT,
{
    (length as u32) << IXGBE_ADVTXD_PAYLEN_SHIFT
}

/// The MAC address stored in the RAL/RAH register pair.
pub fn mac_from_regs(low: u32, high: u32) -> (mac: [u8; 6])
    ensures
        mac[0] == (low & 0xff) as u8,
        mac[1] == ((low >> 8) & 0xff) as u8,
        mac[2] == ((low >> 16) & 0xff) as u8,
        mac[3] == ((low >> 24) & 0xff) as u8,
        mac[4] == (high & 0xff) as u8,
        mac[5] == ((high >> 8) & 0xff) as u8,
{
    [
        (low & 0xff) as u8,
        ((low >> 8) & 0xff) as u8,
        ((low >> 16) & 0xff) as u8,
        ((low >> 24) & 0xff) as u8,
        (high & 0xff) as u8,
        ((high >> 8) & 0xff) as u8,
    ]
}

/// The RAL/RAH register pair encoding a MAC address.
pub fn mac_to_regs(mac: &[u8; 6]) -> (r: (u32, u32))
    ensures
        r.0 == mac[0] as u32 | (mac[1] as u32) << 8 | (mac[2] as u32) << 16 | (mac[3] as u32)
            << 24,
        r.1 == mac[4] as u32 | (mac[5] as u32) << 8,
{
    let low: u32 = mac[0] as u32 | (mac[1] as u32) << 8 | (mac[2] as u32) << 16 | (mac[3] as u32)
        << 24;
    let high: u32 = mac[4] as u32 | (mac[5] as u32) << 8;
    (low, high)
}

/// Writing a MAC address into the register pair and reading it back
/// returns the same address.
pub proof fn lemma_mac_roundtrip(m0: u8, m1: u8, m2: u8, m3: u8, m4: u8, m5: u8)
    ensures
        ((m0 as u32 | (m1 as u32) << 8 | (m2 as u32) << 16 | (m3 as u32) << 24) & 0xff) as u8
            == m0,
        (((m0 as u32 | (m1 as u32) << 8 | (m2 as u32) << 16 | (m3 as u32) << 24) >> 8) & 0xff)
            as u8 == m1,
        (((m0 as u32 | (m1 as u32) << 8 | (m2 as u32) << 16 | (m3 as u32) << 24) >> 16) & 0xff)
            as u8 == m2,
        (((m0 as u32 | (m1 as u32) << 8 | (m2 as u32) << 16 | (m3 as u32) << 24) >> 24) & 0xff)
            as u8 == m3,
        ((m4 as u32 | (m5 as u32) << 8) & 0xff) as u8 == m4,
        (((m4 as u32 | (m5 as u32) << 8) >> 8) & 0xff) as u8 == m5,
{
    assert(((m0 as u32 | (m1 as u32) << 8 | (m2 as u32) << 16 | (m3 as u32) << 24) & 0xff) == m0
        as u32) by (bit_vector);
    assert((((m0 as u32 | (m1 as u32) << 8 | (m2 as u32) << 16 | (m3 as u32) << 24) >> 8) & 0xff)
        == m1 as u32) by (bit_vector);
    assert((((m0 as u32 | (m1 as u32) << 8 | (m2 as u32) << 16 | (m3 as u32) << 24) >> 16) & 0xff)
        == m2 as u32) by (bit_vector);
    assert((((m0 as u32 | (m1 as u32) << 8 | (m2 as u32) << 16 | (m3 as u32) << 24) >> 24) & 0xff)
        == m3 as u32) by (bit_vector);
    assert(((m4 as u32 | (m5 as u32) << 8) & 0xff) == m4 as u32) by (bit_vector);
    assert((((m4 as u32 | (m5 as u32) << 8) >> 8) & 0xff) == m5 as u32) by (bit_vector);
}

/// The link speed in Mbit/s reported by the LINKS register: zero when
/// the link is down or the speed field holds no known speed.
pub fn link_speed_from_reg(links: u32) -> (r: u16)
    ensures
        (links & IXGBE_LINKS_UP) == 0 ==> r == 0,
        (links & IXGBE_LINKS_UP) != 0 ==> r == (if (links & IXGBE_LINKS_SPEED_82599)
            == IXGBE_LINKS_SPEED_100_82599 {
            100int
        } else if (links & IXGBE_LINKS_SPEED_82599) == IXGBE_LINKS_SPEED_1G_82599 {
            1000int
        } else if (links & IXGBE_LINKS_SPEED_82599) == IXGBE_LINKS_SPEED_10G_82599 {
            10000int
        } else {
            0int
        }),
{
    if (links & IXGBE_LINKS_UP) == 0 {
        return 0;
    }
    let speed = links & IXGBE_LINKS_SPEED_82599;
    if speed == IXGBE_LINKS_SPEED_100_82599 {
        100
    } else if speed == IXGBE_LINKS_SPEED_1G_82599 {
        1000
    } else if speed == IXGBE_LINKS_SPEED_10G_82599 {
        10000
    } else {
        0
    }
}

/// The TXDCTL register word with this driver's prefetch, host and
/// write-back thresholds installed in their fields, all other bits
/// preserved.
pub fn tx_descriptor_thresholds(txdctl: u32) -> (r: u32)
    ensures
        r == ((txdctl & !(0x3Fu32 | (0x3Fu32 << 8) | (0x3Fu32 << 16))) | 36u32 | (8u32 << 8) | (
        4u32 << 16)),
{
    (txdctl & !(0x3Fu32 | (0x3Fu32 << 8) | (0x3Fu32 << 16))) | 36u32 | (8u32 << 8) | (4u32 << 16)
}

/// A DMA ring's physical base address split into the low and high words
/// the base-address register pair takes.
pub fn dma_addr_split(addr: u64) -> (r: (u32, u32))
    ensures
        r.0 == (addr & 0xffff_ffff) as u32,
        r.1 == (addr >> 32) as u32,
{
    (((addr & 0xffff_ffff) as u32), ((addr >> 32) as u32))
}

/// Splitting a physical address into the register pair loses nothing:
/// the two words reassemble to the address.
pub proof fn lemma_dma_addr_roundtrip(addr: u64)
    ensures
        ((addr & 0xffff_ffff) | (((addr >> 32) & 0xffff_ffff) << 32)) == addr,
{
    assert(((addr & 0xffff_ffff) | (((addr >> 32) & 0xffff_ffff) << 32)) == addr)
        by (bit_vector);
}

/// What the hardware wrote back into a receive descriptor: the
/// status/error word and the received frame length.
pub struct RxWriteback {
    pub status: u32,
    pub length: u16,
}

/// Software state of one receive queue: one packet buffer lent to the
/// hardware per descriptor slot, and the next slot to examine.
pub struct IxgbeRxQueue {
    pub bufs_in_use: Vec<Packet>,
    pub rx_index: usize,
}

impl IxgbeRxQueue {
    /// A full complement of sound buffers and an in-range index.
    pub open spec fn wf(&self) -> bool {
        &&& self.bufs_in_use@.len() == NUM_RX_QUEUE_ENTRIES
        &&& self.rx_index < NUM_RX_QUEUE_ENTRIES
        &&& (forall|i: int|
            0 <= i < self.bufs_in_use@.len() ==> (#[trigger] self.bufs_in_use@[i]).wf())
    }
}

/// Ring slot `j` steps after `idx`.
pub open spec fn slot_of(idx: int, j: int) -> int {
    (idx + j) % (NUM_RX_QUEUE_ENTRIES as int)
}

/// Number of packets a receive batch takes: the run of consecutive done
/// descriptors starting at `idx`, capped at `max`.
pub open spec fn rx_run(wb: Seq<RxWriteback>, idx: int, max: int) -> int
    decreases max,
{
    if max <= 0 {
        0
    } else if (wb[idx % (NUM_RX_QUEUE_ENTRIES as int)].status & IXGBE_RXDADV_STAT_DD) == 0 {
        0
    } else {
        1 + rx_run(wb, idx + 1, max - 1)
    }
}

proof fn lemma_rx_run_bounds(wb: Seq<RxWriteback>, idx: int, max: int)
    ensures
        0 <= rx_run(wb, idx, max),
        rx_run(wb, idx, max) <= (if max >= 0 {
            max
        } else {
            0
        }),
    decreases max,
{
    if max > 0 && (wb[idx % (NUM_RX_QUEUE_ENTRIES as int)].status & IXGBE_RXDADV_STAT_DD) != 0 {
        lemma_rx_run_bounds(wb, idx + 1, max - 1);
    }
}

/// Receive a batch of packets from the hardware: walk the descriptor
/// ring from `rx_index` while the write-backs show Descriptor Done, and
/// for each done slot take its buffer, stamp the received length,
/// transmit it onto the output link, and lend a fresh buffer from the
/// freelist to the hardware in its place. Returns how many descriptors
/// were consumed. A done descriptor without End Of Packet means a frame
/// larger than a buffer, which this driver cannot handle; the contract
/// excludes it.
#[verifier::rlimit(100)]
#[verifier::spinoff_prover]
pub fn rx_batch(
    q: &mut IxgbeRxQueue,
    wb: &Vec<RxWriteback>,
    output: &mut Link,
    fl: &mut Freelist,
    stats: &mut EngineStats,
    num_packets: usize,
) -> (n: usize)
    requires
        old(q).wf(),
        old(output).wf(),
        old(fl).wf(),
        wb@.len() == NUM_RX_QUEUE_ENTRIES,
        forall|i: int|
            0 <= i < wb@.len() && ((#[trigger] wb@[i]).status & IXGBE_RXDADV_STAT_DD) != 0 ==> (
            wb@[i].status & IXGBE_RXDADV_STAT_EOP) != 0,
        forall|i: int| 0 <= i < wb@.len() ==> (#[trigger] wb@[i]).length <= packet::PAYLOAD_SIZE,
        num_packets <= NUM_RX_QUEUE_ENTRIES,
        num_packets <= old(fl)@.len(),
        old(output).txpackets + num_packets <= u64::MAX,
        old(output).txbytes + num_packets * (packet::PAYLOAD_SIZE as int) <= u64::MAX,
        old(output).txdrop + num_packets <= u64::MAX,
        old(stats).room_for_frees(num_packets as int),
    ensures
        final(q).wf(),
        final(output).wf(),
        final(fl).wf(),
        n == rx_run(wb@, old(q).rx_index as int, num_packets as int),
        final(q).rx_index == (old(q).rx_index + n) % (NUM_RX_QUEUE_ENTRIES as int),
        // The output link grew by as many received packets as fit; each
        // stored packet carries the hardware's length for its slot and
        // the payload bytes of the buffer that sat there.
        final(output)@.len() == crate::basic_apps::sat_len(old(output)@.len() as int, n as int),
        final(output)@.subrange(0, old(output)@.len() as int) == old(output)@,
        forall|j: int|
            old(output)@.len() <= j < final(output)@.len() ==> {
                let slot = (old(q).rx_index + (j - old(output)@.len())) % (
                NUM_RX_QUEUE_ENTRIES as int);
                &&& (#[trigger] final(output)@[j]).length == wb@[slot].length
                &&& final(output)@[j].data == old(q).bufs_in_use@[slot].data
            },
        final(output).txpackets == old(output).txpackets + (final(output)@.len() - old(
            output,
        )@.len()),
        final(output).txdrop == old(output).txdrop + (n - (final(output)@.len() - old(
            output,
        )@.len())),
        final(output).rxpackets == old(output).rxpackets,
        final(output).rxbytes == old(output).rxbytes,
        // Ring slots the batch consumed hold fresh buffers again.
        forall|i: int|
            0 <= i < NUM_RX_QUEUE_ENTRIES && !(exists|j: int|
                0 <= j < n && i == #[trigger] slot_of(old(q).rx_index as int, j)) ==> final(q).bufs_in_use@[i] == old(q).bufs_in_use@[i],
        final(fl)@.len() == old(fl)@.len() - n + (n - (final(output)@.len() - old(
            output,
        )@.len())),
        final(stats).breaths == old(stats).breaths,
{
    proof {
        link::lemma_queue_wf(old(output));
        assert(output@.subrange(0, old(output)@.len() as int) =~= old(output)@);
    }
    let ghost qlen0 = old(output)@.len() as int;
    let ghost idx0 = old(q).rx_index as int;
    let mut rx_index = q.rx_index;
    let mut received: usize = 0;
    while received < num_packets && rx_desc_done(wb[rx_index].status)
        invariant
            received <= num_packets,
            num_packets <= NUM_RX_QUEUE_ENTRIES,
            wb@.len() == NUM_RX_QUEUE_ENTRIES,
            forall|i: int|
                0 <= i < wb@.len() && ((#[trigger] wb@[i]).status & IXGBE_RXDADV_STAT_DD) != 0
                    ==> (wb@[i].status & IXGBE_RXDADV_STAT_EOP) != 0,
            forall|i: int|
                0 <= i < wb@.len() ==> (#[trigger] wb@[i]).length <= packet::PAYLOAD_SIZE,
            q.wf(),
            output.wf(),
            fl.wf(),
            q.rx_index == old(q).rx_index,
            idx0 == old(q).rx_index as int,
            qlen0 == old(output)@.len() as int,
            0 <= qlen0 <= link::LINK_MAX_PACKETS,
            rx_index == (idx0 + received) % (NUM_RX_QUEUE_ENTRIES as int),
            rx_index < NUM_RX_QUEUE_ENTRIES,
            // So far the run has been all-done.
            rx_run(wb@, idx0, num_packets as int) == received + rx_run(
                wb@,
                idx0 + received,
                num_packets - received,
            ),
            output@.len() == crate::basic_apps::sat_len(qlen0, received as int),
            output@.subrange(0, qlen0) == old(output)@,
            forall|j: int|
                qlen0 <= j < output@.len() ==> {
                    let slot = (idx0 + (j - qlen0)) % (NUM_RX_QUEUE_ENTRIES as int);
                    &&& (#[trigger] output@[j]).length == wb@[slot].length
                    &&& output@[j].data == old(q).bufs_in_use@[slot].data
                },
            output.txpackets == old(output).txpackets + (output@.len() - qlen0),
            output.txdrop == old(output).txdrop + (received - (output@.len() - qlen0)),
            output.txbytes <= old(output).txbytes + received * (packet::PAYLOAD_SIZE as int),
            output.rxpackets == old(output).rxpackets,
            output.rxbytes == old(output).rxbytes,
            old(output).txpackets + num_packets <= u64::MAX,
            old(output).txbytes + num_packets * (packet::PAYLOAD_SIZE as int) <= u64::MAX,
            old(output).txdrop + num_packets <= u64::MAX,
            forall|i: int|
                0 <= i < NUM_RX_QUEUE_ENTRIES && !(exists|j: int|
                    0 <= j < received && i == #[trigger] slot_of(idx0, j)) ==> q.bufs_in_use@[i]
                    == old(q).bufs_in_use@[i],
            fl@.len() == old(fl)@.len() - received + (received - (output@.len() - qlen0)),
            num_packets <= old(fl)@.len(),
            old(stats).room_for_frees(num_packets as int),
            stats.frees == old(stats).frees + (received - (output@.len() - qlen0)),
            stats.freebytes <= old(stats).freebytes + received * (packet::PAYLOAD_SIZE as int),
            stats.freebits <= old(stats).freebits + received * spec_freebits(
                packet::PAYLOAD_SIZE as u16,
            ),
            stats.breaths == old(stats).breaths,
        decreases num_packets - received,
    {
        proof {
            assert((wb@[rx_index as int].status & IXGBE_RXDADV_STAT_EOP) != 0);
            assert(rx_run(wb@, idx0 + received, num_packets - received) == 1 + rx_run(
                wb@,
                idx0 + received + 1,
                num_packets - received - 1,
            ));
        }
        // Take the filled buffer out of the ring, stamping the received
        // length, and lend a fresh one to the hardware in its place.
        let mut np = packet::allocate(fl);
        let ghost bufs0 = q.bufs_in_use@;
        q.bufs_in_use.set_and_swap(rx_index, &mut np);
        let mut p = np;
        p.length = wb[rx_index].length;
        proof {
            assert(p.wf());
            let stored0 = output@.len() - qlen0;
            let dropped0 = received - stored0;
            assert(stats.room_for_frees(1)) by {
                crate::engine::lemma_room_consume(
                    *old(stats),
                    *stats,
                    received as int,
                    1,
                    num_packets as int,
                );
            }
            assert(output.txbytes + p.length <= u64::MAX) by {
                assert(received * (packet::PAYLOAD_SIZE as int) + (packet::PAYLOAD_SIZE as int)
                    <= num_packets * (packet::PAYLOAD_SIZE as int)) by (nonlinear_arith)
                    requires
                        received < num_packets,
                ;
            }
        }
        let ghost outq0 = output@;
        let ghost stats0 = *stats;
        link::transmit(output, p, fl, stats);
        proof {
            assert((received + 1) * (packet::PAYLOAD_SIZE as int) == received * (
            packet::PAYLOAD_SIZE as int) + (packet::PAYLOAD_SIZE as int)) by (nonlinear_arith);
            assert((received + 1) * spec_freebits(packet::PAYLOAD_SIZE as u16) == received
                * spec_freebits(packet::PAYLOAD_SIZE as u16) + spec_freebits(
                packet::PAYLOAD_SIZE as u16,
            )) by (nonlinear_arith);
            assert(spec_freebits(p.length) <= spec_freebits(packet::PAYLOAD_SIZE as u16));
            if outq0.len() < link::LINK_MAX_PACKETS {
                assert(output@ == outq0.push(p));
                assert forall|j: int|
                    qlen0 <= j < output@.len() implies {
                    let slot = (idx0 + (j - qlen0)) % (NUM_RX_QUEUE_ENTRIES as int);
                    &&& (#[trigger] output@[j]).length == wb@[slot].length
                    &&& output@[j].data == old(q).bufs_in_use@[slot].data
                } by {
                    if j < outq0.len() {
                        assert(output@[j] == outq0[j]);
                    } else {
                        assert(output@[j] == p);
                        assert((idx0 + (j - qlen0)) % (NUM_RX_QUEUE_ENTRIES as int)
                            == rx_index as int);
                        assert(bufs0[rx_index as int] == old(q).bufs_in_use@[rx_index as int]);
                    }
                }
            } else {
                assert(output@ == outq0);
            }
            assert(output@.subrange(0, qlen0) =~= old(output)@);
            assert forall|i: int|
                0 <= i < NUM_RX_QUEUE_ENTRIES && !(exists|j: int|
                    0 <= j < received + 1 && i == #[trigger] slot_of(idx0, j)) implies q.bufs_in_use@[i]
                == old(q).bufs_in_use@[i] by {
                assert(!(exists|j: int| 0 <= j < received && i == #[trigger] slot_of(idx0, j)));
                assert(i != rx_index as int) by {
                    if i == rx_index as int {
                        assert(i == slot_of(idx0, received as int));
                    }
                }
                assert(q.bufs_in_use@[i] == bufs0[i]);
            }
        }
        rx_index = wrap_ring(rx_index, NUM_RX_QUEUE_ENTRIES);
        proof {
            vstd::arithmetic::div_mod::lemma_mod_adds(
                idx0 + received,
                1,
                NUM_RX_QUEUE_ENTRIES as int,
            );
            vstd::arithmetic::div_mod::lemma_mod_mod(
                idx0 + received,
                1,
                NUM_RX_QUEUE_ENTRIES as int,
            );
            assert(rx_index == (idx0 + received + 1) % (NUM_RX_QUEUE_ENTRIES as int)) by {
                vstd::arithmetic::div_mod::lemma_mod_twice(
                    idx0 + received,
                    NUM_RX_QUEUE_ENTRIES as int,
                );
                vstd::arithmetic::div_mod::lemma_add_mod_noop(
                    idx0 + received,
                    1,
                    NUM_RX_QUEUE_ENTRIES as int,
                );
                vstd::arithmetic::div_mod::lemma_small_mod(1nat, NUM_RX_QUEUE_ENTRIES as nat);
                vstd::arithmetic::div_mod::lemma_mod_twice(
                    (idx0 + received) % (NUM_RX_QUEUE_ENTRIES as int) + 1,
                    NUM_RX_QUEUE_ENTRIES as int,
                );
            }
        }
        received = received + 1;
    }
    proof {
        lemma_rx_run_bounds(wb@, idx0 + received, num_packets - received);
        if received < num_packets {
            assert((wb@[(idx0 + received) % (NUM_RX_QUEUE_ENTRIES as int)].status
                & IXGBE_RXDADV_STAT_DD) == 0);
            assert(rx_run(wb@, idx0 + received, num_packets - received) == 0);
        } else {
            assert(rx_run(wb@, idx0 + received, 0) == 0);
        }
    }
    q.rx_index = rx_index;
    received
}

/// Software state of one transmit queue: the packets the hardware still
/// owns (oldest first) and the descriptor ring cursors.
pub struct IxgbeTxQueue {
    pub bufs_in_use: Vec<Packet>,
    pub clean_index: usize,
    pub tx_index: usize,
}

/// Cyclic distance from slot `a` to slot `b` on the transmit ring.
pub open spec fn ring_diff(a: int, b: int) -> int {
    if b >= a {
        b - a
    } else {
        b + NUM_TX_QUEUE_ENTRIES - a
    }
}

impl IxgbeTxQueue {
    /// Cursors in range, sound in-flight buffers, and exactly one
    /// in-flight buffer per descriptor slot between `clean_index` and
    /// `tx_index`.
    pub open spec fn wf(&self) -> bool {
        &&& self.clean_index < NUM_TX_QUEUE_ENTRIES
        &&& self.tx_index < NUM_TX_QUEUE_ENTRIES
        &&& self.bufs_in_use@.len() == ring_diff(self.clean_index as int, self.tx_index as int)
        &&& (forall|i: int|
            0 <= i < self.bufs_in_use@.len() ==> (#[trigger] self.bufs_in_use@[i]).wf())
    }
}

proof fn lemma_mod_shift(base: int, inc: int)
    requires
        0 <= base,
        0 <= inc,
    ensures
        ((base % (NUM_TX_QUEUE_ENTRIES as int)) + inc) % (NUM_TX_QUEUE_ENTRIES as int) == (base
            + inc) % (NUM_TX_QUEUE_ENTRIES as int),
{
    let n = NUM_TX_QUEUE_ENTRIES as int;
    vstd::arithmetic::div_mod::lemma_add_mod_noop(base, inc, n);
    vstd::arithmetic::div_mod::lemma_add_mod_noop(base % n, inc, n);
    vstd::arithmetic::div_mod::lemma_mod_twice(base, n);
}

proof fn lemma_mod_unfold(x: int)
    requires
        0 <= x < 2 * NUM_TX_QUEUE_ENTRIES,
    ensures
        x % (NUM_TX_QUEUE_ENTRIES as int) == (if x < NUM_TX_QUEUE_ENTRIES {
            x
        } else {
            x - NUM_TX_QUEUE_ENTRIES
        }),
{
    let n = NUM_TX_QUEUE_ENTRIES as int;
    if x < n {
        vstd::arithmetic::div_mod::lemma_small_mod(x as nat, n as nat);
    } else {
        vstd::arithmetic::div_mod::lemma_fundamental_div_mod_converse(x, n, 1, x - n);
    }
}

proof fn lemma_ring_diff_advance(clean: int, tx: int, step: int)
    requires
        0 <= clean < NUM_TX_QUEUE_ENTRIES,
        0 <= tx < NUM_TX_QUEUE_ENTRIES,
        0 <= step <= ring_diff(clean, tx),
    ensures
        ring_diff((clean + step) % (NUM_TX_QUEUE_ENTRIES as int), tx) == ring_diff(clean, tx)
            - step,
{
    lemma_mod_unfold(clean + step);
}

/// How many whole `TX_CLEAN_BATCH`-descriptor groups can be reclaimed:
/// starting at `clean`, with `inflight` packets outstanding, a group is
/// reclaimable when it is fully pending and the done flag of its last
/// slot is set, and reclaiming continues group by group until one is not.
pub open spec fn cleanable_batches(done: Seq<bool>, clean: int, inflight: int) -> int
    decreases inflight,
{
    if inflight < TX_CLEAN_BATCH {
        0
    } else if !done[(clean + TX_CLEAN_BATCH - 1) % (NUM_TX_QUEUE_ENTRIES as int)] {
        0
    } else {
        1 + cleanable_batches(
            done,
            (clean + TX_CLEAN_BATCH) % (NUM_TX_QUEUE_ENTRIES as int),
            inflight - TX_CLEAN_BATCH,
        )
    }
}

/// Reclaim transmitted packets: walk the ring from `clean_index` in
/// batches of `TX_CLEAN_BATCH` descriptors; while a whole batch is
/// pending and its last descriptor reports Descriptor Done, free the
/// batch's packets back to the freelist and advance. `done` holds the
/// per-slot Descriptor Done flags the hardware wrote back.
#[verifier::rlimit(100)]
#[verifier::spinoff_prover]
pub fn clean_tx_queue(
    q: &mut IxgbeTxQueue,
    done: &Vec<bool>,
    fl: &mut Freelist,
    stats: &mut EngineStats,
) -> (clean_index: usize)
    requires
        old(q).wf(),
        old(fl).wf(),
        done@.len() == NUM_TX_QUEUE_ENTRIES,
        old(fl)@.len() + old(q).bufs_in_use@.len() <= packet::FREELIST_SIZE,
        old(stats).room_for_frees(NUM_TX_QUEUE_ENTRIES as int),
    ensures
        final(q).wf(),
        final(fl).wf(),
        clean_index == final(q).clean_index,
        final(q).tx_index == old(q).tx_index,
        final(q).bufs_in_use@.len() <= old(q).bufs_in_use@.len(),
        ({
            let f = old(q).bufs_in_use@.len() - final(q).bufs_in_use@.len();
            &&& f == TX_CLEAN_BATCH * cleanable_batches(
                done@,
                old(q).clean_index as int,
                old(q).bufs_in_use@.len() as int,
            )
            &&& final(q).bufs_in_use@ == old(q).bufs_in_use@.subrange(
                f as int,
                old(q).bufs_in_use@.len() as int,
            )
            &&& final(q).clean_index == (old(q).clean_index + f) % (NUM_TX_QUEUE_ENTRIES as int)
            &&& final(fl)@.len() == old(fl)@.len() + f
            &&& final(stats).frees == old(stats).frees + f
            &&& final(stats).freebytes == old(stats).freebytes + link::sum_lengths(
                old(q).bufs_in_use@.subrange(0, f as int),
            )
            &&& final(stats).freebits == old(stats).freebits + link::sum_freebits(
                old(q).bufs_in_use@.subrange(0, f as int),
            )
        }),
        final(stats).breaths == old(stats).breaths,
{
    let ghost bufs0 = old(q).bufs_in_use@;
    let ghost clean0 = old(q).clean_index as int;
    let cur_index = q.tx_index;
    let mut clean_index = q.clean_index;
    let mut keep_going = true;
    proof {
        assert(bufs0.subrange(0, 0) =~= Seq::<Packet>::empty());
        assert(q.bufs_in_use@ =~= bufs0.subrange(fl@.len() - fl@.len(), bufs0.len() as int));
    }
    while keep_going && q.bufs_in_use.len() >= TX_CLEAN_BATCH
        invariant
            q.tx_index == old(q).tx_index,
            q.clean_index == clean_index,
            q.wf(),
            fl.wf(),
            done@.len() == NUM_TX_QUEUE_ENTRIES,
            bufs0 == old(q).bufs_in_use@,
            bufs0.len() < NUM_TX_QUEUE_ENTRIES,
            forall|i: int| 0 <= i < bufs0.len() ==> (#[trigger] bufs0[i]).wf(),
            clean0 == old(q).clean_index as int,
            q.bufs_in_use@.len() <= bufs0.len(),
            ({
                let f = bufs0.len() - q.bufs_in_use@.len();
                &&& q.bufs_in_use@ == bufs0.subrange(f as int, bufs0.len() as int)
                &&& clean_index == (clean0 + f) % (NUM_TX_QUEUE_ENTRIES as int)
                &&& fl@.len() == old(fl)@.len() + f
                &&& stats.frees == old(stats).frees + f
                &&& stats.freebytes == old(stats).freebytes + link::sum_lengths(
                    bufs0.subrange(0, f as int),
                )
                &&& stats.freebits == old(stats).freebits + link::sum_freebits(
                    bufs0.subrange(0, f as int),
                )
            }),
            old(fl)@.len() + bufs0.len() <= packet::FREELIST_SIZE,
            old(stats).room_for_frees(NUM_TX_QUEUE_ENTRIES as int),
            stats.breaths == old(stats).breaths,
            TX_CLEAN_BATCH * cleanable_batches(done@, clean0, bufs0.len() as int) == (bufs0.len()
                - q.bufs_in_use@.len()) + (if keep_going {
                TX_CLEAN_BATCH * cleanable_batches(
                    done@,
                    clean_index as int,
                    q.bufs_in_use@.len() as int,
                )
            } else {
                0int
            }),
        decreases q.bufs_in_use@.len(), (if keep_going {
            1int
        } else {
            0int
        }),
    {
        let ghost clean_cur = clean_index as int;
        let ghost len_cur = q.bufs_in_use@.len() as int;
        let mut cleanup_to = clean_index + TX_CLEAN_BATCH - 1;
        if cleanup_to >= NUM_TX_QUEUE_ENTRIES {
            cleanup_to = cleanup_to - NUM_TX_QUEUE_ENTRIES;
        }
        proof {
            lemma_mod_unfold(clean_cur + TX_CLEAN_BATCH - 1);
            assert(cleanup_to == (clean_cur + TX_CLEAN_BATCH - 1) % (
            NUM_TX_QUEUE_ENTRIES as int));
        }
        if done[cleanup_to] {
            proof {
                // A reclaimable group: the count unfolds by one.
                assert(cleanable_batches(done@, clean_cur, len_cur) == 1 + cleanable_batches(
                    done@,
                    (clean_cur + TX_CLEAN_BATCH) % (NUM_TX_QUEUE_ENTRIES as int),
                    len_cur - TX_CLEAN_BATCH,
                ));
            }
            let ghost fpre = bufs0.len() - q.bufs_in_use@.len();
            let mut b: usize = 0;
            while b < TX_CLEAN_BATCH
                invariant
                    b <= TX_CLEAN_BATCH,
                    q.tx_index == old(q).tx_index,
                    q.clean_index == clean_index,
                    done@.len() == NUM_TX_QUEUE_ENTRIES,
                    fl.wf(),
                    bufs0 == old(q).bufs_in_use@,
                    bufs0.len() < NUM_TX_QUEUE_ENTRIES,
                    forall|i: int| 0 <= i < bufs0.len() ==> (#[trigger] bufs0[i]).wf(),
                    0 <= fpre,
                    fpre + TX_CLEAN_BATCH <= bufs0.len(),
                    q.bufs_in_use@.len() == bufs0.len() - fpre - b,
                    q.bufs_in_use@ == bufs0.subrange(fpre + b, bufs0.len() as int),
                    forall|i: int|
                        0 <= i < q.bufs_in_use@.len() ==> (#[trigger] q.bufs_in_use@[i]).wf(),
                    fl@.len() == old(fl)@.len() + fpre + b,
                    stats.frees == old(stats).frees + fpre + b,
                    stats.freebytes == old(stats).freebytes + link::sum_lengths(
                        bufs0.subrange(0, fpre + b),
                    ),
                    stats.freebits == old(stats).freebits + link::sum_freebits(
                        bufs0.subrange(0, fpre + b),
                    ),
                    old(fl)@.len() + bufs0.len() <= packet::FREELIST_SIZE,
                    old(stats).room_for_frees(NUM_TX_QUEUE_ENTRIES as int),
                    stats.breaths == old(stats).breaths,
                decreases TX_CLEAN_BATCH - b,
            {
                proof {
                    assert(bufs0[fpre + b].wf()) by {
                        assert(q.bufs_in_use@[0] == bufs0[fpre + b]);
                    }
                    assert forall|i: int|
                        0 <= i < bufs0.subrange(0, fpre + b).len() implies (#[trigger] bufs0.subrange(
                        0,
                        fpre + b,
                    )[i]).wf() by {
                        assert(bufs0.subrange(0, fpre + b)[i] == bufs0[i]);
                        assert(bufs0[i].wf());
                    }
                    link::lemma_sum_bounds(bufs0.subrange(0, fpre + b));
                    assert((fpre + b) * (packet::PAYLOAD_SIZE as int) <= NUM_TX_QUEUE_ENTRIES * (
                    packet::PAYLOAD_SIZE as int)) by (nonlinear_arith)
                        requires
                            0 <= fpre + b <= NUM_TX_QUEUE_ENTRIES,
                    ;
                    assert((fpre + b) * spec_freebits(packet::PAYLOAD_SIZE as u16)
                        <= NUM_TX_QUEUE_ENTRIES * spec_freebits(packet::PAYLOAD_SIZE as u16))
                        by (nonlinear_arith)
                        requires
                            0 <= fpre + b <= NUM_TX_QUEUE_ENTRIES,
                    ;
                    assert(stats.room_for_frees(1)) by {
                        crate::engine::lemma_room_consume(
                            *old(stats),
                            *stats,
                            fpre + b,
                            1,
                            NUM_TX_QUEUE_ENTRIES as int,
                        );
                    }
                }
                let p = q.bufs_in_use.remove(0);
                proof {
                    assert(p == bufs0[fpre + b]);
                    link::lemma_sum_prefix_step(bufs0, fpre + b);
                    assert(q.bufs_in_use@ =~= bufs0.subrange(fpre + b + 1, bufs0.len() as int));
                }
                packet::free(fl, stats, p);
                b = b + 1;
            }
            clean_index = wrap_ring(cleanup_to, NUM_TX_QUEUE_ENTRIES);
            proof {
                let ghost clean_pre = (clean0 + fpre) % (NUM_TX_QUEUE_ENTRIES as int);
                assert(cleanup_to == (clean_pre + TX_CLEAN_BATCH - 1) % (
                NUM_TX_QUEUE_ENTRIES as int)) by {
                    lemma_mod_unfold(clean_pre + TX_CLEAN_BATCH - 1);
                }
                assert(clean_index == (clean_pre + TX_CLEAN_BATCH) % (
                NUM_TX_QUEUE_ENTRIES as int)) by {
                    lemma_mod_shift(clean_pre + TX_CLEAN_BATCH - 1, 1);
                    vstd::arithmetic::div_mod::lemma_mod_twice(
                        clean_pre + TX_CLEAN_BATCH - 1,
                        NUM_TX_QUEUE_ENTRIES as int,
                    );
                }
                assert(clean_index == (clean0 + fpre + TX_CLEAN_BATCH) % (
                NUM_TX_QUEUE_ENTRIES as int)) by {
                    lemma_mod_shift(clean0 + fpre, TX_CLEAN_BATCH as int);
                    vstd::arithmetic::div_mod::lemma_mod_twice(
                        clean0 + fpre,
                        NUM_TX_QUEUE_ENTRIES as int,
                    );
                }
            }
            q.clean_index = clean_index;
            proof {
                let f = bufs0.len() - q.bufs_in_use@.len();
                assert(f == fpre + TX_CLEAN_BATCH);
                let clean_pre = (clean0 + fpre) % (NUM_TX_QUEUE_ENTRIES as int);
                lemma_ring_diff_advance(
                    clean_pre,
                    q.tx_index as int,
                    TX_CLEAN_BATCH as int,
                );
                lemma_mod_shift(clean0 + fpre, TX_CLEAN_BATCH as int);
                assert(q.wf()) by {
                    assert(ring_diff(q.clean_index as int, q.tx_index as int)
                        == q.bufs_in_use@.len());
                }
            }
        } else {
            proof {
                assert(cleanable_batches(done@, clean_cur, len_cur) == 0);
            }
            keep_going = false;
        }
    }
    proof {
        if keep_going {
            assert(cleanable_batches(done@, clean_index as int, q.bufs_in_use@.len() as int)
                == 0);
        }
    }
    clean_index
}

proof fn lemma_ring_step(clean: int, tx: int)
    requires
        0 <= clean < NUM_TX_QUEUE_ENTRIES,
        0 <= tx < NUM_TX_QUEUE_ENTRIES,
    ensures
        (ring_diff(clean, tx) == NUM_TX_QUEUE_ENTRIES - 1) <==> ((tx + 1) % (
        NUM_TX_QUEUE_ENTRIES as int) == clean),
        ring_diff(clean, tx) < NUM_TX_QUEUE_ENTRIES - 1 ==> ring_diff(
            clean,
            (tx + 1) % (NUM_TX_QUEUE_ENTRIES as int),
        ) == ring_diff(clean, tx) + 1,
{
    lemma_mod_unfold(tx + 1);
}

/// Queue packets from the input link to the hardware: first reclaim
/// descriptors the hardware has finished with, then move packets from
/// the link into the ring until the link is drained or the ring is full.
/// `done` holds the per-slot Descriptor Done flags. Returns how many
/// packets were handed to the hardware; the batch never fails.
#[verifier::rlimit(100)]
#[verifier::spinoff_prover]
pub fn tx_batch(
    q: &mut IxgbeTxQueue,
    input: &mut Link,
    done: &Vec<bool>,
    fl: &mut Freelist,
    stats: &mut EngineStats,
) -> (sent: usize)
    requires
        old(q).wf(),
        old(input).wf(),
        old(fl).wf(),
        done@.len() == NUM_TX_QUEUE_ENTRIES,
        old(fl)@.len() + old(q).bufs_in_use@.len() <= packet::FREELIST_SIZE,
        old(stats).room_for_frees(NUM_TX_QUEUE_ENTRIES as int),
        old(input).rxpackets + link::LINK_RING_SIZE <= u64::MAX,
        old(input).rxbytes + link::LINK_RING_SIZE * packet::PAYLOAD_SIZE <= u64::MAX,
    ensures
        final(q).wf(),
        final(input).wf(),
        final(fl).wf(),
        ({
            let cleaned = old(q).bufs_in_use@.len() + sent - final(q).bufs_in_use@.len();
            &&& 0 <= cleaned <= old(q).bufs_in_use@.len()
            &&& cleaned == TX_CLEAN_BATCH * cleanable_batches(
                done@,
                old(q).clean_index as int,
                old(q).bufs_in_use@.len() as int,
            )
            &&& sent == (if old(input)@.len() <= NUM_TX_QUEUE_ENTRIES - 1 - (old(
                q,
            ).bufs_in_use@.len() - cleaned) {
                old(input)@.len() as int
            } else {
                NUM_TX_QUEUE_ENTRIES - 1 - (old(q).bufs_in_use@.len() - cleaned)
            })
            &&& final(q).bufs_in_use@ == old(q).bufs_in_use@.subrange(
                cleaned as int,
                old(q).bufs_in_use@.len() as int,
            ) + old(input)@.subrange(0, sent as int)
            &&& final(q).clean_index == (old(q).clean_index + cleaned) % (
            NUM_TX_QUEUE_ENTRIES as int)
            &&& final(q).tx_index == (old(q).tx_index + sent) % (NUM_TX_QUEUE_ENTRIES as int)
            &&& final(fl)@.len() == old(fl)@.len() + cleaned
            &&& final(stats).frees == old(stats).frees + cleaned
            &&& final(stats).freebytes == old(stats).freebytes + link::sum_lengths(
                old(q).bufs_in_use@.subrange(0, cleaned as int),
            )
            &&& final(stats).freebits == old(stats).freebits + link::sum_freebits(
                old(q).bufs_in_use@.subrange(0, cleaned as int),
            )
        }),
        final(input)@ == old(input)@.subrange(sent as int, old(input)@.len() as int),
        final(input).rxpackets == old(input).rxpackets + sent,
        final(input).rxbytes == old(input).rxbytes + link::sum_lengths(old(input)@)
            - link::sum_lengths(final(input)@),
        final(input).txpackets == old(input).txpackets,
        final(input).txbytes == old(input).txbytes,
        final(input).txdrop == old(input).txdrop,
        final(stats).breaths == old(stats).breaths,
{
    let clean_index = clean_tx_queue(q, done, fl, stats);
    let ghost cleaned = old(q).bufs_in_use@.len() - q.bufs_in_use@.len();
    let ghost bufs_mid = q.bufs_in_use@;
    let ghost fl_mid = fl@;
    let ghost stats_mid = *stats;
    proof {
        link::lemma_queue_wf(old(input));
        link::lemma_sum_bounds(old(input)@);
        assert(input@ =~= old(input)@.subrange(
            old(input)@.len() - input@.len(),
            old(input)@.len() as int,
        ));
        assert(q.bufs_in_use@ =~= bufs_mid + old(input)@.subrange(0, 0));
        lemma_mod_unfold(old(q).tx_index as int);
    }
    let mut sent: usize = 0;
    let mut cur_index = q.tx_index;
    while !link::empty(input) && wrap_ring(cur_index, NUM_TX_QUEUE_ENTRIES) != clean_index
        invariant
            q.wf(),
            input.wf(),
            fl.wf(),
            q.clean_index == clean_index,
            cur_index == q.tx_index,
            sent <= old(input)@.len(),
            old(input)@.len() <= link::LINK_MAX_PACKETS,
            forall|k: int| 0 <= k < old(input)@.len() ==> (#[trigger] old(input)@[k]).wf(),
            input@ == old(input)@.subrange(sent as int, old(input)@.len() as int),
            input.rxpackets == old(input).rxpackets + sent,
            input.rxbytes == old(input).rxbytes + link::sum_lengths(old(input)@)
                - link::sum_lengths(input@),
            0 <= link::sum_lengths(input@) <= link::sum_lengths(old(input)@),
            0 <= link::sum_lengths(old(input)@) <= 1023 * 10240,
            input.txpackets == old(input).txpackets,
            input.txbytes == old(input).txbytes,
            input.txdrop == old(input).txdrop,
            old(input).rxpackets + link::LINK_RING_SIZE <= u64::MAX,
            old(input).rxbytes + link::LINK_RING_SIZE * packet::PAYLOAD_SIZE <= u64::MAX,
            q.bufs_in_use@ == bufs_mid + old(input)@.subrange(0, sent as int),
            q.tx_index == (old(q).tx_index + sent) % (NUM_TX_QUEUE_ENTRIES as int),
            fl@ == fl_mid,
            *stats == stats_mid,
        decreases input@.len(),
    {
        proof {
            let q0 = input@;
            assert(link::sum_lengths(q0) == q0[0].length + link::sum_lengths(
                q0.subrange(1, q0.len() as int),
            ));
            link::lemma_queue_wf(input);
            link::lemma_sum_bounds(q0.subrange(1, q0.len() as int));
            lemma_ring_step(clean_index as int, q.tx_index as int);
            assert(ring_diff(clean_index as int, q.tx_index as int) < NUM_TX_QUEUE_ENTRIES - 1);
        }
        let p = link::receive(input);
        let ghost bufs_pre = q.bufs_in_use@;
        q.bufs_in_use.push(p);
        cur_index = wrap_ring(cur_index, NUM_TX_QUEUE_ENTRIES);
        q.tx_index = cur_index;
        proof {
            assert(q.bufs_in_use@ =~= bufs_mid + old(input)@.subrange(0, sent + 1)) by {
                assert(old(input)@.subrange(sent as int, old(input)@.len() as int)[0] == old(
                    input,
                )@[sent as int]);
                assert(p == old(input)@[sent as int]);
            }
            lemma_mod_shift(old(q).tx_index + sent, 1);
            vstd::arithmetic::div_mod::lemma_mod_twice(
                old(q).tx_index + sent,
                NUM_TX_QUEUE_ENTRIES as int,
            );
            assert(input@ =~= old(input)@.subrange(sent + 1, old(input)@.len() as int));
            assert(q.wf()) by {
                assert forall|i: int|
                    0 <= i < q.bufs_in_use@.len() implies (#[trigger] q.bufs_in_use@[i]).wf() by {
                    if i < bufs_pre.len() {
                        assert(q.bufs_in_use@[i] == bufs_pre[i]);
                    } else {
                        assert(q.bufs_in_use@[i] == p);
                    }
                }
            }
        }
        sent = sent + 1;
    }
    proof {
        assert(final(q).bufs_in_use@.len() == bufs_mid.len() + sent);
        assert(old(q).bufs_in_use@.len() + sent - q.bufs_in_use@.len() == cleaned);
        if input@.len() > 0 {
            // Stopped because the ring is full.
            lemma_ring_step(clean_index as int, q.tx_index as int);
            assert(ring_diff(clean_index as int, q.tx_index as int) == NUM_TX_QUEUE_ENTRIES - 1);
            assert(bufs_mid.len() + sent == NUM_TX_QUEUE_ENTRIES - 1);
        } else {
            assert(sent == old(input)@.len());
        }
    }
    sent
}

} // verus!
