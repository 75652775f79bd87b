//! Basic apps: Source, Sink, Tee and SourceSink.
//!
//! These demonstrate the app contract: a Source-like app allocates packets
//! and transmits them onto its output links, a transform forwards between
//! links, and a Sink-like app receives and frees. Each app has a
//! configuration type (the value a `Config` binds to an app name) and an
//! instance type (the state the engine keeps while the app is live).

use vstd::prelude::*;

verus! {

use crate::engine;
use crate::link;
use crate::link::Link;
use crate::link::LINK_MAX_PACKETS;
use crate::packet;
use crate::packet::Packet;
use crate::packet::Freelist;
use crate::engine::EngineStats;
use crate::engine::Port;
use crate::engine::LinkEntry;
use crate::engine::PULL_NPACKETS;
use crate::engine::WORK_APP;
use crate::engine::MAX_LINKS;
use crate::engine::spec_freebits;
use crate::engine::total_queued;
use crate::engine::links_room;
use crate::engine::links_growth_bounded;
use crate::engine::stats_growth_bounded;

/// Queue length after enqueueing `k` more packets onto a ring holding
/// `qlen`, with the overflow dropped.
pub open spec fn sat_len(qlen: int, k: int) -> int {
    if qlen + k <= LINK_MAX_PACKETS {
        qlen + k
    } else {
        LINK_MAX_PACKETS as int
    }
}

/// Some port among the first `n` is wired to link index `i`.
pub open spec fn port_uses_prefix(ports: Seq<Port>, n: int, i: int) -> bool {
    exists|k: int| 0 <= k < n && (#[trigger] ports[k]).link == i
}

/// Some port is wired to link index `i`.
pub open spec fn port_uses(ports: Seq<Port>, i: int) -> bool {
    port_uses_prefix(ports, ports.len() as int, i)
}

/// How a Source-like app's pull transforms one output link: `n` packets
/// of `size` zeroed bytes are transmitted; those that fit are appended
/// and counted as transmitted, the overflow is counted as dropped.
pub open spec fn source_pulled(a: Link, b: Link, size: u16, n: int) -> bool {
    let stored = sat_len(a@.len() as int, n) - a@.len();
    &&& b.wf()
    &&& b@.len() == sat_len(a@.len() as int, n)
    &&& b@.subrange(0, a@.len() as int) == a@
    &&& (forall|j: int|
        a@.len() <= j < b@.len() ==> (#[trigger] b@[j]).length == size && (forall|t: int|
            0 <= t < size ==> b@[j].data@[t] == 0))
    &&& b.txpackets == a.txpackets + stored
    &&& b.txbytes == a.txbytes + stored * size
    &&& b.txdrop == a.txdrop + (n - stored)
    &&& b.rxpackets == a.rxpackets
    &&& b.rxbytes == a.rxbytes
}

/// How a Sink-like app's push transforms one input link: every queued
/// packet is received (and freed by the caller's accounting), leaving the
/// link empty with its receive counters advanced.
pub open spec fn drained(a: Link, b: Link) -> bool {
    &&& b.wf()
    &&& b@.len() == 0
    &&& b.rxpackets == a.rxpackets + a@.len()
    &&& b.rxbytes == a.rxbytes + link::sum_lengths(a@)
    &&& b.txpackets == a.txpackets
    &&& b.txbytes == a.txbytes
    &&& b.txdrop == a.txdrop
}

/// Transmit `n` freshly allocated packets of `size` zeroed bytes onto one
/// link, accounting drops against the freelist and statistics.
#[verifier::rlimit(60)]
#[verifier::spinoff_prover]
fn source_pull_link(l: &mut Link, fl: &mut Freelist, stats: &mut EngineStats, size: u16, n: usize)
    requires
        old(l).wf(),
        old(fl).wf(),
        size <= packet::PAYLOAD_SIZE,
        n <= old(fl)@.len(),
        n <= link::LINK_RING_SIZE,
        old(l).txpackets + n <= u64::MAX,
        old(l).txbytes + n * size <= u64::MAX,
        old(l).txdrop + n <= u64::MAX,
        old(stats).room_for_frees(n as int),
    ensures
        final(l).wf(),
        final(fl).wf(),
        source_pulled(*old(l), *final(l), size, n as int),
        final(fl)@.len() == old(fl)@.len() - (final(l)@.len() - old(l)@.len()),
        final(stats).frees == old(stats).frees + n - (final(l)@.len() - old(l)@.len()),
        final(stats).freebytes == old(stats).freebytes + (n - (final(l)@.len() - old(
            l,
        )@.len())) * size,
        final(stats).freebits == old(stats).freebits + (n - (final(l)@.len() - old(l)@.len()))
            * spec_freebits(size),
        final(stats).breaths == old(stats).breaths,
{
    let ghost qlen0 = old(l)@.len() as int;
    proof {
        link::lemma_queue_wf(old(l));
        assert(l@.subrange(0, qlen0) =~= old(l)@);
    }
    let mut i: usize = 0;
    while i < n
        invariant
            i <= n,
            n <= link::LINK_RING_SIZE,
            size <= packet::PAYLOAD_SIZE,
            l.wf(),
            fl.wf(),
            qlen0 == old(l)@.len() as int,
            0 <= qlen0 <= link::LINK_MAX_PACKETS,
            l@.len() == sat_len(qlen0, i as int),
            l@.subrange(0, qlen0) == old(l)@,
            forall|j: int|
                qlen0 <= j < l@.len() ==> (#[trigger] l@[j]).length == size && (forall|t: int|
                    0 <= t < size ==> l@[j].data@[t] == 0),
            l.txpackets == old(l).txpackets + (l@.len() - qlen0),
            l.txbytes == old(l).txbytes + (l@.len() - qlen0) * size,
            l.txdrop == old(l).txdrop + (i - (l@.len() - qlen0)),
            l.rxpackets == old(l).rxpackets,
            l.rxbytes == old(l).rxbytes,
            old(l).txpackets + n <= u64::MAX,
            old(l).txbytes + n * size <= u64::MAX,
            old(l).txdrop + n <= u64::MAX,
            fl@.len() == old(fl)@.len() - (l@.len() - qlen0),
            n <= old(fl)@.len(),
            stats.frees == old(stats).frees + (i - (l@.len() - qlen0)),
            stats.freebytes == old(stats).freebytes + (i - (l@.len() - qlen0)) * size,
            stats.freebits == old(stats).freebits + (i - (l@.len() - qlen0)) * spec_freebits(size),
            stats.breaths == old(stats).breaths,
            old(stats).room_for_frees(n as int),
        decreases n - i,
    {
        let ghost stored0 = l@.len() - qlen0;
        let ghost dropped0 = i - stored0;
        let ghost prevq = l@;
        let ghost prevl = *l;
        let mut p = packet::allocate(fl);
        crate::fill(&mut p.data, size as usize, 0);
        p.length = size;
        proof {
            assert(p.wf());
            assert(stats.room_for_frees(1)) by {
                assert(spec_freebits(packet::PAYLOAD_SIZE as u16) >= 0);
                assert(dropped0 * size <= i * (packet::PAYLOAD_SIZE as int)) by (nonlinear_arith)
                    requires
                        0 <= dropped0 <= i,
                        0 <= size <= packet::PAYLOAD_SIZE,
                ;
                assert(dropped0 * spec_freebits(size) <= i * spec_freebits(
                    packet::PAYLOAD_SIZE as u16,
                )) by (nonlinear_arith)
                    requires
                        0 <= dropped0 <= i,
                        0 <= spec_freebits(size) <= spec_freebits(packet::PAYLOAD_SIZE as u16),
                ;
                assert(i * (packet::PAYLOAD_SIZE as int) + (packet::PAYLOAD_SIZE as int) <= n * (
                packet::PAYLOAD_SIZE as int)) by (nonlinear_arith)
                    requires
                        i < n,
                ;
                assert(i * spec_freebits(packet::PAYLOAD_SIZE as u16) + spec_freebits(
                    packet::PAYLOAD_SIZE as u16,
                ) <= n * spec_freebits(packet::PAYLOAD_SIZE as u16)) by (nonlinear_arith)
                    requires
                        i < n,
                ;
            }
            assert(l.txbytes + size <= u64::MAX) by {
                assert(stored0 * size + size <= n * size) by (nonlinear_arith)
                    requires
                        0 <= stored0 < n,
                        size >= 0,
                ;
            }
        }
        link::transmit(l, p, fl, stats);
        proof {
            let stored1 = l@.len() - qlen0;
            assert(stored1 * size == stored0 * size + (stored1 - stored0) * size)
                by (nonlinear_arith);
            assert((i + 1 - stored1) * size == dropped0 * size + ((i + 1 - stored1) - dropped0)
                * size) by (nonlinear_arith);
            assert((i + 1 - stored1) * spec_freebits(size) == dropped0 * spec_freebits(size) + ((i
                + 1 - stored1) - dropped0) * spec_freebits(size)) by (nonlinear_arith);
            assert(prevl.txbytes == old(l).txbytes + stored0 * size);
            assert(prevq.len() == sat_len(qlen0, i as int));
            assert(prevq.len() <= LINK_MAX_PACKETS);
            if prevq.len() < LINK_MAX_PACKETS {
                assert(l.txbytes == prevl.txbytes + p.length);
                assert(p.length == size);
                assert(l@ == prevq.push(p));
                assert(l@.len() == sat_len(qlen0, i + 1));
                assert(stored1 == stored0 + 1);
                assert(stored1 * size == stored0 * size + size) by (nonlinear_arith)
                    requires
                        stored1 == stored0 + 1,
                ;
                assert(l.txbytes == old(l).txbytes + stored1 * size);
                assert(stats.freebytes == old(stats).freebytes + dropped0 * size);
                assert(i + 1 - stored1 == dropped0);
                assert(stats.freebytes == old(stats).freebytes + (i + 1 - stored1) * size);
                assert(stats.freebits == old(stats).freebits + (i + 1 - stored1) * spec_freebits(
                    size,
                ));
                assert forall|j: int|
                    qlen0 <= j < l@.len() implies (#[trigger] l@[j]).length == size && (forall|
                    t: int,
                |
                    0 <= t < size ==> l@[j].data@[t] == 0) by {
                    if j < prevq.len() {
                        assert(l@[j] == prevq[j]);
                    } else {
                        assert(l@[j] == p);
                    }
                }
            } else {
                assert(l@ == prevq);
                assert(l@.len() == sat_len(qlen0, i + 1));
                assert(stored1 == stored0);
                assert(l.txbytes == old(l).txbytes + stored1 * size);
                assert(i + 1 - stored1 == dropped0 + 1);
                assert((dropped0 + 1) * size == dropped0 * size + size) by (nonlinear_arith);
                assert(stats.freebytes == old(stats).freebytes + (dropped0 + 1) * size);
                assert(stats.freebytes == old(stats).freebytes + (i + 1 - stored1) * size);
                assert((dropped0 + 1) * spec_freebits(size) == dropped0 * spec_freebits(size)
                    + spec_freebits(size)) by (nonlinear_arith);
                assert(stats.freebits == old(stats).freebits + (dropped0 + 1) * spec_freebits(
                    size,
                ));
                assert(stats.freebits == old(stats).freebits + (i + 1 - stored1) * spec_freebits(
                    size,
                ));
            }
            assert(l@.subrange(0, qlen0) =~= old(l)@);
            assert(l.txbytes == old(l).txbytes + (l@.len() - qlen0) * size);
            let d1 = i + 1 - (l@.len() - qlen0);
            assert(d1 * size == (i + 1 - stored1) * size) by (nonlinear_arith)
                requires
                    d1 == i + 1 - stored1,
            ;
            assert(d1 * spec_freebits(size) == (i + 1 - stored1) * spec_freebits(size))
                by (nonlinear_arith)
                requires
                    d1 == i + 1 - stored1,
            ;
            assert(stats.freebits == old(stats).freebits + (i + 1 - stored1) * spec_freebits(
                size,
            ));
            assert(stats.freebytes == old(stats).freebytes + (i + 1 - (l@.len() - qlen0)) * size);
            assert(stats.freebits == old(stats).freebits + (i + 1 - (l@.len() - qlen0))
                * spec_freebits(size));
        }
        i = i + 1;
    }
}

/// Receive and free every packet queued on one link.
#[verifier::spinoff_prover]
fn sink_drain_link(l: &mut Link, fl: &mut Freelist, stats: &mut EngineStats)
    requires
        old(l).wf(),
        old(fl).wf(),
        old(l).rxpackets + link::LINK_RING_SIZE <= u64::MAX,
        old(l).rxbytes + link::LINK_RING_SIZE * packet::PAYLOAD_SIZE <= u64::MAX,
        old(fl)@.len() + old(l)@.len() <= packet::FREELIST_SIZE,
        old(stats).room_for_frees(link::LINK_RING_SIZE as int),
    ensures
        final(l).wf(),
        final(fl).wf(),
        drained(*old(l), *final(l)),
        final(fl)@.len() == old(fl)@.len() + old(l)@.len(),
        final(stats).frees == old(stats).frees + old(l)@.len(),
        final(stats).freebytes == old(stats).freebytes + link::sum_lengths(old(l)@),
        final(stats).freebits == old(stats).freebits + link::sum_freebits(old(l)@),
        final(stats).breaths == old(stats).breaths,
{
    proof {
        link::lemma_queue_wf(old(l));
        link::lemma_sum_bounds(old(l)@);
        assert(l@ =~= old(l)@.subrange(old(l)@.len() - l@.len(), old(l)@.len() as int));
    }
    while !link::empty(l)
        invariant
            l.wf(),
            fl.wf(),
            l@ == old(l)@.subrange(old(l)@.len() - l@.len(), old(l)@.len() as int),
            l@.len() <= old(l)@.len(),
            l.rxpackets == old(l).rxpackets + (old(l)@.len() - l@.len()),
            l.rxbytes == old(l).rxbytes + link::sum_lengths(old(l)@) - link::sum_lengths(l@),
            l.txpackets == old(l).txpackets,
            l.txbytes == old(l).txbytes,
            l.txdrop == old(l).txdrop,
            old(l).rxpackets + link::LINK_RING_SIZE <= u64::MAX,
            old(l).rxbytes + link::LINK_RING_SIZE * packet::PAYLOAD_SIZE <= u64::MAX,
            old(l)@.len() <= link::LINK_MAX_PACKETS,
            fl@.len() == old(fl)@.len() + (old(l)@.len() - l@.len()),
            old(fl)@.len() + old(l)@.len() <= packet::FREELIST_SIZE,
            stats.frees == old(stats).frees + (old(l)@.len() - l@.len()),
            stats.freebytes == old(stats).freebytes + link::sum_lengths(old(l)@)
                - link::sum_lengths(l@),
            stats.freebits == old(stats).freebits + link::sum_freebits(old(l)@)
                - link::sum_freebits(l@),
            stats.breaths == old(stats).breaths,
            old(stats).room_for_frees(link::LINK_RING_SIZE as int),
            0 <= link::sum_lengths(l@),
            link::sum_lengths(l@) <= link::sum_lengths(old(l)@),
            0 <= link::sum_freebits(l@),
            link::sum_freebits(l@) <= link::sum_freebits(old(l)@),
            forall|k: int| 0 <= k < old(l)@.len() ==> (#[trigger] old(l)@[k]).wf(),
            0 <= link::sum_lengths(old(l)@) <= old(l)@.len() * (packet::PAYLOAD_SIZE as int),
            0 <= link::sum_freebits(old(l)@) <= old(l)@.len() * spec_freebits(
                packet::PAYLOAD_SIZE as u16,
            ),
        decreases l@.len(),
    {
        let ghost q0 = l@;
        proof {
            assert(link::sum_lengths(q0) == q0[0].length + link::sum_lengths(
                q0.subrange(1, q0.len() as int),
            ));
            assert(link::sum_freebits(q0) == spec_freebits(q0[0].length) + link::sum_freebits(
                q0.subrange(1, q0.len() as int),
            ));
            link::lemma_sum_bounds(q0.subrange(1, q0.len() as int));
            assert(q0[0] == old(l)@.subrange(old(l)@.len() - q0.len(), old(l)@.len() as int)[0]);
            assert(q0[0] == old(l)@[old(l)@.len() - q0.len()]);
            assert(q0[0].wf());
            let oldlen = old(l)@.len() as int;
            assert(oldlen * (packet::PAYLOAD_SIZE as int) + (packet::PAYLOAD_SIZE as int)
                <= link::LINK_RING_SIZE * (packet::PAYLOAD_SIZE as int)) by (nonlinear_arith)
                requires
                    0 <= oldlen + 1 <= link::LINK_RING_SIZE,
            ;
            assert(oldlen * spec_freebits(packet::PAYLOAD_SIZE as u16) + spec_freebits(
                packet::PAYLOAD_SIZE as u16,
            ) <= link::LINK_RING_SIZE * spec_freebits(packet::PAYLOAD_SIZE as u16))
                by (nonlinear_arith)
                requires
                    0 <= oldlen + 1 <= link::LINK_RING_SIZE,
            ;
            assert(spec_freebits(q0[0].length) <= spec_freebits(packet::PAYLOAD_SIZE as u16));
            assert(stats.room_for_frees(1));
            assert(l.rxbytes + packet::PAYLOAD_SIZE <= u64::MAX);
        }
        let p = link::receive(l);
        packet::free(fl, stats, p);
        proof {
            assert(l@ =~= old(l)@.subrange(old(l)@.len() - l@.len(), old(l)@.len() as int));
        }
    }
    proof {
        assert(l@.len() == 0);
        assert(link::sum_lengths(l@) == 0);
        assert(link::sum_freebits(l@) == 0);
    }
}

/// Transmit `PULL_NPACKETS` packets of `size` zeroed bytes onto the link
/// wired to each output port.
#[verifier::spinoff_prover]
fn pull_ports(
    size: u16,
    output: &Vec<Port>,
    links: &mut Vec<LinkEntry>,
    fl: &mut Freelist,
    stats: &mut EngineStats,
)
    requires
        size <= packet::PAYLOAD_SIZE,
        output@.len() <= MAX_LINKS,
        forall|k: int| 0 <= k < output@.len() ==> (#[trigger] output@[k]).link < old(links)@.len(),
        forall|j: int, k: int|
            0 <= j < k < output@.len() ==> (#[trigger] output@[j]).link != (
            #[trigger] output@[k]).link,
        forall|i: int| 0 <= i < old(links)@.len() ==> (#[trigger] old(links)@[i]).link.wf(),
        old(links)@.len() <= MAX_LINKS,
        old(fl).wf(),
        old(fl)@.len() + total_queued(old(links)@) == packet::FREELIST_SIZE,
        links_room(old(links)@, WORK_APP as int),
        old(stats).room_for_frees(WORK_APP as int),
    ensures
        final(links)@.len() == old(links)@.len(),
        forall|i: int|
            0 <= i < old(links)@.len() && !port_uses(output@, i) ==> final(links)@[i] == old(
                links,
            )@[i],
        forall|k: int|
            0 <= k < output@.len() ==> {
                let i = (#[trigger] output@[k]).link as int;
                &&& final(links)@[i].spec == old(links)@[i].spec
                &&& source_pulled(
                    old(links)@[i].link,
                    final(links)@[i].link,
                    size,
                    PULL_NPACKETS as int,
                )
            },
        forall|i: int| 0 <= i < final(links)@.len() ==> (#[trigger] final(links)@[i]).link.wf(),
        final(fl).wf(),
        final(fl)@.len() + total_queued(final(links)@) == packet::FREELIST_SIZE,
        links_growth_bounded(old(links)@, final(links)@, WORK_APP as int),
        stats_growth_bounded(*old(stats), *final(stats), WORK_APP as int),
        final(stats).frees == old(stats).frees + (crate::engine::sum_txdrop(final(links)@)
            - crate::engine::sum_txdrop(old(links)@)),
        final(stats).freebytes == old(stats).freebytes + (crate::engine::sum_txdrop(
            final(links)@,
        ) - crate::engine::sum_txdrop(old(links)@)) * size,
        final(stats).freebits == old(stats).freebits + (crate::engine::sum_txdrop(final(links)@)
            - crate::engine::sum_txdrop(old(links)@)) * spec_freebits(size),
{
    proof {
        assert(PULL_NPACKETS == 102);
        assert(MAX_LINKS == 97);
        assert(packet::PAYLOAD_SIZE == 10240);
        assert(packet::FREELIST_SIZE == 100000);
        assert(link::LINK_MAX_PACKETS == 1023);
        assert(link::LINK_RING_SIZE == 1024);
        assert(spec_freebits(packet::PAYLOAD_SIZE as u16) == 81992);
        assert(WORK_APP == 0x100_0000_0000);
    }
    let nports = output.len();
    let mut k: usize = 0;
    while k < nports
        invariant
            k <= nports,
            nports == output@.len(),
            nports <= MAX_LINKS,
            size <= packet::PAYLOAD_SIZE,
            links@.len() == old(links)@.len(),
            old(links)@.len() <= MAX_LINKS,
            forall|k2: int|
                0 <= k2 < output@.len() ==> (#[trigger] output@[k2]).link < old(links)@.len(),
            forall|j: int, k2: int|
                0 <= j < k2 < output@.len() ==> (#[trigger] output@[j]).link != (
                #[trigger] output@[k2]).link,
            forall|i: int| 0 <= i < old(links)@.len() ==> (#[trigger] old(links)@[i]).link.wf(),
            links_room(old(links)@, WORK_APP as int),
            old(stats).room_for_frees(WORK_APP as int),
            forall|i: int|
                0 <= i < links@.len() && !port_uses_prefix(output@, k as int, i) ==> links@[i]
                    == old(links)@[i],
            forall|k2: int|
                0 <= k2 < k ==> {
                    let i = (#[trigger] output@[k2]).link as int;
                    &&& links@[i].spec == old(links)@[i].spec
                    &&& source_pulled(
                        old(links)@[i].link,
                        links@[i].link,
                        size,
                        PULL_NPACKETS as int,
                    )
                },
            forall|i: int| 0 <= i < links@.len() ==> (#[trigger] links@[i]).link.wf(),
            fl.wf(),
            fl@.len() + total_queued(links@) == packet::FREELIST_SIZE,
            old(stats).frees <= stats.frees,
            old(stats).freebytes <= stats.freebytes,
            old(stats).freebits <= stats.freebits,
            // Per processed port at most PULL_NPACKETS drops of at most
            // `size` bytes were accounted.
            stats.frees <= old(stats).frees + k * (PULL_NPACKETS as int),
            stats.freebytes <= old(stats).freebytes + k * 1044480,
            stats.freebits <= old(stats).freebits + k * 8363184,
            stats.frees == old(stats).frees + (crate::engine::sum_txdrop(links@)
                - crate::engine::sum_txdrop(old(links)@)),
            stats.freebytes == old(stats).freebytes + (crate::engine::sum_txdrop(links@)
                - crate::engine::sum_txdrop(old(links)@)) * size,
            stats.freebits == old(stats).freebits + (crate::engine::sum_txdrop(links@)
                - crate::engine::sum_txdrop(old(links)@)) * spec_freebits(size),
            stats.breaths == old(stats).breaths,
        decreases nports - k,
    {
        let li = output[k].link;
        let ghost links0 = links@;
        let ghost stats0 = *stats;
        proof {
            assert(!port_uses_prefix(output@, k as int, li as int)) by {
                if port_uses_prefix(output@, k as int, li as int) {
                    let k2 = choose|k2: int|
                        0 <= k2 < k && (#[trigger] output@[k2]).link == li as int;
                    assert(output@[k2].link != output@[k as int].link);
                }
            }
            assert(links0[li as int] == old(links)@[li as int]);
            crate::engine::lemma_total_queued_bound(links0);
            assert(links0.len() * (link::LINK_MAX_PACKETS as int) <= MAX_LINKS * (
            link::LINK_MAX_PACKETS as int)) by (nonlinear_arith)
                requires
                    0 <= links0.len() <= MAX_LINKS,
            ;
            assert(fl@.len() >= PULL_NPACKETS);
            assert((k + 1) * (PULL_NPACKETS as int) == k * (PULL_NPACKETS as int) + (
            PULL_NPACKETS as int)) by (nonlinear_arith);
            assert((k + 1) * 1044480 == k * 1044480 + 1044480) by (nonlinear_arith);
            assert((k + 1) * 8363184 == k * 8363184 + 8363184) by (nonlinear_arith);
            assert(k * (PULL_NPACKETS as int) <= MAX_LINKS * (PULL_NPACKETS as int))
                by (nonlinear_arith)
                requires
                    0 <= k <= MAX_LINKS,
            ;
            assert(k * 1044480 <= MAX_LINKS * 1044480) by (nonlinear_arith)
                requires
                    0 <= k <= MAX_LINKS,
            ;
            assert(k * 8363184 <= MAX_LINKS * 8363184) by (nonlinear_arith)
                requires
                    0 <= k <= MAX_LINKS,
            ;
            assert(k * 1044480 == (k * (PULL_NPACKETS as int)) * (packet::PAYLOAD_SIZE as int))
                by (nonlinear_arith)
                requires
                    PULL_NPACKETS == 102,
                    packet::PAYLOAD_SIZE == 10240,
            ;
            assert(k * 8363184 == (k * (PULL_NPACKETS as int)) * spec_freebits(
                packet::PAYLOAD_SIZE as u16,
            )) by (nonlinear_arith)
                requires
                    PULL_NPACKETS == 102,
                    spec_freebits(packet::PAYLOAD_SIZE as u16) == 81992,
            ;
            crate::engine::lemma_room_consume(
                *old(stats),
                *stats,
                k * (PULL_NPACKETS as int),
                PULL_NPACKETS as int,
                WORK_APP as int,
            );
            assert(stats.room_for_frees(PULL_NPACKETS as int));
            link::lemma_queue_wf(&links0[li as int].link);
            assert(links0[li as int].link.txbytes + PULL_NPACKETS * size <= u64::MAX) by {
                assert((PULL_NPACKETS as int) * size <= (PULL_NPACKETS as int) * (
                packet::PAYLOAD_SIZE as int)) by (nonlinear_arith)
                    requires
                        0 <= size <= packet::PAYLOAD_SIZE,
                ;
            }
        }
        source_pull_link(&mut links[li].link, fl, stats, size, PULL_NPACKETS);
        proof {
            assert(links@ =~= links0.update(li as int, links@[li as int]));
            crate::engine::lemma_total_queued_update(links0, li as int, links@[li as int]);
            crate::engine::lemma_counter_sums_update(links0, li as int, links@[li as int]);
            let dpre = crate::engine::sum_txdrop(links0) - crate::engine::sum_txdrop(
                old(links)@,
            );
            let delta = PULL_NPACKETS as int - (links@[li as int].link@.len()
                - links0[li as int].link@.len());
            assert((dpre + delta) * size == dpre * size + delta * size) by (nonlinear_arith);
            assert((dpre + delta) * spec_freebits(size) == dpre * spec_freebits(size) + delta
                * spec_freebits(size)) by (nonlinear_arith);
            assert(0 <= delta <= PULL_NPACKETS);
            assert(delta * size <= 1044480) by (nonlinear_arith)
                requires
                    0 <= delta <= 102,
                    0 <= size <= 10240,
            ;
            assert(delta * spec_freebits(size) <= 8363184) by (nonlinear_arith)
                requires
                    0 <= delta <= 102,
                    0 <= spec_freebits(size) <= 81992,
            ;
            assert forall|i: int|
                0 <= i < links@.len() && !port_uses_prefix(output@, k as int + 1, i) implies links@[i]
                == old(links)@[i] by {
                assert(!port_uses_prefix(output@, k as int, i));
                assert(i != li as int);
            }
            assert forall|k2: int|
                0 <= k2 < k + 1 implies {
                let i = (#[trigger] output@[k2]).link as int;
                &&& links@[i].spec == old(links)@[i].spec
                &&& source_pulled(old(links)@[i].link, links@[i].link, size, PULL_NPACKETS as int)
            } by {
                let i = output@[k2].link as int;
                if k2 < k {
                    assert(i != li as int);
                    assert(links@[i] == links0[i]);
                } else {
                    assert(i == li as int);
                }
            }
        }
        k = k + 1;
    }
    proof {
        assert(stats_growth_bounded(*old(stats), *stats, WORK_APP as int)) by {
            assert(nports * (PULL_NPACKETS as int) <= MAX_LINKS * (PULL_NPACKETS as int))
                by (nonlinear_arith)
                requires
                    0 <= nports <= MAX_LINKS,
            ;
            assert(nports * 1044480 <= MAX_LINKS * 1044480) by (nonlinear_arith)
                requires
                    0 <= nports <= MAX_LINKS,
            ;
            assert(nports * 8363184 <= MAX_LINKS * 8363184) by (nonlinear_arith)
                requires
                    0 <= nports <= MAX_LINKS,
            ;
            assert(MAX_LINKS * 1044480 <= (WORK_APP as int) * (packet::PAYLOAD_SIZE as int))
                by (nonlinear_arith)
                requires
                    MAX_LINKS == 97,
                    WORK_APP == 0x100_0000_0000,
                    packet::PAYLOAD_SIZE == 10240,
            ;
            assert(MAX_LINKS * 8363184 <= (WORK_APP as int) * spec_freebits(
                packet::PAYLOAD_SIZE as u16,
            )) by (nonlinear_arith)
                requires
                    MAX_LINKS == 97,
                    WORK_APP == 0x100_0000_0000,
                    spec_freebits(packet::PAYLOAD_SIZE as u16) == 81992,
            ;
        }
        assert(links_growth_bounded(old(links)@, links@, WORK_APP as int)) by {
            assert forall|i: int|
                0 <= i < old(links)@.len() implies {
                let a = old(links)@[i].link;
                let b = (#[trigger] links@[i]).link;
                &&& a.txpackets <= b.txpackets <= a.txpackets + WORK_APP
                &&& a.txbytes <= b.txbytes <= a.txbytes + WORK_APP
                &&& a.txdrop <= b.txdrop <= a.txdrop + WORK_APP
                &&& a.rxpackets <= b.rxpackets <= a.rxpackets + WORK_APP
                &&& a.rxbytes <= b.rxbytes <= a.rxbytes + WORK_APP
            } by {
                if port_uses(output@, i) {
                    let k2 = choose|k2: int|
                        0 <= k2 < output@.len() && (#[trigger] output@[k2]).link == i;
                    assert(0 <= k2 < output@.len() && output@[k2].link == i);
                    assert(source_pulled(
                        old(links)@[output@[k2].link as int].link,
                        links@[output@[k2].link as int].link,
                        size,
                        PULL_NPACKETS as int,
                    ));
                    link::lemma_queue_wf(&old(links)@[i].link);
                    assert(source_pulled(
                        old(links)@[i].link,
                        links@[i].link,
                        size,
                        PULL_NPACKETS as int,
                    ));
                    let stored = links@[i].link@.len() - old(links)@[i].link@.len();
                    assert(stored * size <= 1044480) by (nonlinear_arith)
                        requires
                            0 <= stored <= 102,
                            0 <= size <= 10240,
                    ;
                } else {
                    assert(links@[i] == old(links)@[i]);
                }
            }
        }
    }
}

/// Receive and free every packet queued on the link wired to each input
/// port.
#[verifier::spinoff_prover]
fn drain_ports(input: &Vec<Port>, links: &mut Vec<LinkEntry>, fl: &mut Freelist, stats: &mut EngineStats)
    requires
        input@.len() <= MAX_LINKS,
        forall|k: int| 0 <= k < input@.len() ==> (#[trigger] input@[k]).link < old(links)@.len(),
        forall|j: int, k: int|
            0 <= j < k < input@.len() ==> (#[trigger] input@[j]).link != (
            #[trigger] input@[k]).link,
        forall|i: int| 0 <= i < old(links)@.len() ==> (#[trigger] old(links)@[i]).link.wf(),
        old(links)@.len() <= MAX_LINKS,
        old(fl).wf(),
        old(fl)@.len() + total_queued(old(links)@) == packet::FREELIST_SIZE,
        links_room(old(links)@, WORK_APP as int),
        old(stats).room_for_frees(WORK_APP as int),
    ensures
        final(links)@.len() == old(links)@.len(),
        forall|i: int|
            0 <= i < old(links)@.len() && !port_uses(input@, i) ==> final(links)@[i] == old(
                links,
            )@[i],
        forall|k: int|
            0 <= k < input@.len() ==> {
                let i = (#[trigger] input@[k]).link as int;
                &&& final(links)@[i].spec == old(links)@[i].spec
                &&& drained(old(links)@[i].link, final(links)@[i].link)
            },
        forall|i: int| 0 <= i < final(links)@.len() ==> (#[trigger] final(links)@[i]).link.wf(),
        final(fl).wf(),
        final(fl)@.len() + total_queued(final(links)@) == packet::FREELIST_SIZE,
        links_growth_bounded(old(links)@, final(links)@, WORK_APP as int),
        stats_growth_bounded(*old(stats), *final(stats), WORK_APP as int),
        final(fl)@.len() == old(fl)@.len() + (crate::engine::sum_rxpackets(final(links)@)
            - crate::engine::sum_rxpackets(old(links)@)),
        final(stats).frees == old(stats).frees + (crate::engine::sum_rxpackets(final(links)@)
            - crate::engine::sum_rxpackets(old(links)@)),
        final(stats).freebytes == old(stats).freebytes + (crate::engine::sum_rxbytes(
            final(links)@,
        ) - crate::engine::sum_rxbytes(old(links)@)),
        final(stats).freebits == old(stats).freebits + crate::engine::ports_sum_freebits(
            input@,
            input@.len() as int,
            old(links)@,
        ),
{
    proof {
        assert(PULL_NPACKETS == 102);
        assert(MAX_LINKS == 97);
        assert(packet::PAYLOAD_SIZE == 10240);
        assert(packet::FREELIST_SIZE == 100000);
        assert(link::LINK_MAX_PACKETS == 1023);
        assert(link::LINK_RING_SIZE == 1024);
        assert(spec_freebits(packet::PAYLOAD_SIZE as u16) == 81992);
        assert(WORK_APP == 0x100_0000_0000);
    }
    let nports = input.len();
    let mut k: usize = 0;
    while k < nports
        invariant
            k <= nports,
            nports == input@.len(),
            nports <= MAX_LINKS,
            links@.len() == old(links)@.len(),
            old(links)@.len() <= MAX_LINKS,
            forall|k2: int|
                0 <= k2 < input@.len() ==> (#[trigger] input@[k2]).link < old(links)@.len(),
            forall|j: int, k2: int|
                0 <= j < k2 < input@.len() ==> (#[trigger] input@[j]).link != (
                #[trigger] input@[k2]).link,
            forall|i: int| 0 <= i < old(links)@.len() ==> (#[trigger] old(links)@[i]).link.wf(),
            links_room(old(links)@, WORK_APP as int),
            old(stats).room_for_frees(WORK_APP as int),
            forall|i: int|
                0 <= i < links@.len() && !port_uses_prefix(input@, k as int, i) ==> links@[i]
                    == old(links)@[i],
            forall|k2: int|
                0 <= k2 < k ==> {
                    let i = (#[trigger] input@[k2]).link as int;
                    &&& links@[i].spec == old(links)@[i].spec
                    &&& drained(old(links)@[i].link, links@[i].link)
                },
            forall|i: int| 0 <= i < links@.len() ==> (#[trigger] links@[i]).link.wf(),
            fl.wf(),
            fl@.len() + total_queued(links@) == packet::FREELIST_SIZE,
            old(stats).frees <= stats.frees,
            old(stats).freebytes <= stats.freebytes,
            old(stats).freebits <= stats.freebits,
            // Per processed port at most a full ring of packets was freed.
            stats.frees <= old(stats).frees + k * 1023,
            stats.freebytes <= old(stats).freebytes + k * 10475520,
            stats.freebits <= old(stats).freebits + k * 83877816,
            fl@.len() == old(fl)@.len() + (crate::engine::sum_rxpackets(links@)
                - crate::engine::sum_rxpackets(old(links)@)),
            stats.frees == old(stats).frees + (crate::engine::sum_rxpackets(links@)
                - crate::engine::sum_rxpackets(old(links)@)),
            stats.freebytes == old(stats).freebytes + (crate::engine::sum_rxbytes(links@)
                - crate::engine::sum_rxbytes(old(links)@)),
            stats.freebits == old(stats).freebits + crate::engine::ports_sum_freebits(
                input@,
                k as int,
                old(links)@,
            ),
            stats.breaths == old(stats).breaths,
        decreases nports - k,
    {
        let li = input[k].link;
        let ghost links0 = links@;
        proof {
            assert(!port_uses_prefix(input@, k as int, li as int)) by {
                if port_uses_prefix(input@, k as int, li as int) {
                    let k2 = choose|k2: int| 0 <= k2 < k && (#[trigger] input@[k2]).link == li as int;
                    assert(input@[k2].link != input@[k as int].link);
                }
            }
            assert(links0[li as int] == old(links)@[li as int]);
            crate::engine::lemma_total_queued_at_least(links0, li as int);
            link::lemma_queue_wf(&links0[li as int].link);
            assert((k + 1) * 1023 == k * 1023 + 1023) by (nonlinear_arith);
            assert((k + 1) * 10475520 == k * 10475520 + 10475520) by (nonlinear_arith);
            assert((k + 1) * 83877816 == k * 83877816 + 83877816) by (nonlinear_arith);
            assert(k * 1023 <= MAX_LINKS * 1023) by (nonlinear_arith)
                requires
                    0 <= k <= MAX_LINKS,
            ;
            assert(k * 10475520 <= MAX_LINKS * 10475520) by (nonlinear_arith)
                requires
                    0 <= k <= MAX_LINKS,
            ;
            assert(k * 83877816 <= MAX_LINKS * 83877816) by (nonlinear_arith)
                requires
                    0 <= k <= MAX_LINKS,
            ;
            assert(k * 10475520 == (k * 1023) * (packet::PAYLOAD_SIZE as int))
                by (nonlinear_arith)
                requires
                    packet::PAYLOAD_SIZE == 10240,
            ;
            assert(k * 83877816 == (k * 1023) * spec_freebits(packet::PAYLOAD_SIZE as u16))
                by (nonlinear_arith)
                requires
                    spec_freebits(packet::PAYLOAD_SIZE as u16) == 81992,
            ;
            crate::engine::lemma_room_consume(
                *old(stats),
                *stats,
                k * 1023,
                link::LINK_RING_SIZE as int,
                WORK_APP as int,
            );
            assert(stats.room_for_frees(link::LINK_RING_SIZE as int));
        }
        let ghost stats0 = *stats;
        sink_drain_link(&mut links[li].link, fl, stats);
        proof {
            assert(links@ =~= links0.update(li as int, links@[li as int]));
            crate::engine::lemma_total_queued_update(links0, li as int, links@[li as int]);
            crate::engine::lemma_counter_sums_update(links0, li as int, links@[li as int]);
            assert(crate::engine::ports_sum_freebits(input@, k as int + 1, old(links)@)
                == crate::engine::ports_sum_freebits(input@, k as int, old(links)@)
                + link::sum_freebits(old(links)@[input@[k as int].link as int].link@));
            link::lemma_sum_bounds(links0[li as int].link@);
            let q0 = links0[li as int].link@;
            assert(q0.len() * (packet::PAYLOAD_SIZE as int) <= 1023 * (packet::PAYLOAD_SIZE as int))
                by (nonlinear_arith)
                requires
                    0 <= q0.len() <= 1023,
            ;
            assert(q0.len() * spec_freebits(packet::PAYLOAD_SIZE as u16) <= 1023 * spec_freebits(
                packet::PAYLOAD_SIZE as u16,
            )) by (nonlinear_arith)
                requires
                    0 <= q0.len() <= 1023,
            ;
            assert forall|i: int|
                0 <= i < links@.len() && !port_uses_prefix(input@, k as int + 1, i) implies links@[i]
                == old(links)@[i] by {
                assert(!port_uses_prefix(input@, k as int, i));
                assert(i != li as int);
            }
            assert forall|k2: int|
                0 <= k2 < k + 1 implies {
                let i = (#[trigger] input@[k2]).link as int;
                &&& links@[i].spec == old(links)@[i].spec
                &&& drained(old(links)@[i].link, links@[i].link)
            } by {
                let i = input@[k2].link as int;
                if k2 < k {
                    assert(i != li as int);
                    assert(links@[i] == links0[i]);
                } else {
                    assert(i == li as int);
                }
            }
        }
        k = k + 1;
    }
    proof {
        assert(stats_growth_bounded(*old(stats), *stats, WORK_APP as int)) by {
            assert(nports * 1023 <= MAX_LINKS * 1023) by (nonlinear_arith)
                requires
                    0 <= nports <= MAX_LINKS,
            ;
            assert(nports * 10475520 <= MAX_LINKS * 10475520) by (nonlinear_arith)
                requires
                    0 <= nports <= MAX_LINKS,
            ;
            assert(nports * 83877816 <= MAX_LINKS * 83877816) by (nonlinear_arith)
                requires
                    0 <= nports <= MAX_LINKS,
            ;
            assert(MAX_LINKS * 10475520 <= (WORK_APP as int) * (packet::PAYLOAD_SIZE as int))
                by (nonlinear_arith)
                requires
                    MAX_LINKS == 97,
                    WORK_APP == 0x100_0000_0000,
                    packet::PAYLOAD_SIZE == 10240,
            ;
            assert(MAX_LINKS * 83877816 <= (WORK_APP as int) * spec_freebits(
                packet::PAYLOAD_SIZE as u16,
            )) by (nonlinear_arith)
                requires
                    MAX_LINKS == 97,
                    WORK_APP == 0x100_0000_0000,
                    spec_freebits(packet::PAYLOAD_SIZE as u16) == 81992,
            ;
        }
        assert(links_growth_bounded(old(links)@, links@, WORK_APP as int)) by {
            assert forall|i: int|
                0 <= i < old(links)@.len() implies {
                let a = old(links)@[i].link;
                let b = (#[trigger] links@[i]).link;
                &&& a.txpackets <= b.txpackets <= a.txpackets + WORK_APP
                &&& a.txbytes <= b.txbytes <= a.txbytes + WORK_APP
                &&& a.txdrop <= b.txdrop <= a.txdrop + WORK_APP
                &&& a.rxpackets <= b.rxpackets <= a.rxpackets + WORK_APP
                &&& a.rxbytes <= b.rxbytes <= a.rxbytes + WORK_APP
            } by {
                if port_uses(input@, i) {
                    let k2 = choose|k2: int|
                        0 <= k2 < input@.len() && (#[trigger] input@[k2]).link == i;
                    assert(0 <= k2 < input@.len() && input@[k2].link == i);
                    assert(drained(
                        old(links)@[input@[k2].link as int].link,
                        links@[input@[k2].link as int].link,
                    ));
                    assert(drained(old(links)@[i].link, links@[i].link));
                    link::lemma_queue_wf(&old(links)@[i].link);
                    link::lemma_sum_bounds(old(links)@[i].link@);
                    let q0 = old(links)@[i].link@;
                    assert(q0.len() * (packet::PAYLOAD_SIZE as int) <= 1023 * (
                    packet::PAYLOAD_SIZE as int)) by (nonlinear_arith)
                        requires
                            0 <= q0.len() <= 1023,
                    ;
                } else {
                    assert(links@[i] == old(links)@[i]);
                }
            }
        }
    }
}

/// Packets queued on the links wired to the first `n` ports.
pub open spec fn ports_queued_prefix(ports: Seq<Port>, n: int, links: Seq<LinkEntry>) -> int
    decreases n,
{
    if n <= 0 {
        0
    } else {
        ports_queued_prefix(ports, n - 1, links) + links[ports[n - 1].link as int].link@.len()
    }
}

proof fn lemma_ports_queued_prefix_bound(ports: Seq<Port>, n: int, links: Seq<LinkEntry>)
    requires
        0 <= n <= ports.len(),
        forall|k: int| 0 <= k < ports.len() ==> (#[trigger] ports[k]).link < links.len(),
        forall|i: int| 0 <= i < links.len() ==> (#[trigger] links[i]).link.wf(),
    ensures
        0 <= ports_queued_prefix(ports, n, links) <= n * (link::LINK_MAX_PACKETS as int),
    decreases n,
{
    if n > 0 {
        lemma_ports_queued_prefix_bound(ports, n - 1, links);
        link::lemma_queue_wf(&links[ports[n - 1].link as int].link);
        assert((n - 1) * (link::LINK_MAX_PACKETS as int) + (link::LINK_MAX_PACKETS as int) == n * (
        link::LINK_MAX_PACKETS as int)) by (nonlinear_arith);
    }
}

/// The packets drained by a Tee, in order: the entry queues of the links
/// wired to the first `n` input ports, concatenated.
pub open spec fn drained_concat(ports: Seq<Port>, n: int, links: Seq<LinkEntry>) -> Seq<Packet>
    decreases n,
{
    if n <= 0 {
        Seq::<Packet>::empty()
    } else {
        drained_concat(ports, n - 1, links) + links[ports[n - 1].link as int].link@
    }
}

pub proof fn lemma_drained_concat_len(ports: Seq<Port>, n: int, links: Seq<LinkEntry>)
    requires
        0 <= n,
    ensures
        drained_concat(ports, n, links).len() == ports_queued_prefix(ports, n, links),
    decreases n,
{
    if n > 0 {
        lemma_drained_concat_len(ports, n - 1, links);
    }
}

proof fn lemma_pq_monotone(ports: Seq<Port>, a: int, b: int, links: Seq<LinkEntry>)
    requires
        0 <= a <= b,
    ensures
        ports_queued_prefix(ports, a, links) <= ports_queued_prefix(ports, b, links),
    decreases b - a,
{
    if a < b {
        lemma_pq_monotone(ports, a, b - 1, links);
    }
}

/// Indexing into the drained concatenation: position `r` within the
/// `k`-th input's entry queue sits right after everything the earlier
/// inputs contribute.
pub proof fn lemma_drained_concat_index(
    ports: Seq<Port>,
    n: int,
    links: Seq<LinkEntry>,
    k: int,
    r: int,
)
    requires
        0 <= k < n,
        0 <= r < links[ports[k].link as int].link@.len(),
    ensures
        drained_concat(ports, n, links)[ports_queued_prefix(ports, k, links) + r] == links[ports[k].link as int].link@[r],
    decreases n,
{
    lemma_drained_concat_len(ports, n - 1, links);
    if k == n - 1 {
        lemma_pq_monotone(ports, 0, k, links);
    } else {
        lemma_drained_concat_index(ports, n - 1, links, k, r);
        lemma_pq_monotone(ports, 0, k, links);
        lemma_pq_monotone(ports, k + 1, n - 1, links);
        assert(ports_queued_prefix(ports, k, links) + r < ports_queued_prefix(
            ports,
            k + 1,
            links,
        ));
    }
}

/// `q` carries the payload of `p`: same length, same payload bytes.
pub open spec fn is_clone_of(q: Packet, p: Packet) -> bool {
    &&& q.length == p.length
    &&& (forall|b: int| 0 <= b < p.length ==> q.data@[b] == p.data@[b])
}

/// Every packet appended to the queue (it grew from `q0` to `q1`) is a
/// clone of the correspondingly-numbered drained packet in `cc`.
pub open spec fn clones_of(q0: Seq<Packet>, q1: Seq<Packet>, cc: Seq<Packet>) -> bool {
    forall|j: int|
        q0.len() <= j < q1.len() ==> is_clone_of(#[trigger] q1[j], cc[j - q0.len()])
}

/// How a Tee's push transforms one output link, seen from the entry
/// state: `t` clone transmissions were attempted; those that fit extended
/// the queue, the rest were dropped and counted.
pub open spec fn tee_out(a: Link, b: Link, t: int) -> bool {
    &&& b.wf()
    &&& b@.len() == sat_len(a@.len() as int, t)
    &&& b.txdrop == a.txdrop + (t - (b@.len() - a@.len()))
    &&& b.txpackets == a.txpackets + (b@.len() - a@.len())
    &&& a.txbytes <= b.txbytes <= a.txbytes + t * (packet::PAYLOAD_SIZE as int)
    &&& b.rxpackets == a.rxpackets
    &&& b.rxbytes == a.rxbytes
}

/// Forward every packet of every input link to all output links: each
/// input packet is received, a fresh clone of it is transmitted onto each
/// output link, and the original is freed.
#[verifier::rlimit(100)]
#[verifier::spinoff_prover]
fn tee_push(
    input: &Vec<Port>,
    output: &Vec<Port>,
    links: &mut Vec<LinkEntry>,
    fl: &mut Freelist,
    stats: &mut EngineStats,
)
    requires
        input@.len() <= MAX_LINKS,
        output@.len() <= MAX_LINKS,
        forall|k: int| 0 <= k < input@.len() ==> (#[trigger] input@[k]).link < old(links)@.len(),
        forall|k: int| 0 <= k < output@.len() ==> (#[trigger] output@[k]).link < old(links)@.len(),
        forall|j: int, k: int|
            0 <= j < k < input@.len() ==> (#[trigger] input@[j]).link != (
            #[trigger] input@[k]).link,
        forall|j: int, k: int|
            0 <= j < k < output@.len() ==> (#[trigger] output@[j]).link != (
            #[trigger] output@[k]).link,
        forall|j: int, k: int|
            0 <= j < input@.len() && 0 <= k < output@.len() ==> (#[trigger] input@[j]).link != (
            #[trigger] output@[k]).link,
        forall|i: int| 0 <= i < old(links)@.len() ==> (#[trigger] old(links)@[i]).link.wf(),
        old(links)@.len() <= MAX_LINKS,
        old(fl).wf(),
        old(fl)@.len() + total_queued(old(links)@) == packet::FREELIST_SIZE,
        links_room(old(links)@, WORK_APP as int),
        old(stats).room_for_frees(WORK_APP as int),
    ensures
        final(links)@.len() == old(links)@.len(),
        forall|i: int|
            0 <= i < old(links)@.len() && !port_uses(input@, i) && !port_uses(output@, i)
                ==> final(links)@[i] == old(links)@[i],
        forall|k: int|
            0 <= k < input@.len() ==> {
                let i = (#[trigger] input@[k]).link as int;
                &&& final(links)@[i].spec == old(links)@[i].spec
                &&& drained(old(links)@[i].link, final(links)@[i].link)
            },
        forall|k: int|
            0 <= k < output@.len() ==> {
                let i = (#[trigger] output@[k]).link as int;
                &&& final(links)@[i].spec == old(links)@[i].spec
                &&& tee_out(
                    old(links)@[i].link,
                    final(links)@[i].link,
                    ports_queued_prefix(input@, input@.len() as int, old(links)@),
                )
            },
        forall|i: int| 0 <= i < final(links)@.len() ==> (#[trigger] final(links)@[i]).link.wf(),
        final(fl).wf(),
        final(fl)@.len() + total_queued(final(links)@) == packet::FREELIST_SIZE,
        links_growth_bounded(old(links)@, final(links)@, WORK_APP as int),
        stats_growth_bounded(*old(stats), *final(stats), WORK_APP as int),
        final(stats).frees == old(stats).frees + (crate::engine::sum_rxpackets(final(links)@)
            - crate::engine::sum_rxpackets(old(links)@)) + (crate::engine::sum_txdrop(
            final(links)@,
        ) - crate::engine::sum_txdrop(old(links)@)),
        // The packets each output gained are clones, in order, of the
        // packets drained from the inputs.
        forall|k: int|
            0 <= k < output@.len() ==> clones_of(
                old(links)@[(#[trigger] output@[k]).link as int].link@,
                final(links)@[output@[k].link as int].link@,
                drained_concat(input@, input@.len() as int, old(links)@),
            ),
{
    proof {
        assert(MAX_LINKS == 97);
        assert(packet::PAYLOAD_SIZE == 10240);
        assert(packet::FREELIST_SIZE == 100000);
        assert(link::LINK_MAX_PACKETS == 1023);
        assert(spec_freebits(packet::PAYLOAD_SIZE as u16) == 81992);
        assert(WORK_APP == 0x100_0000_0000);
        lemma_ports_queued_prefix_bound(input@, input@.len() as int, old(links)@);
        assert forall|k2: int|
            0 <= k2 < input@.len() implies links@[(#[trigger] input@[k2]).link as int] == old(
            links,
        )@[(input@[k2]).link as int] by {}
        assert forall|k2: int|
            0 <= k2 < output@.len() implies {
            let i = (#[trigger] output@[k2]).link as int;
            &&& links@[i].spec == old(links)@[i].spec
            &&& tee_out(old(links)@[i].link, links@[i].link, 0)
        } by {
            let i = output@[k2].link as int;
            link::lemma_queue_wf(&old(links)@[i].link);
            assert(links@[i] == old(links)@[i]);
        }
    }
    let nin = input.len();
    let nout = output.len();
    let mut k: usize = 0;
    while k < nin
        invariant
            k <= nin,
            nin == input@.len(),
            nout == output@.len(),
            nin <= MAX_LINKS,
            nout <= MAX_LINKS,
            links@.len() == old(links)@.len(),
            old(links)@.len() <= MAX_LINKS,
            forall|k2: int|
                0 <= k2 < input@.len() ==> (#[trigger] input@[k2]).link < old(links)@.len(),
            forall|k2: int|
                0 <= k2 < output@.len() ==> (#[trigger] output@[k2]).link < old(links)@.len(),
            forall|j: int, k2: int|
                0 <= j < k2 < input@.len() ==> (#[trigger] input@[j]).link != (
                #[trigger] input@[k2]).link,
            forall|j: int, k2: int|
                0 <= j < k2 < output@.len() ==> (#[trigger] output@[j]).link != (
                #[trigger] output@[k2]).link,
            forall|j: int, k2: int|
                0 <= j < input@.len() && 0 <= k2 < output@.len() ==> (#[trigger] input@[j]).link
                    != (#[trigger] output@[k2]).link,
            forall|i: int| 0 <= i < old(links)@.len() ==> (#[trigger] old(links)@[i]).link.wf(),
            links_room(old(links)@, WORK_APP as int),
            old(stats).room_for_frees(WORK_APP as int),
            forall|i: int|
                0 <= i < links@.len() && !port_uses_prefix(input@, k as int, i) && !port_uses(
                    output@,
                    i,
                ) ==> links@[i] == old(links)@[i],
            forall|k2: int|
                0 <= k2 < k ==> {
                    let i = (#[trigger] input@[k2]).link as int;
                    &&& links@[i].spec == old(links)@[i].spec
                    &&& drained(old(links)@[i].link, links@[i].link)
                },
            forall|k2: int|
                k <= k2 < nin ==> links@[(#[trigger] input@[k2]).link as int] == old(links)@[(
                input@[k2]).link as int],
            forall|k2: int|
                0 <= k2 < nout ==> {
                    let i = (#[trigger] output@[k2]).link as int;
                    &&& links@[i].spec == old(links)@[i].spec
                    &&& tee_out(
                        old(links)@[i].link,
                        links@[i].link,
                        ports_queued_prefix(input@, k as int, old(links)@),
                    )
                },
            forall|k2: int|
                0 <= k2 < nout ==> clones_of(
                    old(links)@[(#[trigger] output@[k2]).link as int].link@,
                    links@[output@[k2].link as int].link@,
                    drained_concat(input@, nin as int, old(links)@),
                ),
            forall|i: int| 0 <= i < links@.len() ==> (#[trigger] links@[i]).link.wf(),
            fl.wf(),
            fl@.len() + total_queued(links@) == packet::FREELIST_SIZE,
            0 <= ports_queued_prefix(input@, k as int, old(links)@) <= k * 1023,
            stats.frees == old(stats).frees + (crate::engine::sum_rxpackets(links@)
                - crate::engine::sum_rxpackets(old(links)@)) + (crate::engine::sum_txdrop(links@)
                - crate::engine::sum_txdrop(old(links)@)),
            stats.frees <= old(stats).frees + ports_queued_prefix(input@, k as int, old(links)@)
                * 98,
            stats.freebytes <= old(stats).freebytes + ports_queued_prefix(
                input@,
                k as int,
                old(links)@,
            ) * 1003520,
            stats.freebits <= old(stats).freebits + ports_queued_prefix(
                input@,
                k as int,
                old(links)@,
            ) * 8035216,
            old(stats).frees <= stats.frees,
            old(stats).freebytes <= stats.freebytes,
            old(stats).freebits <= stats.freebits,
            stats.breaths == old(stats).breaths,
        decreases nin - k,
    {
        let ili = input[k].link;
        let ghost t_base = ports_queued_prefix(input@, k as int, old(links)@);
        let ghost in_entry = old(links)@[ili as int].link;
        proof {
            assert(!port_uses_prefix(input@, k as int, ili as int)) by {
                if port_uses_prefix(input@, k as int, ili as int) {
                    let k2 = choose|k2: int|
                        0 <= k2 < k && (#[trigger] input@[k2]).link == ili as int;
                    assert(input@[k2].link != input@[k as int].link);
                }
            }
            assert(!port_uses(output@, ili as int)) by {
                if port_uses(output@, ili as int) {
                    let k2 = choose|k2: int|
                        0 <= k2 < output@.len() && (#[trigger] output@[k2]).link == ili as int;
                    assert(input@[k as int].link != output@[k2].link);
                }
            }
            assert(links@[ili as int] == old(links)@[ili as int]);
            link::lemma_queue_wf(&in_entry);
            link::lemma_sum_bounds(in_entry@);
            assert(in_entry@.len() * (packet::PAYLOAD_SIZE as int) <= 1023 * 10240)
                by (nonlinear_arith)
                requires
                    0 <= in_entry@.len() <= 1023,
                    packet::PAYLOAD_SIZE == 10240,
            ;
            assert(links@[ili as int].link@ =~= in_entry@.subrange(0, in_entry@.len() as int));
            lemma_ports_queued_prefix_bound(input@, k as int + 1, old(links)@);
            assert(ports_queued_prefix(input@, k as int + 1, old(links)@) == t_base
                + in_entry@.len());
            assert((k + 1) * 1023 <= 97 * 1023) by (nonlinear_arith)
                requires
                    0 <= k + 1 <= 97,
            ;
        }
        // Drain this input link, fanning each packet out to every output.
        while !link::empty(&links[ili].link)
            invariant
                nin == input@.len(),
                nout == output@.len(),
                nin <= MAX_LINKS,
                nout <= MAX_LINKS,
                0 <= k < nin,
                ili == input@[k as int].link,
                ili < links@.len(),
                links@.len() == old(links)@.len(),
                old(links)@.len() <= MAX_LINKS,
                forall|k2: int|
                    0 <= k2 < output@.len() ==> (#[trigger] output@[k2]).link < old(
                        links,
                    )@.len(),
                forall|k2: int|
                    0 <= k2 < input@.len() ==> (#[trigger] input@[k2]).link < old(links)@.len(),
                forall|j: int, k2: int|
                    0 <= j < k2 < output@.len() ==> (#[trigger] output@[j]).link != (
                    #[trigger] output@[k2]).link,
                forall|j: int, k2: int|
                    0 <= j < k2 < input@.len() ==> (#[trigger] input@[j]).link != (
                    #[trigger] input@[k2]).link,
                forall|j: int, k2: int|
                    0 <= j < input@.len() && 0 <= k2 < output@.len() ==> (
                    #[trigger] input@[j]).link != (#[trigger] output@[k2]).link,
                forall|k2: int|
                    0 <= k2 < output@.len() ==> (#[trigger] output@[k2]).link != ili,
                forall|i: int| 0 <= i < old(links)@.len() ==> (#[trigger] old(links)@[i]).link.wf(),
                links_room(old(links)@, WORK_APP as int),
                old(stats).room_for_frees(WORK_APP as int),
                in_entry == old(links)@[ili as int].link,
                in_entry.wf(),
                in_entry@.len() <= 1023,
                // The input link holds a suffix of its entry queue.
                links@[ili as int].spec == old(links)@[ili as int].spec,
                links@[ili as int].link@ == in_entry@.subrange(
                    in_entry@.len() - links@[ili as int].link@.len(),
                    in_entry@.len() as int,
                ),
                links@[ili as int].link@.len() <= in_entry@.len(),
                links@[ili as int].link.rxpackets == in_entry.rxpackets + (in_entry@.len()
                    - links@[ili as int].link@.len()),
                links@[ili as int].link.rxbytes == in_entry.rxbytes + link::sum_lengths(in_entry@)
                    - link::sum_lengths(links@[ili as int].link@),
                links@[ili as int].link.txpackets == in_entry.txpackets,
                links@[ili as int].link.txbytes == in_entry.txbytes,
                links@[ili as int].link.txdrop == in_entry.txdrop,
                0 <= link::sum_lengths(links@[ili as int].link@),
                link::sum_lengths(links@[ili as int].link@) <= link::sum_lengths(in_entry@),
                0 <= link::sum_lengths(in_entry@) <= 1023 * 10240,
                // Untouched links stay at their entry values.
                forall|i: int|
                    0 <= i < links@.len() && !port_uses_prefix(input@, k as int + 1, i)
                        && !port_uses(output@, i) ==> links@[i] == old(links)@[i],
                forall|k2: int|
                    0 <= k2 < k ==> {
                        let i = (#[trigger] input@[k2]).link as int;
                        &&& links@[i].spec == old(links)@[i].spec
                        &&& drained(old(links)@[i].link, links@[i].link)
                    },
                forall|k2: int|
                    k < k2 < nin ==> links@[(#[trigger] input@[k2]).link as int] == old(links)@[(
                    input@[k2]).link as int],
                // Outputs have seen one attempt per packet received so far.
                forall|k2: int|
                    0 <= k2 < nout ==> {
                        let i = (#[trigger] output@[k2]).link as int;
                        &&& links@[i].spec == old(links)@[i].spec
                        &&& tee_out(
                            old(links)@[i].link,
                            links@[i].link,
                            t_base + (in_entry@.len() - links@[ili as int].link@.len()),
                        )
                    },
                forall|k2: int|
                    0 <= k2 < nout ==> clones_of(
                        old(links)@[(#[trigger] output@[k2]).link as int].link@,
                        links@[output@[k2].link as int].link@,
                        drained_concat(input@, nin as int, old(links)@),
                    ),
                forall|i: int| 0 <= i < links@.len() ==> (#[trigger] links@[i]).link.wf(),
                fl.wf(),
                fl@.len() + total_queued(links@) == packet::FREELIST_SIZE,
                t_base == ports_queued_prefix(input@, k as int, old(links)@),
                0 <= t_base <= k * 1023,
                t_base + in_entry@.len() == ports_queued_prefix(input@, k as int + 1, old(links)@),
                ports_queued_prefix(input@, k as int + 1, old(links)@) <= (k + 1) * 1023,
                stats.frees == old(stats).frees + (crate::engine::sum_rxpackets(links@)
                    - crate::engine::sum_rxpackets(old(links)@)) + (crate::engine::sum_txdrop(
                    links@,
                ) - crate::engine::sum_txdrop(old(links)@)),
                stats.frees <= old(stats).frees + (t_base + (in_entry@.len() - links@[ili as int].link@.len())) * 98,
                stats.freebytes <= old(stats).freebytes + (t_base + (in_entry@.len()
                    - links@[ili as int].link@.len())) * 1003520,
                stats.freebits <= old(stats).freebits + (t_base + (in_entry@.len()
                    - links@[ili as int].link@.len())) * 8035216,
                old(stats).frees <= stats.frees,
                old(stats).freebytes <= stats.freebytes,
                old(stats).freebits <= stats.freebits,
                stats.breaths == old(stats).breaths,
            decreases links@[ili as int].link@.len(),
        {
            let ghost t_cur = t_base + (in_entry@.len() - links@[ili as int].link@.len());
            let ghost linksa = links@;
            let ghost statsa = *stats;
            proof {
                let q = links@[ili as int].link@;
                assert(link::sum_lengths(q) == q[0].length + link::sum_lengths(
                    q.subrange(1, q.len() as int),
                ));
                assert(link::sum_freebits(q) == spec_freebits(q[0].length)
                    + link::sum_freebits(q.subrange(1, q.len() as int)));
                link::lemma_queue_wf(&links@[ili as int].link);
                link::lemma_sum_bounds(q.subrange(1, q.len() as int));
                assert(t_cur * 98 <= 97 * 1023 * 98) by (nonlinear_arith)
                    requires
                        0 <= t_cur <= 97 * 1023,
                ;
                assert(t_cur * 1003520 <= 97 * 1023 * 1003520) by (nonlinear_arith)
                    requires
                        0 <= t_cur <= 97 * 1023,
                ;
                assert(t_cur * 8035216 <= 97 * 1023 * 8035216) by (nonlinear_arith)
                    requires
                        0 <= t_cur <= 97 * 1023,
                ;
                assert((WORK_APP as int) * (packet::PAYLOAD_SIZE as int) == 0x100_0000_0000
                    * 10240) by (nonlinear_arith)
                    requires
                        WORK_APP == 0x100_0000_0000,
                        packet::PAYLOAD_SIZE == 10240,
                ;
                assert((WORK_APP as int) * spec_freebits(packet::PAYLOAD_SIZE as u16)
                    == 0x100_0000_0000 * 81992) by (nonlinear_arith)
                    requires
                        WORK_APP == 0x100_0000_0000,
                        spec_freebits(packet::PAYLOAD_SIZE as u16) == 81992,
                ;
                assert(t_cur <= (k + 1) * 1023);
                assert((k + 1) * 1023 <= 97 * 1023) by (nonlinear_arith)
                    requires
                        0 <= k + 1 <= 97,
                ;
            }
            let p = link::receive(&mut links[ili].link);
            let ghost linksb = links@;
            proof {
                assert(links@ =~= linksa.update(ili as int, links@[ili as int]));
                crate::engine::lemma_total_queued_update(linksa, ili as int, links@[ili as int]);
                crate::engine::lemma_counter_sums_update(linksa, ili as int, links@[ili as int]);
                assert(links@[ili as int].link@ =~= in_entry@.subrange(
                    in_entry@.len() - links@[ili as int].link@.len(),
                    in_entry@.len() as int,
                ));
                // The received packet is the next drained packet overall.
                let consumed = in_entry@.len() - linksa[ili as int].link@.len();
                assert(linksa[ili as int].link@[0] == in_entry@.subrange(
                    consumed,
                    in_entry@.len() as int,
                )[0]);
                assert(p == in_entry@[consumed]);
                lemma_drained_concat_index(input@, nin as int, old(links)@, k as int, consumed);
                assert(p == drained_concat(input@, nin as int, old(links)@)[t_cur]);
            }
            // Clone the packet onto every output link.
            let mut m: usize = 0;
            while m < nout
                invariant
                    nout == output@.len(),
                    nout <= MAX_LINKS,
                    m <= nout,
                    p.wf(),
                    links@.len() == old(links)@.len(),
                    old(links)@.len() <= MAX_LINKS,
                    forall|k2: int|
                        0 <= k2 < output@.len() ==> (#[trigger] output@[k2]).link < old(
                            links,
                        )@.len(),
                    forall|j: int, k2: int|
                        0 <= j < k2 < output@.len() ==> (#[trigger] output@[j]).link != (
                        #[trigger] output@[k2]).link,
                    forall|i: int| 0 <= i < old(links)@.len() ==> (#[trigger] old(links)@[i]).link.wf(),
                    links_room(old(links)@, WORK_APP as int),
                    old(stats).room_for_frees(WORK_APP as int),
                    0 <= t_cur <= 97 * 1023,
                    // Only output links among the first m have changed.
                    forall|i: int|
                        0 <= i < links@.len() && !port_uses_prefix(output@, m as int, i)
                            ==> links@[i] == linksb[i],
                    forall|k2: int|
                        0 <= k2 < m ==> {
                            let i = (#[trigger] output@[k2]).link as int;
                            &&& links@[i].spec == linksb[i].spec
                            &&& tee_out(old(links)@[i].link, links@[i].link, t_cur + 1)
                        },
                    forall|k2: int|
                        m <= k2 < nout ==> {
                            let i = (#[trigger] output@[k2]).link as int;
                            &&& links@[i].spec == linksb[i].spec
                            &&& tee_out(old(links)@[i].link, links@[i].link, t_cur)
                        },
                    p == drained_concat(input@, nin as int, old(links)@)[t_cur],
                    p.length == drained_concat(input@, nin as int, old(links)@)[t_cur].length,
                    forall|k2: int|
                        0 <= k2 < nout ==> clones_of(
                            old(links)@[(#[trigger] output@[k2]).link as int].link@,
                            links@[output@[k2].link as int].link@,
                            drained_concat(input@, nin as int, old(links)@),
                        ),
                    forall|i: int| 0 <= i < links@.len() ==> (#[trigger] links@[i]).link.wf(),
                    fl.wf(),
                    fl@.len() + total_queued(links@) + 1 == packet::FREELIST_SIZE,
                    stats.frees == old(stats).frees + (crate::engine::sum_rxpackets(links@)
                        - crate::engine::sum_rxpackets(old(links)@)) - 1 + (
                    crate::engine::sum_txdrop(links@) - crate::engine::sum_txdrop(old(links)@)),
                    stats.frees <= statsa.frees + m,
                    stats.freebytes <= statsa.freebytes + m * 10240,
                    stats.freebits <= statsa.freebits + m * 81992,
                    statsa.frees <= stats.frees,
                    statsa.freebytes <= stats.freebytes,
                    statsa.freebits <= stats.freebits,
                    stats.frees <= old(stats).frees + t_cur * 98 + m + 1,
                    stats.freebytes <= old(stats).freebytes + t_cur * 1003520 + (m + 1) * 10240,
                    stats.freebits <= old(stats).freebits + t_cur * 8035216 + (m + 1) * 81992,
                    old(stats).frees <= stats.frees,
                    old(stats).freebytes <= stats.freebytes,
                    old(stats).freebits <= stats.freebits,
                    stats.breaths == old(stats).breaths,
                decreases nout - m,
            {
                let oli = output[m].link;
                let ghost linksc = links@;
                proof {
                    assert(!port_uses_prefix(output@, m as int, oli as int)) by {
                        if port_uses_prefix(output@, m as int, oli as int) {
                            let k2 = choose|k2: int|
                                0 <= k2 < m && (#[trigger] output@[k2]).link == oli as int;
                            assert(output@[k2].link != output@[m as int].link);
                        }
                    }
                    assert(links@[oli as int] == linksb[oli as int]);
                    assert(tee_out(old(links)@[oli as int].link, links@[oli as int].link, t_cur));
                    link::lemma_queue_wf(&old(links)@[oli as int].link);
                    crate::engine::lemma_total_queued_bound(links@);
                    assert(links@.len() * 1023 <= 97 * 1023) by (nonlinear_arith)
                        requires
                            0 <= links@.len() <= 97,
                    ;
                    assert(t_cur * 98 + 98 <= 97 * 1023 * 98 + 98) by (nonlinear_arith)
                        requires
                            0 <= t_cur <= 97 * 1023,
                    ;
                    assert(t_cur + 1 <= 97 * 1023 + 1);
                    assert((t_cur + 1) * 10240 <= (97 * 1023 + 1) * 10240) by (nonlinear_arith)
                        requires
                            0 <= t_cur + 1 <= 97 * 1023 + 1,
                    ;
                    assert((t_cur + 1) * 81992 <= (97 * 1023 + 1) * 81992) by (nonlinear_arith)
                        requires
                            0 <= t_cur + 1 <= 97 * 1023 + 1,
                    ;
                    assert(t_cur * 1003520 + 1003520 <= 97 * 1023 * 1003520 + 1003520)
                        by (nonlinear_arith)
                        requires
                            0 <= t_cur <= 97 * 1023,
                    ;
                    assert(t_cur * 8035216 + 8035216 <= 97 * 1023 * 8035216 + 8035216)
                        by (nonlinear_arith)
                        requires
                            0 <= t_cur <= 97 * 1023,
                    ;
                    assert(t_cur * 1003520 + (m + 1) * 10240 == (t_cur * 98 + m + 1) * (
                    packet::PAYLOAD_SIZE as int)) by (nonlinear_arith)
                        requires
                            packet::PAYLOAD_SIZE == 10240,
                    ;
                    assert(t_cur * 8035216 + (m + 1) * 81992 == (t_cur * 98 + m + 1)
                        * spec_freebits(packet::PAYLOAD_SIZE as u16)) by (nonlinear_arith)
                        requires
                            spec_freebits(packet::PAYLOAD_SIZE as u16) == 81992,
                    ;
                    assert(t_cur * 98 + m + 1 + 1 <= WORK_APP) by (nonlinear_arith)
                        requires
                            0 <= t_cur <= 97 * 1023,
                            0 <= m <= 97,
                            WORK_APP == 0x100_0000_0000,
                    ;
                    crate::engine::lemma_room_consume(
                        *old(stats),
                        *stats,
                        t_cur * 98 + m + 1,
                        1,
                        WORK_APP as int,
                    );
                    assert(stats.room_for_frees(1));
                    // Counter head-room on the output link.
                    assert(linksc[oli as int].link.txbytes <= old(links)@[oli as int].link.txbytes
                        + t_cur * (packet::PAYLOAD_SIZE as int));
                    assert(t_cur * (packet::PAYLOAD_SIZE as int) + (packet::PAYLOAD_SIZE as int)
                        <= WORK_APP) by (nonlinear_arith)
                        requires
                            0 <= t_cur <= 97 * 1023,
                            packet::PAYLOAD_SIZE == 10240,
                            WORK_APP == 0x100_0000_0000,
                    ;
                    crate::engine::lemma_total_queued_nonneg(links@);
                }
                let q = packet::clone(fl, &p);
                link::transmit(&mut links[oli].link, q, fl, stats);
                proof {
                    assert(links@ =~= linksc.update(oli as int, links@[oli as int]));
                    crate::engine::lemma_total_queued_update(linksc, oli as int, links@[oli as int]);
                    crate::engine::lemma_counter_sums_update(linksc, oli as int, links@[oli as int]);
                    assert(tee_out(old(links)@[oli as int].link, links@[oli as int].link, t_cur + 1));
                    let cc = drained_concat(input@, nin as int, old(links)@);
                    assert forall|k2: int|
                        0 <= k2 < nout implies clones_of(
                        old(links)@[(#[trigger] output@[k2]).link as int].link@,
                        links@[output@[k2].link as int].link@,
                        cc,
                    ) by {
                        let i = output@[k2].link as int;
                        if i == oli as int {
                            let q00 = old(links)@[i].link@;
                            let prevq = linksc[i].link@;
                            let newq = links@[i].link@;
                            assert(clones_of(q00, prevq, cc));
                            if prevq.len() < link::LINK_MAX_PACKETS {
                                assert(newq == prevq.push(q));
                                assert forall|j: int|
                                    q00.len() <= j < newq.len() implies is_clone_of(
                                    #[trigger] newq[j],
                                    cc[j - q00.len()],
                                ) by {
                                    if j < prevq.len() {
                                        assert(newq[j] == prevq[j]);
                                        assert(is_clone_of(prevq[j], cc[j - q00.len()]));
                                    } else {
                                        assert(newq[j] == q);
                                        // The ring was not full, so every
                                        // attempt so far was stored and the
                                        // new slot is attempt `t_cur`.
                                        assert(prevq.len() == sat_len(q00.len() as int, t_cur));
                                        assert(j - q00.len() == t_cur);
                                        assert(is_clone_of(q, cc[t_cur]));
                                    }
                                }
                            } else {
                                assert(newq == prevq);
                            }
                        } else {
                            assert(links@[i] == linksc[i]);
                        }
                    }
                    assert forall|k2: int|
                        0 <= k2 < m + 1 implies {
                        let i = (#[trigger] output@[k2]).link as int;
                        &&& links@[i].spec == linksb[i].spec
                        &&& tee_out(old(links)@[i].link, links@[i].link, t_cur + 1)
                    } by {
                        let i = output@[k2].link as int;
                        if k2 < m {
                            assert(i != oli as int);
                            assert(links@[i] == linksc[i]);
                        } else {
                            assert(i == oli as int);
                        }
                    }
                    assert forall|k2: int|
                        m + 1 <= k2 < nout implies {
                        let i = (#[trigger] output@[k2]).link as int;
                        &&& links@[i].spec == linksb[i].spec
                        &&& tee_out(old(links)@[i].link, links@[i].link, t_cur)
                    } by {
                        let i = output@[k2].link as int;
                        assert(i != oli as int);
                        assert(links@[i] == linksc[i]);
                    }
                }
                m = m + 1;
            }
            proof {
                assert(!port_uses_prefix(output@, nout as int, ili as int)) by {
                    if port_uses_prefix(output@, nout as int, ili as int) {
                        let k2 = choose|k2: int|
                            0 <= k2 < nout && (#[trigger] output@[k2]).link == ili as int;
                        assert(output@[k2].link != ili);
                    }
                }
                assert(links@[ili as int] == linksb[ili as int]);
                let q0 = linksa[ili as int].link@;
                assert(links@[ili as int].link@ == q0.subrange(1, q0.len() as int));
                assert(link::sum_lengths(links@[ili as int].link@) == link::sum_lengths(q0)
                    - q0[0].length);
                assert(link::sum_freebits(links@[ili as int].link@) == link::sum_freebits(q0)
                    - spec_freebits(q0[0].length));
                assert(links@[ili as int].link@ =~= in_entry@.subrange(
                    in_entry@.len() - links@[ili as int].link@.len(),
                    in_entry@.len() as int,
                ));
                assert forall|i: int|
                    0 <= i < links@.len() && !port_uses_prefix(input@, k as int + 1, i)
                        && !port_uses(output@, i) implies links@[i] == old(links)@[i] by {
                    assert(!port_uses_prefix(output@, nout as int, i));
                    assert(links@[i] == linksb[i]);
                    assert(i != ili as int) by {
                        assert(input@[k as int].link == ili);
                        if i == ili as int {
                            assert(port_uses_prefix(input@, k as int + 1, i));
                        }
                    }
                    assert(linksb[i] == linksa[i]);
                }
                assert forall|k2: int|
                    0 <= k2 < k implies {
                    let i = (#[trigger] input@[k2]).link as int;
                    &&& links@[i].spec == old(links)@[i].spec
                    &&& drained(old(links)@[i].link, links@[i].link)
                } by {
                    let i = input@[k2].link as int;
                    assert(i != ili as int) by {
                        assert(input@[k2].link != input@[k as int].link);
                    }
                    assert(!port_uses(output@, i)) by {
                        if port_uses(output@, i) {
                            let k3 = choose|k3: int|
                                0 <= k3 < output@.len() && (#[trigger] output@[k3]).link == i;
                            assert(input@[k2].link != output@[k3].link);
                        }
                    }
                    assert(!port_uses_prefix(output@, nout as int, i));
                    assert(links@[i] == linksb[i]);
                    assert(linksb[i] == linksa[i]);
                }
                assert forall|k2: int|
                    k < k2 < nin implies links@[(#[trigger] input@[k2]).link as int] == old(
                    links,
                )@[(input@[k2]).link as int] by {
                    let i = input@[k2].link as int;
                    assert(i != ili as int) by {
                        assert(input@[k2].link != input@[k as int].link);
                    }
                    assert(!port_uses(output@, i)) by {
                        if port_uses(output@, i) {
                            let k3 = choose|k3: int|
                                0 <= k3 < output@.len() && (#[trigger] output@[k3]).link == i;
                            assert(input@[k2].link != output@[k3].link);
                        }
                    }
                    assert(!port_uses_prefix(output@, nout as int, i));
                    assert(links@[i] == linksb[i]);
                    assert(linksb[i] == linksa[i]);
                }
                assert(t_cur * 98 + nout + 1 + 1 <= WORK_APP) by (nonlinear_arith)
                    requires
                        0 <= t_cur <= 97 * 1023,
                        0 <= nout <= 97,
                        WORK_APP == 0x100_0000_0000,
                ;
                assert(t_cur * 1003520 + (nout + 1) * 10240 == (t_cur * 98 + nout + 1) * (
                packet::PAYLOAD_SIZE as int)) by (nonlinear_arith)
                    requires
                        packet::PAYLOAD_SIZE == 10240,
                ;
                assert(t_cur * 8035216 + (nout + 1) * 81992 == (t_cur * 98 + nout + 1)
                    * spec_freebits(packet::PAYLOAD_SIZE as u16)) by (nonlinear_arith)
                    requires
                        spec_freebits(packet::PAYLOAD_SIZE as u16) == 81992,
                ;
                crate::engine::lemma_room_consume(
                    *old(stats),
                    *stats,
                    t_cur * 98 + nout + 1,
                    1,
                    WORK_APP as int,
                );
                crate::engine::lemma_total_queued_nonneg(links@);
            }
            packet::free(fl, stats, p);
            proof {
                assert(t_cur + 1 <= 97 * 1023);
                assert((t_cur + 1) * 98 == t_cur * 98 + 98) by (nonlinear_arith);
                assert((t_cur + 1) * 1003520 == t_cur * 1003520 + 1003520) by (nonlinear_arith);
                assert((t_cur + 1) * 8035216 == t_cur * 8035216 + 8035216) by (nonlinear_arith);
                assert(nout <= 97);
                assert(p.length <= 10240);
                assert(spec_freebits(p.length) <= 81992);
            }
        }
        proof {
            assert(links@[ili as int].link@.len() == 0);
            assert(drained(old(links)@[ili as int].link, links@[ili as int].link));
            assert forall|k2: int|
                0 <= k2 < k + 1 implies {
                let i = (#[trigger] input@[k2]).link as int;
                &&& links@[i].spec == old(links)@[i].spec
                &&& drained(old(links)@[i].link, links@[i].link)
            } by {
                let i = input@[k2].link as int;
                if k2 < k {
                    assert(i != ili as int) by {
                        assert(input@[k2].link != input@[k as int].link);
                    }
                }
            }
            assert forall|i: int|
                0 <= i < links@.len() && !port_uses_prefix(input@, k as int + 1, i) && !port_uses(
                    output@,
                    i,
                ) implies links@[i] == old(links)@[i] by {
                assert(!port_uses_prefix(input@, k as int, i));
                assert(i != ili as int);
            }
        }
        k = k + 1;
    }
    proof {
        assert(stats_growth_bounded(*old(stats), *stats, WORK_APP as int)) by {
            let t = ports_queued_prefix(input@, nin as int, old(links)@);
            assert(t * 98 <= 97 * 1023 * 98) by (nonlinear_arith)
                requires
                    0 <= t <= 97 * 1023,
            ;
            assert(t * 1003520 <= 97 * 1023 * 1003520) by (nonlinear_arith)
                requires
                    0 <= t <= 97 * 1023,
            ;
            assert(t * 8035216 <= 97 * 1023 * 8035216) by (nonlinear_arith)
                requires
                    0 <= t <= 97 * 1023,
            ;
            assert(nin * 1023 <= 97 * 1023) by (nonlinear_arith)
                requires
                    0 <= nin <= 97,
            ;
            assert((WORK_APP as int) * (packet::PAYLOAD_SIZE as int) == 0x100_0000_0000 * 10240)
                by (nonlinear_arith)
                requires
                    WORK_APP == 0x100_0000_0000,
                    packet::PAYLOAD_SIZE == 10240,
            ;
            assert((WORK_APP as int) * spec_freebits(packet::PAYLOAD_SIZE as u16) == 0x100_0000_0000
                * 81992) by (nonlinear_arith)
                requires
                    WORK_APP == 0x100_0000_0000,
                    spec_freebits(packet::PAYLOAD_SIZE as u16) == 81992,
            ;
        }
        assert(links_growth_bounded(old(links)@, links@, WORK_APP as int)) by {
            assert forall|i: int|
                0 <= i < old(links)@.len() implies {
                let a = old(links)@[i].link;
                let b = (#[trigger] links@[i]).link;
                &&& a.txpackets <= b.txpackets <= a.txpackets + WORK_APP
                &&& a.txbytes <= b.txbytes <= a.txbytes + WORK_APP
                &&& a.txdrop <= b.txdrop <= a.txdrop + WORK_APP
                &&& a.rxpackets <= b.rxpackets <= a.rxpackets + WORK_APP
                &&& a.rxbytes <= b.rxbytes <= a.rxbytes + WORK_APP
            } by {
                let t = ports_queued_prefix(input@, nin as int, old(links)@);
                if port_uses(input@, i) {
                    let k2 = choose|k2: int|
                        0 <= k2 < input@.len() && (#[trigger] input@[k2]).link == i;
                    assert(0 <= k2 < input@.len() && input@[k2].link == i);
                    assert(drained(
                        old(links)@[input@[k2].link as int].link,
                        links@[input@[k2].link as int].link,
                    ));
                    assert(drained(old(links)@[i].link, links@[i].link));
                    link::lemma_queue_wf(&old(links)@[i].link);
                    link::lemma_sum_bounds(old(links)@[i].link@);
                    let q0 = old(links)@[i].link@;
                    assert(q0.len() * (packet::PAYLOAD_SIZE as int) <= 1023 * (
                    packet::PAYLOAD_SIZE as int)) by (nonlinear_arith)
                        requires
                            0 <= q0.len() <= 1023,
                    ;
                } else if port_uses(output@, i) {
                    let k2 = choose|k2: int|
                        0 <= k2 < output@.len() && (#[trigger] output@[k2]).link == i;
                    assert(0 <= k2 < output@.len() && output@[k2].link == i);
                    assert(tee_out(
                        old(links)@[output@[k2].link as int].link,
                        links@[output@[k2].link as int].link,
                        t,
                    ));
                    assert(tee_out(old(links)@[i].link, links@[i].link, t));
                    link::lemma_queue_wf(&old(links)@[i].link);
                    assert(t * (packet::PAYLOAD_SIZE as int) <= 97 * 1023 * 10240)
                        by (nonlinear_arith)
                        requires
                            0 <= t <= 97 * 1023,
                            packet::PAYLOAD_SIZE == 10240,
                    ;
                } else {
                    assert(links@[i] == old(links)@[i]);
                }
            }
        }
    }
}

/// Configuration of a Source app: generate synthetic packets of `size`
/// bytes.
#[derive(Clone, Copy, PartialEq, Eq, Structural, Debug)]
pub struct Source {
    pub size: u16,
}

/// A live Source app.
#[derive(Clone, Copy, PartialEq, Eq, Structural, Debug)]
pub struct SourceApp {
    pub size: u16,
}

impl Source {
    /// Instantiate the app this configuration describes.
    pub fn new(&self) -> (a: SourceApp)
        ensures
            a.size == self.size,
    {
        SourceApp { size: self.size }
    }
}

impl SourceApp {
    /// Inhale packets into the app network: allocate `PULL_NPACKETS`
    /// packets of `size` zeroed bytes and transmit them onto every output
    /// link, dropping (and accounting) the overflow of any full ring.
    pub fn pull(
        &self,
        output: &Vec<Port>,
        links: &mut Vec<LinkEntry>,
        fl: &mut Freelist,
        stats: &mut EngineStats,
    )
        requires
            self.size <= packet::PAYLOAD_SIZE,
            output@.len() <= MAX_LINKS,
            forall|k: int|
                0 <= k < output@.len() ==> (#[trigger] output@[k]).link < old(links)@.len(),
            forall|j: int, k: int|
                0 <= j < k < output@.len() ==> (#[trigger] output@[j]).link != (
                #[trigger] output@[k]).link,
            forall|i: int| 0 <= i < old(links)@.len() ==> (#[trigger] old(links)@[i]).link.wf(),
            old(links)@.len() <= MAX_LINKS,
            old(fl).wf(),
            old(fl)@.len() + total_queued(old(links)@) == packet::FREELIST_SIZE,
            links_room(old(links)@, WORK_APP as int),
            old(stats).room_for_frees(WORK_APP as int),
        ensures
            final(links)@.len() == old(links)@.len(),
            forall|i: int|
                0 <= i < old(links)@.len() && !port_uses(output@, i) ==> final(links)@[i] == old(
                    links,
                )@[i],
            forall|k: int|
                0 <= k < output@.len() ==> {
                    let i = (#[trigger] output@[k]).link as int;
                    &&& final(links)@[i].spec == old(links)@[i].spec
                    &&& source_pulled(
                        old(links)@[i].link,
                        final(links)@[i].link,
                        self.size,
                        PULL_NPACKETS as int,
                    )
                },
            forall|i: int| 0 <= i < final(links)@.len() ==> (#[trigger] final(links)@[i]).link.wf(),
            final(fl).wf(),
            final(fl)@.len() + total_queued(final(links)@) == packet::FREELIST_SIZE,
            links_growth_bounded(old(links)@, final(links)@, WORK_APP as int),
            stats_growth_bounded(*old(stats), *final(stats), WORK_APP as int),
            final(stats).frees == old(stats).frees + (crate::engine::sum_txdrop(final(links)@)
                - crate::engine::sum_txdrop(old(links)@)),
            final(stats).freebytes == old(stats).freebytes + (crate::engine::sum_txdrop(
                final(links)@,
            ) - crate::engine::sum_txdrop(old(links)@)) * self.size,
            final(stats).freebits == old(stats).freebits + (crate::engine::sum_txdrop(
                final(links)@,
            ) - crate::engine::sum_txdrop(old(links)@)) * spec_freebits(self.size),
    {
        pull_ports(self.size, output, links, fl, stats)
    }
}

/// Configuration of a Sink app: receive and discard packets.
#[derive(Clone, Copy, PartialEq, Eq, Structural, Debug)]
pub struct Sink {}

/// A live Sink app.
#[derive(Clone, Copy, PartialEq, Eq, Structural, Debug)]
pub struct SinkApp {}

impl Sink {
    /// Instantiate the app this configuration describes.
    pub fn new(&self) -> (a: SinkApp)
    {
        SinkApp {}
    }
}

impl SinkApp {
    /// Exhale packets out of the app network: receive and free every
    /// packet queued on every input link.
    pub fn push(
        &self,
        input: &Vec<Port>,
        links: &mut Vec<LinkEntry>,
        fl: &mut Freelist,
        stats: &mut EngineStats,
    )
        requires
            input@.len() <= MAX_LINKS,
            forall|k: int|
                0 <= k < input@.len() ==> (#[trigger] input@[k]).link < old(links)@.len(),
            forall|j: int, k: int|
                0 <= j < k < input@.len() ==> (#[trigger] input@[j]).link != (
                #[trigger] input@[k]).link,
            forall|i: int| 0 <= i < old(links)@.len() ==> (#[trigger] old(links)@[i]).link.wf(),
            old(links)@.len() <= MAX_LINKS,
            old(fl).wf(),
            old(fl)@.len() + total_queued(old(links)@) == packet::FREELIST_SIZE,
            links_room(old(links)@, WORK_APP as int),
            old(stats).room_for_frees(WORK_APP as int),
        ensures
            final(links)@.len() == old(links)@.len(),
            forall|i: int|
                0 <= i < old(links)@.len() && !port_uses(input@, i) ==> final(links)@[i] == old(
                    links,
                )@[i],
            forall|k: int|
                0 <= k < input@.len() ==> {
                    let i = (#[trigger] input@[k]).link as int;
                    &&& final(links)@[i].spec == old(links)@[i].spec
                    &&& drained(old(links)@[i].link, final(links)@[i].link)
                },
            forall|i: int| 0 <= i < final(links)@.len() ==> (#[trigger] final(links)@[i]).link.wf(),
            final(fl).wf(),
            final(fl)@.len() + total_queued(final(links)@) == packet::FREELIST_SIZE,
            links_growth_bounded(old(links)@, final(links)@, WORK_APP as int),
            stats_growth_bounded(*old(stats), *final(stats), WORK_APP as int),
            final(fl)@.len() == old(fl)@.len() + (crate::engine::sum_rxpackets(final(links)@)
                - crate::engine::sum_rxpackets(old(links)@)),
            final(stats).frees == old(stats).frees + (crate::engine::sum_rxpackets(
                final(links)@,
            ) - crate::engine::sum_rxpackets(old(links)@)),
            final(stats).freebytes == old(stats).freebytes + (crate::engine::sum_rxbytes(
                final(links)@,
            ) - crate::engine::sum_rxbytes(old(links)@)),
            final(stats).freebits == old(stats).freebits + crate::engine::ports_sum_freebits(
                input@,
                input@.len() as int,
                old(links)@,
            ),
    {
        drain_ports(input, links, fl, stats)
    }
}

/// Configuration of a Tee app: send each input packet to all outputs.
#[derive(Clone, Copy, PartialEq, Eq, Structural, Debug)]
pub struct Tee {}

/// A live Tee app.
#[derive(Clone, Copy, PartialEq, Eq, Structural, Debug)]
pub struct TeeApp {}

impl Tee {
    /// Instantiate the app this configuration describes.
    pub fn new(&self) -> (a: TeeApp)
    {
        TeeApp {}
    }
}

impl TeeApp {
    /// Send every input packet to all outputs: each received packet is
    /// cloned onto every output link and the original is freed.
    pub fn push(
        &self,
        input: &Vec<Port>,
        output: &Vec<Port>,
        links: &mut Vec<LinkEntry>,
        fl: &mut Freelist,
        stats: &mut EngineStats,
    )
        requires
            input@.len() <= MAX_LINKS,
            output@.len() <= MAX_LINKS,
            forall|k: int|
                0 <= k < input@.len() ==> (#[trigger] input@[k]).link < old(links)@.len(),
            forall|k: int|
                0 <= k < output@.len() ==> (#[trigger] output@[k]).link < old(links)@.len(),
            forall|j: int, k: int|
                0 <= j < k < input@.len() ==> (#[trigger] input@[j]).link != (
                #[trigger] input@[k]).link,
            forall|j: int, k: int|
                0 <= j < k < output@.len() ==> (#[trigger] output@[j]).link != (
                #[trigger] output@[k]).link,
            forall|j: int, k: int|
                0 <= j < input@.len() && 0 <= k < output@.len() ==> (#[trigger] input@[j]).link
                    != (#[trigger] output@[k]).link,
            forall|i: int| 0 <= i < old(links)@.len() ==> (#[trigger] old(links)@[i]).link.wf(),
            old(links)@.len() <= MAX_LINKS,
            old(fl).wf(),
            old(fl)@.len() + total_queued(old(links)@) == packet::FREELIST_SIZE,
            links_room(old(links)@, WORK_APP as int),
            old(stats).room_for_frees(WORK_APP as int),
        ensures
            final(links)@.len() == old(links)@.len(),
            forall|i: int|
                0 <= i < old(links)@.len() && !port_uses(input@, i) && !port_uses(output@, i)
                    ==> final(links)@[i] == old(links)@[i],
            forall|k: int|
                0 <= k < input@.len() ==> {
                    let i = (#[trigger] input@[k]).link as int;
                    &&& final(links)@[i].spec == old(links)@[i].spec
                    &&& drained(old(links)@[i].link, final(links)@[i].link)
                },
            forall|k: int|
                0 <= k < output@.len() ==> {
                    let i = (#[trigger] output@[k]).link as int;
                    &&& final(links)@[i].spec == old(links)@[i].spec
                    &&& tee_out(
                        old(links)@[i].link,
                        final(links)@[i].link,
                        ports_queued_prefix(input@, input@.len() as int, old(links)@),
                    )
                },
            forall|i: int| 0 <= i < final(links)@.len() ==> (#[trigger] final(links)@[i]).link.wf(),
            final(fl).wf(),
            final(fl)@.len() + total_queued(final(links)@) == packet::FREELIST_SIZE,
            links_growth_bounded(old(links)@, final(links)@, WORK_APP as int),
            stats_growth_bounded(*old(stats), *final(stats), WORK_APP as int),
            final(stats).frees == old(stats).frees + (crate::engine::sum_rxpackets(
                final(links)@,
            ) - crate::engine::sum_rxpackets(old(links)@)) + (crate::engine::sum_txdrop(
                final(links)@,
            ) - crate::engine::sum_txdrop(old(links)@)),
            forall|k: int|
                0 <= k < output@.len() ==> clones_of(
                    old(links)@[(#[trigger] output@[k]).link as int].link@,
                    final(links)@[output@[k].link as int].link@,
                    drained_concat(input@, input@.len() as int, old(links)@),
                ),
    {
        tee_push(input, output, links, fl, stats)
    }
}

/// Configuration of a SourceSink app: a pseudo I/O device that generates
/// packets of `size` bytes on pull and discards its inputs on push.
#[derive(Clone, Copy, PartialEq, Eq, Structural, Debug)]
pub struct SourceSink {
    pub size: u16,
}

/// A live SourceSink app.
#[derive(Clone, Copy, PartialEq, Eq, Structural, Debug)]
pub struct SourceSinkApp {
    pub size: u16,
}

impl SourceSink {
    /// Instantiate the app this configuration describes.
    pub fn new(&self) -> (a: SourceSinkApp)
        ensures
            a.size == self.size,
    {
        SourceSinkApp { size: self.size }
    }
}

impl SourceSinkApp {
    /// Inhale like a Source: transmit `PULL_NPACKETS` packets of `size`
    /// zeroed bytes onto every output link.
    pub fn pull(
        &self,
        output: &Vec<Port>,
        links: &mut Vec<LinkEntry>,
        fl: &mut Freelist,
        stats: &mut EngineStats,
    )
        requires
            self.size <= packet::PAYLOAD_SIZE,
            output@.len() <= MAX_LINKS,
            forall|k: int|
                0 <= k < output@.len() ==> (#[trigger] output@[k]).link < old(links)@.len(),
            forall|j: int, k: int|
                0 <= j < k < output@.len() ==> (#[trigger] output@[j]).link != (
                #[trigger] output@[k]).link,
            forall|i: int| 0 <= i < old(links)@.len() ==> (#[trigger] old(links)@[i]).link.wf(),
            old(links)@.len() <= MAX_LINKS,
            old(fl).wf(),
            old(fl)@.len() + total_queued(old(links)@) == packet::FREELIST_SIZE,
            links_room(old(links)@, WORK_APP as int),
            old(stats).room_for_frees(WORK_APP as int),
        ensures
            final(links)@.len() == old(links)@.len(),
            forall|i: int|
                0 <= i < old(links)@.len() && !port_uses(output@, i) ==> final(links)@[i] == old(
                    links,
                )@[i],
            forall|k: int|
                0 <= k < output@.len() ==> {
                    let i = (#[trigger] output@[k]).link as int;
                    &&& final(links)@[i].spec == old(links)@[i].spec
                    &&& source_pulled(
                        old(links)@[i].link,
                        final(links)@[i].link,
                        self.size,
                        PULL_NPACKETS as int,
                    )
                },
            forall|i: int| 0 <= i < final(links)@.len() ==> (#[trigger] final(links)@[i]).link.wf(),
            final(fl).wf(),
            final(fl)@.len() + total_queued(final(links)@) == packet::FREELIST_SIZE,
            links_growth_bounded(old(links)@, final(links)@, WORK_APP as int),
            stats_growth_bounded(*old(stats), *final(stats), WORK_APP as int),
            final(stats).frees == old(stats).frees + (crate::engine::sum_txdrop(final(links)@)
                - crate::engine::sum_txdrop(old(links)@)),
            final(stats).freebytes == old(stats).freebytes + (crate::engine::sum_txdrop(
                final(links)@,
            ) - crate::engine::sum_txdrop(old(links)@)) * self.size,
            final(stats).freebits == old(stats).freebits + (crate::engine::sum_txdrop(
                final(links)@,
            ) - crate::engine::sum_txdrop(old(links)@)) * spec_freebits(self.size),
    {
        pull_ports(self.size, output, links, fl, stats)
    }

    /// Exhale like a Sink: receive and free every packet queued on every
    /// input link.
    pub fn push(
        &self,
        input: &Vec<Port>,
        links: &mut Vec<LinkEntry>,
        fl: &mut Freelist,
        stats: &mut EngineStats,
    )
        requires
            input@.len() <= MAX_LINKS,
            forall|k: int|
                0 <= k < input@.len() ==> (#[trigger] input@[k]).link < old(links)@.len(),
            forall|j: int, k: int|
                0 <= j < k < input@.len() ==> (#[trigger] input@[j]).link != (
                #[trigger] input@[k]).link,
            forall|i: int| 0 <= i < old(links)@.len() ==> (#[trigger] old(links)@[i]).link.wf(),
            old(links)@.len() <= MAX_LINKS,
            old(fl).wf(),
            old(fl)@.len() + total_queued(old(links)@) == packet::FREELIST_SIZE,
            links_room(old(links)@, WORK_APP as int),
            old(stats).room_for_frees(WORK_APP as int),
        ensures
            final(links)@.len() == old(links)@.len(),
            forall|i: int|
                0 <= i < old(links)@.len() && !port_uses(input@, i) ==> final(links)@[i] == old(
                    links,
                )@[i],
            forall|k: int|
                0 <= k < input@.len() ==> {
                    let i = (#[trigger] input@[k]).link as int;
                    &&& final(links)@[i].spec == old(links)@[i].spec
                    &&& drained(old(links)@[i].link, final(links)@[i].link)
                },
            forall|i: int| 0 <= i < final(links)@.len() ==> (#[trigger] final(links)@[i]).link.wf(),
            final(fl).wf(),
            final(fl)@.len() + total_queued(final(links)@) == packet::FREELIST_SIZE,
            links_growth_bounded(old(links)@, final(links)@, WORK_APP as int),
            stats_growth_bounded(*old(stats), *final(stats), WORK_APP as int),
            final(fl)@.len() == old(fl)@.len() + (crate::engine::sum_rxpackets(final(links)@)
                - crate::engine::sum_rxpackets(old(links)@)),
            final(stats).frees == old(stats).frees + (crate::engine::sum_rxpackets(
                final(links)@,
            ) - crate::engine::sum_rxpackets(old(links)@)),
            final(stats).freebytes == old(stats).freebytes + (crate::engine::sum_rxbytes(
                final(links)@,
            ) - crate::engine::sum_rxbytes(old(links)@)),
            final(stats).freebits == old(stats).freebits + crate::engine::ports_sum_freebits(
                input@,
                input@.len() as int,
                old(links)@,
            ),
    {
        drain_ports(input, links, fl, stats)
    }
}

} // verus!
