//! Engine state and the breathe loop.
//!
//! The engine owns the packet freelist, the table of live apps, the table of
//! links between them, and the global statistics counters. `configure`
//! migrates the live graph towards a desired configuration; `breathe` runs
//! one inhale/exhale cycle over the apps.

use vstd::prelude::*;

verus! {

use crate::packet;
use crate::basic_apps;
use crate::link;
use crate::link::Link;
use crate::packet::Freelist;

/// Counters for global engine statistics. All counters are monotonically
/// non-decreasing while the engine runs.
pub struct EngineStats {
    /// Total breaths taken.
    pub breaths: u64,
    /// Total packets freed.
    pub frees: u64,
    /// Total packet bits freed, accounted at 10 GbE on-wire cost.
    pub freebits: u64,
    /// Total packet bytes freed.
    pub freebytes: u64,
}

/// The 10 GbE on-wire cost in bits of a packet of `length` bytes: the
/// payload (at least the 46-byte minimum frame), plus 4 bytes of CRC and 5
/// bytes of inter-packet gap.
pub open spec fn spec_freebits(length: u16) -> int {
    ((if length >= 46 {
        length as int
    } else {
        46
    }) + 4 + 5) * 8
}

impl EngineStats {
    /// Room to account `n` more freed packets without any counter
    /// overflowing, whatever their lengths.
    pub open spec fn room_for_frees(&self, n: int) -> bool {
        &&& self.frees + n <= u64::MAX
        &&& self.freebytes + n * (packet::PAYLOAD_SIZE as int) <= u64::MAX
        &&& self.freebits + n * spec_freebits(packet::PAYLOAD_SIZE as u16) <= u64::MAX
    }

    pub fn new() -> (s: EngineStats)
        ensures
            s.breaths == 0,
            s.frees == 0,
            s.freebits == 0,
            s.freebytes == 0,
    {
        EngineStats { breaths: 0, frees: 0, freebits: 0, freebytes: 0 }
    }

    pub fn add_frees(&mut self)
        requires
            old(self).frees < u64::MAX,
        ensures
            *final(self) == (EngineStats { frees: (old(self).frees + 1) as u64, ..*old(self) }),
    {
        self.frees = self.frees + 1;
    }

    pub fn add_freebytes(&mut self, bytes: u64)
        requires
            old(self).freebytes + bytes <= u64::MAX,
        ensures
            *final(self) == (EngineStats {
                freebytes: (old(self).freebytes + bytes) as u64,
                ..*old(self)
            }),
    {
        self.freebytes = self.freebytes + bytes;
    }

    pub fn add_freebits(&mut self, bits: u64)
        requires
            old(self).freebits + bits <= u64::MAX,
        ensures
            *final(self) == (EngineStats {
                freebits: (old(self).freebits + bits) as u64,
                ..*old(self)
            }),
    {
        self.freebits = self.freebits + bits;
    }
}

/// Description of how to instantiate an app: a type tag plus type-specific
/// parameters. Two configurations are identical exactly when they are
/// structurally equal; that identity drives graph migration.
#[derive(Clone, Copy, PartialEq, Eq, Structural, Debug)]
pub enum AppConfig {
    Source(basic_apps::Source),
    Sink(basic_apps::Sink),
    Tee(basic_apps::Tee),
    SourceSink(basic_apps::SourceSink),
}

/// A live app instance, dispatched over the closed set of known app types.
#[derive(Clone, Copy, PartialEq, Eq, Structural, Debug)]
pub enum App {
    Source(basic_apps::SourceApp),
    Sink(basic_apps::SinkApp),
    Tee(basic_apps::TeeApp),
    SourceSink(basic_apps::SourceSinkApp),
}

impl AppConfig {
    /// The instance this configuration creates.
    pub open spec fn spec_new(&self) -> App {
        match self {
            AppConfig::Source(c) => App::Source(basic_apps::SourceApp { size: c.size }),
            AppConfig::Sink(c) => App::Sink(basic_apps::SinkApp {}),
            AppConfig::Tee(c) => App::Tee(basic_apps::TeeApp {}),
            AppConfig::SourceSink(c) => App::SourceSink(
                basic_apps::SourceSinkApp { size: c.size },
            ),
        }
    }

    /// Parameters the engine can honor: a generated packet must fit in
    /// the payload buffer.
    pub open spec fn valid(&self) -> bool {
        match self {
            AppConfig::Source(c) => c.size <= packet::PAYLOAD_SIZE,
            AppConfig::SourceSink(c) => c.size <= packet::PAYLOAD_SIZE,
            AppConfig::Sink(_) => true,
            AppConfig::Tee(_) => true,
        }
    }

    /// Initialize and return the app this configuration describes.
    pub fn new(&self) -> (a: App)
        ensures
            a == self.spec_new(),
    {
        match self {
            AppConfig::Source(c) => App::Source(c.new()),
            AppConfig::Sink(c) => App::Sink(c.new()),
            AppConfig::Tee(c) => App::Tee(c.new()),
            AppConfig::SourceSink(c) => App::SourceSink(c.new()),
        }
    }
}

impl App {
    /// Whether the app takes part in the inhale phase.
    pub open spec fn spec_has_pull(&self) -> bool {
        match self {
            App::Source(_) => true,
            App::Sink(_) => false,
            App::Tee(_) => false,
            App::SourceSink(_) => true,
        }
    }

    /// Whether the app takes part in the exhale phase.
    pub open spec fn spec_has_push(&self) -> bool {
        match self {
            App::Source(_) => false,
            App::Sink(_) => true,
            App::Tee(_) => true,
            App::SourceSink(_) => true,
        }
    }

    /// Query the pull capability, to skip no-op invocations.
    pub fn has_pull(&self) -> (r: bool)
        ensures
            r == self.spec_has_pull(),
    {
        match self {
            App::Source(_) => true,
            App::Sink(_) => false,
            App::Tee(_) => false,
            App::SourceSink(_) => true,
        }
    }

    /// Query the push capability, to skip no-op invocations.
    pub fn has_push(&self) -> (r: bool)
        ensures
            r == self.spec_has_push(),
    {
        match self {
            App::Source(_) => false,
            App::Sink(_) => true,
            App::Tee(_) => true,
            App::SourceSink(_) => true,
        }
    }

    /// Stop the app: called once before an instance is dropped during
    /// migration. None of the basic apps holds resources to release.
    pub fn stop(&self) {
    }

    /// Parameters the engine can honor: a generated packet must fit in
    /// the payload buffer.
    pub open spec fn valid(&self) -> bool {
        match self {
            App::Source(a) => a.size <= packet::PAYLOAD_SIZE,
            App::SourceSink(a) => a.size <= packet::PAYLOAD_SIZE,
            App::Sink(_) => true,
            App::Tee(_) => true,
        }
    }
}

/// Recommended number of packets to inhale per output link in an app's
/// pull method: a soft budget that keeps rings from monopolising memory.
pub const PULL_NPACKETS: usize = link::LINK_MAX_PACKETS / 10;

/// Upper bound for the adaptive sleep between breaths, in microseconds.
pub const MAXSLEEP: u64 = 100;

/// The most links an engine may hold: with every ring full, the freelist
/// still holds a packet, so allocation inside a breath can never underflow
/// (`MAX_LINKS * LINK_MAX_PACKETS < FREELIST_SIZE`).
pub const MAX_LINKS: usize = 97;

/// Bound on how much any one statistics or link counter can grow during
/// one app invocation; breathing requires this much head-room per app, so
/// the 64-bit counters cannot overflow.
pub const WORK_APP: u64 = 0x100_0000_0000;

/// A named port of an app, wired to the link at index `link` in the
/// engine's link table.
pub struct Port {
    pub name: String,
    pub link: usize,
}

/// State for a single app instance managed by the engine: the instance,
/// the configuration it was started from, and its named input and output
/// ports.
pub struct AppState {
    pub name: String,
    pub conf: AppConfig,
    pub app: App,
    pub input: Vec<Port>,
    pub output: Vec<Port>,
}

/// A link of the live graph, keyed by the literal specification string
/// that created it.
pub struct LinkEntry {
    pub spec: String,
    pub link: Link,
}

/// A port at the spec level: name and link index.
pub struct PortModel {
    pub name: Seq<char>,
    pub link: int,
}

impl Port {
    pub open spec fn model(&self) -> PortModel {
        PortModel { name: self.name@, link: self.link as int }
    }
}

impl AppState {
    pub open spec fn input_models(&self) -> Seq<PortModel> {
        self.input@.map_values(|p: Port| p.model())
    }

    pub open spec fn output_models(&self) -> Seq<PortModel> {
        self.output@.map_values(|p: Port| p.model())
    }

    /// Ports point into the link table, port names are unique per
    /// direction, and the port count never exceeds the link capacity of
    /// the engine.
    pub open spec fn ports_wf(&self, nlinks: int) -> bool {
        &&& (forall|k: int| 0 <= k < self.input@.len() ==> (#[trigger] self.input@[k]).link < nlinks)
        &&& (forall|k: int|
            0 <= k < self.output@.len() ==> (#[trigger] self.output@[k]).link < nlinks)
        &&& (forall|j: int, k: int|
            0 <= j < k < self.input@.len() ==> (#[trigger] self.input@[j]).name@ != (
            #[trigger] self.input@[k]).name@)
        &&& (forall|j: int, k: int|
            0 <= j < k < self.output@.len() ==> (#[trigger] self.output@[j]).name@ != (
            #[trigger] self.output@[k]).name@)
        &&& (forall|j: int, k: int|
            0 <= j < k < self.input@.len() ==> (#[trigger] self.input@[j]).link != (
            #[trigger] self.input@[k]).link)
        &&& (forall|j: int, k: int|
            0 <= j < k < self.output@.len() ==> (#[trigger] self.output@[j]).link != (
            #[trigger] self.output@[k]).link)
        &&& self.input@.len() <= MAX_LINKS
        &&& self.output@.len() <= MAX_LINKS
    }
}

/// Total number of packets currently enqueued across the given links.
pub open spec fn total_queued(links: Seq<LinkEntry>) -> int
    decreases links.len(),
{
    if links.len() == 0 {
        0
    } else {
        total_queued(links.drop_last()) + links.last().link@.len()
    }
}

/// Sum of `txpackets` over the given links.
pub open spec fn sum_txpackets(links: Seq<LinkEntry>) -> int
    decreases links.len(),
{
    if links.len() == 0 {
        0
    } else {
        sum_txpackets(links.drop_last()) + links.last().link.txpackets
    }
}

/// Sum of `rxpackets` over the given links.
pub open spec fn sum_rxpackets(links: Seq<LinkEntry>) -> int
    decreases links.len(),
{
    if links.len() == 0 {
        0
    } else {
        sum_rxpackets(links.drop_last()) + links.last().link.rxpackets
    }
}

/// Sum of `txdrop` over the given links.
pub open spec fn sum_txdrop(links: Seq<LinkEntry>) -> int
    decreases links.len(),
{
    if links.len() == 0 {
        0
    } else {
        sum_txdrop(links.drop_last()) + links.last().link.txdrop
    }
}

/// Sum of `rxbytes` over the given links.
pub open spec fn sum_rxbytes(links: Seq<LinkEntry>) -> int
    decreases links.len(),
{
    if links.len() == 0 {
        0
    } else {
        sum_rxbytes(links.drop_last()) + links.last().link.rxbytes
    }
}

/// Replacing one entry shifts each counter sum by that entry's change.
pub proof fn lemma_counter_sums_update(s: Seq<LinkEntry>, i: int, e: LinkEntry)
    requires
        0 <= i < s.len(),
    ensures
        sum_txpackets(s.update(i, e)) == sum_txpackets(s) - s[i].link.txpackets
            + e.link.txpackets,
        sum_rxpackets(s.update(i, e)) == sum_rxpackets(s) - s[i].link.rxpackets
            + e.link.rxpackets,
        sum_txdrop(s.update(i, e)) == sum_txdrop(s) - s[i].link.txdrop + e.link.txdrop,
        sum_rxbytes(s.update(i, e)) == sum_rxbytes(s) - s[i].link.rxbytes + e.link.rxbytes,
    decreases s.len(),
{
    if i == s.len() - 1 {
        assert(s.update(i, e).drop_last() =~= s.drop_last());
        assert(s.update(i, e).last() == e);
    } else {
        lemma_counter_sums_update(s.drop_last(), i, e);
        assert(s.update(i, e).drop_last() =~= s.drop_last().update(i, e));
        assert(s.update(i, e).last() == s.last());
    }
}

/// Sum of the on-wire bit costs of the packets queued on the links wired
/// to the first `n` ports.
pub open spec fn ports_sum_freebits(ports: Seq<Port>, n: int, links: Seq<LinkEntry>) -> int
    decreases n,
{
    if n <= 0 {
        0
    } else {
        ports_sum_freebits(ports, n - 1, links) + link::sum_freebits(
            links[ports[n - 1].link as int].link@,
        )
    }
}

/// Global engine state: the live graph, its schedule, the packet
/// freelist, the statistics counters, and the pacing state. One engine
/// per process; the handle is threaded through all engine calls.
pub struct EngineState {
    /// Live apps, by name.
    pub app_table: Vec<AppState>,
    /// Live links, keyed by their specification string; ports hold
    /// indices into this table.
    pub link_table: Vec<LinkEntry>,
    /// Indices of the pull-capable apps, in the order the inhale phase
    /// runs them.
    pub inhale: Vec<usize>,
    /// Indices of the push-capable apps, in the order the exhale phase
    /// runs them.
    pub exhale: Vec<usize>,
    /// The packet freelist.
    pub fl: Freelist,
    /// Global statistics counters.
    pub stats: EngineStats,
    /// Engine time: the timestamp snapshot taken at the start of the
    /// current breath, in microseconds.
    pub now_micros: u64,
    /// Adaptive sleep between breaths, in microseconds.
    pub sleep_micros: u64,
    /// Value of `stats.frees` when pacing last ran.
    pub lastfrees: u64,
}

impl EngineState {
    /// Whether some live app bears `name`.
    pub open spec fn has_app(&self, name: Seq<char>) -> bool {
        exists|k: int| 0 <= k < self.app_table@.len() && (#[trigger] self.app_table@[k]).name@ == name
    }

    /// Index of the live app bearing `name`.
    pub open spec fn app_index(&self, name: Seq<char>) -> int {
        choose|k: int| 0 <= k < self.app_table@.len() && (#[trigger] self.app_table@[k]).name@ == name
    }

    /// Whether some live link was created from `spec`.
    pub open spec fn has_link(&self, spec: Seq<char>) -> bool {
        exists|k: int|
            0 <= k < self.link_table@.len() && (#[trigger] self.link_table@[k]).spec@ == spec
    }

    /// Index of the live link created from `spec`.
    pub open spec fn link_index(&self, spec: Seq<char>) -> int {
        choose|k: int|
            0 <= k < self.link_table@.len() && (#[trigger] self.link_table@[k]).spec@ == spec
    }

    /// Well-formed engine: unique app names, unique well-formed links
    /// within the capacity bound, ports wired into the link table, a sound
    /// freelist, and packet conservation — every packet is on the
    /// freelist or on a link.
    pub open spec fn wf(&self) -> bool {
        &&& (forall|j: int, k: int|
            0 <= j < k < self.app_table@.len() ==> (#[trigger] self.app_table@[j]).name@ != (
            #[trigger] self.app_table@[k]).name@)
        &&& (forall|j: int, k: int|
            0 <= j < k < self.link_table@.len() ==> (#[trigger] self.link_table@[j]).spec@ != (
            #[trigger] self.link_table@[k]).spec@)
        &&& (forall|k: int|
            0 <= k < self.link_table@.len() ==> (#[trigger] self.link_table@[k]).link.wf())
        &&& self.link_table@.len() <= MAX_LINKS
        &&& (forall|a: int|
            0 <= a < self.app_table@.len() ==> (#[trigger] self.app_table@[a]).ports_wf(
                self.link_table@.len() as int,
            ))
        &&& (forall|a: int|
            0 <= a < self.app_table@.len() ==> (#[trigger] self.app_table@[a]).app.valid())
        &&& (forall|k: int| 0 <= k < self.inhale@.len() ==> (#[trigger] self.inhale@[k]) < self.app_table@.len())
        &&& (forall|k: int| 0 <= k < self.exhale@.len() ==> (#[trigger] self.exhale@[k]) < self.app_table@.len())
        &&& self.fl.wf()
        &&& self.fl@.len() + total_queued(self.link_table@) == packet::FREELIST_SIZE
        &&& self.sleep_micros <= MAXSLEEP
    }
}

/// Initialize the engine: empty graph, a fully populated freelist, zeroed
/// statistics. One engine per process.
pub fn init() -> (s: EngineState)
    ensures
        s.wf(),
        s.app_table@.len() == 0,
        s.link_table@.len() == 0,
        s.inhale@.len() == 0,
        s.exhale@.len() == 0,
        s.fl@.len() == packet::FREELIST_SIZE,
        s.stats.breaths == 0,
        s.stats.frees == 0,
        s.stats.freebits == 0,
        s.stats.freebytes == 0,
        s.now_micros == 0,
        s.sleep_micros == 0,
        s.lastfrees == 0,
{
    EngineState {
        app_table: Vec::new(),
        link_table: Vec::new(),
        inhale: Vec::new(),
        exhale: Vec::new(),
        fl: packet::init(),
        stats: EngineStats::new(),
        now_micros: 0,
        sleep_micros: 0,
        lastfrees: 0,
    }
}

/// Across all links of a well-formed engine, the packets transmitted are
/// at least the packets received, and the difference is exactly the
/// number of packets currently enqueued on the links.
pub proof fn lemma_tx_rx_balance(links: Seq<LinkEntry>)
    requires
        forall|k: int| 0 <= k < links.len() ==> (#[trigger] links[k]).link.wf(),
    ensures
        sum_txpackets(links) == sum_rxpackets(links) + total_queued(links),
        sum_rxpackets(links) <= sum_txpackets(links),
        total_queued(links) >= 0,
    decreases links.len(),
{
    if links.len() > 0 {
        lemma_tx_rx_balance(links.drop_last());
        crate::link::lemma_link_counters(&links.last().link);
    }
}

/// Packet conservation: in a well-formed engine every pre-allocated
/// packet is accounted for — it is either on the freelist or enqueued on
/// exactly one link.
pub proof fn lemma_packet_conservation(s: &EngineState)
    requires
        s.wf(),
    ensures
        s.fl@.len() + total_queued(s.link_table@) == packet::FREELIST_SIZE,
{
}

/// Every counter of every link has at least `amt` head-room before the
/// 64-bit range runs out.
pub open spec fn links_room(links: Seq<LinkEntry>, amt: int) -> bool {
    forall|i: int|
        0 <= i < links.len() ==> {
            let l = (#[trigger] links[i]).link;
            &&& l.txpackets + amt <= u64::MAX
            &&& l.txbytes + amt <= u64::MAX
            &&& l.txdrop + amt <= u64::MAX
            &&& l.rxpackets + amt <= u64::MAX
            &&& l.rxbytes + amt <= u64::MAX
        }
}

/// The statistics counters grew by at most `amt` frees' worth, and the
/// breath counter is untouched.
pub open spec fn stats_growth_bounded(s0: EngineStats, s1: EngineStats, amt: int) -> bool {
    &&& s0.frees <= s1.frees <= s0.frees + amt
    &&& s0.freebytes <= s1.freebytes <= s0.freebytes + amt * (packet::PAYLOAD_SIZE as int)
    &&& s0.freebits <= s1.freebits <= s0.freebits + amt * spec_freebits(
        packet::PAYLOAD_SIZE as u16,
    )
    &&& s1.breaths == s0.breaths
}

/// Every link counter grew by at most `amt`.
pub open spec fn links_growth_bounded(l0: Seq<LinkEntry>, l1: Seq<LinkEntry>, amt: int) -> bool {
    &&& l1.len() == l0.len()
    &&& forall|i: int|
        0 <= i < l0.len() ==> {
            let a = l0[i].link;
            let b = (#[trigger] l1[i]).link;
            &&& a.txpackets <= b.txpackets <= a.txpackets + amt
            &&& a.txbytes <= b.txbytes <= a.txbytes + amt
            &&& a.txdrop <= b.txdrop <= a.txdrop + amt
            &&& a.rxpackets <= b.rxpackets <= a.rxpackets + amt
            &&& a.rxbytes <= b.rxbytes <= a.rxbytes + amt
        }
}

/// Head-room bookkeeping: statistics that started with a whole
/// app-invocation budget and have consumed `spent` frees' worth still
/// have room for `next` more.
pub proof fn lemma_room_consume(s0: EngineStats, s1: EngineStats, spent: int, next: int, budget: int)
    requires
        s0.room_for_frees(budget),
        s1.frees <= s0.frees + spent,
        s1.freebytes <= s0.freebytes + spent * (packet::PAYLOAD_SIZE as int),
        s1.freebits <= s0.freebits + spent * spec_freebits(packet::PAYLOAD_SIZE as u16),
        0 <= spent,
        0 <= next,
        spent + next <= budget,
    ensures
        s1.room_for_frees(next),
{
    assert(spent * (packet::PAYLOAD_SIZE as int) + next * (packet::PAYLOAD_SIZE as int) <= budget
        * (packet::PAYLOAD_SIZE as int)) by (nonlinear_arith)
        requires
            0 <= spent,
            0 <= next,
            spent + next <= budget,
    ;
    assert(spent * spec_freebits(packet::PAYLOAD_SIZE as u16) + next * spec_freebits(
        packet::PAYLOAD_SIZE as u16,
    ) <= budget * spec_freebits(packet::PAYLOAD_SIZE as u16)) by (nonlinear_arith)
        requires
            0 <= spent,
            0 <= next,
            spent + next <= budget,
            spec_freebits(packet::PAYLOAD_SIZE as u16) >= 0,
    ;
}

/// The packets queued across well-formed links are bounded by the ring
/// capacity times the number of links.
pub proof fn lemma_total_queued_bound(links: Seq<LinkEntry>)
    requires
        forall|k: int| 0 <= k < links.len() ==> (#[trigger] links[k]).link.wf(),
    ensures
        0 <= total_queued(links),
        total_queued(links) <= links.len() * (link::LINK_MAX_PACKETS as int),
    decreases links.len(),
{
    if links.len() > 0 {
        lemma_total_queued_bound(links.drop_last());
        crate::link::lemma_queue_wf(&links.last().link);
        assert((links.len() - 1) * (link::LINK_MAX_PACKETS as int) + (
        link::LINK_MAX_PACKETS as int) == links.len() * (link::LINK_MAX_PACKETS as int))
            by (nonlinear_arith);
    }
}

pub proof fn lemma_total_queued_update(s: Seq<LinkEntry>, i: int, e: LinkEntry)
    requires
        0 <= i < s.len(),
    ensures
        total_queued(s.update(i, e)) == total_queued(s) - s[i].link@.len() + e.link@.len(),
    decreases s.len(),
{
    if i == s.len() - 1 {
        assert(s.update(i, e).drop_last() =~= s.drop_last());
        assert(s.update(i, e).last() == e);
    } else {
        lemma_total_queued_update(s.drop_last(), i, e);
        assert(s.update(i, e).drop_last() =~= s.drop_last().update(i, e));
        assert(s.update(i, e).last() == s.last());
    }
}

pub proof fn lemma_total_queued_at_least(s: Seq<LinkEntry>, i: int)
    requires
        0 <= i < s.len(),
    ensures
        total_queued(s) >= s[i].link@.len(),
    decreases s.len(),
{
    if i == s.len() - 1 {
        lemma_total_queued_nonneg(s.drop_last());
    } else {
        lemma_total_queued_at_least(s.drop_last(), i);
        assert(s.drop_last()[i] == s[i]);
    }
}

pub proof fn lemma_total_queued_nonneg(s: Seq<LinkEntry>)
    ensures
        total_queued(s) >= 0,
    decreases s.len(),
{
    if s.len() > 0 {
        lemma_total_queued_nonneg(s.drop_last());
    }
}

/// Across the live graph of a well-formed engine, transmitted packets
/// are at least received packets, their difference is exactly the number
/// of packets enqueued on the links, and together with the freelist that
/// accounts for every pre-allocated packet.
pub proof fn lemma_engine_balance(s: &EngineState)
    requires
        s.wf(),
    ensures
        sum_txpackets(s.link_table@) == sum_rxpackets(s.link_table@) + total_queued(s.link_table@),
        sum_rxpackets(s.link_table@) <= sum_txpackets(s.link_table@),
        s.fl@.len() + total_queued(s.link_table@) == packet::FREELIST_SIZE,
{
    lemma_tx_rx_balance(s.link_table@);
}

/// Whether the table holds an app named `name`.
pub open spec fn has_app_named(t: Seq<AppState>, name: Seq<char>) -> bool {
    exists|k: int| 0 <= k < t.len() && (#[trigger] t[k]).name@ == name
}

/// Index of an app named `name` in the table.
pub open spec fn app_named_at(t: Seq<AppState>, name: Seq<char>) -> int {
    choose|k: int| 0 <= k < t.len() && (#[trigger] t[k]).name@ == name
}

/// Whether the table holds a link created from `spec`.
pub open spec fn has_link_spec(t: Seq<LinkEntry>, spec: Seq<char>) -> bool {
    exists|k: int| 0 <= k < t.len() && (#[trigger] t[k]).spec@ == spec
}

/// Index of the link created from `spec` in the table.
pub open spec fn link_spec_at(t: Seq<LinkEntry>, spec: Seq<char>) -> int {
    choose|k: int| 0 <= k < t.len() && (#[trigger] t[k]).spec@ == spec
}

/// Whether `ports` holds a port named `name`.
pub open spec fn has_port(ports: Seq<Port>, name: Seq<char>) -> bool {
    exists|k: int| 0 <= k < ports.len() && (#[trigger] ports[k]).name@ == name
}

/// Index of the port named `name`.
pub open spec fn port_at(ports: Seq<Port>, name: Seq<char>) -> int {
    choose|k: int| 0 <= k < ports.len() && (#[trigger] ports[k]).name@ == name
}

/// The link index the port named `name` is wired to.
pub open spec fn port_link_of(ports: Seq<Port>, name: Seq<char>) -> int {
    ports[port_at(ports, name)].link as int
}

/// A link with zeroed cursors and counters, as `link::new` makes it.
pub open spec fn fresh_link(l: Link) -> bool {
    &&& l.wf()
    &&& l@.len() == 0
    &&& l.txpackets == 0
    &&& l.txbytes == 0
    &&& l.txdrop == 0
    &&& l.rxpackets == 0
    &&& l.rxbytes == 0
}

pub proof fn lemma_total_queued_push(s: Seq<LinkEntry>, e: LinkEntry)
    ensures
        total_queued(s.push(e)) == total_queued(s) + e.link@.len(),
{
    assert(s.push(e).drop_last() =~= s);
    assert(s.push(e).last() == e);
}

pub proof fn lemma_total_queued_remove(s: Seq<LinkEntry>, i: int)
    requires
        0 <= i < s.len(),
    ensures
        total_queued(s.remove(i)) == total_queued(s) - s[i].link@.len(),
    decreases s.len(),
{
    if i == s.len() - 1 {
        assert(s.remove(i) =~= s.drop_last());
    } else {
        lemma_total_queued_remove(s.drop_last(), i);
        assert(s.remove(i).drop_last() =~= s.drop_last().remove(i));
        assert(s.remove(i).last() == s.last());
    }
}

/// Find the index of the link created from `spec`, searching from the
/// front.
fn find_link_idx(table: &Vec<LinkEntry>, spec: &str) -> (r: Option<usize>)
    ensures
        r is Some <==> has_link_spec(table@, spec@),
        r matches Some(i) ==> i < table@.len() && table@[i as int].spec@ == spec@,
{
    let n = table.len();
    let mut i: usize = 0;
    while i < n
        invariant
            i <= n,
            n == table@.len(),
            forall|k: int| 0 <= k < i ==> (#[trigger] table@[k]).spec@ != spec@,
        decreases n - i,
    {
        if crate::config::str_eq(table[i].spec.as_str(), spec) {
            return Some(i);
        }
        i = i + 1;
    }
    None
}

/// Unique app names in a table.
pub open spec fn unique_app_names(t: Seq<AppState>) -> bool {
    forall|j: int, k: int|
        0 <= j < k < t.len() ==> (#[trigger] t[j]).name@ != (#[trigger] t[k]).name@
}

/// Unique link specifications in a table.
pub open spec fn unique_link_specs(t: Seq<LinkEntry>) -> bool {
    forall|j: int, k: int|
        0 <= j < k < t.len() ==> (#[trigger] t[j]).spec@ != (#[trigger] t[k]).spec@
}

proof fn lemma_app_table_remove(t: Seq<AppState>, i: int)
    requires
        0 <= i < t.len(),
        unique_app_names(t),
    ensures
        unique_app_names(t.remove(i)),
        !has_app_named(t.remove(i), t[i].name@),
        forall|name: Seq<char>|
            name != t[i].name@ ==> (#[trigger] has_app_named(t.remove(i), name) <==> has_app_named(
                t,
                name,
            )),
        forall|name: Seq<char>|
            name != t[i].name@ && #[trigger] has_app_named(t, name) ==> t.remove(i)[app_named_at(
                t.remove(i),
                name,
            )] == t[app_named_at(t, name)],
{
    let r = t.remove(i);
    assert(r.len() == t.len() - 1);
    assert forall|j: int| 0 <= j < r.len() implies r[j] == (if j < i {
        t[j]
    } else {
        t[j + 1]
    }) by {}
    assert forall|name: Seq<char>|
        name != t[i].name@ && #[trigger] has_app_named(t, name) implies has_app_named(r, name) by {
        let k = app_named_at(t, name);
        assert(0 <= k < t.len() && t[k].name@ == name);
        if k < i {
            assert(r[k].name@ == name);
        } else {
            assert(k > i);
            assert(r[k - 1].name@ == name);
        }
    }
    assert forall|name: Seq<char>|
        name != t[i].name@ && #[trigger] has_app_named(t, name) implies r[app_named_at(r, name)]
        == t[app_named_at(t, name)] by {
        let k = app_named_at(t, name);
        let k2 = app_named_at(r, name);
        assert(0 <= k2 < r.len() && r[k2].name@ == name);
        if k2 < i {
            assert(r[k2] == t[k2]);
            assert(t[k2].name@ == name && t[k].name@ == name);
            assert(k2 == k);
        } else {
            assert(r[k2] == t[k2 + 1]);
            assert(k2 + 1 == k);
        }
    }
}

proof fn lemma_link_table_remove(t: Seq<LinkEntry>, i: int)
    requires
        0 <= i < t.len(),
        unique_link_specs(t),
    ensures
        unique_link_specs(t.remove(i)),
        !has_link_spec(t.remove(i), t[i].spec@),
        forall|spec: Seq<char>|
            spec != t[i].spec@ ==> (#[trigger] has_link_spec(t.remove(i), spec) <==> has_link_spec(
                t,
                spec,
            )),
        forall|spec: Seq<char>|
            spec != t[i].spec@ && #[trigger] has_link_spec(t, spec) ==> t.remove(i)[link_spec_at(
                t.remove(i),
                spec,
            )] == t[link_spec_at(t, spec)],
{
    let r = t.remove(i);
    assert forall|j: int| 0 <= j < r.len() implies r[j] == (if j < i {
        t[j]
    } else {
        t[j + 1]
    }) by {}
    assert forall|spec: Seq<char>|
        spec != t[i].spec@ && #[trigger] has_link_spec(t, spec) implies has_link_spec(r, spec) by {
        let k = link_spec_at(t, spec);
        if k < i {
            assert(r[k].spec@ == spec);
        } else {
            assert(k > i);
            assert(r[k - 1].spec@ == spec);
        }
    }
    assert forall|spec: Seq<char>|
        spec != t[i].spec@ && #[trigger] has_link_spec(t, spec) implies r[link_spec_at(r, spec)]
        == t[link_spec_at(t, spec)] by {
        let k = link_spec_at(t, spec);
        let k2 = link_spec_at(r, spec);
        if k2 < i {
            assert(r[k2] == t[k2]);
            assert(k2 == k);
        } else {
            assert(r[k2] == t[k2 + 1]);
            assert(k2 + 1 == k);
        }
    }
}

/// Migrate the app table to the apps of `c`, in declaration order. An app
/// whose name and configuration both survive keeps its instance; any
/// other live app is stopped and dropped; apps without a live match are
/// started fresh. All port maps are left empty, to be rebuilt by wiring.
#[verifier::spinoff_prover]
fn rebuild_apps(state: &mut EngineState, c: &crate::config::Config)
    requires
        c.wf(),
        unique_app_names(old(state).app_table@),
    ensures
        final(state).app_table@.len() == c.apps@.len(),
        forall|j: int|
            0 <= j < c.apps@.len() ==> {
                let a = #[trigger] final(state).app_table@[j];
                &&& a.name@ == c.apps@[j].name@
                &&& a.conf == c.apps@[j].conf
                &&& a.input@.len() == 0
                &&& a.output@.len() == 0
                &&& (if has_app_named(old(state).app_table@, c.apps@[j].name@) && old(state).app_table@[app_named_at(old(state).app_table@, c.apps@[j].name@)].conf
                    == c.apps@[j].conf {
                    a.app == old(state).app_table@[app_named_at(
                        old(state).app_table@,
                        c.apps@[j].name@,
                    )].app
                } else {
                    a.app == c.apps@[j].conf.spec_new()
                })
            },
        final(state).link_table == old(state).link_table,
        final(state).fl == old(state).fl,
        final(state).stats == old(state).stats,
        final(state).inhale == old(state).inhale,
        final(state).exhale == old(state).exhale,
        final(state).now_micros == old(state).now_micros,
        final(state).sleep_micros == old(state).sleep_micros,
        final(state).lastfrees == old(state).lastfrees,
{
    let ghost orig = old(state).app_table@;
    let mut old_apps: Vec<AppState> = Vec::new();
    core::mem::swap(&mut old_apps, &mut state.app_table);
    let n = c.apps.len();
    let mut i: usize = 0;
    while i < n
        invariant
            i <= n,
            n == c.apps@.len(),
            c.wf(),
            unique_app_names(orig),
            unique_app_names(old_apps@),
            state.app_table@.len() == i,
            state.link_table == old(state).link_table,
            state.fl == old(state).fl,
            state.stats == old(state).stats,
            state.inhale == old(state).inhale,
            state.exhale == old(state).exhale,
            state.now_micros == old(state).now_micros,
            state.sleep_micros == old(state).sleep_micros,
            state.lastfrees == old(state).lastfrees,
            forall|j: int|
                0 <= j < i ==> {
                    let a = #[trigger] state.app_table@[j];
                    &&& a.name@ == c.apps@[j].name@
                    &&& a.conf == c.apps@[j].conf
                    &&& a.input@.len() == 0
                    &&& a.output@.len() == 0
                    &&& (if has_app_named(orig, c.apps@[j].name@) && orig[app_named_at(
                        orig,
                        c.apps@[j].name@,
                    )].conf == c.apps@[j].conf {
                        a.app == orig[app_named_at(orig, c.apps@[j].name@)].app
                    } else {
                        a.app == c.apps@[j].conf.spec_new()
                    })
                },
            forall|name: Seq<char>|
                #[trigger] has_app_named(old_apps@, name) ==> has_app_named(orig, name) && !(
                exists|t: int| 0 <= t < i && (#[trigger] c.apps@[t]).name@ == name),
            forall|name: Seq<char>|
                has_app_named(orig, name) && !(exists|t: int|
                    0 <= t < i && (#[trigger] c.apps@[t]).name@ == name)
                    ==> #[trigger] has_app_named(old_apps@, name),
            forall|name: Seq<char>|
                #[trigger] has_app_named(old_apps@, name) ==> old_apps@[app_named_at(
                    old_apps@,
                    name,
                )] == orig[app_named_at(orig, name)],
        decreases n - i,
    {
        let ghost name_i = c.apps@[i as int].name@;
        let ghost prev = old_apps@;
        match find_app_idx(&old_apps, c.apps[i].name.as_str()) {
            Some(oi) => {
                proof {
                    assert(has_app_named(prev, name_i));
                    assert(prev[oi as int].name@ == name_i);
                    assert(app_named_at(prev, name_i) == oi as int);
                    assert(prev[oi as int] == orig[app_named_at(orig, name_i)]);
                    lemma_app_table_remove(prev, oi as int);
                }
                let oc = old_apps[oi].conf;
                let e = old_apps.remove(oi);
                if oc == c.apps[i].conf {
                    let entry = AppState {
                        name: e.name,
                        conf: e.conf,
                        app: e.app,
                        input: Vec::new(),
                        output: Vec::new(),
                    };
                    state.app_table.push(entry);
                } else {
                    e.app.stop();
                    let conf = c.apps[i].conf;
                    let app = conf.new();
                    let entry = AppState {
                        name: e.name,
                        conf,
                        app,
                        input: Vec::new(),
                        output: Vec::new(),
                    };
                    state.app_table.push(entry);
                }
            },
            None => {
                let conf = c.apps[i].conf;
                let app = conf.new();
                let entry = AppState {
                    name: c.apps[i].name.clone(),
                    conf,
                    app,
                    input: Vec::new(),
                    output: Vec::new(),
                };
                state.app_table.push(entry);
            },
        }
        proof {
            assert forall|name: Seq<char>| #[trigger]
                has_app_named(old_apps@, name) implies has_app_named(orig, name) && !(exists|t: int|
                0 <= t < i + 1 && (#[trigger] c.apps@[t]).name@ == name) by {
                assert(has_app_named(prev, name));
                if name == name_i {
                    assert(!has_app_named(old_apps@, name_i));
                }
                assert forall|t: int|
                    0 <= t < i + 1 implies (#[trigger] c.apps@[t]).name@ != name by {
                    if t < i {
                        assert(!(c.apps@[t].name@ == name));
                    } else {
                        assert(c.apps@[t].name@ == name_i);
                        assert(name != name_i) by {
                            if name == name_i {
                                assert(!has_app_named(old_apps@, name_i));
                            }
                        }
                    }
                }
            }
            assert forall|name: Seq<char>|
                has_app_named(orig, name) && !(exists|t: int|
                    0 <= t < i + 1 && (#[trigger] c.apps@[t]).name@ == name) implies #[trigger]
                has_app_named(old_apps@, name) by {
                assert(c.apps@[i as int].name@ == name_i);
                assert(name != name_i);
                assert(has_app_named(prev, name));
            }
        }
        i = i + 1;
    }
    // Stop whatever live apps the new configuration does not name.
    while old_apps.len() > 0
        invariant
            n == c.apps@.len(),
            state.app_table@.len() == n,
            forall|j: int|
                0 <= j < n ==> {
                    let a = #[trigger] state.app_table@[j];
                    &&& a.name@ == c.apps@[j].name@
                    &&& a.conf == c.apps@[j].conf
                    &&& a.input@.len() == 0
                    &&& a.output@.len() == 0
                    &&& (if has_app_named(orig, c.apps@[j].name@) && orig[app_named_at(
                        orig,
                        c.apps@[j].name@,
                    )].conf == c.apps@[j].conf {
                        a.app == orig[app_named_at(orig, c.apps@[j].name@)].app
                    } else {
                        a.app == c.apps@[j].conf.spec_new()
                    })
                },
            state.link_table == old(state).link_table,
            state.fl == old(state).fl,
            state.stats == old(state).stats,
            state.inhale == old(state).inhale,
            state.exhale == old(state).exhale,
            state.now_micros == old(state).now_micros,
            state.sleep_micros == old(state).sleep_micros,
            state.lastfrees == old(state).lastfrees,
        decreases old_apps@.len(),
    {
        let e = old_apps.pop().unwrap();
        e.app.stop();
    }
}

/// Migrate the link table to the links of `c`, in declaration order. A
/// link whose specification survives keeps its ring and counters; links
/// absent from `c` are dropped (they must already be empty); links new in
/// `c` start fresh with zero counters.
#[verifier::spinoff_prover]
fn rebuild_links(state: &mut EngineState, c: &crate::config::Config)
    requires
        c.wf(),
        c.links@.len() <= MAX_LINKS,
        unique_link_specs(old(state).link_table@),
        forall|k: int|
            0 <= k < old(state).link_table@.len() ==> (#[trigger] old(state).link_table@[k]).link.wf(),
        old(state).fl.wf(),
        old(state).fl@.len() + total_queued(old(state).link_table@) == packet::FREELIST_SIZE,
        forall|k: int|
            0 <= k < old(state).link_table@.len() && !c.has_link(
                (#[trigger] old(state).link_table@[k]).spec@,
            ) ==> old(state).link_table@[k].link@.len() == 0,
    ensures
        final(state).link_table@.len() == c.links@.len(),
        forall|j: int|
            0 <= j < c.links@.len() ==> {
                let e = #[trigger] final(state).link_table@[j];
                &&& e.spec@ == (c.links@[j])@
                &&& e.link.wf()
                &&& (if has_link_spec(old(state).link_table@, (c.links@[j])@) {
                    e.link == old(state).link_table@[link_spec_at(
                        old(state).link_table@,
                        (c.links@[j])@,
                    )].link
                } else {
                    fresh_link(e.link)
                })
            },
        final(state).fl == old(state).fl,
        final(state).fl@.len() + total_queued(final(state).link_table@) == packet::FREELIST_SIZE,
        final(state).app_table == old(state).app_table,
        final(state).stats == old(state).stats,
        final(state).inhale == old(state).inhale,
        final(state).exhale == old(state).exhale,
        final(state).now_micros == old(state).now_micros,
        final(state).sleep_micros == old(state).sleep_micros,
        final(state).lastfrees == old(state).lastfrees,
{
    let ghost orig = old(state).link_table@;
    let mut old_links: Vec<LinkEntry> = Vec::new();
    core::mem::swap(&mut old_links, &mut state.link_table);
    let n = c.links.len();
    let mut i: usize = 0;
    while i < n
        invariant
            i <= n,
            n == c.links@.len(),
            c.wf(),
            unique_link_specs(orig),
            unique_link_specs(old_links@),
            forall|k: int| 0 <= k < orig.len() ==> (#[trigger] orig[k]).link.wf(),
            state.link_table@.len() == i,
            state.app_table == old(state).app_table,
            state.fl == old(state).fl,
            state.stats == old(state).stats,
            state.inhale == old(state).inhale,
            state.exhale == old(state).exhale,
            state.now_micros == old(state).now_micros,
            state.sleep_micros == old(state).sleep_micros,
            state.lastfrees == old(state).lastfrees,
            state.fl@.len() + total_queued(state.link_table@) + total_queued(old_links@)
                == packet::FREELIST_SIZE,
            forall|j: int|
                0 <= j < i ==> {
                    let e = #[trigger] state.link_table@[j];
                    &&& e.spec@ == (c.links@[j])@
                    &&& e.link.wf()
                    &&& (if has_link_spec(orig, (c.links@[j])@) {
                        e.link == orig[link_spec_at(orig, (c.links@[j])@)].link
                    } else {
                        fresh_link(e.link)
                    })
                },
            forall|spec: Seq<char>|
                #[trigger] has_link_spec(old_links@, spec) ==> has_link_spec(orig, spec) && !(
                exists|t: int| 0 <= t < i && ((#[trigger] c.links@[t])@ == spec)),
            forall|spec: Seq<char>|
                has_link_spec(orig, spec) && !(exists|t: int|
                    0 <= t < i && ((#[trigger] c.links@[t])@ == spec)) ==> #[trigger] has_link_spec(
                    old_links@,
                    spec,
                ),
            forall|spec: Seq<char>|
                #[trigger] has_link_spec(old_links@, spec) ==> old_links@[link_spec_at(
                    old_links@,
                    spec,
                )] == orig[link_spec_at(orig, spec)],
        decreases n - i,
    {
        let ghost spec_i = (c.links@[i as int])@;
        let ghost prev = old_links@;
        match find_link_idx(&old_links, c.links[i].as_str()) {
            Some(oi) => {
                proof {
                    assert(has_link_spec(prev, spec_i));
                    assert(prev[oi as int].spec@ == spec_i);
                    assert(link_spec_at(prev, spec_i) == oi as int);
                    assert(prev[oi as int] == orig[link_spec_at(orig, spec_i)]);
                    lemma_link_table_remove(prev, oi as int);
                    lemma_total_queued_remove(prev, oi as int);
                }
                let e = old_links.remove(oi);
                proof {
                    lemma_total_queued_push(state.link_table@, e);
                }
                state.link_table.push(e);
            },
            None => {
                proof {
                    assert(!has_link_spec(prev, spec_i));
                    assert forall|t: int| 0 <= t < i implies ((#[trigger] c.links@[t])@
                        != spec_i) by {
                        assert((c.links@[t])@ != (c.links@[i as int])@);
                    }
                    assert(!has_link_spec(orig, spec_i));
                }
                let entry = LinkEntry { spec: c.links[i].clone(), link: link::new() };
                proof {
                    lemma_total_queued_push(state.link_table@, entry);
                }
                state.link_table.push(entry);
            },
        }
        proof {
            assert forall|spec: Seq<char>| #[trigger]
                has_link_spec(old_links@, spec) implies has_link_spec(orig, spec) && !(exists|
                t: int,
            |
                0 <= t < i + 1 && ((#[trigger] c.links@[t])@ == spec)) by {
                assert(has_link_spec(prev, spec));
                assert forall|t: int| 0 <= t < i + 1 implies ((#[trigger] c.links@[t])@
                    != spec) by {
                    if t < i {
                        assert(!((c.links@[t])@ == spec));
                    } else {
                        assert((c.links@[t])@ == spec_i);
                        if spec == spec_i {
                            assert(!has_link_spec(old_links@, spec_i));
                        }
                    }
                }
            }
            assert forall|spec: Seq<char>|
                has_link_spec(orig, spec) && !(exists|t: int|
                    0 <= t < i + 1 && ((#[trigger] c.links@[t])@ == spec)) implies #[trigger]
                has_link_spec(old_links@, spec) by {
                assert((c.links@[i as int])@ == spec_i);
                assert(spec != spec_i);
                assert(has_link_spec(prev, spec));
            }
            let e2 = state.link_table@[i as int];
            assert(state.link_table@.len() == i + 1);
            assert(e2.spec@ == (c.links@[i as int])@);
            assert(e2.link.wf());
            if has_link_spec(orig, spec_i) {
                assert(e2.link == orig[link_spec_at(orig, spec_i)].link);
            } else {
                assert(fresh_link(e2.link));
            }
        }
        i = i + 1;
    }
    // Drop the links the new configuration does not name; the contract
    // guarantees they are already drained, so no packet is lost.
    proof {
        assert forall|idx: int|
            0 <= idx < old_links@.len() implies (#[trigger] old_links@[idx]).link@.len() == 0 by {
            let spec = old_links@[idx].spec@;
            assert(has_link_spec(old_links@, spec));
            assert(idx == link_spec_at(old_links@, spec));
            assert(old_links@[idx] == orig[link_spec_at(orig, spec)]);
            assert(!c.has_link(spec));
        }
    }
    while old_links.len() > 0
        invariant
            n == c.links@.len(),
            state.link_table@.len() == n,
            state.app_table == old(state).app_table,
            state.fl == old(state).fl,
            state.stats == old(state).stats,
            state.inhale == old(state).inhale,
            state.exhale == old(state).exhale,
            state.now_micros == old(state).now_micros,
            state.sleep_micros == old(state).sleep_micros,
            state.lastfrees == old(state).lastfrees,
            state.fl@.len() + total_queued(state.link_table@) + total_queued(old_links@)
                == packet::FREELIST_SIZE,
            forall|idx: int|
                0 <= idx < old_links@.len() ==> (#[trigger] old_links@[idx]).link@.len() == 0,
            forall|j: int|
                0 <= j < n ==> {
                    let e = #[trigger] state.link_table@[j];
                    &&& e.spec@ == (c.links@[j])@
                    &&& e.link.wf()
                    &&& (if has_link_spec(orig, (c.links@[j])@) {
                        e.link == orig[link_spec_at(orig, (c.links@[j])@)].link
                    } else {
                        fresh_link(e.link)
                    })
                },
        decreases old_links@.len(),
    {
        let e = old_links.pop().unwrap();
    }
}

/// The parsed parts of the `k`-th link specification of `c`.
pub open spec fn link_parts(c: crate::config::Config, k: int) -> crate::config::LinkParts {
    crate::config::parse_spec((c.links@[k])@)->Some_0
}

/// Config links `j` and `k` name the same producing app and output port.
pub open spec fn same_out_pair(c: crate::config::Config, j: int, k: int) -> bool {
    &&& link_parts(c, j).from == link_parts(c, k).from
    &&& link_parts(c, j).output == link_parts(c, k).output
}

/// Config links `j` and `k` name the same consuming app and input port.
pub open spec fn same_in_pair(c: crate::config::Config, j: int, k: int) -> bool {
    &&& link_parts(c, j).to == link_parts(c, k).to
    &&& link_parts(c, j).input == link_parts(c, k).input
}

/// No later link among the first `n` rewires the output port of link `k`.
pub open spec fn last_out_in_prefix(c: crate::config::Config, k: int, n: int) -> bool {
    forall|j: int| k < j < n ==> !#[trigger] same_out_pair(c, j, k)
}

/// No later link among the first `n` rewires the input port of link `k`.
pub open spec fn last_in_in_prefix(c: crate::config::Config, k: int, n: int) -> bool {
    forall|j: int| k < j < n ==> !#[trigger] same_in_pair(c, j, k)
}

/// Link `k` of `c` is wired into the port maps of its two endpoint apps:
/// the ports exist, and — unless a later specification rewires the same
/// port — they point at link-table index `k`.
pub open spec fn wired_one(apps: Seq<AppState>, c: crate::config::Config, k: int, n: int) -> bool {
    let parts = link_parts(c, k);
    &&& has_app_named(apps, parts.from)
    &&& has_app_named(apps, parts.to)
    &&& has_port(apps[app_named_at(apps, parts.from)].output@, parts.output)
    &&& has_port(apps[app_named_at(apps, parts.to)].input@, parts.input)
    &&& (last_out_in_prefix(c, k, n) ==> port_link_of(
        apps[app_named_at(apps, parts.from)].output@,
        parts.output,
    ) == k)
    &&& (last_in_in_prefix(c, k, n) ==> port_link_of(
        apps[app_named_at(apps, parts.to)].input@,
        parts.input,
    ) == k)
}

/// The first `n` links of `c` are all wired into the apps' port maps.
pub open spec fn wired(apps: Seq<AppState>, c: crate::config::Config, n: int) -> bool {
    forall|k: int| 0 <= k < n ==> #[trigger] wired_one(apps, c, k, n)
}

/// Every port of every app was put there by one of the first `n` links of
/// `c`: there are no stale ports.
pub open spec fn ports_from_config(apps: Seq<AppState>, c: crate::config::Config, n: int) -> bool {
    &&& (forall|a: int, p: int|
        0 <= a < apps.len() && 0 <= p < apps[a].output@.len() ==> {
            let port = #[trigger] apps[a].output@[p];
            &&& port.link < n
            &&& link_parts(c, port.link as int).from == apps[a].name@
            &&& link_parts(c, port.link as int).output == port.name@
        })
    &&& (forall|a: int, p: int|
        0 <= a < apps.len() && 0 <= p < apps[a].input@.len() ==> {
            let port = #[trigger] apps[a].input@[p];
            &&& port.link < n
            &&& link_parts(c, port.link as int).to == apps[a].name@
            &&& link_parts(c, port.link as int).input == port.name@
        })
}

/// Unique port names within one direction of one app.
pub open spec fn unique_port_names(ports: Seq<Port>) -> bool {
    forall|j: int, k: int|
        0 <= j < k < ports.len() ==> (#[trigger] ports[j]).name@ != (#[trigger] ports[k]).name@
}

/// Wire the port named `name` to link-table index `link`: an existing
/// port with that name is re-pointed, otherwise a port is appended.
fn set_port(ports: &mut Vec<Port>, name: &str, link: usize)
    requires
        unique_port_names(old(ports)@),
    ensures
        unique_port_names(final(ports)@),
        has_port(final(ports)@, name@),
        port_at(final(ports)@, name@) < final(ports)@.len(),
        final(ports)@[port_at(final(ports)@, name@)].link == link,
        old(ports)@.len() <= final(ports)@.len() <= old(ports)@.len() + 1,
        has_port(old(ports)@, name@) ==> {
            &&& final(ports)@.len() == old(ports)@.len()
            &&& port_at(final(ports)@, name@) == port_at(old(ports)@, name@)
            &&& (forall|p: int|
                0 <= p < final(ports)@.len() && p != port_at(old(ports)@, name@)
                    ==> final(ports)@[p] == old(ports)@[p])
        },
        !has_port(old(ports)@, name@) ==> {
            &&& final(ports)@.len() == old(ports)@.len() + 1
            &&& final(ports)@.subrange(0, old(ports)@.len() as int) == old(ports)@
            &&& port_at(final(ports)@, name@) == old(ports)@.len()
        },
        forall|nm: Seq<char>|
            nm != name@ ==> (#[trigger] has_port(final(ports)@, nm) <==> has_port(
                old(ports)@,
                nm,
            )),
        forall|nm: Seq<char>|
            nm != name@ && #[trigger] has_port(old(ports)@, nm) ==> final(ports)@[port_at(
                final(ports)@,
                nm,
            )] == old(ports)@[port_at(old(ports)@, nm)],
{
    let n = ports.len();
    let mut i: usize = 0;
    while i < n
        invariant
            i <= n,
            n == ports@.len(),
            unique_port_names(ports@),
            ports == old(ports),
            forall|k: int| 0 <= k < i ==> (#[trigger] ports@[k]).name@ != name@,
        decreases n - i,
    {
        if crate::config::str_eq(ports[i].name.as_str(), name) {
            proof {
                assert(has_port(ports@, name@));
                assert(port_at(ports@, name@) == i as int);
            }
            let p = Port { name: name.to_owned(), link };
            ports.set(i, p);
            proof {
                assert forall|j: int, k: int|
                    0 <= j < k < ports@.len() implies (#[trigger] ports@[j]).name@ != (
                #[trigger] ports@[k]).name@ by {
                    assert(old(ports)@[j].name@ != old(ports)@[k].name@);
                }
                assert(ports@[i as int].name@ == name@);
                assert(port_at(ports@, name@) == i as int);
                assert forall|nm: Seq<char>|
                    nm != name@ && #[trigger] has_port(old(ports)@, nm) implies has_port(
                    ports@,
                    nm,
                ) && ports@[port_at(ports@, nm)] == old(ports)@[port_at(old(ports)@, nm)] by {
                    let k = port_at(old(ports)@, nm);
                    assert(old(ports)@[k].name@ == nm);
                    assert(k != i as int);
                    assert(ports@[k].name@ == nm);
                    assert(has_port(ports@, nm));
                    assert(port_at(ports@, nm) == k);
                }
                assert forall|nm: Seq<char>|
                    nm != name@ && #[trigger] has_port(ports@, nm) implies has_port(
                    old(ports)@,
                    nm,
                ) by {
                    let k = port_at(ports@, nm);
                    assert(ports@[k].name@ == nm);
                    assert(k != i as int);
                    assert(old(ports)@[k].name@ == nm);
                }
            }
            return ;
        }
        i = i + 1;
    }
    proof {
        assert(!has_port(ports@, name@));
    }
    let p = Port { name: name.to_owned(), link };
    ports.push(p);
    proof {
        assert(ports@[old(ports)@.len() as int].name@ == name@);
        assert(has_port(ports@, name@));
        assert forall|j: int, k: int|
            0 <= j < k < ports@.len() implies (#[trigger] ports@[j]).name@ != (
        #[trigger] ports@[k]).name@ by {
            if k < old(ports)@.len() {
                assert(old(ports)@[j].name@ != old(ports)@[k].name@);
            } else {
                assert(ports@[k].name@ == name@);
                assert(old(ports)@[j].name@ != name@);
            }
        }
        assert(port_at(ports@, name@) == old(ports)@.len() as int);
        assert(ports@.subrange(0, old(ports)@.len() as int) =~= old(ports)@);
        assert forall|nm: Seq<char>|
            nm != name@ && #[trigger] has_port(old(ports)@, nm) implies has_port(ports@, nm)
            && ports@[port_at(ports@, nm)] == old(ports)@[port_at(old(ports)@, nm)] by {
            let k = port_at(old(ports)@, nm);
            assert(old(ports)@[k].name@ == nm);
            assert(ports@[k].name@ == nm);
            assert(has_port(ports@, nm));
            assert(port_at(ports@, nm) == k);
        }
        assert forall|nm: Seq<char>|
            nm != name@ && #[trigger] has_port(ports@, nm) implies has_port(old(ports)@, nm) by {
            let k = port_at(ports@, nm);
            assert(ports@[k].name@ == nm);
            assert(k != old(ports)@.len() as int);
            assert(old(ports)@[k].name@ == nm);
        }
    }
}

/// Wire every link of `c` into the port maps of its endpoint apps, in
/// declaration order: link `k` of `c` sits at index `k` of the link
/// table, and a later specification naming the same app and port wins.
#[verifier::spinoff_prover]
fn wire_ports(state: &mut EngineState, c: &crate::config::Config)
    requires
        c.wf(),
        c.links@.len() <= MAX_LINKS,
        unique_app_names(old(state).app_table@),
        old(state).app_table@.len() == c.apps@.len(),
        forall|j: int|
            0 <= j < c.apps@.len() ==> (#[trigger] old(state).app_table@[j]).name@
                == c.apps@[j].name@,
        forall|j: int|
            0 <= j < old(state).app_table@.len() ==> (#[trigger] old(state).app_table@[j]).input@.len() == 0 && old(state).app_table@[j].output@.len() == 0,
        forall|k: int|
            0 <= k < c.links@.len() ==> c.has_app(#[trigger] link_parts(*c, k).from) && c.has_app(
                link_parts(*c, k).to,
            ),
    ensures
        final(state).app_table@.len() == old(state).app_table@.len(),
        forall|j: int|
            0 <= j < final(state).app_table@.len() ==> {
                let a = #[trigger] final(state).app_table@[j];
                &&& a.name@ == old(state).app_table@[j].name@
                &&& a.conf == old(state).app_table@[j].conf
                &&& a.app == old(state).app_table@[j].app
                &&& a.ports_wf(c.links@.len() as int)
            },
        wired(final(state).app_table@, *c, c.links@.len() as int),
        ports_from_config(final(state).app_table@, *c, c.links@.len() as int),
        final(state).link_table == old(state).link_table,
        final(state).fl == old(state).fl,
        final(state).stats == old(state).stats,
        final(state).inhale == old(state).inhale,
        final(state).exhale == old(state).exhale,
        final(state).now_micros == old(state).now_micros,
        final(state).sleep_micros == old(state).sleep_micros,
        final(state).lastfrees == old(state).lastfrees,
{
    let n = c.links.len();
    let mut m: usize = 0;
    while m < n
        invariant
            m <= n,
            n == c.links@.len(),
            c.wf(),
            n <= MAX_LINKS,
            unique_app_names(state.app_table@),
            state.app_table@.len() == c.apps@.len(),
            old(state).app_table@.len() == c.apps@.len(),
            forall|j: int|
                0 <= j < c.apps@.len() ==> (#[trigger] state.app_table@[j]).name@
                    == c.apps@[j].name@,
            forall|j: int|
                0 <= j < state.app_table@.len() ==> {
                    let a = #[trigger] state.app_table@[j];
                    &&& a.name@ == old(state).app_table@[j].name@
                    &&& a.conf == old(state).app_table@[j].conf
                    &&& a.app == old(state).app_table@[j].app
                    &&& unique_port_names(a.input@)
                    &&& unique_port_names(a.output@)
                    &&& a.input@.len() <= m
                    &&& a.output@.len() <= m
                    &&& (forall|p: int| 0 <= p < a.input@.len() ==> (#[trigger] a.input@[p]).link < m)
                    &&& (forall|p: int|
                        0 <= p < a.output@.len() ==> (#[trigger] a.output@[p]).link < m)
                },
            forall|k: int|
                0 <= k < c.links@.len() ==> c.has_app(#[trigger] link_parts(*c, k).from)
                    && c.has_app(link_parts(*c, k).to),
            forall|k: int| 0 <= k < m ==> #[trigger] wired_one(state.app_table@, *c, k, m as int),
            ports_from_config(state.app_table@, *c, m as int),
            state.link_table == old(state).link_table,
            state.fl == old(state).fl,
            state.stats == old(state).stats,
            state.inhale == old(state).inhale,
            state.exhale == old(state).exhale,
            state.now_micros == old(state).now_micros,
            state.sleep_micros == old(state).sleep_micros,
            state.lastfrees == old(state).lastfrees,
        decreases n - m,
    {
        let ghost apps0 = state.app_table@;
        let ghost parts = link_parts(*c, m as int);
        let lso = crate::config::parse_link(c.links[m].as_str());
        proof {
            assert(crate::config::parse_spec((c.links@[m as int])@) is Some);
        }
        let ls = lso.unwrap();
        proof {
            assert(ls.from@ == parts.from);
            assert(ls.output@ == parts.output);
            assert(ls.to@ == parts.to);
            assert(ls.input@ == parts.input);
            assert(c.has_app(parts.from));
            let t = c.app_index(parts.from);
            assert(0 <= t < c.apps@.len() && c.apps@[t].name@ == parts.from);
            assert(state.app_table@[t].name@ == parts.from);
            assert(has_app_named(state.app_table@, parts.from));
        }
        let ai = find_app_idx(&state.app_table, ls.from.as_str()).unwrap();
        proof {
            assert(app_named_at(apps0, parts.from) == ai as int);
        }
        set_port(&mut state.app_table[ai].output, ls.output.as_str(), m);
        let ghost apps1 = state.app_table@;
        proof {
            assert(apps1 =~= apps0.update(
                ai as int,
                AppState { output: apps1[ai as int].output, ..apps0[ai as int] },
            ));
            assert forall|j: int| 0 <= j < apps1.len() implies (#[trigger] apps1[j]).name@
                == apps0[j].name@ && apps1[j].conf == apps0[j].conf && apps1[j].app == apps0[j].app
                && apps1[j].input == apps0[j].input by {}
            assert(c.has_app(parts.to));
            let t2 = c.app_index(parts.to);
            assert(state.app_table@[t2].name@ == parts.to);
            assert(has_app_named(state.app_table@, parts.to));
        }
        let bi = find_app_idx(&state.app_table, ls.to.as_str()).unwrap();
        proof {
            assert(app_named_at(apps1, parts.to) == bi as int);
        }
        set_port(&mut state.app_table[bi].input, ls.input.as_str(), m);
        let ghost apps2 = state.app_table@;
        proof {
            assert(apps2 =~= apps1.update(
                bi as int,
                AppState { input: apps2[bi as int].input, ..apps1[bi as int] },
            ));
            assert forall|j: int| 0 <= j < apps2.len() implies (#[trigger] apps2[j]).name@
                == apps1[j].name@ && apps2[j].conf == apps1[j].conf && apps2[j].app == apps1[j].app
                && apps2[j].output == apps1[j].output by {}
            // Index lookups by name are stable: names did not change.
            assert forall|nm: Seq<char>| #[trigger]
                has_app_named(apps0, nm) implies has_app_named(apps2, nm) && app_named_at(
                apps2,
                nm,
            ) == app_named_at(apps0, nm) by {
                let j = app_named_at(apps0, nm);
                assert(apps2[j].name@ == nm);
                assert(has_app_named(apps2, nm));
                let j2 = app_named_at(apps2, nm);
                assert(apps0[j2].name@ == nm);
                assert(j2 == j);
            }
            // The new link is wired.
            assert(wired_one(apps2, *c, m as int, m as int + 1)) by {
                assert(has_app_named(apps2, parts.from));
                assert(app_named_at(apps2, parts.from) == ai as int);
                if ai as int == bi as int && parts.output == parts.input {
                    // One app, one name, wired as both input and output:
                    // the in-assignment overwrote the out-assignment's
                    // port only in the input map; output map is separate.
                    assert(has_port(apps2[ai as int].output@, parts.output));
                    assert(port_link_of(apps2[ai as int].output@, parts.output) == m as int);
                } else {
                    assert(has_port(apps2[ai as int].output@, parts.output));
                    assert(port_link_of(apps2[ai as int].output@, parts.output) == m as int);
                }
                assert(has_app_named(apps2, parts.to));
                assert(app_named_at(apps2, parts.to) == bi as int);
                assert(has_port(apps2[bi as int].input@, parts.input));
                assert(port_link_of(apps2[bi as int].input@, parts.input) == m as int);
            }
            // Earlier links stay wired, except where this one rewired the
            // same app and port — there the last-writer clause goes
            // vacuous.
            assert forall|k: int|
                0 <= k < m as int + 1 implies #[trigger] wired_one(
                state.app_table@,
                *c,
                k,
                m as int + 1,
            ) by {
                if k < m as int {
                    assert(wired_one(apps0, *c, k, m as int));
                    let pk = link_parts(*c, k);
                    let fa = app_named_at(apps0, pk.from);
                    let ta = app_named_at(apps0, pk.to);
                    assert(app_named_at(apps2, pk.from) == fa);
                    assert(app_named_at(apps2, pk.to) == ta);
                    // Output side.
                    assert(has_port(apps2[fa].output@, pk.output) && (last_out_in_prefix(
                        *c,
                        k,
                        m as int + 1,
                    ) ==> port_link_of(apps2[fa].output@, pk.output) == k)) by {
                        if fa == ai as int {
                            if pk.output == parts.output {
                                assert(pk.from == apps0[fa].name@);
                                assert(parts.from == apps0[ai as int].name@);
                                assert(same_out_pair(*c, m as int, k));
                                assert(!last_out_in_prefix(*c, k, m as int + 1));
                                assert(has_port(apps2[fa].output@, pk.output));
                            } else {
                                assert(has_port(apps1[fa].output@, pk.output));
                                assert(port_link_of(apps1[fa].output@, pk.output) == port_link_of(
                                    apps0[fa].output@,
                                    pk.output,
                                ));
                                assert(apps2[fa].output == apps1[fa].output);
                            }
                        } else {
                            assert(apps2[fa].output == apps0[fa].output);
                        }
                        if last_out_in_prefix(*c, k, m as int + 1) {
                            assert(last_out_in_prefix(*c, k, m as int));
                        }
                    }
                    // Input side.
                    assert(has_port(apps2[ta].input@, pk.input) && (last_in_in_prefix(
                        *c,
                        k,
                        m as int + 1,
                    ) ==> port_link_of(apps2[ta].input@, pk.input) == k)) by {
                        if ta == bi as int {
                            if pk.input == parts.input {
                                assert(pk.to == apps0[ta].name@);
                                assert(parts.to == apps1[bi as int].name@);
                                assert(same_in_pair(*c, m as int, k));
                                assert(!last_in_in_prefix(*c, k, m as int + 1));
                                assert(has_port(apps1[ta].input@, pk.input));
                                assert(has_port(apps2[ta].input@, pk.input));
                            } else {
                                assert(apps1[ta].input == apps0[ta].input);
                                assert(has_port(apps1[ta].input@, pk.input));
                                assert(port_link_of(apps2[ta].input@, pk.input) == port_link_of(
                                    apps1[ta].input@,
                                    pk.input,
                                ));
                            }
                        } else {
                            assert(apps2[ta].input == apps0[ta].input);
                        }
                        if last_in_in_prefix(*c, k, m as int + 1) {
                            assert(last_in_in_prefix(*c, k, m as int));
                        }
                    }
                } else {
                    assert(wired_one(apps2, *c, m as int, m as int + 1));
                }
            }
            // No stale ports: every port still traces to a config link.
            assert forall|a: int, p: int|
                0 <= a < apps2.len() && 0 <= p < apps2[a].output@.len() implies {
                let port = #[trigger] apps2[a].output@[p];
                &&& port.link < m as int + 1
                &&& link_parts(*c, port.link as int).from == apps2[a].name@
                &&& link_parts(*c, port.link as int).output == port.name@
            } by {
                if a == ai as int && apps2[a].output@[p].name@ == parts.output {
                    assert(port_at(apps1[a].output@, parts.output) == p);
                    assert(apps2[a].output@[p].link == m as int);
                    assert(link_parts(*c, m as int).from == apps2[a].name@);
                } else {
                    if a == ai as int {
                        if has_port(apps0[a].output@, parts.output) {
                            assert(p != port_at(apps0[a].output@, parts.output));
                            assert(apps1[a].output@[p] == apps0[a].output@[p]);
                        } else {
                            assert(p < apps0[a].output@.len());
                            assert(apps1[a].output@[p] == apps0[a].output@.subrange(
                                0,
                                apps0[a].output@.len() as int,
                            )[p]);
                        }
                    } else {
                        assert(apps2[a].output@[p] == apps0[a].output@[p]);
                    }
                }
            }
            assert forall|a: int, p: int|
                0 <= a < apps2.len() && 0 <= p < apps2[a].input@.len() implies {
                let port = #[trigger] apps2[a].input@[p];
                &&& port.link < m as int + 1
                &&& link_parts(*c, port.link as int).to == apps2[a].name@
                &&& link_parts(*c, port.link as int).input == port.name@
            } by {
                if a == bi as int && apps2[a].input@[p].name@ == parts.input {
                    assert(port_at(apps2[a].input@, parts.input) == p);
                    assert(apps2[a].input@[p].link == m as int);
                    assert(link_parts(*c, m as int).to == apps2[a].name@);
                } else {
                    if a == bi as int {
                        if has_port(apps1[a].input@, parts.input) {
                            assert(p != port_at(apps1[a].input@, parts.input));
                            assert(apps2[a].input@[p] == apps1[a].input@[p]);
                        } else {
                            assert(p < apps1[a].input@.len());
                            assert(apps2[a].input@[p] == apps1[a].input@.subrange(
                                0,
                                apps1[a].input@.len() as int,
                            )[p]);
                        }
                        assert(apps1[a].input == apps0[a].input);
                    } else {
                        assert(apps2[a].input@[p] == apps0[a].input@[p]);
                    }
                }
            }
        }
        m = m + 1;
    }
    proof {
        assert forall|j: int|
            0 <= j < state.app_table@.len() implies (#[trigger] state.app_table@[j]).ports_wf(
            c.links@.len() as int,
        ) by {
            let a = state.app_table@[j];
            assert(a.input@.len() <= n);
            assert(a.output@.len() <= n);
            assert forall|p1: int, p2: int|
                0 <= p1 < p2 < a.output@.len() implies (#[trigger] a.output@[p1]).link != (
            #[trigger] a.output@[p2]).link by {
                assert(link_parts(*c, a.output@[p1].link as int).output == a.output@[p1].name@);
                assert(link_parts(*c, a.output@[p2].link as int).output == a.output@[p2].name@);
                assert(a.output@[p1].name@ != a.output@[p2].name@);
            }
            assert forall|p1: int, p2: int|
                0 <= p1 < p2 < a.input@.len() implies (#[trigger] a.input@[p1]).link != (
            #[trigger] a.input@[p2]).link by {
                assert(link_parts(*c, a.input@[p1].link as int).input == a.input@[p1].name@);
                assert(link_parts(*c, a.input@[p2].link as int).input == a.input@[p2].name@);
                assert(a.input@[p1].name@ != a.input@[p2].name@);
            }
        }
    }
}

/// Some entry among the first `n` of `s` equals `b`.
spec fn idx_in_prefix(s: Seq<usize>, n: int, b: int) -> bool {
    exists|k: int| 0 <= k < n && (#[trigger] s[k]) == b
}

/// Derive the breathe schedule from the live graph. Apps are ordered by
/// data-flow precedence: an app comes before another when one of its
/// output links is consumed by it. Precedence edges are considered in
/// link-creation order, and an edge that would close a cycle is ignored
/// — the earliest-added edges win — so the order, and with it the
/// schedule, is a deterministic function of the configuration. The
/// pull-capable apps in that order form the inhale sequence; the
/// push-capable apps the exhale sequence.
#[verifier::rlimit(100)]
#[verifier::spinoff_prover]
fn compute_schedule(state: &mut EngineState)
    ensures
        final(state).app_table == old(state).app_table,
        final(state).link_table == old(state).link_table,
        final(state).fl == old(state).fl,
        final(state).stats == old(state).stats,
        final(state).now_micros == old(state).now_micros,
        final(state).sleep_micros == old(state).sleep_micros,
        final(state).lastfrees == old(state).lastfrees,
        forall|j: int|
            0 <= j < final(state).inhale@.len() ==> (#[trigger] final(state).inhale@[j])
                < final(state).app_table@.len() && final(state).app_table@[final(state).inhale@[j] as int].app.spec_has_pull(),
        forall|a: int|
            0 <= a < final(state).app_table@.len() && (#[trigger] final(state).app_table@[a]).app.spec_has_pull() ==> exists|j: int|
                0 <= j < final(state).inhale@.len() && final(state).inhale@[j] == a,
        forall|i: int, j: int|
            0 <= i < j < final(state).inhale@.len() ==> (#[trigger] final(state).inhale@[i]) != (
            #[trigger] final(state).inhale@[j]),
        forall|j: int|
            0 <= j < final(state).exhale@.len() ==> (#[trigger] final(state).exhale@[j])
                < final(state).app_table@.len() && final(state).app_table@[final(state).exhale@[j] as int].app.spec_has_push(),
        forall|a: int|
            0 <= a < final(state).app_table@.len() && (#[trigger] final(state).app_table@[a]).app.spec_has_push() ==> exists|j: int|
                0 <= j < final(state).exhale@.len() && final(state).exhale@[j] == a,
        forall|i: int, j: int|
            0 <= i < j < final(state).exhale@.len() ==> (#[trigger] final(state).exhale@[i]) != (
            #[trigger] final(state).exhale@[j]),
{
    let n = state.app_table.len();
    let nlinks = state.link_table.len();
    // Transitive reachability over the precedence edges kept so far.
    let mut reach: Vec<Vec<bool>> = Vec::new();
    let mut i: usize = 0;
    while i < n
        invariant
            i <= n,
            reach@.len() == i,
            forall|r: int| 0 <= r < i ==> (#[trigger] reach@[r])@.len() == n,
        decreases n - i,
    {
        let row: Vec<bool> = vec![false; n];
        reach.push(row);
        i = i + 1;
    }
    // Consider each link in creation order; keep its edge unless it would
    // close a cycle, folding kept edges into the reachability matrix.
    let mut l: usize = 0;
    while l < nlinks
        invariant
            l <= nlinks,
            nlinks == state.link_table@.len(),
            n == state.app_table@.len(),
            reach@.len() == n,
            forall|r: int| 0 <= r < n ==> (#[trigger] reach@[r])@.len() == n,
            state.app_table == old(state).app_table,
            state.link_table == old(state).link_table,
            state.fl == old(state).fl,
            state.stats == old(state).stats,
            state.inhale == old(state).inhale,
            state.exhale == old(state).exhale,
            state.now_micros == old(state).now_micros,
            state.sleep_micros == old(state).sleep_micros,
            state.lastfrees == old(state).lastfrees,
        decreases nlinks - l,
    {
        // The link's producing and consuming apps, if wired.
        let mut prod: usize = n;
        let mut cons: usize = n;
        let mut a: usize = 0;
        while a < n
            invariant
                a <= n,
                n == state.app_table@.len(),
                prod == n || prod < n,
                cons == n || cons < n,
            decreases n - a,
        {
            let nout = state.app_table[a].output.len();
            let mut p: usize = 0;
            while p < nout
                invariant
                    p <= nout,
                    a < n,
                    n == state.app_table@.len(),
                    nout == state.app_table@[a as int].output@.len(),
                    prod == n || prod < n,
                decreases nout - p,
            {
                if state.app_table[a].output[p].link == l {
                    prod = a;
                }
                p = p + 1;
            }
            let nin = state.app_table[a].input.len();
            let mut p2: usize = 0;
            while p2 < nin
                invariant
                    p2 <= nin,
                    a < n,
                    n == state.app_table@.len(),
                    nin == state.app_table@[a as int].input@.len(),
                    cons == n || cons < n,
                decreases nin - p2,
            {
                if state.app_table[a].input[p2].link == l {
                    cons = a;
                }
                p2 = p2 + 1;
            }
            a = a + 1;
        }
        if prod < n && cons < n && prod != cons {
            let closes_cycle = reach[cons][prod];
            if !closes_cycle {
                // Fold the edge prod -> cons into the reachability matrix.
                let mut i2: usize = 0;
                while i2 < n
                    invariant
                        i2 <= n,
                        prod < n,
                        cons < n,
                        reach@.len() == n,
                        forall|r: int| 0 <= r < n ==> (#[trigger] reach@[r])@.len() == n,
                    decreases n - i2,
                {
                    let from_i = i2 == prod || reach[i2][prod];
                    if from_i {
                        let mut j2: usize = 0;
                        while j2 < n
                            invariant
                                j2 <= n,
                                i2 < n,
                                cons < n,
                                reach@.len() == n,
                                forall|r: int| 0 <= r < n ==> (#[trigger] reach@[r])@.len() == n,
                            decreases n - j2,
                        {
                            let hit = j2 == cons || reach[cons][j2];
                            if hit {
                                reach[i2].set(j2, true);
                            }
                            j2 = j2 + 1;
                        }
                    }
                    i2 = i2 + 1;
                }
            }
        }
        l = l + 1;
    }
    // Schedule: repeatedly take the first remaining app that no other
    // remaining app precedes; when a cycle leaves none, take the first
    // remaining app outright.
    let mut remaining: Vec<usize> = Vec::new();
    let mut i3: usize = 0;
    while i3 < n
        invariant
            i3 <= n,
            remaining@.len() == i3,
            forall|k: int| 0 <= k < i3 ==> (#[trigger] remaining@[k]) == k,
        decreases n - i3,
    {
        remaining.push(i3);
        i3 = i3 + 1;
    }
    let mut order: Vec<usize> = Vec::new();
    proof {
        assert forall|b: int|
            0 <= b < n implies #[trigger] idx_in_prefix(order@, order@.len() as int, b)
            || idx_in_prefix(remaining@, remaining@.len() as int, b) by {
            assert(remaining@[b] == b);
        }
    }
    while remaining.len() > 0
        invariant
            n == state.app_table@.len(),
            reach@.len() == n,
            forall|r: int| 0 <= r < n ==> (#[trigger] reach@[r])@.len() == n,
            order@.len() + remaining@.len() == n,
            forall|k: int| 0 <= k < order@.len() ==> (#[trigger] order@[k]) < n,
            forall|k: int| 0 <= k < remaining@.len() ==> (#[trigger] remaining@[k]) < n,
            forall|k1: int, k2: int|
                0 <= k1 < k2 < order@.len() ==> (#[trigger] order@[k1]) != (#[trigger] order@[k2]),
            forall|k1: int, k2: int|
                0 <= k1 < k2 < remaining@.len() ==> (#[trigger] remaining@[k1]) != (
                #[trigger] remaining@[k2]),
            forall|k1: int, k2: int|
                0 <= k1 < order@.len() && 0 <= k2 < remaining@.len() ==> (#[trigger] order@[k1])
                    != (#[trigger] remaining@[k2]),
            forall|b: int|
                0 <= b < n ==> #[trigger] idx_in_prefix(order@, order@.len() as int, b)
                    || idx_in_prefix(remaining@, remaining@.len() as int, b),
        decreases remaining@.len(),
    {
        let m = remaining.len();
        let mut pick: usize = 0;
        let mut found = false;
        let mut t: usize = 0;
        while t < m && !found
            invariant
                t <= m,
                m == remaining@.len(),
                n == state.app_table@.len(),
                reach@.len() == n,
                forall|r: int| 0 <= r < n ==> (#[trigger] reach@[r])@.len() == n,
                forall|k: int| 0 <= k < remaining@.len() ==> (#[trigger] remaining@[k]) < n,
                found ==> pick < m,
                !found ==> pick == 0,
                m > 0,
            decreases m - t, (if found {
                0int
            } else {
                1int
            }),
        {
            let cand = remaining[t];
            let mut has_pred = false;
            let mut u: usize = 0;
            while u < m
                invariant
                    u <= m,
                    t < m,
                    m == remaining@.len(),
                    n == state.app_table@.len(),
                    reach@.len() == n,
                    forall|r: int| 0 <= r < n ==> (#[trigger] reach@[r])@.len() == n,
                    forall|k: int| 0 <= k < remaining@.len() ==> (#[trigger] remaining@[k]) < n,
                    cand == remaining@[t as int],
                decreases m - u,
            {
                let other = remaining[u];
                if other != cand && reach[other][cand] {
                    has_pred = true;
                }
                u = u + 1;
            }
            if !has_pred {
                found = true;
                pick = t;
            } else {
                t = t + 1;
            }
        }
        let ghost rem0 = remaining@;
        let ghost ord0 = order@;
        let picked = remaining.remove(pick);
        order.push(picked);
        proof {
            assert(picked == rem0[pick as int]);
            assert forall|k1: int, k2: int|
                0 <= k1 < k2 < order@.len() implies (#[trigger] order@[k1]) != (
            #[trigger] order@[k2]) by {
                if k2 == order@.len() - 1 {
                    assert(order@[k2] == rem0[pick as int]);
                    assert(ord0[k1] != rem0[pick as int]);
                }
            }
            assert forall|k1: int, k2: int|
                0 <= k1 < order@.len() && 0 <= k2 < remaining@.len() implies (
            #[trigger] order@[k1]) != (#[trigger] remaining@[k2]) by {
                let r2 = if k2 < pick as int {
                    k2
                } else {
                    k2 + 1
                };
                assert(remaining@[k2] == rem0[r2]);
                if k1 < ord0.len() {
                    assert(ord0[k1] != rem0[r2]);
                } else {
                    assert(order@[k1] == rem0[pick as int]);
                    assert(rem0[pick as int] != rem0[r2]);
                }
            }
            assert forall|k1: int, k2: int|
                0 <= k1 < k2 < remaining@.len() implies (#[trigger] remaining@[k1]) != (
            #[trigger] remaining@[k2]) by {
                let r1 = if k1 < pick as int {
                    k1
                } else {
                    k1 + 1
                };
                let r2 = if k2 < pick as int {
                    k2
                } else {
                    k2 + 1
                };
                assert(remaining@[k1] == rem0[r1]);
                assert(remaining@[k2] == rem0[r2]);
            }
            assert forall|b: int|
                0 <= b < n implies #[trigger] idx_in_prefix(order@, order@.len() as int, b)
                || idx_in_prefix(remaining@, remaining@.len() as int, b) by {
                assert(idx_in_prefix(ord0, ord0.len() as int, b) || idx_in_prefix(
                    rem0,
                    rem0.len() as int,
                    b,
                ));
                if idx_in_prefix(ord0, ord0.len() as int, b) {
                    let k = choose|k: int| 0 <= k < ord0.len() && (#[trigger] ord0[k]) == b;
                    assert(order@[k] == b);
                    assert(idx_in_prefix(order@, order@.len() as int, b));
                } else {
                    let k = choose|k: int| 0 <= k < rem0.len() && (#[trigger] rem0[k]) == b;
                    if k == pick as int {
                        assert(order@[order@.len() - 1] == b);
                        assert(idx_in_prefix(order@, order@.len() as int, b));
                    } else if k < pick as int {
                        assert(remaining@[k] == b);
                        assert(idx_in_prefix(remaining@, remaining@.len() as int, b));
                    } else {
                        assert(remaining@[k - 1] == b);
                        assert(idx_in_prefix(remaining@, remaining@.len() as int, b));
                    }
                }
            }
        }
    }
    // Split the order into the two phases by capability.
    state.inhale = Vec::new();
    state.exhale = Vec::new();
    let mut k: usize = 0;
    while k < n
        invariant
            k <= n,
            n == state.app_table@.len(),
            order@.len() == n,
            forall|j: int| 0 <= j < n ==> (#[trigger] order@[j]) < n,
            forall|k1: int, k2: int|
                0 <= k1 < k2 < n ==> (#[trigger] order@[k1]) != (#[trigger] order@[k2]),
            forall|b: int| 0 <= b < n ==> #[trigger] idx_in_prefix(order@, n as int, b),
            state.app_table == old(state).app_table,
            state.link_table == old(state).link_table,
            state.fl == old(state).fl,
            state.stats == old(state).stats,
            state.now_micros == old(state).now_micros,
            state.sleep_micros == old(state).sleep_micros,
            state.lastfrees == old(state).lastfrees,
            forall|j: int|
                0 <= j < state.inhale@.len() ==> (#[trigger] state.inhale@[j]) < n
                    && state.app_table@[state.inhale@[j] as int].app.spec_has_pull(),
            forall|j: int|
                0 <= j < state.inhale@.len() ==> idx_in_prefix(
                    order@,
                    k as int,
                    (#[trigger] state.inhale@[j]) as int,
                ),
            forall|k2: int|
                0 <= k2 < k && state.app_table@[(#[trigger] order@[k2]) as int].app.spec_has_pull()
                    ==> (exists|j: int|
                    0 <= j < state.inhale@.len() && state.inhale@[j] == order@[k2]),
            forall|j1: int, j2: int|
                0 <= j1 < j2 < state.inhale@.len() ==> (#[trigger] state.inhale@[j1]) != (
                #[trigger] state.inhale@[j2]),
            forall|j: int|
                0 <= j < state.exhale@.len() ==> (#[trigger] state.exhale@[j]) < n
                    && state.app_table@[state.exhale@[j] as int].app.spec_has_push(),
            forall|j: int|
                0 <= j < state.exhale@.len() ==> idx_in_prefix(
                    order@,
                    k as int,
                    (#[trigger] state.exhale@[j]) as int,
                ),
            forall|k2: int|
                0 <= k2 < k && state.app_table@[(#[trigger] order@[k2]) as int].app.spec_has_push()
                    ==> (exists|j: int|
                    0 <= j < state.exhale@.len() && state.exhale@[j] == order@[k2]),
            forall|j1: int, j2: int|
                0 <= j1 < j2 < state.exhale@.len() ==> (#[trigger] state.exhale@[j1]) != (
                #[trigger] state.exhale@[j2]),
        decreases n - k,
    {
        let ghost inh0 = state.inhale@;
        let ghost exh0 = state.exhale@;
        let a = order[k];
        let app = state.app_table[a].app;
        if app.has_pull() {
            state.inhale.push(a);
        }
        if app.has_push() {
            state.exhale.push(a);
        }
        proof {
            assert forall|j1: int, j2: int|
                0 <= j1 < j2 < state.inhale@.len() implies (#[trigger] state.inhale@[j1]) != (
            #[trigger] state.inhale@[j2]) by {
                if j2 == state.inhale@.len() - 1 && j2 >= inh0.len() {
                    assert(state.inhale@[j2] == order@[k as int]);
                    assert(state.inhale@[j1] == inh0[j1]);
                    assert(idx_in_prefix(order@, k as int, inh0[j1] as int));
                    let k2 = choose|k2: int|
                        0 <= k2 < k && (#[trigger] order@[k2]) == inh0[j1] as int;
                    assert(order@[k2] != order@[k as int]);
                } else {
                    assert(state.inhale@[j1] == inh0[j1]);
                    assert(state.inhale@[j2] == inh0[j2]);
                }
            }
            assert forall|j1: int, j2: int|
                0 <= j1 < j2 < state.exhale@.len() implies (#[trigger] state.exhale@[j1]) != (
            #[trigger] state.exhale@[j2]) by {
                if j2 == state.exhale@.len() - 1 && j2 >= exh0.len() {
                    assert(state.exhale@[j2] == order@[k as int]);
                    assert(state.exhale@[j1] == exh0[j1]);
                    assert(idx_in_prefix(order@, k as int, exh0[j1] as int));
                    let k2 = choose|k2: int|
                        0 <= k2 < k && (#[trigger] order@[k2]) == exh0[j1] as int;
                    assert(order@[k2] != order@[k as int]);
                } else {
                    assert(state.exhale@[j1] == exh0[j1]);
                    assert(state.exhale@[j2] == exh0[j2]);
                }
            }
            assert forall|j: int|
                0 <= j < state.inhale@.len() implies idx_in_prefix(
                order@,
                k as int + 1,
                (#[trigger] state.inhale@[j]) as int,
            ) by {
                if j < inh0.len() {
                    assert(idx_in_prefix(order@, k as int, inh0[j] as int));
                    let k2 = choose|k2: int|
                        0 <= k2 < k && (#[trigger] order@[k2]) == inh0[j] as int;
                    assert(order@[k2] == state.inhale@[j]);
                } else {
                    assert(order@[k as int] == state.inhale@[j]);
                }
            }
            assert forall|j: int|
                0 <= j < state.exhale@.len() implies idx_in_prefix(
                order@,
                k as int + 1,
                (#[trigger] state.exhale@[j]) as int,
            ) by {
                if j < exh0.len() {
                    assert(idx_in_prefix(order@, k as int, exh0[j] as int));
                    let k2 = choose|k2: int|
                        0 <= k2 < k && (#[trigger] order@[k2]) == exh0[j] as int;
                    assert(order@[k2] == state.exhale@[j]);
                } else {
                    assert(order@[k as int] == state.exhale@[j]);
                }
            }
            assert forall|k2: int|
                0 <= k2 < k + 1 && state.app_table@[(
                #[trigger] order@[k2]) as int].app.spec_has_pull() implies (exists|j: int|
                0 <= j < state.inhale@.len() && state.inhale@[j] == order@[k2]) by {
                if k2 < k {
                    let j = choose|j: int| 0 <= j < inh0.len() && inh0[j] == order@[k2];
                    assert(state.inhale@[j] == order@[k2]);
                } else {
                    assert(state.inhale@[state.inhale@.len() - 1] == order@[k2]);
                }
            }
            assert forall|k2: int|
                0 <= k2 < k + 1 && state.app_table@[(
                #[trigger] order@[k2]) as int].app.spec_has_push() implies (exists|j: int|
                0 <= j < state.exhale@.len() && state.exhale@[j] == order@[k2]) by {
                if k2 < k {
                    let j = choose|j: int| 0 <= j < exh0.len() && exh0[j] == order@[k2];
                    assert(state.exhale@[j] == order@[k2]);
                } else {
                    assert(state.exhale@[state.exhale@.len() - 1] == order@[k2]);
                }
            }
        }
        k = k + 1;
    }
    proof {
        assert forall|a: int|
            0 <= a < state.app_table@.len() && (#[trigger] state.app_table@[a]).app.spec_has_pull()
            implies exists|j: int| 0 <= j < state.inhale@.len() && state.inhale@[j] == a by {
            assert(idx_in_prefix(order@, n as int, a));
            let k2 = choose|j: int| 0 <= j < n && (#[trigger] order@[j]) == a;
            assert(order@[k2] == a);
        }
        assert forall|a: int|
            0 <= a < state.app_table@.len() && (#[trigger] state.app_table@[a]).app.spec_has_push()
            implies exists|j: int| 0 <= j < state.exhale@.len() && state.exhale@[j] == a by {
            assert(idx_in_prefix(order@, n as int, a));
            let k2 = choose|j: int| 0 <= j < n && (#[trigger] order@[j]) == a;
            assert(order@[k2] == a);
        }
    }
}

/// Configure the running app network to match `c`.
///
/// Successive calls migrate from the old to the new network with minimal
/// disruption: an app whose name and configuration both match is reused
/// with its state intact; a link whose specification string survives
/// keeps its ring contents and counters; everything else is stopped and
/// dropped, or started and created fresh, and the port maps and breathe
/// schedule are rebuilt from the new configuration.
///
/// A link that is about to be removed must already be empty, and every
/// link specification must name apps that the new configuration declares.
#[verifier::spinoff_prover]
pub fn configure(state: &mut EngineState, c: &crate::config::Config)
    requires
        old(state).wf(),
        c.wf(),
        c.links@.len() <= MAX_LINKS,
        forall|j: int| 0 <= j < c.apps@.len() ==> (#[trigger] c.apps@[j]).conf.valid(),
        forall|k: int|
            0 <= k < old(state).link_table@.len() && !c.has_link(
                (#[trigger] old(state).link_table@[k]).spec@,
            ) ==> old(state).link_table@[k].link@.len() == 0,
        forall|k: int|
            0 <= k < c.links@.len() ==> c.has_app(#[trigger] link_parts(*c, k).from) && c.has_app(
                link_parts(*c, k).to,
            ),
    ensures
        final(state).wf(),
        final(state).app_table@.len() == c.apps@.len(),
        forall|j: int|
            0 <= j < c.apps@.len() ==> {
                let a = #[trigger] final(state).app_table@[j];
                &&& a.name@ == c.apps@[j].name@
                &&& a.conf == c.apps@[j].conf
                &&& (if has_app_named(old(state).app_table@, c.apps@[j].name@) && old(state).app_table@[app_named_at(old(state).app_table@, c.apps@[j].name@)].conf
                    == c.apps@[j].conf {
                    a.app == old(state).app_table@[app_named_at(
                        old(state).app_table@,
                        c.apps@[j].name@,
                    )].app
                } else {
                    a.app == c.apps@[j].conf.spec_new()
                })
            },
        final(state).link_table@.len() == c.links@.len(),
        forall|j: int|
            0 <= j < c.links@.len() ==> {
                let e = #[trigger] final(state).link_table@[j];
                &&& e.spec@ == (c.links@[j])@
                &&& (if has_link_spec(old(state).link_table@, (c.links@[j])@) {
                    e.link == old(state).link_table@[link_spec_at(
                        old(state).link_table@,
                        (c.links@[j])@,
                    )].link
                } else {
                    fresh_link(e.link)
                })
            },
        wired(final(state).app_table@, *c, c.links@.len() as int),
        ports_from_config(final(state).app_table@, *c, c.links@.len() as int),
        forall|j: int|
            0 <= j < final(state).inhale@.len() ==> (#[trigger] final(state).inhale@[j])
                < final(state).app_table@.len() && final(state).app_table@[final(state).inhale@[j] as int].app.spec_has_pull(),
        forall|a: int|
            0 <= a < final(state).app_table@.len() && (#[trigger] final(state).app_table@[a]).app.spec_has_pull() ==> exists|j: int|
                0 <= j < final(state).inhale@.len() && final(state).inhale@[j] == a,
        forall|i: int, j: int|
            0 <= i < j < final(state).inhale@.len() ==> (#[trigger] final(state).inhale@[i]) != (
            #[trigger] final(state).inhale@[j]),
        forall|j: int|
            0 <= j < final(state).exhale@.len() ==> (#[trigger] final(state).exhale@[j])
                < final(state).app_table@.len() && final(state).app_table@[final(state).exhale@[j] as int].app.spec_has_push(),
        forall|a: int|
            0 <= a < final(state).app_table@.len() && (#[trigger] final(state).app_table@[a]).app.spec_has_push() ==> exists|j: int|
                0 <= j < final(state).exhale@.len() && final(state).exhale@[j] == a,
        forall|i: int, j: int|
            0 <= i < j < final(state).exhale@.len() ==> (#[trigger] final(state).exhale@[i]) != (
            #[trigger] final(state).exhale@[j]),
        final(state).fl == old(state).fl,
        final(state).stats == old(state).stats,
        final(state).now_micros == old(state).now_micros,
        final(state).sleep_micros == old(state).sleep_micros,
        final(state).lastfrees == old(state).lastfrees,
        configured(*old(state), *final(state), *c),
{
    rebuild_apps(state, c);
    proof {
        assert forall|j: int|
            0 <= j < c.apps@.len() implies (#[trigger] state.app_table@[j]).name@
            == c.apps@[j].name@ by {}
        assert(unique_app_names(state.app_table@)) by {
            assert forall|j: int, k: int|
                0 <= j < k < state.app_table@.len() implies (#[trigger] state.app_table@[j]).name@
                != (#[trigger] state.app_table@[k]).name@ by {
                assert(c.apps@[j].name@ != c.apps@[k].name@);
            }
        }
    }
    rebuild_links(state, c);
    wire_ports(state, c);
    compute_schedule(state);
    proof {
        assert(unique_link_specs(state.link_table@)) by {
            assert forall|j: int, k: int|
                0 <= j < k < state.link_table@.len() implies (#[trigger] state.link_table@[j]).spec@
                != (#[trigger] state.link_table@[k]).spec@ by {
                assert((c.links@[j])@ != (c.links@[k])@);
            }
        }
        assert(unique_app_names(state.app_table@)) by {
            assert forall|j: int, k: int|
                0 <= j < k < state.app_table@.len() implies (#[trigger] state.app_table@[j]).name@
                != (#[trigger] state.app_table@[k]).name@ by {
                assert(c.apps@[j].name@ != c.apps@[k].name@);
            }
        }
        assert forall|a: int|
            0 <= a < state.app_table@.len() implies (#[trigger] state.app_table@[a]).app.valid() by {
            assert(c.apps@[a].conf.valid());
            if has_app_named(old(state).app_table@, c.apps@[a].name@) && old(
                state,
            ).app_table@[app_named_at(old(state).app_table@, c.apps@[a].name@)].conf
                == c.apps@[a].conf {
                let oi = app_named_at(old(state).app_table@, c.apps@[a].name@);
                assert(old(state).app_table@[oi].app.valid());
            } else {
                assert(state.app_table@[a].app == c.apps@[a].conf.spec_new());
            }
        }
    }
}


/// The effect of a Source-like pull on the link table, the freelist
/// population and the statistics, exactly as the app methods ensure it:
/// every output link receives a burst of `PULL_NPACKETS` zeroed packets
/// of `size` bytes, other links are untouched, and the drops are freed
/// and accounted.
pub open spec fn pull_ports_effect(
    output: Seq<Port>,
    size: u16,
    l0: Seq<LinkEntry>,
    l1: Seq<LinkEntry>,
    f0: int,
    f1: int,
    s0: EngineStats,
    s1: EngineStats,
) -> bool {
    &&& l1.len() == l0.len()
    &&& (forall|i: int|
        0 <= i < l0.len() && !basic_apps::port_uses(output, i) ==> l1[i] == l0[i])
    &&& (forall|k: int|
        0 <= k < output.len() ==> {
            let i = (#[trigger] output[k]).link as int;
            &&& l1[i].spec == l0[i].spec
            &&& basic_apps::source_pulled(l0[i].link, l1[i].link, size, PULL_NPACKETS as int)
        })
    &&& f1 + total_queued(l1) == f0 + total_queued(l0)
    &&& s1.frees == s0.frees + (sum_txdrop(l1) - sum_txdrop(l0))
    &&& s1.freebytes == s0.freebytes + (sum_txdrop(l1) - sum_txdrop(l0)) * size
    &&& s1.freebits == s0.freebits + (sum_txdrop(l1) - sum_txdrop(l0)) * spec_freebits(size)
    &&& s1.breaths == s0.breaths
}

/// The effect of a Sink-like push: every input link is drained, its
/// packets return to the freelist, and the frees are accounted exactly.
pub open spec fn drain_ports_effect(
    input: Seq<Port>,
    l0: Seq<LinkEntry>,
    l1: Seq<LinkEntry>,
    f0: int,
    f1: int,
    s0: EngineStats,
    s1: EngineStats,
) -> bool {
    &&& l1.len() == l0.len()
    &&& (forall|i: int|
        0 <= i < l0.len() && !basic_apps::port_uses(input, i) ==> l1[i] == l0[i])
    &&& (forall|k: int|
        0 <= k < input.len() ==> {
            let i = (#[trigger] input[k]).link as int;
            &&& l1[i].spec == l0[i].spec
            &&& basic_apps::drained(l0[i].link, l1[i].link)
        })
    &&& f1 == f0 + (sum_rxpackets(l1) - sum_rxpackets(l0))
    &&& s1.frees == s0.frees + (sum_rxpackets(l1) - sum_rxpackets(l0))
    &&& s1.freebytes == s0.freebytes + (sum_rxbytes(l1) - sum_rxbytes(l0))
    &&& s1.freebits == s0.freebits + ports_sum_freebits(input, input.len() as int, l0)
    &&& s1.breaths == s0.breaths
}

/// The effect of a Tee's push: inputs drained, each output extended by
/// one clone attempt per drained packet (the overflow dropped and
/// counted), packet conservation, and the frees accounted exactly.
pub open spec fn tee_effect(
    input: Seq<Port>,
    output: Seq<Port>,
    l0: Seq<LinkEntry>,
    l1: Seq<LinkEntry>,
    f0: int,
    f1: int,
    s0: EngineStats,
    s1: EngineStats,
) -> bool {
    &&& l1.len() == l0.len()
    &&& (forall|i: int|
        0 <= i < l0.len() && !basic_apps::port_uses(input, i) && !basic_apps::port_uses(
            output,
            i,
        ) ==> l1[i] == l0[i])
    &&& (forall|k: int|
        0 <= k < input.len() ==> {
            let i = (#[trigger] input[k]).link as int;
            &&& l1[i].spec == l0[i].spec
            &&& basic_apps::drained(l0[i].link, l1[i].link)
        })
    &&& (forall|k: int|
        0 <= k < output.len() ==> {
            let i = (#[trigger] output[k]).link as int;
            &&& l1[i].spec == l0[i].spec
            &&& basic_apps::tee_out(
                l0[i].link,
                l1[i].link,
                basic_apps::ports_queued_prefix(input, input.len() as int, l0),
            )
            &&& basic_apps::clones_of(
                l0[i].link@,
                l1[i].link@,
                basic_apps::drained_concat(input, input.len() as int, l0),
            )
        })
    &&& f1 + total_queued(l1) == f0 + total_queued(l0)
    &&& s1.frees == s0.frees + (sum_rxpackets(l1) - sum_rxpackets(l0)) + (sum_txdrop(l1)
        - sum_txdrop(l0))
    &&& s0.freebytes <= s1.freebytes <= s0.freebytes + (WORK_APP as int) * (
    packet::PAYLOAD_SIZE as int)
    &&& s0.freebits <= s1.freebits <= s0.freebits + (WORK_APP as int) * spec_freebits(
        packet::PAYLOAD_SIZE as u16,
    )
    &&& s1.breaths == s0.breaths
}

/// What one app's pull does, by its capability: Source-like apps produce
/// a burst per output link; the others do nothing.
pub open spec fn pull_effect(
    a: AppState,
    l0: Seq<LinkEntry>,
    l1: Seq<LinkEntry>,
    f0: int,
    f1: int,
    s0: EngineStats,
    s1: EngineStats,
) -> bool {
    match a.app {
        App::Source(x) => pull_ports_effect(a.output@, x.size, l0, l1, f0, f1, s0, s1),
        App::SourceSink(x) => pull_ports_effect(a.output@, x.size, l0, l1, f0, f1, s0, s1),
        App::Sink(_) => l1 == l0 && f1 == f0 && s1 == s0,
        App::Tee(_) => l1 == l0 && f1 == f0 && s1 == s0,
    }
}

/// What one app's push does, by its capability: Sink-like apps drain
/// their inputs, a Tee fans them out; a pure Source does nothing.
pub open spec fn push_effect(
    a: AppState,
    l0: Seq<LinkEntry>,
    l1: Seq<LinkEntry>,
    f0: int,
    f1: int,
    s0: EngineStats,
    s1: EngineStats,
) -> bool {
    match a.app {
        App::Sink(_) => drain_ports_effect(a.input@, l0, l1, f0, f1, s0, s1),
        App::SourceSink(_) => drain_ports_effect(a.input@, l0, l1, f0, f1, s0, s1),
        App::Tee(_) => tee_effect(a.input@, a.output@, l0, l1, f0, f1, s0, s1),
        App::Source(_) => l1 == l0 && f1 == f0 && s1 == s0,
    }
}

/// The inhale phase as a fold: the state after running the first `k`
/// scheduled apps is reached from the state before by chaining each
/// scheduled app's pull effect, in order.
pub open spec fn pull_phase(
    apps: Seq<AppState>,
    sched: Seq<usize>,
    k: int,
    l0: Seq<LinkEntry>,
    l1: Seq<LinkEntry>,
    f0: int,
    f1: int,
    s0: EngineStats,
    s1: EngineStats,
) -> bool
    decreases k,
{
    if k <= 0 {
        l1 == l0 && f1 == f0 && s1 == s0
    } else {
        exists|lm: Seq<LinkEntry>, fm: int, sm: EngineStats|
            #![trigger pull_effect(apps[sched[k - 1] as int], lm, l1, fm, f1, sm, s1)]
            pull_phase(apps, sched, k - 1, l0, lm, f0, fm, s0, sm) && pull_effect(
                apps[sched[k - 1] as int],
                lm,
                l1,
                fm,
                f1,
                sm,
                s1,
            )
    }
}

/// The exhale phase as a fold of the scheduled apps' push effects.
pub open spec fn push_phase(
    apps: Seq<AppState>,
    sched: Seq<usize>,
    k: int,
    l0: Seq<LinkEntry>,
    l1: Seq<LinkEntry>,
    f0: int,
    f1: int,
    s0: EngineStats,
    s1: EngineStats,
) -> bool
    decreases k,
{
    if k <= 0 {
        l1 == l0 && f1 == f0 && s1 == s0
    } else {
        exists|lm: Seq<LinkEntry>, fm: int, sm: EngineStats|
            #![trigger push_effect(apps[sched[k - 1] as int], lm, l1, fm, f1, sm, s1)]
            push_phase(apps, sched, k - 1, l0, lm, f0, fm, s0, sm) && push_effect(
                apps[sched[k - 1] as int],
                lm,
                l1,
                fm,
                f1,
                sm,
                s1,
            )
    }
}

/// Chaining one more pull effect extends the inhale fold by one app.
pub proof fn lemma_pull_phase_step(
    apps: Seq<AppState>,
    sched: Seq<usize>,
    k: int,
    l0: Seq<LinkEntry>,
    lm: Seq<LinkEntry>,
    l1: Seq<LinkEntry>,
    f0: int,
    fm: int,
    f1: int,
    s0: EngineStats,
    sm: EngineStats,
    s1: EngineStats,
)
    requires
        0 <= k,
        pull_phase(apps, sched, k, l0, lm, f0, fm, s0, sm),
        pull_effect(apps[sched[k] as int], lm, l1, fm, f1, sm, s1),
    ensures
        pull_phase(apps, sched, k + 1, l0, l1, f0, f1, s0, s1),
{
    let kk = k + 1;
    assert(pull_phase(apps, sched, kk - 1, l0, lm, f0, fm, s0, sm));
    assert(pull_effect(apps[sched[kk - 1] as int], lm, l1, fm, f1, sm, s1));
    assert(pull_phase(apps, sched, kk, l0, l1, f0, f1, s0, s1));
}

/// Chaining one more push effect extends the exhale fold by one app.
pub proof fn lemma_push_phase_step(
    apps: Seq<AppState>,
    sched: Seq<usize>,
    k: int,
    l0: Seq<LinkEntry>,
    lm: Seq<LinkEntry>,
    l1: Seq<LinkEntry>,
    f0: int,
    fm: int,
    f1: int,
    s0: EngineStats,
    sm: EngineStats,
    s1: EngineStats,
)
    requires
        0 <= k,
        push_phase(apps, sched, k, l0, lm, f0, fm, s0, sm),
        push_effect(apps[sched[k] as int], lm, l1, fm, f1, sm, s1),
    ensures
        push_phase(apps, sched, k + 1, l0, l1, f0, f1, s0, s1),
{
    let kk = k + 1;
    assert(push_phase(apps, sched, kk - 1, l0, lm, f0, fm, s0, sm));
    assert(push_effect(apps[sched[kk - 1] as int], lm, l1, fm, f1, sm, s1));
    assert(push_phase(apps, sched, kk, l0, l1, f0, f1, s0, s1));
}

/// A Tee must not read and write the same link: its input links and
/// output links are disjoint for every live Tee app.
pub open spec fn no_tee_loops(s: &EngineState) -> bool {
    forall|a: int|
        0 <= a < s.app_table@.len() && (#[trigger] s.app_table@[a]).app is Tee ==> (forall|
            j: int,
            k: int,
        |
            0 <= j < s.app_table@[a].input@.len() && 0 <= k < s.app_table@[a].output@.len() ==> (
            #[trigger] s.app_table@[a].input@[j]).link != (
            #[trigger] s.app_table@[a].output@[k]).link)
}

/// Run the pull capability of the app at table index `ai`, if it has one.
#[verifier::spinoff_prover]
fn app_pull(state: &mut EngineState, ai: usize)
    requires
        old(state).wf(),
        ai < old(state).app_table@.len(),
        links_room(old(state).link_table@, WORK_APP as int),
        old(state).stats.room_for_frees(WORK_APP as int),
    ensures
        final(state).wf(),
        final(state).app_table == old(state).app_table,
        final(state).inhale == old(state).inhale,
        final(state).exhale == old(state).exhale,
        final(state).now_micros == old(state).now_micros,
        final(state).sleep_micros == old(state).sleep_micros,
        final(state).lastfrees == old(state).lastfrees,
        final(state).link_table@.len() == old(state).link_table@.len(),
        forall|j: int|
            0 <= j < old(state).link_table@.len() ==> (#[trigger] final(state).link_table@[j]).spec
                == old(state).link_table@[j].spec,
        links_growth_bounded(
            old(state).link_table@,
            final(state).link_table@,
            WORK_APP as int,
        ),
        stats_growth_bounded(old(state).stats, final(state).stats, WORK_APP as int),
        pull_effect(
            old(state).app_table@[ai as int],
            old(state).link_table@,
            final(state).link_table@,
            old(state).fl@.len() as int,
            final(state).fl@.len() as int,
            old(state).stats,
            final(state).stats,
        ),
{
    let ghost links0 = state.link_table@;
    let app = state.app_table[ai].app;
    proof {
        assert(state.app_table@[ai as int].ports_wf(state.link_table@.len() as int));
        assert(state.app_table@[ai as int].app.valid());
    }
    match app {
        App::Source(a) => {
            a.pull(
                &state.app_table[ai].output,
                &mut state.link_table,
                &mut state.fl,
                &mut state.stats,
            );
        },
        App::SourceSink(a) => {
            a.pull(
                &state.app_table[ai].output,
                &mut state.link_table,
                &mut state.fl,
                &mut state.stats,
            );
        },
        App::Sink(_) => {},
        App::Tee(_) => {},
    }
    proof {
        assert forall|j: int|
            0 <= j < links0.len() implies (#[trigger] state.link_table@[j]).spec
            == links0[j].spec by {
            let ports = old(state).app_table@[ai as int].output@;
            if basic_apps::port_uses(ports, j) {
                let k = choose|k: int| 0 <= k < ports.len() && (#[trigger] ports[k]).link == j;
                assert(state.link_table@[ports[k].link as int].spec == links0[ports[k].link as int].spec);
            } else {
                assert(state.link_table@[j] == links0[j]);
            }
        }
        assert(unique_link_specs(state.link_table@)) by {
            assert forall|j: int, k: int|
                0 <= j < k < state.link_table@.len() implies (#[trigger] state.link_table@[j]).spec@
                != (#[trigger] state.link_table@[k]).spec@ by {
                assert(state.link_table@[j].spec == links0[j].spec);
                assert(state.link_table@[k].spec == links0[k].spec);
                assert(links0[j].spec@ != links0[k].spec@);
            }
        }
    }
}

/// Run the push capability of the app at table index `ai`, if it has one.
#[verifier::spinoff_prover]
fn app_push(state: &mut EngineState, ai: usize)
    requires
        old(state).wf(),
        ai < old(state).app_table@.len(),
        no_tee_loops(old(state)),
        links_room(old(state).link_table@, WORK_APP as int),
        old(state).stats.room_for_frees(WORK_APP as int),
    ensures
        final(state).wf(),
        final(state).app_table == old(state).app_table,
        final(state).inhale == old(state).inhale,
        final(state).exhale == old(state).exhale,
        final(state).now_micros == old(state).now_micros,
        final(state).sleep_micros == old(state).sleep_micros,
        final(state).lastfrees == old(state).lastfrees,
        final(state).link_table@.len() == old(state).link_table@.len(),
        forall|j: int|
            0 <= j < old(state).link_table@.len() ==> (#[trigger] final(state).link_table@[j]).spec
                == old(state).link_table@[j].spec,
        links_growth_bounded(
            old(state).link_table@,
            final(state).link_table@,
            WORK_APP as int,
        ),
        stats_growth_bounded(old(state).stats, final(state).stats, WORK_APP as int),
        push_effect(
            old(state).app_table@[ai as int],
            old(state).link_table@,
            final(state).link_table@,
            old(state).fl@.len() as int,
            final(state).fl@.len() as int,
            old(state).stats,
            final(state).stats,
        ),
{
    let ghost links0 = state.link_table@;
    let app = state.app_table[ai].app;
    proof {
        assert(state.app_table@[ai as int].ports_wf(state.link_table@.len() as int));
    }
    match app {
        App::Sink(a) => {
            a.push(
                &state.app_table[ai].input,
                &mut state.link_table,
                &mut state.fl,
                &mut state.stats,
            );
        },
        App::SourceSink(a) => {
            a.push(
                &state.app_table[ai].input,
                &mut state.link_table,
                &mut state.fl,
                &mut state.stats,
            );
        },
        App::Tee(a) => {
            proof {
                assert(old(state).app_table@[ai as int].app is Tee);
            }
            a.push(
                &state.app_table[ai].input,
                &state.app_table[ai].output,
                &mut state.link_table,
                &mut state.fl,
                &mut state.stats,
            );
        },
        App::Source(_) => {},
    }
    proof {
        assert forall|j: int|
            0 <= j < links0.len() implies (#[trigger] state.link_table@[j]).spec
            == links0[j].spec by {
            let inports = old(state).app_table@[ai as int].input@;
            let outports = old(state).app_table@[ai as int].output@;
            if basic_apps::port_uses(inports, j) {
                let k = choose|k: int| 0 <= k < inports.len() && (#[trigger] inports[k]).link == j;
                assert(state.link_table@[inports[k].link as int].spec == links0[inports[k].link as int].spec);
            } else if basic_apps::port_uses(outports, j) {
                let k = choose|k: int|
                    0 <= k < outports.len() && (#[trigger] outports[k]).link == j;
                assert(state.link_table@[outports[k].link as int].spec == links0[outports[k].link as int].spec);
            } else {
                assert(state.link_table@[j] == links0[j]);
            }
        }
        assert(unique_link_specs(state.link_table@)) by {
            assert forall|j: int, k: int|
                0 <= j < k < state.link_table@.len() implies (#[trigger] state.link_table@[j]).spec@
                != (#[trigger] state.link_table@[k]).spec@ by {
                assert(state.link_table@[j].spec == links0[j].spec);
                assert(state.link_table@[k].spec == links0[k].spec);
                assert(links0[j].spec@ != links0[k].spec@);
            }
        }
    }
}

/// Perform a single breath: snapshot the engine time, run every
/// pull-capable app in inhale order, then every push-capable app in
/// exhale order, and count the breath. Packet conservation and all link
/// invariants are preserved; the graph itself does not change.
#[verifier::spinoff_prover]
pub fn breathe(state: &mut EngineState, timestamp: u64)
    requires
        old(state).wf(),
        old(state).stats.breaths < u64::MAX,
        no_tee_loops(old(state)),
        links_room(
            old(state).link_table@,
            (old(state).inhale@.len() + old(state).exhale@.len()) * (WORK_APP as int),
        ),
        old(state).stats.room_for_frees(
            (old(state).inhale@.len() + old(state).exhale@.len()) * (WORK_APP as int),
        ),
    ensures
        final(state).wf(),
        final(state).now_micros == timestamp,
        final(state).stats.breaths == old(state).stats.breaths + 1,
        final(state).app_table == old(state).app_table,
        final(state).inhale == old(state).inhale,
        final(state).exhale == old(state).exhale,
        final(state).sleep_micros == old(state).sleep_micros,
        final(state).lastfrees == old(state).lastfrees,
        final(state).link_table@.len() == old(state).link_table@.len(),
        forall|j: int|
            0 <= j < old(state).link_table@.len() ==> (#[trigger] final(state).link_table@[j]).spec
                == old(state).link_table@[j].spec,
        old(state).stats.frees <= final(state).stats.frees,
        old(state).stats.freebytes <= final(state).stats.freebytes,
        old(state).stats.freebits <= final(state).stats.freebits,
        final(state).fl@.len() + total_queued(final(state).link_table@) == packet::FREELIST_SIZE,
        // The breath's full effect: some mid-state exists such that the
        // inhale phase folds every scheduled app's pull effect from the
        // old state to it, and the exhale phase folds every scheduled
        // app's push effect from it to the final state (modulo the
        // breath-counter increment).
        exists|lm: Seq<LinkEntry>, fm: int, sm: EngineStats|
            #[trigger] pull_phase(
                old(state).app_table@,
                old(state).inhale@,
                old(state).inhale@.len() as int,
                old(state).link_table@,
                lm,
                old(state).fl@.len() as int,
                fm,
                old(state).stats,
                sm,
            ) && push_phase(
                old(state).app_table@,
                old(state).exhale@,
                old(state).exhale@.len() as int,
                lm,
                final(state).link_table@,
                fm,
                final(state).fl@.len() as int,
                sm,
                (EngineStats { breaths: old(state).stats.breaths, ..final(state).stats }),
            ),
{
    state.now_micros = timestamp;
    let ghost s0 = *state;
    let ghost total = (old(state).inhale@.len() + old(state).exhale@.len()) as int;
    let nin = state.inhale.len();
    let mut i: usize = 0;
    while i < nin
        invariant
            i <= nin,
            nin == s0.inhale@.len(),
            state.wf(),
            no_tee_loops(state),
            state.app_table == s0.app_table,
            state.inhale == s0.inhale,
            state.exhale == s0.exhale,
            state.now_micros == s0.now_micros,
            state.sleep_micros == s0.sleep_micros,
            state.lastfrees == s0.lastfrees,
            total == s0.inhale@.len() + s0.exhale@.len(),
            state.link_table@.len() == s0.link_table@.len(),
            forall|j: int|
                0 <= j < s0.link_table@.len() ==> (#[trigger] state.link_table@[j]).spec
                    == s0.link_table@[j].spec,
            links_room(s0.link_table@, total * (WORK_APP as int)),
            s0.stats.room_for_frees(total * (WORK_APP as int)),
            links_growth_bounded(s0.link_table@, state.link_table@, i * (WORK_APP as int)),
            pull_phase(
                s0.app_table@,
                s0.inhale@,
                i as int,
                s0.link_table@,
                state.link_table@,
                s0.fl@.len() as int,
                state.fl@.len() as int,
                s0.stats,
                state.stats,
            ),
            s0.stats.frees <= state.stats.frees,
            s0.stats.freebytes <= state.stats.freebytes,
            s0.stats.freebits <= state.stats.freebits,
            state.stats.frees <= s0.stats.frees + (i * (WORK_APP as int)),
            state.stats.freebytes <= s0.stats.freebytes + (i * (WORK_APP as int)) * (
            packet::PAYLOAD_SIZE as int),
            state.stats.freebits <= s0.stats.freebits + (i * (WORK_APP as int)) * spec_freebits(
                packet::PAYLOAD_SIZE as u16,
            ),
            state.stats.breaths == s0.stats.breaths,
        decreases nin - i,
    {
        let ghost sprev = *state;
        proof {
            assert(i + 1 <= total);
            assert((i + 1) * (WORK_APP as int) == i * (WORK_APP as int) + (WORK_APP as int))
                by (nonlinear_arith);
            assert((i + 1) * (WORK_APP as int) <= total * (WORK_APP as int)) by (nonlinear_arith)
                requires
                    0 <= i + 1 <= total,
            ;
            assert(links_room(state.link_table@, WORK_APP as int)) by {
                assert forall|j: int|
                    0 <= j < state.link_table@.len() implies {
                    let l = (#[trigger] state.link_table@[j]).link;
                    &&& l.txpackets + WORK_APP <= u64::MAX
                    &&& l.txbytes + WORK_APP <= u64::MAX
                    &&& l.txdrop + WORK_APP <= u64::MAX
                    &&& l.rxpackets + WORK_APP <= u64::MAX
                    &&& l.rxbytes + WORK_APP <= u64::MAX
                } by {
                    assert(s0.link_table@[j].link.txpackets + total * (WORK_APP as int)
                        <= u64::MAX);
                }
            }
            lemma_room_consume(
                s0.stats,
                state.stats,
                i * (WORK_APP as int),
                WORK_APP as int,
                total * (WORK_APP as int),
            );
        }
        let ai = state.inhale[i];
        app_pull(state, ai);
        proof {
            assert(pull_effect(
                s0.app_table@[s0.inhale@[i as int] as int],
                sprev.link_table@,
                state.link_table@,
                sprev.fl@.len() as int,
                state.fl@.len() as int,
                sprev.stats,
                state.stats,
            ));
            assert(pull_phase(
                s0.app_table@,
                s0.inhale@,
                i as int,
                s0.link_table@,
                sprev.link_table@,
                s0.fl@.len() as int,
                sprev.fl@.len() as int,
                s0.stats,
                sprev.stats,
            ));
            lemma_pull_phase_step(
                s0.app_table@,
                s0.inhale@,
                i as int,
                s0.link_table@,
                sprev.link_table@,
                state.link_table@,
                s0.fl@.len() as int,
                sprev.fl@.len() as int,
                state.fl@.len() as int,
                s0.stats,
                sprev.stats,
                state.stats,
            );
            assert(pull_phase(
                s0.app_table@,
                s0.inhale@,
                i as int + 1,
                s0.link_table@,
                state.link_table@,
                s0.fl@.len() as int,
                state.fl@.len() as int,
                s0.stats,
                state.stats,
            ));
            assert forall|j: int|
                0 <= j < s0.link_table@.len() implies {
                let a = s0.link_table@[j].link;
                let b = (#[trigger] state.link_table@[j]).link;
                &&& a.txpackets <= b.txpackets <= a.txpackets + (i + 1) * (WORK_APP as int)
                &&& a.txbytes <= b.txbytes <= a.txbytes + (i + 1) * (WORK_APP as int)
                &&& a.txdrop <= b.txdrop <= a.txdrop + (i + 1) * (WORK_APP as int)
                &&& a.rxpackets <= b.rxpackets <= a.rxpackets + (i + 1) * (WORK_APP as int)
                &&& a.rxbytes <= b.rxbytes <= a.rxbytes + (i + 1) * (WORK_APP as int)
            } by {
                assert(sprev.link_table@[j].link.txpackets <= s0.link_table@[j].link.txpackets + i
                    * (WORK_APP as int));
            }
            assert(((i + 1) * (WORK_APP as int)) * (packet::PAYLOAD_SIZE as int) == (i * (
            WORK_APP as int)) * (packet::PAYLOAD_SIZE as int) + (WORK_APP as int) * (
            packet::PAYLOAD_SIZE as int)) by (nonlinear_arith);
            assert(((i + 1) * (WORK_APP as int)) * spec_freebits(packet::PAYLOAD_SIZE as u16) == (i
                * (WORK_APP as int)) * spec_freebits(packet::PAYLOAD_SIZE as u16) + (
            WORK_APP as int) * spec_freebits(packet::PAYLOAD_SIZE as u16)) by (nonlinear_arith);
        }
        i = i + 1;
    }
    let ghost smid = *state;
    let nex = state.exhale.len();
    let mut e: usize = 0;
    while e < nex
        invariant
            e <= nex,
            nex == s0.exhale@.len(),
            nin == s0.inhale@.len(),
            state.wf(),
            no_tee_loops(state),
            state.app_table == s0.app_table,
            state.inhale == s0.inhale,
            state.exhale == s0.exhale,
            state.now_micros == s0.now_micros,
            state.sleep_micros == s0.sleep_micros,
            state.lastfrees == s0.lastfrees,
            total == s0.inhale@.len() + s0.exhale@.len(),
            state.link_table@.len() == s0.link_table@.len(),
            forall|j: int|
                0 <= j < s0.link_table@.len() ==> (#[trigger] state.link_table@[j]).spec
                    == s0.link_table@[j].spec,
            links_room(s0.link_table@, total * (WORK_APP as int)),
            s0.stats.room_for_frees(total * (WORK_APP as int)),
            links_growth_bounded(
                s0.link_table@,
                state.link_table@,
                (nin + e) * (WORK_APP as int),
            ),
            push_phase(
                s0.app_table@,
                s0.exhale@,
                e as int,
                smid.link_table@,
                state.link_table@,
                smid.fl@.len() as int,
                state.fl@.len() as int,
                smid.stats,
                state.stats,
            ),
            pull_phase(
                s0.app_table@,
                s0.inhale@,
                s0.inhale@.len() as int,
                s0.link_table@,
                smid.link_table@,
                s0.fl@.len() as int,
                smid.fl@.len() as int,
                s0.stats,
                smid.stats,
            ),
            s0.stats.frees <= state.stats.frees,
            s0.stats.freebytes <= state.stats.freebytes,
            s0.stats.freebits <= state.stats.freebits,
            state.stats.frees <= s0.stats.frees + ((nin + e) * (WORK_APP as int)),
            state.stats.freebytes <= s0.stats.freebytes + ((nin + e) * (WORK_APP as int)) * (
            packet::PAYLOAD_SIZE as int),
            state.stats.freebits <= s0.stats.freebits + ((nin + e) * (WORK_APP as int))
                * spec_freebits(packet::PAYLOAD_SIZE as u16),
            state.stats.breaths == s0.stats.breaths,
        decreases nex - e,
    {
        let ghost sprev = *state;
        proof {
            assert(nin + e + 1 <= total);
            assert((nin + e + 1) * (WORK_APP as int) == (nin + e) * (WORK_APP as int) + (
            WORK_APP as int)) by (nonlinear_arith);
            assert((nin + e + 1) * (WORK_APP as int) <= total * (WORK_APP as int))
                by (nonlinear_arith)
                requires
                    0 <= nin + e + 1 <= total,
            ;
            assert(links_room(state.link_table@, WORK_APP as int)) by {
                assert forall|j: int|
                    0 <= j < state.link_table@.len() implies {
                    let l = (#[trigger] state.link_table@[j]).link;
                    &&& l.txpackets + WORK_APP <= u64::MAX
                    &&& l.txbytes + WORK_APP <= u64::MAX
                    &&& l.txdrop + WORK_APP <= u64::MAX
                    &&& l.rxpackets + WORK_APP <= u64::MAX
                    &&& l.rxbytes + WORK_APP <= u64::MAX
                } by {
                    assert(s0.link_table@[j].link.txpackets + total * (WORK_APP as int)
                        <= u64::MAX);
                }
            }
            lemma_room_consume(
                s0.stats,
                state.stats,
                (nin + e) * (WORK_APP as int),
                WORK_APP as int,
                total * (WORK_APP as int),
            );
        }
        let ai = state.exhale[e];
        app_push(state, ai);
        proof {
            assert(push_effect(
                s0.app_table@[s0.exhale@[e as int] as int],
                sprev.link_table@,
                state.link_table@,
                sprev.fl@.len() as int,
                state.fl@.len() as int,
                sprev.stats,
                state.stats,
            ));
            assert(push_phase(
                s0.app_table@,
                s0.exhale@,
                e as int,
                smid.link_table@,
                sprev.link_table@,
                smid.fl@.len() as int,
                sprev.fl@.len() as int,
                smid.stats,
                sprev.stats,
            ));
            lemma_push_phase_step(
                s0.app_table@,
                s0.exhale@,
                e as int,
                smid.link_table@,
                sprev.link_table@,
                state.link_table@,
                smid.fl@.len() as int,
                sprev.fl@.len() as int,
                state.fl@.len() as int,
                smid.stats,
                sprev.stats,
                state.stats,
            );
            assert(push_phase(
                s0.app_table@,
                s0.exhale@,
                e as int + 1,
                smid.link_table@,
                state.link_table@,
                smid.fl@.len() as int,
                state.fl@.len() as int,
                smid.stats,
                state.stats,
            ));
            assert forall|j: int|
                0 <= j < s0.link_table@.len() implies {
                let a = s0.link_table@[j].link;
                let b = (#[trigger] state.link_table@[j]).link;
                &&& a.txpackets <= b.txpackets <= a.txpackets + (nin + e + 1) * (WORK_APP as int)
                &&& a.txbytes <= b.txbytes <= a.txbytes + (nin + e + 1) * (WORK_APP as int)
                &&& a.txdrop <= b.txdrop <= a.txdrop + (nin + e + 1) * (WORK_APP as int)
                &&& a.rxpackets <= b.rxpackets <= a.rxpackets + (nin + e + 1) * (WORK_APP as int)
                &&& a.rxbytes <= b.rxbytes <= a.rxbytes + (nin + e + 1) * (WORK_APP as int)
            } by {
                assert(sprev.link_table@[j].link.txpackets <= s0.link_table@[j].link.txpackets + (
                nin + e) * (WORK_APP as int));
            }
            assert(((nin + e + 1) * (WORK_APP as int)) * (packet::PAYLOAD_SIZE as int) == ((nin + e)
                * (WORK_APP as int)) * (packet::PAYLOAD_SIZE as int) + (WORK_APP as int) * (
            packet::PAYLOAD_SIZE as int)) by (nonlinear_arith);
            assert(((nin + e + 1) * (WORK_APP as int)) * spec_freebits(packet::PAYLOAD_SIZE as u16)
                == ((nin + e) * (WORK_APP as int)) * spec_freebits(packet::PAYLOAD_SIZE as u16) + (
            WORK_APP as int) * spec_freebits(packet::PAYLOAD_SIZE as u16)) by (nonlinear_arith);
        }
        e = e + 1;
    }
    state.stats.breaths = state.stats.breaths + 1;
}

/// Breathing regulation to reduce CPU usage when idle: if the last breath
/// freed no packet the sleep interval grows by one microsecond up to
/// `MAXSLEEP` and the caller is told to sleep that long; if packets were
/// processed, the interval is halved and no sleep is requested.
pub fn pace_breathing(state: &mut EngineState) -> (sleep_now: u64)
    requires
        old(state).wf(),
    ensures
        final(state).wf(),
        old(state).lastfrees == old(state).stats.frees ==> {
            &&& final(state).sleep_micros == (if old(state).sleep_micros + 1 <= MAXSLEEP {
                old(state).sleep_micros + 1
            } else {
                MAXSLEEP as int
            })
            &&& sleep_now == final(state).sleep_micros
        },
        old(state).lastfrees != old(state).stats.frees ==> {
            &&& final(state).sleep_micros == old(state).sleep_micros / 2
            &&& sleep_now == 0
        },
        final(state).lastfrees == old(state).stats.frees,
        final(state).app_table == old(state).app_table,
        final(state).link_table == old(state).link_table,
        final(state).inhale == old(state).inhale,
        final(state).exhale == old(state).exhale,
        final(state).fl == old(state).fl,
        final(state).stats == old(state).stats,
        final(state).now_micros == old(state).now_micros,
{
    let mut sleep_now: u64 = 0;
    if state.lastfrees == state.stats.frees {
        state.sleep_micros = if state.sleep_micros + 1 <= MAXSLEEP {
            state.sleep_micros + 1
        } else {
            MAXSLEEP
        };
        sleep_now = state.sleep_micros;
    } else {
        state.sleep_micros = state.sleep_micros / 2;
    }
    state.lastfrees = state.stats.frees;
    sleep_now
}

/// The sleep interval after `k` consecutive idle breaths starting from
/// zero: each idle breath grows it by one microsecond, saturating at
/// `MAXSLEEP`. This is exactly the step `pace_breathing` takes when no
/// packet was freed.
pub open spec fn idle_sleep(k: nat) -> int
    decreases k,
{
    if k == 0 {
        0
    } else if idle_sleep((k - 1) as nat) + 1 <= MAXSLEEP {
        idle_sleep((k - 1) as nat) + 1
    } else {
        MAXSLEEP as int
    }
}

/// Pacing monotonicity: starting from a sleep interval of zero, after `k`
/// idle breaths (breaths in which no packet was freed) the sleep interval
/// is exactly `min(k, MAXSLEEP)` microseconds.
pub proof fn lemma_pacing_monotonic(k: nat)
    ensures
        idle_sleep(k) == if k <= MAXSLEEP {
            k as int
        } else {
            MAXSLEEP as int
        },
    decreases k,
{
    if k > 0 {
        lemma_pacing_monotonic((k - 1) as nat);
    }
}

/// Return current monotonic engine time: the timestamp snapshot taken at
/// the start of the current breath. Within one breath all apps observe
/// the same value, so a timer started within a breath cannot fire within
/// that same breath.
pub fn now(state: &EngineState) -> (t: u64)
    ensures
        t == state.now_micros,
{
    state.now_micros
}

/// A one-shot timer; made by `timeout`, checked against engine time.
pub struct Timer {
    pub deadline_micros: u64,
}

/// Make a timer that expires `duration_micros` after the current engine
/// time. Timers are not cancellable; discard the timer instead.
pub fn timeout(state: &EngineState, duration_micros: u64) -> (t: Timer)
    requires
        state.now_micros + duration_micros <= u64::MAX,
    ensures
        t.deadline_micros == state.now_micros + duration_micros,
{
    Timer { deadline_micros: state.now_micros + duration_micros }
}

impl Timer {
    /// True once engine time has moved strictly past the deadline.
    pub fn expired(&self, state: &EngineState) -> (r: bool)
        ensures
            r == (state.now_micros > self.deadline_micros),
    {
        state.now_micros > self.deadline_micros
    }
}

/// Engine breathe loop options. `duration_micros` bounds the run time; a
/// caller-side predicate may end the run instead, but not both.
pub struct Options {
    /// Run the engine for this long, in microseconds.
    pub duration_micros: Option<u64>,
    /// Disable engine reporting before return.
    pub no_report: bool,
    /// Print a load report upon return.
    pub report_load: bool,
    /// Print summarized statistics for each link upon return.
    pub report_links: bool,
}

impl Default for Options {
    fn default() -> (o: Options)
        ensures
            o.duration_micros is None,
            !o.no_report,
            !o.report_load,
            !o.report_links,
    {
        Options { duration_micros: None, no_report: false, report_load: false, report_links: false }
    }
}

/// Fraction of transmissions onto a link that were dropped, as a
/// percentage rounded down; zero when nothing was sent.
pub fn loss_rate(drop: u64, sent: u64) -> (r: u64)
    ensures
        r == (if sent == 0 {
            0int
        } else {
            drop * 100 / (drop + sent)
        }),
        r <= 100,
{
    if sent == 0 {
        return 0;
    }
    let d = drop as u128;
    let s = sent as u128;
    let rate = d * 100 / (d + s);
    proof {
        assert(d * 100 / (d + s) <= 100) by (nonlinear_arith)
            requires
                s >= 1,
                d >= 0,
        ;
    }
    rate as u64
}

/// Interval accumulators for load reporting: the counter values seen at
/// the previous report.
pub struct LoadMeter {
    pub has_last: bool,
    pub last_micros: u64,
    pub frees: u64,
    pub freebits: u64,
    pub freebytes: u64,
    pub breaths: u64,
}

/// One load report interval: counter deltas since the previous report,
/// with the derived frees-per-breath and bytes-per-packet figures.
pub struct LoadDelta {
    pub interval_micros: u64,
    pub frees: u64,
    pub freebits: u64,
    pub freebytes: u64,
    pub breaths: u64,
    pub fpb: u64,
    pub bpp: u64,
}

impl LoadMeter {
    pub fn new() -> (m: LoadMeter)
        ensures
            !m.has_last,
    {
        LoadMeter {
            has_last: false,
            last_micros: 0,
            frees: 0,
            freebits: 0,
            freebytes: 0,
            breaths: 0,
        }
    }
}

/// Take a load report: returns the interval metrics since the previous
/// call (nothing, on the first call) and records the current counters as
/// the new baseline.
pub fn report_load(meter: &mut LoadMeter, stats: &EngineStats, now_micros: u64) -> (r: Option<
    LoadDelta,
>)
    requires
        old(meter).has_last ==> {
            &&& old(meter).last_micros <= now_micros
            &&& old(meter).frees <= stats.frees
            &&& old(meter).freebits <= stats.freebits
            &&& old(meter).freebytes <= stats.freebytes
            &&& old(meter).breaths <= stats.breaths
        },
    ensures
        r is Some <==> old(meter).has_last,
        r matches Some(d) ==> {
            &&& d.interval_micros == now_micros - old(meter).last_micros
            &&& d.frees == stats.frees - old(meter).frees
            &&& d.freebits == stats.freebits - old(meter).freebits
            &&& d.freebytes == stats.freebytes - old(meter).freebytes
            &&& d.breaths == stats.breaths - old(meter).breaths
            &&& d.fpb == (if d.breaths > 0 {
                d.frees as int / d.breaths as int
            } else {
                0int
            })
            &&& d.bpp == (if d.frees > 0 {
                d.freebytes as int / d.frees as int
            } else {
                0int
            })
        },
        final(meter).has_last,
        final(meter).last_micros == now_micros,
        final(meter).frees == stats.frees,
        final(meter).freebits == stats.freebits,
        final(meter).freebytes == stats.freebytes,
        final(meter).breaths == stats.breaths,
{
    let mut r: Option<LoadDelta> = None;
    if meter.has_last {
        let frees = stats.frees - meter.frees;
        let freebits = stats.freebits - meter.freebits;
        let freebytes = stats.freebytes - meter.freebytes;
        let breaths = stats.breaths - meter.breaths;
        let fpb = if breaths > 0 {
            frees / breaths
        } else {
            0
        };
        let bpp = if frees > 0 {
            freebytes / frees
        } else {
            0
        };
        r = Some(
            LoadDelta {
                interval_micros: now_micros - meter.last_micros,
                frees,
                freebits,
                freebytes,
                breaths,
                fpb,
                bpp,
            },
        );
    }
    meter.has_last = true;
    meter.last_micros = now_micros;
    meter.frees = stats.frees;
    meter.freebits = stats.freebits;
    meter.freebytes = stats.freebytes;
    meter.breaths = stats.breaths;
    r
}

/// The migration relation `configure` establishes between the old state,
/// the new state and the configuration: the new tables mirror the
/// configuration's declarations in order, surviving apps keep their
/// instances, surviving links keep their rings and counters, and the new
/// state is well-formed and fully wired.
pub open spec fn configured(s0: EngineState, s1: EngineState, c: crate::config::Config) -> bool {
    &&& s1.wf()
    &&& s1.app_table@.len() == c.apps@.len()
    &&& (forall|j: int|
        0 <= j < c.apps@.len() ==> {
            let a = #[trigger] s1.app_table@[j];
            &&& a.name@ == c.apps@[j].name@
            &&& a.conf == c.apps@[j].conf
            &&& (if has_app_named(s0.app_table@, c.apps@[j].name@) && s0.app_table@[app_named_at(
                s0.app_table@,
                c.apps@[j].name@,
            )].conf == c.apps@[j].conf {
                a.app == s0.app_table@[app_named_at(s0.app_table@, c.apps@[j].name@)].app
            } else {
                a.app == c.apps@[j].conf.spec_new()
            })
        })
    &&& s1.link_table@.len() == c.links@.len()
    &&& (forall|j: int|
        0 <= j < c.links@.len() ==> {
            let e = #[trigger] s1.link_table@[j];
            &&& e.spec@ == (c.links@[j])@
            &&& (if has_link_spec(s0.link_table@, (c.links@[j])@) {
                e.link == s0.link_table@[link_spec_at(s0.link_table@, (c.links@[j])@)].link
            } else {
                fresh_link(e.link)
            })
        })
    &&& wired(s1.app_table@, c, c.links@.len() as int)
    &&& ports_from_config(s1.app_table@, c, c.links@.len() as int)
}

/// Applying the same configuration twice is a no-op: the second
/// `configure` tears down no app (every instance survives unchanged) and
/// rebuilds no link (every ring keeps its contents and counters).
pub proof fn lemma_configure_idempotent(
    s0: EngineState,
    s1: EngineState,
    s2: EngineState,
    c: crate::config::Config,
)
    requires
        c.wf(),
        configured(s0, s1, c),
        configured(s1, s2, c),
    ensures
        s2.app_table@.len() == s1.app_table@.len(),
        forall|j: int|
            0 <= j < s1.app_table@.len() ==> {
                let a = #[trigger] s2.app_table@[j];
                &&& a.name@ == s1.app_table@[j].name@
                &&& a.conf == s1.app_table@[j].conf
                &&& a.app == s1.app_table@[j].app
            },
        s2.link_table@.len() == s1.link_table@.len(),
        forall|j: int|
            0 <= j < s1.link_table@.len() ==> {
                let e = #[trigger] s2.link_table@[j];
                &&& e.spec@ == s1.link_table@[j].spec@
                &&& e.link == s1.link_table@[j].link
            },
{
    assert forall|j: int|
        0 <= j < s1.app_table@.len() implies {
        let a = #[trigger] s2.app_table@[j];
        &&& a.name@ == s1.app_table@[j].name@
        &&& a.conf == s1.app_table@[j].conf
        &&& a.app == s1.app_table@[j].app
    } by {
        let name = c.apps@[j].name@;
        assert(s1.app_table@[j].name@ == name);
        assert(has_app_named(s1.app_table@, name));
        assert(app_named_at(s1.app_table@, name) == j) by {
            let k = app_named_at(s1.app_table@, name);
            assert(s1.app_table@[k].name@ == name);
            if k != j {
                assert(s1.app_table@[k].name@ != s1.app_table@[j].name@);
            }
        }
        assert(s1.app_table@[j].conf == c.apps@[j].conf);
    }
    assert forall|j: int|
        0 <= j < s1.link_table@.len() implies {
        let e = #[trigger] s2.link_table@[j];
        &&& e.spec@ == s1.link_table@[j].spec@
        &&& e.link == s1.link_table@[j].link
    } by {
        let spec = (c.links@[j])@;
        assert(s1.link_table@[j].spec@ == spec);
        assert(has_link_spec(s1.link_table@, spec));
        assert(link_spec_at(s1.link_table@, spec) == j) by {
            let k = link_spec_at(s1.link_table@, spec);
            assert(s1.link_table@[k].spec@ == spec);
            if k != j {
                assert(s1.link_table@[k].spec@ != s1.link_table@[j].spec@);
            }
        }
    }
}

/// Migrating through an intermediate configuration reaches the same live
/// structure as configuring from scratch: after `configure(C1);
/// configure(C2)` the app names, their configurations and the link
/// specifications equal those of a fresh engine configured with `C2`
/// alone, and any app whose name and configuration survived from the
/// `C1` graph keeps its instance.
pub proof fn lemma_configure_migration(
    s0: EngineState,
    s1: EngineState,
    s2: EngineState,
    f0: EngineState,
    f1: EngineState,
    c1: crate::config::Config,
    c2: crate::config::Config,
)
    requires
        configured(s0, s1, c1),
        configured(s1, s2, c2),
        configured(f0, f1, c2),
    ensures
        s2.app_table@.len() == f1.app_table@.len(),
        forall|j: int|
            0 <= j < s2.app_table@.len() ==> (#[trigger] s2.app_table@[j]).name@
                == f1.app_table@[j].name@ && s2.app_table@[j].conf == f1.app_table@[j].conf,
        s2.link_table@.len() == f1.link_table@.len(),
        forall|j: int|
            0 <= j < s2.link_table@.len() ==> (#[trigger] s2.link_table@[j]).spec@
                == f1.link_table@[j].spec@,
        forall|j: int|
            0 <= j < c2.apps@.len() && has_app_named(s1.app_table@, c2.apps@[j].name@)
                && s1.app_table@[app_named_at(s1.app_table@, c2.apps@[j].name@)].conf
                == c2.apps@[j].conf ==> (#[trigger] s2.app_table@[j]).app
                == s1.app_table@[app_named_at(s1.app_table@, c2.apps@[j].name@)].app,
{
}

/// Get engine statistics.
pub fn stats(state: &EngineState) -> (s: &EngineStats)
    ensures
        s == state.stats,
{
    &state.stats
}

/// Lexicographic order on character sequences, by code point.
pub open spec fn lex_le(a: Seq<char>, b: Seq<char>) -> bool
    decreases a.len(),
{
    if a.len() == 0 {
        true
    } else if b.len() == 0 {
        false
    } else if a[0] != b[0] {
        (a[0] as int) < (b[0] as int)
    } else {
        lex_le(a.subrange(1, a.len() as int), b.subrange(1, b.len() as int))
    }
}

proof fn lemma_lex_total(a: Seq<char>, b: Seq<char>)
    ensures
        lex_le(a, b) || lex_le(b, a),
    decreases a.len(),
{
    if a.len() > 0 && b.len() > 0 && a[0] == b[0] {
        lemma_lex_total(a.subrange(1, a.len() as int), b.subrange(1, b.len() as int));
    }
}

fn str_le_from(a: &str, b: &str, i: usize, na: usize, nb: usize) -> (r: bool)
    requires
        i <= na,
        i <= nb,
        na == a@.len(),
        nb == b@.len(),
    ensures
        r == lex_le(a@.subrange(i as int, na as int), b@.subrange(i as int, nb as int)),
    decreases na - i,
{
    proof {
        if i < na && i < nb {
            assert(a@.subrange(i as int, na as int)[0] == a@[i as int]);
            assert(b@.subrange(i as int, nb as int)[0] == b@[i as int]);
            assert(a@.subrange(i as int, na as int).subrange(
                1,
                a@.subrange(i as int, na as int).len() as int,
            ) =~= a@.subrange(i as int + 1, na as int));
            assert(b@.subrange(i as int, nb as int).subrange(
                1,
                b@.subrange(i as int, nb as int).len() as int,
            ) =~= b@.subrange(i as int + 1, nb as int));
        }
    }
    if i == na {
        true
    } else if i == nb {
        false
    } else {
        let ca = a.get_char(i);
        let cb = b.get_char(i);
        if ca != cb {
            (ca as u32) < (cb as u32)
        } else {
            str_le_from(a, b, i + 1, na, nb)
        }
    }
}

/// Compare two strings in lexicographic order.
pub fn str_le(a: &str, b: &str) -> (r: bool)
    ensures
        r == lex_le(a@, b@),
{
    let na = a.unicode_len();
    let nb = b.unicode_len();
    proof {
        assert(a@.subrange(0, na as int) =~= a@);
        assert(b@.subrange(0, nb as int) =~= b@);
    }
    str_le_from(a, b, 0, na, nb)
}

/// One line of a link report: the link's specification string, how many
/// packets were sent on it, and the loss rate in percent.
pub struct LinkReportLine {
    pub name: String,
    pub txpackets: u64,
    pub lossrate: u64,
}

/// Whether line `l` reports link-table entry `e`.
pub open spec fn reports_entry(l: LinkReportLine, e: LinkEntry) -> bool {
    &&& l.name@ == e.spec@
    &&& l.txpackets == e.link.txpackets
    &&& l.lossrate == (if e.link.txpackets == 0 {
        0int
    } else {
        e.link.txdrop * 100 / (e.link.txdrop + e.link.txpackets)
    })
}

/// Build a link report: one line per live link, sorted by the link's
/// specification string for reproducible output.
#[verifier::rlimit(100)]
#[verifier::spinoff_prover]
pub fn report_links(state: &EngineState) -> (r: Vec<LinkReportLine>)
    requires
        state.wf(),
    ensures
        r@.len() == state.link_table@.len(),
        forall|i: int, j: int| 0 <= i < j < r@.len() ==> lex_le(#[trigger] r@[i].name@, #[trigger] r@[j].name@),
        forall|i: int|
            0 <= i < r@.len() ==> (exists|j: int|
                0 <= j < state.link_table@.len() && reports_entry(
                    #[trigger] r@[i],
                    state.link_table@[j],
                )),
        forall|j: int|
            0 <= j < state.link_table@.len() ==> (exists|i: int|
                0 <= i < r@.len() && reports_entry(r@[i], #[trigger] state.link_table@[j])),
{
    let n = state.link_table.len();
    let mut pending: Vec<LinkReportLine> = Vec::new();
    let mut i: usize = 0;
    while i < n
        invariant
            i <= n,
            n == state.link_table@.len(),
            pending@.len() == i,
            forall|k: int|
                0 <= k < i ==> reports_entry(#[trigger] pending@[k], state.link_table@[k]),
        decreases n - i,
    {
        let entry = &state.link_table[i];
        let line = LinkReportLine {
            name: entry.spec.clone(),
            txpackets: entry.link.txpackets,
            lossrate: loss_rate(entry.link.txdrop, entry.link.txpackets),
        };
        pending.push(line);
        i = i + 1;
    }
    proof {
        assert forall|j: int|
            0 <= j < state.link_table@.len() implies (exists|k: int|
            0 <= k < pending@.len() && reports_entry(
                pending@[k],
                #[trigger] state.link_table@[j],
            )) by {
            assert(reports_entry(pending@[j], state.link_table@[j]));
        }
    }
    // Selection sort: repeatedly move the smallest remaining line over.
    let mut out: Vec<LinkReportLine> = Vec::new();
    while pending.len() > 0
        invariant
            out@.len() + pending@.len() == n,
            n == state.link_table@.len(),
            forall|a: int, b: int|
                0 <= a < b < out@.len() ==> lex_le(
                    #[trigger] out@[a].name@,
                    #[trigger] out@[b].name@,
                ),
            forall|a: int, b: int|
                0 <= a < out@.len() && 0 <= b < pending@.len() ==> lex_le(
                    #[trigger] out@[a].name@,
                    #[trigger] pending@[b].name@,
                ),
            forall|k: int|
                0 <= k < out@.len() ==> (exists|j: int|
                    0 <= j < state.link_table@.len() && reports_entry(
                        #[trigger] out@[k],
                        state.link_table@[j],
                    )),
            forall|k: int|
                0 <= k < pending@.len() ==> (exists|j: int|
                    0 <= j < state.link_table@.len() && reports_entry(
                        #[trigger] pending@[k],
                        state.link_table@[j],
                    )),
            forall|j: int|
                0 <= j < state.link_table@.len() ==> (exists|k: int|
                    0 <= k < out@.len() && reports_entry(out@[k], #[trigger] state.link_table@[j]))
                    || (exists|k: int|
                    0 <= k < pending@.len() && reports_entry(
                        pending@[k],
                        #[trigger] state.link_table@[j],
                    )),
        decreases pending@.len(),
    {
        let m = pending.len();
        let mut best: usize = 0;
        let mut t: usize = 1;
        proof {
            lemma_lex_total(pending@[0].name@, pending@[0].name@);
        }
        while t < m
            invariant
                m == pending@.len(),
                best < m,
                t <= m,
                forall|k: int| 0 <= k < t ==> lex_le(pending@[best as int].name@, (#[trigger] pending@[k]).name@),
            decreases m - t,
        {
            if str_le(pending[t].name.as_str(), pending[best].name.as_str()) {
                proof {
                    assert forall|k: int|
                        0 <= k < t + 1 implies lex_le(
                        pending@[t as int].name@,
                        (#[trigger] pending@[k]).name@,
                    ) by {
                        lemma_lex_total(pending@[t as int].name@, pending@[k].name@);
                        if k < t {
                            lemma_lex_total(pending@[best as int].name@, pending@[k].name@);
                            lemma_lex_trans(
                                pending@[t as int].name@,
                                pending@[best as int].name@,
                                pending@[k].name@,
                            );
                        }
                    }
                }
                best = t;
            } else {
                proof {
                    lemma_lex_total(pending@[t as int].name@, pending@[best as int].name@);
                }
            }
            t = t + 1;
        }
        let ghost pending0 = pending@;
        let line = pending.remove(best);
        proof {
            assert(line == pending0[best as int]);
            assert forall|b: int|
                0 <= b < pending@.len() implies lex_le(
                line.name@,
                (#[trigger] pending@[b]).name@,
            ) by {
                if b < best {
                    assert(pending@[b] == pending0[b]);
                } else {
                    assert(pending@[b] == pending0[b + 1]);
                }
            }
            assert forall|k: int|
                0 <= k < pending@.len() implies (exists|j: int|
                0 <= j < state.link_table@.len() && reports_entry(
                    #[trigger] pending@[k],
                    state.link_table@[j],
                )) by {
                if k < best {
                    assert(pending@[k] == pending0[k]);
                } else {
                    assert(pending@[k] == pending0[k + 1]);
                }
            }
        }
        let ghost out0 = out@;
        out.push(line);
        proof {
            assert forall|j: int|
                0 <= j < state.link_table@.len() implies (exists|k: int|
                0 <= k < out@.len() && reports_entry(out@[k], #[trigger] state.link_table@[j]))
                || (exists|k: int|
                0 <= k < pending@.len() && reports_entry(
                    pending@[k],
                    #[trigger] state.link_table@[j],
                )) by {
                if exists|k: int|
                    0 <= k < pending0.len() && reports_entry(
                        pending0[k],
                        state.link_table@[j],
                    ) {
                    let k = choose|k: int|
                        0 <= k < pending0.len() && reports_entry(
                            pending0[k],
                            state.link_table@[j],
                        );
                    if k == best as int {
                        assert(out@[out@.len() - 1] == pending0[best as int]);
                        assert(reports_entry(out@[out@.len() - 1], state.link_table@[j]));
                    } else if k < best as int {
                        assert(pending@[k] == pending0[k]);
                        assert(reports_entry(pending@[k], state.link_table@[j]));
                    } else {
                        assert(pending@[k - 1] == pending0[k]);
                        assert(reports_entry(pending@[k - 1], state.link_table@[j]));
                    }
                } else {
                    let k = choose|k: int|
                        0 <= k < out0.len() && reports_entry(out0[k], state.link_table@[j]);
                    assert(out@[k] == out0[k]);
                    assert(reports_entry(out@[k], state.link_table@[j]));
                }
            }
        }
    }
    out
}

proof fn lemma_lex_trans(a: Seq<char>, b: Seq<char>, c: Seq<char>)
    requires
        lex_le(a, b),
        lex_le(b, c),
    ensures
        lex_le(a, c),
    decreases a.len(),
{
    if a.len() > 0 && b.len() > 0 && c.len() > 0 && a[0] == b[0] && b[0] == c[0] {
        lemma_lex_trans(
            a.subrange(1, a.len() as int),
            b.subrange(1, b.len() as int),
            c.subrange(1, c.len() as int),
        );
    }
}

/// Find the index of the app named `name`, searching from the front.
fn find_app_idx(table: &Vec<AppState>, name: &str) -> (r: Option<usize>)
    ensures
        r is Some <==> has_app_named(table@, name@),
        r matches Some(i) ==> i < table@.len() && table@[i as int].name@ == name@,
{
    let n = table.len();
    let mut i: usize = 0;
    while i < n
        invariant
            i <= n,
            n == table@.len(),
            forall|k: int| 0 <= k < i ==> (#[trigger] table@[k]).name@ != name@,
        decreases n - i,
    {
        if crate::config::str_eq(table[i].name.as_str(), name) {
            return Some(i);
        }
        i = i + 1;
    }
    None
}

} // verus!
