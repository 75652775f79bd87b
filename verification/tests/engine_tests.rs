//! End-to-end engine scenarios: configuration, breathing, migration.

use rush::basic_apps::{Sink, Source, SourceSink, Tee};
use rush::config;
use rush::engine;
use rush::engine::AppConfig;
use rush::packet;

fn link_index(s: &engine::EngineState, spec: &str) -> usize {
    let mut i = 0;
    while i < s.link_table.len() {
        if s.link_table[i].spec.as_str() == spec {
            return i;
        }
        i += 1;
    }
    panic!("no such link");
}

#[test]
fn source_sink_one_breath() {
    let mut s = engine::init();
    let mut c = config::new();
    config::app(&mut c, "source", AppConfig::Source(Source { size: 60 }));
    config::app(&mut c, "sink", AppConfig::Sink(Sink {}));
    config::link(&mut c, "source.output -> sink.input");
    engine::configure(&mut s, &c);
    engine::breathe(&mut s, 0);
    let li = link_index(&s, "source.output -> sink.input");
    let l = &s.link_table[li].link;
    assert_eq!(l.txpackets, 102);
    assert_eq!(l.rxpackets, 102);
    assert_eq!(l.txbytes, 6120);
    assert_eq!(l.rxbytes, 6120);
    assert_eq!(l.txdrop, 0);
    assert_eq!(s.stats.frees, 102);
    assert_eq!(s.stats.freebytes, 6120);
    // (max(60, 46) + 4 + 5) * 8 bits per packet, 102 packets.
    assert_eq!(s.stats.freebits, 56_304);
    assert_eq!(s.stats.breaths, 1);
    assert_eq!(s.fl.nfree(), packet::FREELIST_SIZE);
}

#[test]
fn reconfigure_size_keeps_link_counters() {
    let mut s = engine::init();
    let mut c = config::new();
    config::app(&mut c, "source", AppConfig::Source(Source { size: 60 }));
    config::app(&mut c, "sink", AppConfig::Sink(Sink {}));
    config::link(&mut c, "source.output -> sink.input");
    engine::configure(&mut s, &c);
    engine::breathe(&mut s, 0);

    // Same link spec, new source size: the source app is recreated, the
    // link is retained and its counters continue.
    config::app(&mut c, "source", AppConfig::Source(Source { size: 120 }));
    engine::configure(&mut s, &c);
    let si = s
        .app_table
        .iter()
        .position(|a| a.name.as_str() == "source")
        .unwrap();
    assert!(matches!(
        s.app_table[si].conf,
        AppConfig::Source(Source { size: 120 })
    ));
    engine::breathe(&mut s, 1);
    let li = link_index(&s, "source.output -> sink.input");
    let l = &s.link_table[li].link;
    assert_eq!(l.txpackets, 204);
    assert_eq!(l.txbytes, 6120 + 102 * 120);
    assert_eq!(s.stats.frees, 204);
    assert_eq!(s.stats.freebytes, 6120 + 102 * 120);
    assert_eq!(s.stats.freebits, 56_304 + (120 + 4 + 5) * 8 * 102);
}

#[test]
fn configure_is_idempotent() {
    let mut s = engine::init();
    let mut c = config::new();
    config::app(&mut c, "source", AppConfig::Source(Source { size: 60 }));
    config::app(&mut c, "sink", AppConfig::Sink(Sink {}));
    config::link(&mut c, "source.output -> sink.input");
    engine::configure(&mut s, &c);
    engine::breathe(&mut s, 0);
    let li = link_index(&s, "source.output -> sink.input");
    let tx_before = s.link_table[li].link.txpackets;
    assert!(tx_before > 0);

    // Applying the same configuration again tears nothing down: the link
    // keeps its counters, the apps keep their configurations.
    engine::configure(&mut s, &c);
    let li = link_index(&s, "source.output -> sink.input");
    assert_eq!(s.link_table[li].link.txpackets, tx_before);
    assert_eq!(s.app_table.len(), 2);
    assert_eq!(s.link_table.len(), 1);
}

#[test]
fn tee_fans_out_and_clones() {
    let mut s = engine::init();
    let mut c = config::new();
    config::app(&mut c, "source", AppConfig::Source(Source { size: 60 }));
    config::app(&mut c, "tee", AppConfig::Tee(Tee {}));
    config::app(&mut c, "sink1", AppConfig::Sink(Sink {}));
    config::app(&mut c, "sink2", AppConfig::Sink(Sink {}));
    config::link(&mut c, "source.output -> tee.input");
    config::link(&mut c, "tee.output -> sink1.input");
    config::link(&mut c, "tee.output2 -> sink2.input");
    engine::configure(&mut s, &c);
    engine::breathe(&mut s, 0);
    let l1 = &s.link_table[link_index(&s, "tee.output -> sink1.input")].link;
    let l2 = &s.link_table[link_index(&s, "tee.output2 -> sink2.input")].link;
    assert_eq!(l1.txpackets, 102);
    assert_eq!(l2.txpackets, 102);
    assert_eq!(l1.rxpackets, 102);
    assert_eq!(l2.rxpackets, 102);
    // The tee clones each input packet per output and frees the original:
    // 102 originals plus 204 clones.
    assert_eq!(s.stats.frees, 306);
    assert_eq!(s.stats.freebytes, 306 * 60);
    assert_eq!(s.fl.nfree(), packet::FREELIST_SIZE);
}

#[test]
fn tee_clones_carry_payload_bytes() {
    // Drive a Tee directly: distinctive payloads on its input link must
    // reappear, byte for byte, in the clones on its output link.
    let mut fl = packet::init();
    let mut stats = engine::EngineStats::new();
    let mut links = vec![
        engine::LinkEntry { spec: String::from("t.input"), link: rush::link::new() },
        engine::LinkEntry { spec: String::from("t.output"), link: rush::link::new() },
    ];
    for n in 0..5u16 {
        let mut p = packet::allocate(&mut fl);
        p.length = 4;
        p.data[0] = 0xA0 + n as u8;
        p.data[1] = n as u8;
        p.data[2] = 0x55;
        p.data[3] = 0xAA;
        rush::link::transmit(&mut links[0].link, p, &mut fl, &mut stats);
    }
    let input = vec![engine::Port { name: String::from("input"), link: 0 }];
    let output = vec![engine::Port { name: String::from("output"), link: 1 }];
    let tee = rush::basic_apps::TeeApp {};
    tee.push(&input, &output, &mut links, &mut fl, &mut stats);
    assert!(rush::link::empty(&links[0].link));
    for n in 0..5u16 {
        let q = rush::link::receive(&mut links[1].link);
        assert_eq!(q.length, 4);
        assert_eq!(q.data[0], 0xA0 + n as u8);
        assert_eq!(q.data[1], n as u8);
        assert_eq!(q.data[2], 0x55);
        assert_eq!(q.data[3], 0xAA);
        packet::free(&mut fl, &mut stats, q);
    }
    assert_eq!(fl.nfree(), packet::FREELIST_SIZE);
}

#[test]
fn overflow_counts_drops() {
    let mut s = engine::init();
    let mut c = config::new();
    config::app(&mut c, "source", AppConfig::Source(Source { size: 60 }));
    // The consumer never pushes, so the link can only fill up.
    config::app(&mut c, "blackhole", AppConfig::Source(Source { size: 60 }));
    config::link(&mut c, "source.output -> blackhole.input");
    engine::configure(&mut s, &c);
    for t in 0..11 {
        engine::breathe(&mut s, t);
    }
    let li = link_index(&s, "source.output -> blackhole.input");
    let l = &s.link_table[li].link;
    // Ten breaths store 1020 packets; the eleventh stores three and drops
    // the rest; the blackhole also produced onto no link at all.
    assert_eq!(l.txpackets, 1023);
    assert_eq!(l.txdrop, 99);
    assert_eq!(s.stats.frees, 99);
    let tx_before = l.txpackets;
    engine::breathe(&mut s, 11);
    let l = &s.link_table[li].link;
    assert_eq!(l.txpackets, tx_before);
    assert_eq!(l.txdrop, 99 + 102);
    assert_eq!(s.fl.nfree(), packet::FREELIST_SIZE - 1023);
}

fn cycle_config() -> config::Config {
    let mut c = config::new();
    config::app(&mut c, "a_io1", AppConfig::SourceSink(SourceSink { size: 60 }));
    config::app(&mut c, "b_t1", AppConfig::Tee(Tee {}));
    config::app(&mut c, "c_t2", AppConfig::Tee(Tee {}));
    config::app(&mut c, "d_t3", AppConfig::Tee(Tee {}));
    config::link(&mut c, "a_io1.output -> b_t1.input");
    config::link(&mut c, "b_t1.output -> c_t2.input");
    config::link(&mut c, "b_t1.output2 -> d_t3.input");
    config::link(&mut c, "d_t3.output -> b_t1.input2");
    c
}

#[test]
fn cycle_graph_schedule_and_teardown() {
    let c = cycle_config();
    let mut s = engine::init();
    engine::configure(&mut s, &c);
    // The producing app comes first in the inhale phase (it is the only
    // pull-capable app in this graph).
    assert_eq!(s.inhale.len(), 1);
    assert_eq!(s.app_table[s.inhale[0]].name.as_str(), "a_io1");
    let inhale1 = s.inhale.clone();
    let exhale1: Vec<String> = s
        .exhale
        .iter()
        .map(|&i| s.app_table[i].name.clone())
        .collect();

    // The same configuration yields the same schedule, deterministically.
    let mut c2 = cycle_config();
    engine::configure(&mut s, &c2);
    assert_eq!(s.inhale, inhale1);
    let exhale2: Vec<String> = s
        .exhale
        .iter()
        .map(|&i| s.app_table[i].name.clone())
        .collect();
    assert_eq!(exhale1, exhale2);

    // Breathe through the cycle without deadlock.
    for t in 0..5 {
        engine::breathe(&mut s, t);
    }

    // Tear down: retire the producer and break the cycle so the tees
    // drain every link, then remove everything. No packet may be lost.
    config::app(&mut c2, "a_io1", AppConfig::Sink(Sink {}));
    config::app(&mut c2, "d_t3", AppConfig::Sink(Sink {}));
    engine::configure(&mut s, &c2);
    for t in 5..10 {
        engine::breathe(&mut s, t);
    }
    for e in &s.link_table {
        assert_eq!(e.link.txpackets, e.link.rxpackets);
    }
    let empty = config::new();
    engine::configure(&mut s, &empty);
    assert_eq!(s.app_table.len(), 0);
    assert_eq!(s.link_table.len(), 0);
    assert_eq!(s.fl.nfree(), packet::FREELIST_SIZE);
}

#[test]
fn report_links_sorted_by_name() {
    let mut s = engine::init();
    let mut c = config::new();
    config::app(&mut c, "zeta", AppConfig::Source(Source { size: 60 }));
    config::app(&mut c, "alpha", AppConfig::Sink(Sink {}));
    config::app(&mut c, "mid", AppConfig::Tee(Tee {}));
    config::link(&mut c, "zeta.output -> mid.input");
    config::link(&mut c, "mid.output -> alpha.input");
    engine::configure(&mut s, &c);
    engine::breathe(&mut s, 0);
    let report = engine::report_links(&s);
    assert_eq!(report.len(), 2);
    assert_eq!(report[0].name.as_str(), "mid.output -> alpha.input");
    assert_eq!(report[1].name.as_str(), "zeta.output -> mid.input");
    assert_eq!(report[1].txpackets, 102);
    assert_eq!(report[0].lossrate, 0);
}

#[test]
fn tx_rx_balance_matches_queued() {
    let mut s = engine::init();
    let mut c = config::new();
    config::app(&mut c, "source", AppConfig::Source(Source { size: 60 }));
    config::app(&mut c, "idle", AppConfig::Source(Source { size: 60 }));
    config::link(&mut c, "source.output -> idle.input");
    engine::configure(&mut s, &c);
    engine::breathe(&mut s, 0);
    engine::breathe(&mut s, 1);
    // Transmitted minus received equals what still sits on the links, and
    // together with the freelist accounts for every packet.
    let mut tx: u64 = 0;
    let mut rx: u64 = 0;
    for e in &s.link_table {
        tx += e.link.txpackets;
        rx += e.link.rxpackets;
    }
    assert!(tx >= rx);
    assert_eq!((tx - rx) as usize, packet::FREELIST_SIZE - s.fl.nfree());
    assert_eq!(tx - rx, 204);
}
