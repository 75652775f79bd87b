//! Packet, freelist, link ring, utility and parser behavior.

use rush::config;
use rush::engine;
use rush::link;
use rush::packet;

#[test]
fn align_rounds_up() {
    assert_eq!(rush::align(0, 8), 0);
    assert_eq!(rush::align(1, 8), 8);
    assert_eq!(rush::align(8, 8), 8);
    assert_eq!(rush::align(9, 8), 16);
    assert_eq!(rush::align(1000, 128), 1024);
}

#[test]
fn byte_order_swaps() {
    assert_eq!(rush::htonl(0x12345678), 0x78563412);
    assert_eq!(rush::ntohl(0x78563412), 0x12345678);
    assert_eq!(rush::htons(0x1234), 0x3412);
    assert_eq!(rush::ntohs(0x3412), 0x1234);
    assert_eq!(rush::ntohl(rush::htonl(0xdeadbeef)), 0xdeadbeef);
}

#[test]
fn fill_and_copy() {
    let mut v = vec![9u8; 16];
    rush::fill(&mut v, 4, 7);
    assert_eq!(&v[..6], &[7, 7, 7, 7, 9, 9]);
    let src = vec![1u8, 2, 3, 4];
    let mut dst = vec![0u8; 3];
    rush::copy(&mut dst, &src, 10);
    assert_eq!(dst, vec![1, 2, 3]);
}

#[test]
fn allocate_and_free() {
    let mut fl = packet::init();
    let mut stats = engine::EngineStats::new();
    assert_eq!(fl.nfree(), packet::FREELIST_SIZE);
    let mut p = packet::allocate(&mut fl);
    assert_eq!(p.length, 0);
    assert_eq!(fl.nfree(), packet::FREELIST_SIZE - 1);
    p.length = 1;
    p.data[0] = 42;
    packet::free(&mut fl, &mut stats, p);
    assert_eq!(fl.nfree(), packet::FREELIST_SIZE);
    assert_eq!(stats.frees, 1);
    assert_eq!(stats.freebytes, 1);
    // One byte of payload costs the minimum frame plus CRC and gap.
    assert_eq!(stats.freebits, (46 + 4 + 5) * 8);
}

#[test]
fn clone_copies_payload() {
    let mut fl = packet::init();
    let mut p = packet::allocate(&mut fl);
    p.length = 3;
    p.data[0] = 10;
    p.data[1] = 20;
    p.data[2] = 30;
    let q = packet::clone(&mut fl, &p);
    assert_eq!(q.length, 3);
    assert_eq!(&q.data[..3], &p.data[..3]);
    let mut stats = engine::EngineStats::new();
    packet::free(&mut fl, &mut stats, p);
    packet::free(&mut fl, &mut stats, q);
    assert_eq!(fl.nfree(), packet::FREELIST_SIZE);
}

#[test]
fn link_ring_stores_and_drops() {
    let mut fl = packet::init();
    let mut stats = engine::EngineStats::new();
    let mut r = link::new();
    assert!(link::empty(&r));
    assert!(!link::full(&r));
    let to_transmit: usize = 2000;
    for n in 1..=to_transmit {
        let mut p = packet::allocate(&mut fl);
        p.length = n as u16;
        p.data[n - 1] = 42;
        link::transmit(&mut r, p, &mut fl, &mut stats);
    }
    assert!(!link::empty(&r));
    assert!(link::full(&r));
    assert_eq!(r.txpackets, link::LINK_MAX_PACKETS as u64);
    assert_eq!(r.txdrop, (to_transmit - link::LINK_MAX_PACKETS) as u64);
    let mut n: usize = 0;
    while !link::empty(&mut r) {
        n += 1;
        let p = link::receive(&mut r);
        assert_eq!(p.length, n as u16);
        assert_eq!(p.data[n - 1], 42);
        packet::free(&mut fl, &mut stats, p);
    }
    assert_eq!(n, link::LINK_MAX_PACKETS);
    assert_eq!(r.rxpackets, r.txpackets);
    assert_eq!(r.rxbytes, r.txbytes);
    // Every packet is back on the freelist: stored ones were received and
    // freed, dropped ones were freed by transmit.
    assert_eq!(fl.nfree(), packet::FREELIST_SIZE);
}

#[test]
fn parse_link_grammar() {
    let ls = config::parse_link("source.output -> sink.input").unwrap();
    assert_eq!(ls.from, "source");
    assert_eq!(ls.output, "output");
    assert_eq!(ls.to, "sink");
    assert_eq!(ls.input, "input");

    let ls = config::parse_link("  a_1 . out2->b . in  ").unwrap();
    assert_eq!(ls.from, "a_1");
    assert_eq!(ls.output, "out2");
    assert_eq!(ls.to, "b");
    assert_eq!(ls.input, "in");

    assert!(config::parse_link("").is_none());
    assert!(config::parse_link("source.output").is_none());
    assert!(config::parse_link("source.output - sink.input").is_none());
    assert!(config::parse_link("1source.output -> sink.input").is_none());
    assert!(config::parse_link("source.output -> sink.input extra").is_none());
    assert!(config::parse_link("source..output -> sink.input").is_none());
}

#[test]
fn config_binds_and_replaces() {
    let mut c = config::new();
    config::app(
        &mut c,
        "source",
        engine::AppConfig::Source(rush::basic_apps::Source { size: 60 }),
    );
    config::app(&mut c, "sink", engine::AppConfig::Sink(rush::basic_apps::Sink {}));
    assert_eq!(c.apps.len(), 2);
    // Rebinding a name replaces its configuration in place.
    config::app(
        &mut c,
        "source",
        engine::AppConfig::Source(rush::basic_apps::Source { size: 120 }),
    );
    assert_eq!(c.apps.len(), 2);
    assert!(matches!(
        c.apps[0].conf,
        engine::AppConfig::Source(rush::basic_apps::Source { size: 120 })
    ));
    config::link(&mut c, "source.output -> sink.input");
    config::link(&mut c, "source.output -> sink.input");
    assert_eq!(c.links.len(), 1);
}

#[test]
fn loss_rate_formula() {
    assert_eq!(engine::loss_rate(0, 0), 0);
    assert_eq!(engine::loss_rate(5, 0), 0);
    assert_eq!(engine::loss_rate(0, 100), 0);
    assert_eq!(engine::loss_rate(25, 75), 25);
    assert_eq!(engine::loss_rate(1, 2), 33);
    assert_eq!(engine::loss_rate(u64::MAX / 2, u64::MAX / 2), 50);
}

#[test]
fn pacing_grows_and_halves() {
    let mut s = engine::init();
    // Idle breaths grow the sleep interval one microsecond at a time,
    // saturating at MAXSLEEP.
    for k in 1..=(engine::MAXSLEEP + 20) {
        let slept = engine::pace_breathing(&mut s);
        let expect = k.min(engine::MAXSLEEP);
        assert_eq!(s.sleep_micros, expect);
        assert_eq!(slept, expect);
    }
    // A breath that freed packets halves the interval and does not sleep.
    s.stats.frees += 7;
    let slept = engine::pace_breathing(&mut s);
    assert_eq!(slept, 0);
    assert_eq!(s.sleep_micros, engine::MAXSLEEP / 2);
    assert_eq!(s.lastfrees, s.stats.frees);
}

#[test]
fn timers_use_engine_time() {
    let mut s = engine::init();
    s.now_micros = 1000;
    let t = engine::timeout(&s, 500);
    assert!(!t.expired(&s));
    s.now_micros = 1500;
    assert!(!t.expired(&s));
    s.now_micros = 1501;
    assert!(t.expired(&s));
    assert_eq!(engine::now(&s), 1501);
}

#[test]
fn load_report_deltas() {
    let mut meter = engine::LoadMeter::new();
    let mut stats = engine::EngineStats::new();
    assert!(engine::report_load(&mut meter, &stats, 0).is_none());
    stats.frees = 10;
    stats.freebytes = 600;
    stats.freebits = 56304;
    stats.breaths = 5;
    let d = engine::report_load(&mut meter, &stats, 2_000_000).unwrap();
    assert_eq!(d.interval_micros, 2_000_000);
    assert_eq!(d.frees, 10);
    assert_eq!(d.freebytes, 600);
    assert_eq!(d.breaths, 5);
    assert_eq!(d.fpb, 2);
    assert_eq!(d.bpp, 60);
}
