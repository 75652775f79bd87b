//! Driver ring logic: descriptor words, ring indices, batch receive,
//! transmit and clean.

use rush::engine;
use rush::ixgbe;
use rush::link;
use rush::packet;

#[test]
fn wrap_ring_wraps() {
    assert_eq!(ixgbe::wrap_ring(0, ixgbe::NUM_RX_QUEUE_ENTRIES), 1);
    assert_eq!(ixgbe::wrap_ring(510, ixgbe::NUM_RX_QUEUE_ENTRIES), 511);
    assert_eq!(ixgbe::wrap_ring(511, ixgbe::NUM_RX_QUEUE_ENTRIES), 0);
}

#[test]
fn descriptor_words() {
    assert!(ixgbe::rx_desc_done(0x01));
    assert!(!ixgbe::rx_desc_done(0x02));
    assert!(ixgbe::rx_desc_eop(0x03));
    assert!(ixgbe::tx_desc_done(0x01));
    let w = ixgbe::tx_cmd_type_len(60);
    assert_eq!(w, 0x2B30_0000 | 60);
    assert_eq!(ixgbe::tx_olinfo_status(60), 60 << 14);
}

#[test]
fn mac_register_roundtrip() {
    let mac = [0x52u8, 0x54, 0x00, 0x00, 0x00, 0x01];
    let (low, high) = ixgbe::mac_to_regs(&mac);
    assert_eq!(ixgbe::mac_from_regs(low, high), mac);
}

#[test]
fn link_speed_decoding() {
    assert_eq!(ixgbe::link_speed_from_reg(0), 0);
    assert_eq!(ixgbe::link_speed_from_reg(0x4000_0000 | 0x1000_0000), 100);
    assert_eq!(ixgbe::link_speed_from_reg(0x4000_0000 | 0x2000_0000), 1000);
    assert_eq!(ixgbe::link_speed_from_reg(0x4000_0000 | 0x3000_0000), 10000);
    // Link down reports zero regardless of the speed field.
    assert_eq!(ixgbe::link_speed_from_reg(0x3000_0000), 0);
}

#[test]
fn rx_batch_moves_done_descriptors() {
    let mut fl = packet::init();
    let mut stats = engine::EngineStats::new();
    let mut output = link::new();

    // The hardware owns one buffer per descriptor slot.
    let mut bufs = Vec::new();
    for _ in 0..ixgbe::NUM_RX_QUEUE_ENTRIES {
        bufs.push(packet::allocate(&mut fl));
    }
    let mut q = ixgbe::IxgbeRxQueue { bufs_in_use: bufs, rx_index: 510 };

    // The hardware finished three frames (wrapping the ring), of 60, 61
    // and 62 bytes; the fourth descriptor is still pending.
    let mut wb = Vec::new();
    for _ in 0..ixgbe::NUM_RX_QUEUE_ENTRIES {
        wb.push(ixgbe::RxWriteback { status: 0, length: 0 });
    }
    wb[510] = ixgbe::RxWriteback { status: 0x3, length: 60 };
    wb[511] = ixgbe::RxWriteback { status: 0x3, length: 61 };
    wb[0] = ixgbe::RxWriteback { status: 0x3, length: 62 };

    let n = ixgbe::rx_batch(&mut q, &wb, &mut output, &mut fl, &mut stats, 100);
    assert_eq!(n, 3);
    assert_eq!(q.rx_index, 1);
    assert_eq!(output.txpackets, 3);
    assert_eq!(output.txbytes, (60 + 61 + 62) as u64);
    let p = link::receive(&mut output);
    assert_eq!(p.length, 60);
    packet::free(&mut fl, &mut stats, p);
    let p = link::receive(&mut output);
    assert_eq!(p.length, 61);
    packet::free(&mut fl, &mut stats, p);
    let p = link::receive(&mut output);
    assert_eq!(p.length, 62);
    packet::free(&mut fl, &mut stats, p);
    assert!(link::empty(&output));
    // Three buffers were handed to the link and three fresh ones lent to
    // the hardware in their place.
    assert_eq!(q.bufs_in_use.len(), ixgbe::NUM_RX_QUEUE_ENTRIES);
    assert_eq!(
        fl.nfree(),
        packet::FREELIST_SIZE - ixgbe::NUM_RX_QUEUE_ENTRIES
    );
}

#[test]
fn tx_batch_queues_and_clean_reclaims() {
    let mut fl = packet::init();
    let mut stats = engine::EngineStats::new();
    let mut input = link::new();
    for _ in 0..40 {
        let mut p = packet::allocate(&mut fl);
        p.length = 60;
        link::transmit(&mut input, p, &mut fl, &mut stats);
    }
    let mut q = ixgbe::IxgbeTxQueue { bufs_in_use: Vec::new(), clean_index: 0, tx_index: 0 };

    // Nothing is done yet: all forty packets are queued to the hardware,
    // none reclaimed.
    let done_none = vec![false; ixgbe::NUM_TX_QUEUE_ENTRIES];
    let sent = ixgbe::tx_batch(&mut q, &mut input, &done_none, &mut fl, &mut stats);
    assert_eq!(sent, 40);
    assert!(link::empty(&input));
    assert_eq!(q.bufs_in_use.len(), 40);
    assert_eq!(q.tx_index, 40);
    assert_eq!(q.clean_index, 0);

    // The hardware reports the first batch done: one batch of
    // TX_CLEAN_BATCH packets is freed, the rest stay in flight.
    let mut done = vec![false; ixgbe::NUM_TX_QUEUE_ENTRIES];
    done[ixgbe::TX_CLEAN_BATCH - 1] = true;
    let clean = ixgbe::clean_tx_queue(&mut q, &done, &mut fl, &mut stats);
    assert_eq!(clean, ixgbe::TX_CLEAN_BATCH);
    assert_eq!(q.bufs_in_use.len(), 40 - ixgbe::TX_CLEAN_BATCH);
    assert_eq!(stats.frees, ixgbe::TX_CLEAN_BATCH as u64);
    assert_eq!(stats.freebytes, (ixgbe::TX_CLEAN_BATCH * 60) as u64);
    assert_eq!(
        fl.nfree(),
        packet::FREELIST_SIZE - 40 + ixgbe::TX_CLEAN_BATCH
    );

    // Fewer than a whole batch remains pending: nothing more is freed
    // and the clean cursor stays put, however the done flags read.
    let all_done = vec![true; ixgbe::NUM_TX_QUEUE_ENTRIES];
    let clean2 = ixgbe::clean_tx_queue(&mut q, &all_done, &mut fl, &mut stats);
    assert_eq!(clean2, ixgbe::TX_CLEAN_BATCH);
    assert_eq!(q.bufs_in_use.len(), 40 - ixgbe::TX_CLEAN_BATCH);
    assert_eq!(stats.frees, ixgbe::TX_CLEAN_BATCH as u64);
}

#[test]
fn tx_batch_stops_when_ring_full() {
    let mut fl = packet::init();
    let mut stats = engine::EngineStats::new();
    let mut input = link::new();
    for _ in 0..600 {
        let mut p = packet::allocate(&mut fl);
        p.length = 60;
        link::transmit(&mut input, p, &mut fl, &mut stats);
    }
    let mut q = ixgbe::IxgbeTxQueue { bufs_in_use: Vec::new(), clean_index: 0, tx_index: 0 };
    let done_none = vec![false; ixgbe::NUM_TX_QUEUE_ENTRIES];
    let sent = ixgbe::tx_batch(&mut q, &mut input, &done_none, &mut fl, &mut stats);
    // One ring slot always stays empty.
    assert_eq!(sent, ixgbe::NUM_TX_QUEUE_ENTRIES - 1);
    assert_eq!(q.bufs_in_use.len(), ixgbe::NUM_TX_QUEUE_ENTRIES - 1);
    assert_eq!(input.rxpackets, sent as u64);
    assert!(!link::empty(&input));
}
