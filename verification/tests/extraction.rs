use xcmp_queue::fee::FEE_FACTOR_UNIT;
use xcmp_queue::wire::decode_fragment;
use xcmp_queue::ChannelSignal;
use xcmp_queue::ChannelStatus;
use xcmp_queue::OutboundState;
use xcmp_queue::PageFormat;
use xcmp_queue::PeerChannel;
use xcmp_queue::QueueConfigData;
use xcmp_queue::QueueLimits;
use xcmp_queue::TransportSnapshot;
use xcmp_queue::XcmpQueue;

fn extraction_engine() -> XcmpQueue {
    XcmpQueue::new(
        QueueConfigData::default(),
        QueueLimits {
            max_page_size: 1000,
            max_active_outbound_channels: 8,
            max_inbound_suspended: 8,
            min_fee_factor: FEE_FACTOR_UNIT,
        },
    )
}

fn ready_channel() -> PeerChannel {
    PeerChannel {
        status: ChannelStatus::Ready(1001, 1001),
        max_message_size: 1000,
        max_total_size: 4096,
    }
}

#[test]
fn sole_write_extracts_and_decodes_back() {
    // Round trip: one fragment in, one page out, the payload decoding to
    // exactly the fragment.
    let mut q = extraction_engine();
    let mut t = TransportSnapshot::new();
    t.set_channel(7, ready_channel());
    let frag: Vec<u8> = (0u8..100u8).collect();
    assert_eq!(q.send_fragment(&t, 7, PageFormat::ConcatenatedPayload, &frag), Ok(1));
    let out = q.take_outbound_messages(&t, 10);
    assert_eq!(out.len(), 1);
    assert_eq!(out[0].0, 7);
    let page = &out[0].1;
    assert_eq!(page[0], 0); // the payload format header
    let (decoded, end) = decode_fragment(page, 1).expect("payload should decode");
    assert_eq!(decoded, frag);
    assert_eq!(end, page.len());
    // The queue is drained: nothing comes out next block.
    assert!(q.take_outbound_messages(&t, 10).is_empty());
    assert!(q.outbound_channel_state(7).is_none());
}

#[test]
fn closed_channel_is_purged() {
    let mut q = extraction_engine();
    let mut t = TransportSnapshot::new();
    t.set_channel(5, ready_channel());
    for _ in 0..3 {
        q.send_fragment(&t, 5, PageFormat::ConcatenatedPayload, &vec![1u8; 600]).unwrap();
    }
    q.send_signal(5, ChannelSignal::Suspend).unwrap();
    assert!(q.outbound_channel_state(5).is_some());
    // The transport now reports the channel closed.
    let mut closed = TransportSnapshot::new();
    closed.set_channel(
        5,
        PeerChannel { status: ChannelStatus::Closed, max_message_size: 1000, max_total_size: 4096 },
    );
    let out = q.take_outbound_messages(&closed, 10);
    assert!(out.is_empty());
    assert!(q.outbound_channel_state(5).is_none());
    // Nothing of the peer survives into a later block.
    t.set_channel(5, ready_channel());
    assert!(q.take_outbound_messages(&t, 10).is_empty());
}

#[test]
fn signals_go_ahead_of_data_and_beat_suspension() {
    let mut q = extraction_engine();
    let mut t = TransportSnapshot::new();
    t.set_channel(4, ready_channel());
    q.send_fragment(&t, 4, PageFormat::ConcatenatedPayload, &vec![8u8; 10]).unwrap();
    // The peer suspended us, but a pending signal is exempt.
    q.suspend_channel(4);
    q.send_signal(4, ChannelSignal::Resume).unwrap();
    let out = q.take_outbound_messages(&t, 10);
    assert_eq!(out.len(), 1);
    assert_eq!(out[0].1, vec![2u8, 1u8]); // a signal page: format 2, frame 1
    // Data stays back while the channel is suspended.
    assert!(q.take_outbound_messages(&t, 10).is_empty());
    q.resume_channel(4);
    let out = q.take_outbound_messages(&t, 10);
    assert_eq!(out.len(), 1);
    assert_eq!(out[0].1[0], 0u8);
}

#[test]
fn results_are_sorted_by_ascending_peer() {
    let mut q = extraction_engine();
    let mut t = TransportSnapshot::new();
    for peer in [30u32, 10, 20] {
        t.set_channel(peer, ready_channel());
        q.send_fragment(&t, peer, PageFormat::ConcatenatedPayload, &vec![peer as u8; 5]).unwrap();
    }
    let out = q.take_outbound_messages(&t, 10);
    let peers: Vec<u32> = out.iter().map(|e| e.0).collect();
    assert_eq!(peers, vec![10, 20, 30]);
}

#[test]
fn every_peer_is_served_within_a_round_of_blocks() {
    // Three peers, one extraction per block: after three blocks each peer's
    // page went out exactly once, none starved behind its neighbours.
    let mut q = extraction_engine();
    let mut t = TransportSnapshot::new();
    for peer in [1u32, 2, 3] {
        t.set_channel(peer, ready_channel());
        q.send_fragment(&t, peer, PageFormat::ConcatenatedPayload, &vec![peer as u8; 5]).unwrap();
    }
    let mut served: Vec<u32> = Vec::new();
    for _ in 0..3 {
        let out = q.take_outbound_messages(&t, 1);
        assert_eq!(out.len(), 1);
        served.push(out[0].0);
    }
    served.sort();
    assert_eq!(served, vec![1, 2, 3]);
    assert!(q.take_outbound_messages(&t, 1).is_empty());
}

#[test]
fn full_channel_is_skipped_with_state_kept() {
    let mut q = extraction_engine();
    let mut t = TransportSnapshot::new();
    t.set_channel(6, ready_channel());
    q.send_fragment(&t, 6, PageFormat::ConcatenatedPayload, &vec![1u8; 10]).unwrap();
    let mut full = TransportSnapshot::new();
    full.set_channel(
        6,
        PeerChannel { status: ChannelStatus::Full, max_message_size: 1000, max_total_size: 4096 },
    );
    assert!(q.take_outbound_messages(&full, 10).is_empty());
    assert_eq!(q.outbound_channel_state(6), Some((OutboundState::Open, 1)));
    assert_eq!(q.take_outbound_messages(&t, 10).len(), 1);
}

#[test]
fn occupancy_scenario_escalates_then_decays() {
    // Peer 2000, page limit 1000 bytes, channel capacity 4096 bytes: three
    // full pages escalate the fee exactly once; draining them brings the
    // factor back to the floor.
    let mut q = extraction_engine();
    let mut t = TransportSnapshot::new();
    t.set_channel(2000, ready_channel());
    let frag = vec![9u8; 997];
    for _ in 0..3 {
        q.send_fragment(&t, 2000, PageFormat::ConcatenatedPayload, &frag).unwrap();
    }
    assert_eq!(q.outbound_channel_state(2000), Some((OutboundState::Open, 3)));
    assert_eq!(q.get_fee_factor(2000), FEE_FACTOR_UNIT + FEE_FACTOR_UNIT / 20);
    // First block: 2000 bytes remain, at the threshold, so the factor
    // decays; it is floored at the configured minimum.
    assert_eq!(q.take_outbound_messages(&t, 1).len(), 1);
    assert_eq!(q.get_fee_factor(2000), FEE_FACTOR_UNIT);
    assert_eq!(q.take_outbound_messages(&t, 1).len(), 1);
    assert_eq!(q.take_outbound_messages(&t, 1).len(), 1);
    assert_eq!(q.get_fee_factor(2000), FEE_FACTOR_UNIT);
    assert!(q.outbound_channel_state(2000).is_none());
}

#[test]
fn clear_messages_resets_the_page_ranges() {
    let mut q = extraction_engine();
    let mut t = TransportSnapshot::new();
    t.set_channel(3, ready_channel());
    q.send_fragment(&t, 3, PageFormat::ConcatenatedPayload, &vec![1u8; 500]).unwrap();
    q.send_signal(3, ChannelSignal::Suspend).unwrap();
    q.clear_messages();
    assert_eq!(q.outbound_channel_state(3), Some((OutboundState::Open, 0)));
    // Only the pending signal is left to extract.
    let out = q.take_outbound_messages(&t, 10);
    assert_eq!(out.len(), 1);
    assert_eq!(out[0].1, vec![2u8, 0u8]);
}

#[test]
fn get_messages_decodes_everything_queued() {
    let mut q = extraction_engine();
    let mut t = TransportSnapshot::new();
    t.set_channel(8, ready_channel());
    t.set_channel(9, ready_channel());
    let a = vec![1u8, 2, 3];
    let b = vec![4u8; 600];
    let c = vec![5u8; 600];
    q.send_fragment(&t, 8, PageFormat::ConcatenatedPayload, &a).unwrap();
    q.send_fragment(&t, 9, PageFormat::ConcatenatedPayload, &b).unwrap();
    q.send_fragment(&t, 9, PageFormat::ConcatenatedPayload, &c).unwrap();
    let msgs = q.get_messages();
    assert_eq!(msgs.len(), 3);
    assert_eq!(msgs[0], (8, vec![a]));
    assert_eq!(msgs[1], (9, vec![b]));
    assert_eq!(msgs[2], (9, vec![c]));
}
