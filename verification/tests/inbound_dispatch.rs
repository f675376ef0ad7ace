use xcmp_queue::wire::encode_fragment_into;
use xcmp_queue::Budget;
use xcmp_queue::ChannelStatus;
use xcmp_queue::CollectingSink;
use xcmp_queue::OutboundState;
use xcmp_queue::PageFormat;
use xcmp_queue::PeerChannel;
use xcmp_queue::ProcessCosts;
use xcmp_queue::QueueConfigData;
use xcmp_queue::QueueLimits;
use xcmp_queue::TransportSnapshot;
use xcmp_queue::XcmpQueue;

fn inbound_engine() -> XcmpQueue {
    XcmpQueue::new(
        QueueConfigData::default(),
        QueueLimits {
            max_page_size: 1000,
            max_active_outbound_channels: 4,
            max_inbound_suspended: 2,
            min_fee_factor: 1_000_000_000_000_000_000,
        },
    )
}

fn unit_costs() -> ProcessCosts {
    ProcessCosts { signal_process: 1, message_decode: 1, batch_enqueue: 1, first_touch: 1 }
}

fn payload_page(items: &[Vec<u8>]) -> Vec<u8> {
    let mut page = vec![0u8];
    for item in items {
        encode_fragment_into(&mut page, item);
    }
    page
}

#[test]
fn suspend_then_resume_retains_queued_pages() {
    // A Suspend frame followed by a Resume frame from peer 11 leaves its
    // outbound record Open, with the page queued meanwhile still there.
    let mut q = inbound_engine();
    let mut t = TransportSnapshot::new();
    t.set_channel(
        11,
        PeerChannel {
            status: ChannelStatus::Ready(1001, 1001),
            max_message_size: 1000,
            max_total_size: 4096,
        },
    );
    q.send_fragment(&t, 11, PageFormat::ConcatenatedPayload, &vec![5u8; 20]).unwrap();
    let mut sink = CollectingSink::new(100);
    let mut budget = Budget::new(100);
    let pages = vec![(11u32, vec![2u8, 0u8])];
    q.handle_xcmp_messages(&pages, &unit_costs(), &mut budget, &mut sink);
    assert_eq!(q.outbound_channel_state(11), Some((OutboundState::Suspended, 1)));
    let pages = vec![(11u32, vec![2u8, 1u8])];
    q.handle_xcmp_messages(&pages, &unit_costs(), &mut budget, &mut sink);
    assert_eq!(q.outbound_channel_state(11), Some((OutboundState::Open, 1)));
    // The retained page still extracts.
    assert_eq!(q.take_outbound_messages(&t, 10).len(), 1);
}

#[test]
fn both_frames_in_one_page_work_too() {
    let mut q = inbound_engine();
    let mut sink = CollectingSink::new(100);
    let mut budget = Budget::new(100);
    // Suspend, then resume: the drained record is removed again.
    let pages = vec![(12u32, vec![2u8, 0u8, 1u8])];
    q.handle_xcmp_messages(&pages, &unit_costs(), &mut budget, &mut sink);
    assert!(q.outbound_channel_state(12).is_none());
    assert_eq!(budget.remaining, 98);
}

#[test]
fn exhausted_budget_halts_signal_processing() {
    let mut q = inbound_engine();
    let mut sink = CollectingSink::new(100);
    let mut budget = Budget::new(1);
    let pages = vec![(13u32, vec![2u8, 0u8, 1u8])];
    q.handle_xcmp_messages(&pages, &unit_costs(), &mut budget, &mut sink);
    // Only the Suspend frame was afforded; the record stays suspended.
    assert_eq!(q.outbound_channel_state(13), Some((OutboundState::Suspended, 0)));
    assert_eq!(budget.remaining, 0);
}

#[test]
fn undecodable_frame_stops_the_page_only() {
    let mut q = inbound_engine();
    let mut sink = CollectingSink::new(100);
    let mut budget = Budget::new(100);
    // A bad frame byte ends the first page; the second page still runs.
    let pages = vec![(14u32, vec![2u8, 9u8, 1u8]), (15u32, vec![2u8, 0u8])];
    q.handle_xcmp_messages(&pages, &unit_costs(), &mut budget, &mut sink);
    assert!(q.outbound_channel_state(14).is_none());
    assert_eq!(q.outbound_channel_state(15), Some((OutboundState::Suspended, 0)));
}

#[test]
fn unknown_and_blob_pages_are_dropped() {
    let mut q = inbound_engine();
    let mut sink = CollectingSink::new(100);
    let mut budget = Budget::new(100);
    let pages = vec![
        (16u32, vec![9u8, 1, 2, 3]), // unknown format byte
        (16u32, vec![1u8, 1, 2, 3]), // an unsupported blob page
        (16u32, Vec::new()),         // an empty page
    ];
    q.handle_xcmp_messages(&pages, &unit_costs(), &mut budget, &mut sink);
    assert_eq!(budget.remaining, 100);
    assert!(sink.batches.is_empty());
}

#[test]
fn payload_fragments_reach_the_downstream_consumer() {
    let mut q = inbound_engine();
    let mut sink = CollectingSink::new(100);
    let mut budget = Budget::new(100);
    let items = vec![vec![1u8, 2, 3], vec![4u8, 5], Vec::new()];
    let pages = vec![(17u32, payload_page(&items))];
    q.handle_xcmp_messages(&pages, &unit_costs(), &mut budget, &mut sink);
    assert_eq!(sink.batches.len(), 1);
    assert_eq!(sink.batches[0].0, 17);
    assert_eq!(sink.batches[0].1, items);
    // first touch, three decodes, one batch
    assert_eq!(budget.remaining, 100 - 1 - 3 - 1);
}

#[test]
fn garbled_payload_is_truncated_with_the_prefix_forwarded() {
    let mut q = inbound_engine();
    let mut sink = CollectingSink::new(100);
    let mut budget = Budget::new(100);
    let mut page = payload_page(&[vec![1u8, 2, 3]]);
    page.extend_from_slice(&[0x0Du8]); // a length prefix pointing past the end
    let pages = vec![(18u32, page)];
    q.handle_xcmp_messages(&pages, &unit_costs(), &mut budget, &mut sink);
    assert_eq!(sink.batches.len(), 1);
    assert_eq!(sink.batches[0].1, vec![vec![1u8, 2, 3]]);
}

#[test]
fn consumer_rejection_stops_the_peer_for_the_block() {
    let mut q = inbound_engine();
    // The consumer takes one item in all: the rest of peer 19's batch is
    // dropped and its second page is never offered; peer 20's batch is
    // still offered, though the consumer takes nothing of it.
    let mut sink = CollectingSink::new(1);
    let mut budget = Budget::new(100);
    let pages = vec![
        (19u32, payload_page(&[vec![1u8], vec![2u8]])),
        (19u32, payload_page(&[vec![3u8]])),
        (20u32, payload_page(&[vec![4u8]])),
    ];
    q.handle_xcmp_messages(&pages, &unit_costs(), &mut budget, &mut sink);
    assert_eq!(sink.batches.len(), 2);
    assert_eq!(sink.batches[0].0, 19);
    assert_eq!(sink.batches[0].1, vec![vec![1u8]]);
    assert_eq!(sink.batches[1].0, 20);
    assert!(sink.batches[1].1.is_empty());
}

#[test]
fn queue_depth_callback_suspends_and_resumes() {
    let mut q = inbound_engine();
    // Depth at the suspend threshold: a Suspend signal is stored and the
    // peer marked.
    q.on_queue_changed(21, 32);
    assert!(q.is_inbound_channel_suspended(21));
    let state = q.outbound_channel_state(21).unwrap();
    assert_eq!(state.0, OutboundState::Open);
    // Depth back at the resume threshold: a Resume signal replaces it and
    // the mark is lifted.
    q.on_queue_changed(21, 8);
    assert!(!q.is_inbound_channel_suspended(21));
    // The pending signal extracts as the latest one written.
    let mut t = TransportSnapshot::new();
    t.set_channel(
        21,
        PeerChannel {
            status: ChannelStatus::Ready(1001, 1001),
            max_message_size: 1000,
            max_total_size: 4096,
        },
    );
    let out = q.take_outbound_messages(&t, 10);
    assert_eq!(out.len(), 1);
    assert_eq!(out[0].1, vec![2u8, 1u8]);
}

#[test]
fn depth_between_thresholds_changes_nothing() {
    let mut q = inbound_engine();
    q.on_queue_changed(22, 20);
    assert!(!q.is_inbound_channel_suspended(22));
    assert!(q.outbound_channel_state(22).is_none());
}

#[test]
fn suspended_set_capacity_is_best_effort() {
    let mut q = inbound_engine();
    q.on_queue_changed(31, 40);
    q.on_queue_changed(32, 40);
    assert!(q.is_inbound_channel_suspended(31));
    assert!(q.is_inbound_channel_suspended(32));
    // The set holds two peers at most: the third signal still goes out, but
    // the peer cannot be tracked.
    q.on_queue_changed(33, 40);
    assert!(!q.is_inbound_channel_suspended(33));
    assert!(q.outbound_channel_state(33).is_some());
}

#[test]
fn unaffordable_first_touch_halts_before_anything_happens() {
    let mut q = inbound_engine();
    let mut sink = CollectingSink::new(100);
    // The surcharge costs one unit; nothing is left, so the sole payload
    // page is left unprocessed and nothing moves.
    let mut budget = Budget::new(0);
    let pages = vec![(23u32, payload_page(&[vec![1u8]]))];
    q.handle_xcmp_messages(&pages, &unit_costs(), &mut budget, &mut sink);
    assert_eq!(budget.remaining, 0);
    assert!(sink.batches.is_empty());
    assert!(q.outbound_channel_state(23).is_none());
}
