use xcmp_queue::fee::FEE_FACTOR_UNIT;
use xcmp_queue::ChannelSignal;
use xcmp_queue::QueueError;
use xcmp_queue::ChannelStatus;
use xcmp_queue::MessageSendError;
use xcmp_queue::PageFormat;
use xcmp_queue::PeerChannel;
use xcmp_queue::QueueConfigData;
use xcmp_queue::QueueLimits;
use xcmp_queue::TransportSnapshot;
use xcmp_queue::XcmpQueue;

fn writer_engine(max_channels: u32) -> XcmpQueue {
    XcmpQueue::new(
        QueueConfigData::default(),
        QueueLimits {
            max_page_size: 1000,
            max_active_outbound_channels: max_channels,
            max_inbound_suspended: 8,
            min_fee_factor: FEE_FACTOR_UNIT,
        },
    )
}

fn writer_transport(peer: u32) -> TransportSnapshot {
    let mut t = TransportSnapshot::new();
    t.set_channel(
        peer,
        PeerChannel {
            status: ChannelStatus::Ready(1001, 1001),
            max_message_size: 1000,
            max_total_size: 4096,
        },
    );
    t
}

#[test]
fn fitting_fragment_is_never_too_big() {
    // Every fragment whose wire size (length prefix, bytes, format header)
    // stays within the limit is accepted.
    let mut q = writer_engine(4);
    let t = writer_transport(9);
    for len in [0usize, 1, 63, 64, 200, 997] {
        let frag = vec![7u8; len];
        let r = q.send_fragment(&t, 9, PageFormat::ConcatenatedPayload, &frag);
        assert!(r.is_ok(), "fragment of {} bytes was rejected", len);
    }
}

#[test]
fn oversize_fragment_is_rejected_exactly_at_the_boundary() {
    let mut q = writer_engine(4);
    let t = writer_transport(9);
    // 997 bytes encode to 999 wire bytes; the header makes 1000 == limit.
    let fits = vec![1u8; 997];
    assert!(q.send_fragment(&t, 9, PageFormat::ConcatenatedPayload, &fits).is_ok());
    // One more byte pushes the wire size to 1001.
    let too_big = vec![1u8; 998];
    assert_eq!(
        q.send_fragment(&t, 9, PageFormat::ConcatenatedPayload, &too_big),
        Err(MessageSendError::TooBig)
    );
}

#[test]
fn unknown_peer_is_rejected() {
    let mut q = writer_engine(4);
    let t = writer_transport(9);
    assert_eq!(
        q.send_fragment(&t, 10, PageFormat::ConcatenatedPayload, &vec![1u8]),
        Err(MessageSendError::NoChannel)
    );
}

#[test]
fn full_registry_rejects_new_peers() {
    let mut q = writer_engine(1);
    let mut t = writer_transport(1);
    t.set_channel(
        2,
        PeerChannel {
            status: ChannelStatus::Ready(1001, 1001),
            max_message_size: 1000,
            max_total_size: 4096,
        },
    );
    assert!(q.send_fragment(&t, 1, PageFormat::ConcatenatedPayload, &vec![1u8]).is_ok());
    assert_eq!(
        q.send_fragment(&t, 2, PageFormat::ConcatenatedPayload, &vec![1u8]),
        Err(MessageSendError::TooManyChannels)
    );
    // The peer that already holds a page can keep writing.
    assert!(q.send_fragment(&t, 1, PageFormat::ConcatenatedPayload, &vec![2u8]).is_ok());
}

#[test]
fn fragments_append_until_the_page_is_full() {
    let mut q = writer_engine(4);
    let t = writer_transport(9);
    // 400-byte fragments take 402 wire bytes; two fit one 1000-byte page.
    let frag = vec![3u8; 400];
    assert_eq!(q.send_fragment(&t, 9, PageFormat::ConcatenatedPayload, &frag), Ok(1));
    assert_eq!(q.send_fragment(&t, 9, PageFormat::ConcatenatedPayload, &frag), Ok(1));
    // The third no longer fits the active page and opens a new one.
    assert_eq!(q.send_fragment(&t, 9, PageFormat::ConcatenatedPayload, &frag), Ok(2));
}

#[test]
fn format_mismatch_drops_the_message() {
    let mut q = writer_engine(4);
    let t = writer_transport(9);
    let frag = vec![3u8; 10];
    assert_eq!(q.send_fragment(&t, 9, PageFormat::ConcatenatedPayload, &frag), Ok(1));
    // A fragment of another format against an active page is dropped: the
    // page count is reported unchanged and nothing is written.
    assert_eq!(q.send_fragment(&t, 9, PageFormat::UnsupportedBlob, &frag), Ok(1));
    assert_eq!(q.send_fragment(&t, 9, PageFormat::ConcatenatedPayload, &frag), Ok(1));
}

#[test]
fn threshold_crossing_write_escalates_the_fee_once() {
    // Three full pages of estimated occupancy 1000, 2000 and 3000 bytes
    // against a threshold of 4096 / 2: only the third write escalates.
    let mut q = writer_engine(4);
    let t = writer_transport(2000);
    let frag = vec![9u8; 997];
    assert_eq!(q.get_fee_factor(2000), FEE_FACTOR_UNIT);
    assert_eq!(q.send_fragment(&t, 2000, PageFormat::ConcatenatedPayload, &frag), Ok(1));
    assert_eq!(q.get_fee_factor(2000), FEE_FACTOR_UNIT);
    assert_eq!(q.send_fragment(&t, 2000, PageFormat::ConcatenatedPayload, &frag), Ok(2));
    assert_eq!(q.get_fee_factor(2000), FEE_FACTOR_UNIT);
    assert_eq!(q.send_fragment(&t, 2000, PageFormat::ConcatenatedPayload, &frag), Ok(3));
    assert_eq!(q.get_fee_factor(2000), FEE_FACTOR_UNIT + FEE_FACTOR_UNIT / 20);
}

#[test]
fn set_fee_factor_is_floored() {
    let mut q = writer_engine(4);
    q.set_fee_factor(5, 1);
    assert_eq!(q.get_fee_factor(5), FEE_FACTOR_UNIT);
    q.set_fee_factor(5, 3 * FEE_FACTOR_UNIT);
    assert_eq!(q.get_fee_factor(5), 3 * FEE_FACTOR_UNIT);
}

#[test]
fn signal_path_reports_a_full_registry() {
    let mut q = writer_engine(1);
    let t = writer_transport(1);
    assert!(q.send_fragment(&t, 1, PageFormat::ConcatenatedPayload, &vec![1u8]).is_ok());
    assert_eq!(
        q.send_signal(2, ChannelSignal::Suspend),
        Err(QueueError::TooManyActiveOutboundChannels)
    );
    // The peer that holds the record can still be signalled.
    assert_eq!(q.send_signal(1, ChannelSignal::Suspend), Ok(()));
}

#[test]
fn congestion_callback_retries_after_a_failed_signal() {
    let mut q = writer_engine(1);
    let t = writer_transport(1);
    assert!(q.send_fragment(&t, 1, PageFormat::ConcatenatedPayload, &vec![1u8]).is_ok());
    // No room for peer 2's record: the suspend signal fails and the peer is
    // left unmarked, to be retried on the next depth report.
    q.on_queue_changed(2, 40);
    assert!(!q.is_inbound_channel_suspended(2));
}

#[test]
fn exhausted_page_index_space_is_fatal() {
    let mut q = XcmpQueue::new(
        QueueConfigData::default(),
        QueueLimits {
            max_page_size: 4,
            max_active_outbound_channels: 1,
            max_inbound_suspended: 1,
            min_fee_factor: FEE_FACTOR_UNIT,
        },
    );
    let mut t = TransportSnapshot::new();
    t.set_channel(
        1,
        PeerChannel { status: ChannelStatus::Full, max_message_size: 4, max_total_size: 1 << 20 },
    );
    // Two-byte fragments fill a four-byte page each, so every write opens a
    // fresh page until the sixteen-bit index space is spent.
    let frag = vec![1u8];
    for _ in 0..u16::MAX {
        assert!(q.send_fragment(&t, 1, PageFormat::ConcatenatedPayload, &frag).is_ok());
    }
    assert_eq!(
        q.send_fragment(&t, 1, PageFormat::ConcatenatedPayload, &frag),
        Err(MessageSendError::Fatal)
    );
}
