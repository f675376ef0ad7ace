use xcmp_queue::wire::decode_compact;
use xcmp_queue::wire::decode_format;
use xcmp_queue::wire::decode_fragment;
use xcmp_queue::wire::decode_signal;
use xcmp_queue::wire::encode_compact_into;
use xcmp_queue::wire::encode_format;
use xcmp_queue::wire::encode_fragment_into;
use xcmp_queue::wire::encode_signal;
use xcmp_queue::ChannelSignal;
use xcmp_queue::PageFormat;

fn compact_roundtrip_case(n: u32, expected_len: usize) {
    let mut buf: Vec<u8> = Vec::new();
    encode_compact_into(&mut buf, n);
    assert_eq!(buf.len(), expected_len);
    let decoded = decode_compact(&buf, 0).expect("compact value should decode");
    assert_eq!(decoded, (n, expected_len));
}

#[test]
fn compact_encoding_roundtrips_at_boundaries() {
    compact_roundtrip_case(0, 1);
    compact_roundtrip_case(1, 1);
    compact_roundtrip_case(63, 1);
    compact_roundtrip_case(64, 2);
    compact_roundtrip_case(16383, 2);
    compact_roundtrip_case(16384, 4);
    compact_roundtrip_case(0x3FFF_FFFF, 4);
    compact_roundtrip_case(0x4000_0000, 5);
    compact_roundtrip_case(u32::MAX, 5);
}

#[test]
fn non_canonical_compact_is_rejected() {
    // The value 1 stored in the two-byte mode: 1 << 2 | 1.
    let buf = vec![0b0000_0101u8, 0x00];
    assert!(decode_compact(&buf, 0).is_none());
    // A truncated two-byte mode.
    let buf = vec![0b0000_0001u8];
    assert!(decode_compact(&buf, 0).is_none());
    // An empty buffer.
    let buf: Vec<u8> = Vec::new();
    assert!(decode_compact(&buf, 0).is_none());
}

#[test]
fn fragment_roundtrips() {
    let frag: Vec<u8> = (0u8..200u8).collect();
    let mut buf: Vec<u8> = Vec::new();
    encode_fragment_into(&mut buf, &frag);
    assert_eq!(buf.len(), frag.len() + 2);
    let (decoded, end) = decode_fragment(&buf, 0).expect("fragment should decode");
    assert_eq!(decoded, frag);
    assert_eq!(end, buf.len());
}

#[test]
fn truncated_fragment_is_rejected() {
    let frag: Vec<u8> = vec![1, 2, 3, 4, 5];
    let mut buf: Vec<u8> = Vec::new();
    encode_fragment_into(&mut buf, &frag);
    buf.pop();
    assert!(decode_fragment(&buf, 0).is_none());
}

#[test]
fn format_bytes_roundtrip() {
    for f in [PageFormat::ConcatenatedPayload, PageFormat::UnsupportedBlob, PageFormat::Signals] {
        assert_eq!(decode_format(encode_format(f)), Some(f));
    }
    assert_eq!(encode_format(PageFormat::ConcatenatedPayload), 0);
    assert_eq!(encode_format(PageFormat::UnsupportedBlob), 1);
    assert_eq!(encode_format(PageFormat::Signals), 2);
    assert_eq!(decode_format(3), None);
    assert_eq!(decode_format(255), None);
}

#[test]
fn signal_bytes_roundtrip() {
    for s in [ChannelSignal::Suspend, ChannelSignal::Resume] {
        assert_eq!(decode_signal(encode_signal(s)), Some(s));
    }
    assert_eq!(encode_signal(ChannelSignal::Suspend), 0);
    assert_eq!(encode_signal(ChannelSignal::Resume), 1);
    assert_eq!(decode_signal(2), None);
}
