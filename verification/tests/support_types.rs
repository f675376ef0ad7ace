use xcmp_queue::AddressMatcher;
use xcmp_queue::Budget;
use xcmp_queue::BuiltinAddressMatcher;
use xcmp_queue::Diff;

#[test]
fn fixed_matcher_matches_its_single_address() {
    let m = AddressMatcher::Fixed(0x0507);
    let base = m.base_address();
    let mut expected = [0u8; 20];
    expected[16] = 0x05;
    expected[17] = 0x07;
    assert_eq!(base, expected);
    assert_eq!(m.highest_address(), expected);
    assert!(m.matches(&expected));
    let mut other = expected;
    other[0] = 1;
    assert!(!m.matches(&other));
}

#[test]
fn prefix_matcher_ignores_the_leading_bytes() {
    let m = AddressMatcher::Prefix(0x0507);
    let mut address = [0u8; 20];
    address[16] = 0x05;
    address[17] = 0x07;
    assert!(m.matches(&address));
    address[0] = 0xAB;
    address[3] = 0xCD;
    assert!(m.matches(&address));
    address[18] = 1;
    assert!(!m.matches(&address));
    let highest = m.highest_address();
    assert_eq!(&highest[0..4], &[0xFF, 0xFF, 0xFF, 0xFF]);
    assert_eq!(&highest[4..], &m.base_address()[4..]);
}

#[test]
fn builtin_matcher_uses_the_full_suffix() {
    let m = BuiltinAddressMatcher::Fixed(0x0102_0304);
    let base = m.base_address();
    assert_eq!(&base[16..], &[0x01, 0x02, 0x03, 0x04]);
    assert!(m.matches(&base));
    let p = BuiltinAddressMatcher::Prefix(0x0102_0304);
    let mut address = base;
    address[2] = 0x99;
    assert!(p.matches(&address));
    assert!(!m.matches(&address));
}

#[test]
fn diff_addition_saturates_per_field() {
    let a = Diff { bytes_added: u32::MAX - 1, bytes_removed: 5, items_added: 1, items_removed: 0 };
    let b = Diff { bytes_added: 10, bytes_removed: 7, items_added: 2, items_removed: 3 };
    let c = a.saturating_add(&b);
    assert_eq!(c.bytes_added, u32::MAX);
    assert_eq!(c.bytes_removed, 12);
    assert_eq!(c.items_added, 3);
    assert_eq!(c.items_removed, 3);
}

#[test]
fn budget_refuses_without_mutating() {
    let mut b = Budget::new(10);
    assert!(b.try_consume(4));
    assert_eq!(b.remaining, 6);
    assert!(!b.try_consume(7));
    assert_eq!(b.remaining, 6);
    assert!(b.try_consume(6));
    assert_eq!(b.remaining, 0);
}
