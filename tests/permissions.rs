use fileshare::bits::{has_bits, permission_from_symbols, READ_MASK, VIEW_MASK, WRITE_MASK};

#[test]
fn symbolic_permissions() {
    assert_eq!(permission_from_symbols("rwv"), Some(0b111));
    assert_eq!(permission_from_symbols("rw"), Some(0b110));
    assert_eq!(permission_from_symbols("r-v"), Some(0b101));
    assert_eq!(permission_from_symbols("v"), Some(0b001));
    assert_eq!(permission_from_symbols("---"), Some(0));
    assert_eq!(permission_from_symbols("wr"), Some(0b110));
}

#[test]
fn symbolic_permissions_rejected() {
    assert_eq!(permission_from_symbols(""), None);
    assert_eq!(permission_from_symbols("rr"), None);
    assert_eq!(permission_from_symbols("rwvr"), None);
    assert_eq!(permission_from_symbols("rx"), None);
    assert_eq!(permission_from_symbols("----"), None);
}

#[test]
fn bit_test_needs_every_bit() {
    assert!(has_bits(0b110, READ_MASK));
    assert!(has_bits(0b110, READ_MASK | WRITE_MASK));
    assert!(!has_bits(0b110, VIEW_MASK));
    assert!(!has_bits(0b100, READ_MASK | WRITE_MASK));
}
