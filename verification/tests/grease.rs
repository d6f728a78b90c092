use clienthello::is_grease;

#[test]
fn all_grease_values() {
    let expected: Vec<u16> = (0..16u16).map(|i| (i << 12) | (i << 4) | 0x0A0A).collect();
    for &v in &expected {
        assert!(is_grease(v), "{v:#06x} should be GREASE");
    }
}

#[test]
fn non_grease() {
    assert!(!is_grease(0x0000));
    assert!(!is_grease(0x1301));
    assert!(!is_grease(0x0017));
    assert!(!is_grease(0xFFFF));
}

#[test]
fn mixed_nibbles_are_not_grease() {
    // Values where low nibbles are both 0xA but high nibbles differ
    // are NOT valid GREASE values per RFC 8701.
    assert!(!is_grease(0x0A1A));
    assert!(!is_grease(0x1A0A));
    assert!(!is_grease(0x2A5A));
    assert!(!is_grease(0x3AFA));
    assert!(!is_grease(0xFA0A));
}

#[test]
fn exactly_sixteen_grease_values() {
    let count = (0..=0xFFFFu16).filter(|&v| is_grease(v)).count();
    assert_eq!(count, 16);
    for i in 0..16u16 {
        assert!(is_grease((i << 12) | 0x0A00 | (i << 4) | 0x000A));
    }
}
