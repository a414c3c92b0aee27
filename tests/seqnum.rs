use flow_reassembly::{is_seq_after, is_seq_before, is_seq_equal, is_seq_in_window, seq_compare, seq_distance};

#[test]
fn test_sequence_number_handling() {
    assert_eq!(seq_compare(1000, 1000), 0);
    assert!(seq_compare(1001, 1000) > 0);
    assert!(seq_compare(1000, 1001) < 0);
    assert!(seq_compare(0, u32::MAX) > 0);
    assert!(seq_compare(u32::MAX, 0) < 0);
    assert_eq!(seq_distance(1000, 1000), 0);
    assert_eq!(seq_distance(1001, 1000), 1);
    assert_eq!(seq_distance(0, u32::MAX), 1);
    assert!(is_seq_in_window(1000, 1000, 100));
    assert!(!is_seq_in_window(1100, 1000, 100));
    assert!(is_seq_in_window(0, u32::MAX, 100));
}

#[test]
fn wrap_aware_comparison() {
    assert_eq!(seq_compare(0, 0xFFFF_FFFF), 1);
    assert_eq!(seq_compare(0xFFFF_FFFF, 0), -1);
    assert!(is_seq_after(5, 0xFFFF_FFF0));
    assert!(is_seq_before(0xFFFF_FFF0, 5));
    assert!(is_seq_equal(7, 7));
    assert_eq!(seq_distance(5, 0xFFFF_FFF0), 21);
    assert_eq!(seq_compare(0x8000_0000, 0), -1);
}
