use soroban_cost::limits::SorobanLimits;
use soroban_cost::text::{decimal_string, pad_left_string, pad_right_string};

#[test]
fn default_limits_are_mainnet_values() {
    let l = SorobanLimits::default();
    assert_eq!(l.max_cpu_instructions, 100_000_000);
    assert_eq!(l.max_memory_bytes, 41_943_040);
    assert_eq!(l.max_disk_read_bytes, 204_800);
    assert_eq!(l.max_disk_write_bytes, 135_168);
    assert_eq!(l.max_tx_size_bytes, 135_168);
    assert_eq!(l.max_events_return_bytes, 16_384);
}

#[test]
fn decimal_rendering() {
    assert_eq!(decimal_string(0), "0");
    assert_eq!(decimal_string(7), "7");
    assert_eq!(decimal_string(10), "10");
    assert_eq!(decimal_string(69441), "69441");
    assert_eq!(decimal_string(u64::MAX as u128), u64::MAX.to_string());
    assert_eq!(decimal_string(u128::MAX), u128::MAX.to_string());
}

#[test]
fn padding_matches_std_formatting() {
    assert_eq!(pad_right_string("add", 6), format!("{:<6}", "add"));
    assert_eq!(pad_right_string("transfer_all", 4), "transfer_all");
    assert_eq!(pad_left_string("42", 12), format!("{:>12}", 42));
    assert_eq!(pad_left_string("héllo", 7), format!("{:>7}", "héllo"));
    assert_eq!(pad_right_string("", 3), "   ");
}

