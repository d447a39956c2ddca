use geyser_plugin_cos::keys::{format_slot, format_slot_range, format_slot_single,
    slot_to_blocks_key, slot_to_entries_key, slot_to_tx_by_addr_key, log_file_name,
    parse_log_file_name, range_start};
use geyser_plugin_cos::strfmt::{format_hex16, format_dec, latest_file_index, parse_dec_range};

#[test]
fn slots_format_as_fixed_width_hex() {
    assert_eq!(format_slot(0), "0000000000000000");
    assert_eq!(format_slot(1000), "00000000000003e8");
    assert_eq!(format_slot(u64::MAX), "ffffffffffffffff");
    assert_eq!(format_hex16(0x123456789abcdef0), "123456789abcdef0");
}

#[test]
fn range_directory_names_carry_both_bounds() {
    assert_eq!(
        format_slot_range(1550, 1000),
        "range_00000000000003e8_00000000000007d0"
    );
    assert_eq!(format_slot_single(16), "slot_0000000000000010");
}

#[test]
fn range_start_floors_to_the_range() {
    assert_eq!(range_start(1550, 1000), 1000);
    assert_eq!(range_start(999, 1000), 0);
    assert_eq!(range_start(2000, 1000), 2000);
}

#[test]
fn single_cell_tables_use_the_slot_key() {
    assert_eq!(slot_to_blocks_key(1000), "00000000000003e8");
    assert_eq!(slot_to_entries_key(1000), "00000000000003e8");
}

#[test]
fn tx_by_addr_keys_sort_reverse_chronologically() {
    assert_eq!(slot_to_tx_by_addr_key(0), "ffffffffffffffff");
    // A later slot yields a lexically smaller key.
    assert!(slot_to_tx_by_addr_key(6) < slot_to_tx_by_addr_key(5));
}

#[test]
fn decimal_formatting_is_canonical() {
    assert_eq!(format_dec(0), "0");
    assert_eq!(format_dec(7), "7");
    assert_eq!(format_dec(10700), "10700");
    assert_eq!(format_dec(u64::MAX), "18446744073709551615");
}

#[test]
fn log_file_names_round_trip() {
    assert_eq!(log_file_name(7), "log_7.bin");
    assert_eq!(log_file_name(123), "log_123.bin");
    assert_eq!(parse_log_file_name("log_7.bin"), Some(7));
    assert_eq!(parse_log_file_name("log_123.bin"), Some(123));
    assert_eq!(parse_log_file_name("log_007.bin"), Some(7));
}

#[test]
fn foreign_file_names_are_ignored() {
    assert_eq!(parse_log_file_name("log_.bin"), None);
    assert_eq!(parse_log_file_name("foo_7.bin"), None);
    assert_eq!(parse_log_file_name("log_7.txt"), None);
    assert_eq!(parse_log_file_name("log_7bin"), None);
    assert_eq!(parse_log_file_name("log_99999999999999999999.bin"), None);
    assert_eq!(parse_log_file_name(""), None);
}

#[test]
fn latest_index_defaults_to_zero() {
    assert_eq!(latest_file_index(&Vec::new()), 0);
    assert_eq!(latest_file_index(&vec![3, 9, 2]), 9);
}

#[test]
fn decimal_parsing_checks_digits_and_range() {
    assert_eq!(parse_dec_range("abc123xyz", 3, 6), Some(123));
    assert_eq!(parse_dec_range("abc123xyz", 3, 7), None);
    assert_eq!(parse_dec_range("18446744073709551615", 0, 20), Some(u64::MAX));
    assert_eq!(parse_dec_range("18446744073709551616", 0, 20), None);
    assert_eq!(parse_dec_range("5", 0, 0), None);
}
