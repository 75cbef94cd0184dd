use can_crc::batch::{
    compute_batch_crcs_optimized, validate_iterations, worker_crc, MAX_ITERATIONS,
    PARALLEL_THRESHOLD,
};
use can_crc::codec::{parse_binary_input, parse_hex_input, DecodeError};
use can_crc::crc::calculate_can_crc;
use can_crc::table::generate_crc_table;

#[test]
fn repetition_never_changes_the_checksum() {
    let bits = parse_hex_input("FF EE DD CC BB AA").unwrap();
    let once = compute_batch_crcs_optimized(&bits, 1);
    assert_eq!(once, calculate_can_crc(&bits));
    assert_eq!(compute_batch_crcs_optimized(&bits, 99_999), once);
    assert_eq!(compute_batch_crcs_optimized(&bits, 1_000_000), once);
}

#[test]
fn batch_of_the_check_value() {
    let bits = parse_hex_input("313233343536373839").unwrap();
    assert_eq!(compute_batch_crcs_optimized(&bits, 1), 0x059E);
    assert_eq!(compute_batch_crcs_optimized(&bits, 2), 0x059E);
    assert_eq!(compute_batch_crcs_optimized(&bits, 1000), 0x059E);
    assert_eq!(compute_batch_crcs_optimized(&bits, PARALLEL_THRESHOLD), 0x059E);
    assert_eq!(compute_batch_crcs_optimized(&bits, PARALLEL_THRESHOLD + 1), 0x059E);
}

#[test]
fn batch_at_the_threshold_uses_the_pool() {
    let bits = parse_binary_input("1").unwrap();
    assert_eq!(compute_batch_crcs_optimized(&bits, PARALLEL_THRESHOLD - 1), 0x4599);
    assert_eq!(compute_batch_crcs_optimized(&bits, PARALLEL_THRESHOLD), 0x4599);
    assert_eq!(compute_batch_crcs_optimized(&bits, 250_000), 0x4599);
}

#[test]
fn batch_without_iterations_gives_zero() {
    let bits = parse_binary_input("1").unwrap();
    assert_eq!(compute_batch_crcs_optimized(&bits, 0), 0);
}

#[test]
fn every_worker_computes_the_checksum() {
    let bits = parse_hex_input("01 04 00 00").unwrap();
    let expected = calculate_can_crc(&bits);
    let table = generate_crc_table();
    for workers in [1usize, 2, 3, 7, 16] {
        for index in 0..workers {
            assert_eq!(worker_crc(&bits, &table, 1000, workers, index), expected);
        }
    }
    for index in 0..5usize {
        assert_eq!(worker_crc(&bits, &table, 5, 5, index), expected);
    }
}

#[test]
fn iteration_counts_in_range_are_accepted() {
    assert_eq!(validate_iterations(1), Ok(1));
    assert_eq!(validate_iterations(99_999), Ok(99_999));
    assert_eq!(validate_iterations(1_000_000_000), Ok(1_000_000_000));
    assert_eq!(validate_iterations(MAX_ITERATIONS), Ok(MAX_ITERATIONS));
}

#[test]
fn iteration_counts_out_of_range_are_refused() {
    assert_eq!(validate_iterations(0), Err(DecodeError::IterationsOutOfRange));
    assert_eq!(validate_iterations(1_000_000_001), Err(DecodeError::IterationsOutOfRange));
    assert_eq!(validate_iterations(u64::MAX), Err(DecodeError::IterationsOutOfRange));
}
