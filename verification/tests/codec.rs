use vlq::{build_number, split_number};

#[test]
fn encode_decode() {
    // big number
    let x: usize = 7289529732981739357;
    assert_eq!(build_number(split_number(x)), x);
}

#[test]
fn rollover() {
    let x: usize = 256;
    assert_eq!(split_number(x), vec![0b00000010, 0b10000000])
}

#[test]
fn extra_bytes() {
    // encode number
    let x: usize = 42069;
    let bytes = split_number(x);

    // add junk data to end
    let mut extra = bytes.clone();
    extra.append(&mut vec![0xBA, 0xDA, 0x55]);

    assert_eq!(x, build_number(bytes));
    assert_eq!(x, build_number(extra));
}

#[test]
fn zero() {
    let mut zero = split_number(0);
    zero.push(2); // will most likely be 2 if split/build_number doesn't work
    assert_eq!(build_number(zero), 0);
}

#[test]
fn zero_is_one_marker_byte() {
    assert_eq!(split_number(0), vec![128]);
}

#[test]
fn empty_input_decodes_to_zero() {
    assert_eq!(build_number(Vec::new()), 0);
}

#[test]
fn decode_stops_at_first_marker() {
    assert_eq!(build_number(vec![128, 2]), 0);
}

#[test]
fn length_tracks_seven_bit_groups() {
    assert_eq!(split_number(0).len(), 1);
    assert_eq!(split_number(1).len(), 1);
    assert_eq!(split_number(127).len(), 1);
    assert_eq!(split_number(128).len(), 2);
    assert_eq!(split_number(16383).len(), 2);
    assert_eq!(split_number(16384).len(), 3);
}

#[test]
fn exact_bytes_at_group_boundaries() {
    assert_eq!(split_number(127), vec![0xFF]);
    assert_eq!(split_number(128), vec![1, 128]);
    assert_eq!(split_number(16384), vec![1, 0, 128]);
}

#[test]
fn round_trip_small_and_extreme_values() {
    for x in [0usize, 1, 127, 128, 129, 16383, 16384, usize::MAX - 1, usize::MAX] {
        assert_eq!(build_number(split_number(x)), x);
    }
}

#[test]
fn leading_payload_never_zero() {
    // 16384 = 1 * 128^2: the middle group is zero, the leading one is not
    let bytes = split_number(16384);
    assert_ne!(bytes[0] & 0x7F, 0);
    assert_eq!(bytes[1], 0);
}

#[test]
fn input_without_marker_folds_whole() {
    assert_eq!(build_number(vec![1, 1]), 129);
}

#[test]
fn accumulator_wraps_at_word_width() {
    // 2 * 128^9 == 2^64, one step past what a 64-bit word holds
    let bytes = vec![2, 0, 0, 0, 0, 0, 0, 0, 0, 128];
    assert_eq!(build_number(bytes), 0);
}
