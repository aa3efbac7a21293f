use polyline_codec::codec::decode;
use polyline_codec::codec::encode;
use polyline_codec::codec::pow10;
use polyline_codec::codec::DecodeError;

// Scaled coordinates: each axis is the coordinate times 10^precision,
// rounded to the nearest integer.  At precision 5, 38.5 is 3_850_000.

#[test]
fn encode_empty() {
    assert_eq!(encode(&vec![]), Vec::<u8>::new());
}

#[test]
fn decode_empty() {
    assert_eq!(decode(&vec![]), Ok(vec![]));
}

#[test]
fn encode_single_point() {
    // The reference vector for (38.5, -120.2) at precision 5.
    let out = encode(&vec![(3_850_000, -12_020_000)]);
    assert_eq!(out, b"_p~iF~ps|U".to_vec());
}

#[test]
fn decode_single_point() {
    let got = decode(&b"_p~iF~ps|U".to_vec());
    assert_eq!(got, Ok(vec![(3_850_000, -12_020_000)]));
}

#[test]
fn encode_known_path() {
    // The reference vector for (38.5,-120.2), (40.7,-120.95),
    // (43.252,-126.453) at precision 5.
    let pts = vec![
        (3_850_000, -12_020_000),
        (4_070_000, -12_095_000),
        (4_325_200, -12_645_300),
    ];
    assert_eq!(encode(&pts), b"_p~iF~ps|U_ulLnnqC_mqNvxq`@".to_vec());
}

#[test]
fn decode_known_path() {
    let got = decode(&b"_p~iF~ps|U_ulLnnqC_mqNvxq`@".to_vec());
    let pts = vec![
        (3_850_000, -12_020_000),
        (4_070_000, -12_095_000),
        (4_325_200, -12_645_300),
    ];
    assert_eq!(got, Ok(pts));
}

#[test]
fn round_trip_extremes() {
    let pts = vec![
        (0, 0),
        (i64::MAX, i64::MIN),
        (-1, 1),
        (i64::MIN, i64::MAX),
        (42, -42),
    ];
    assert_eq!(decode(&encode(&pts)), Ok(pts));
}

#[test]
fn round_trip_zero_path() {
    let pts = vec![(0, 0), (0, 0), (0, 0)];
    assert_eq!(decode(&encode(&pts)), Ok(pts));
}

#[test]
fn truncated_value_fails() {
    // '_' (ASCII 95) carries the continuation flag, and nothing follows.
    assert_eq!(decode(&b"_".to_vec()), Err(DecodeError::MalformedInput));
}

#[test]
fn truncated_inside_path_fails() {
    let mut bytes = b"_p~iF~ps|U".to_vec();
    bytes.push(b'_');
    assert_eq!(decode(&bytes), Err(DecodeError::MalformedInput));
}

#[test]
fn bad_alphabet_fails() {
    assert_eq!(decode(&vec![0u8]), Err(DecodeError::MalformedInput));
}

#[test]
fn bad_alphabet_inside_path_fails() {
    let mut bytes = b"_p~iF".to_vec();
    bytes.push(0u8);
    bytes.extend_from_slice(b"~ps|U");
    assert_eq!(decode(&bytes), Err(DecodeError::MalformedInput));
}

#[test]
fn dangling_axis_fails() {
    // One complete value, but its partner axis never comes.
    assert_eq!(decode(&b"_p~iF".to_vec()), Err(DecodeError::MalformedInput));
}

#[test]
fn value_overflow_fails() {
    // Thirteen zero groups with the continuation flag, then a group of 1:
    // the value is 32^13 = 2^65, past the accepted range.
    let mut bytes = vec![95u8; 13];
    bytes.push(64u8);
    assert_eq!(decode(&bytes), Err(DecodeError::MalformedInput));
}

#[test]
fn large_value_just_in_range() {
    // Twelve zero groups then a group of 1 make the value 32^12 = 2^60,
    // which unzigzags to the delta 2^59; a zero second axis completes the
    // point.
    let mut bytes = vec![95u8; 12];
    bytes.push(64u8);
    bytes.push(63u8);
    assert_eq!(decode(&bytes), Ok(vec![(1i64 << 59, 0)]));
}

#[test]
fn non_canonical_zero_group_accepted() {
    // A redundant trailing zero group (96 = continuation + 1, then 63 = 0)
    // still denotes the value 1, which unzigzags to -1.
    assert_eq!(decode(&vec![96u8, 63u8, 63u8]), Ok(vec![(-1, 0)]));
}

#[test]
fn coordinate_overflow_fails() {
    // Each half moves the first axis by i64::MAX; together they leave the
    // coordinate range.
    let half = encode(&vec![(i64::MAX, 0)]);
    let mut bytes = half.clone();
    bytes.extend_from_slice(&half);
    assert_eq!(decode(&bytes), Err(DecodeError::MalformedInput));
}

#[test]
fn encoded_bytes_are_ascii() {
    let pts = vec![(i64::MIN, i64::MAX), (7, -7), (0, 0)];
    for b in encode(&pts) {
        assert!((63..=126).contains(&b));
    }
}

#[test]
fn precision_mismatch_does_not_round_trip() {
    // (38.5, -120.2) scaled at precision 5, but read back at precision 6:
    // the coordinates come out a factor of 10 too small.  This is the
    // documented caller contract, not a codec fault.
    let bytes = encode(&vec![(3_850_000, -12_020_000)]);
    let got = decode(&bytes).unwrap();
    let wrong_scale = pow10(6) as f64;
    let x = got[0].0 as f64 / wrong_scale;
    let y = got[0].1 as f64 / wrong_scale;
    assert_eq!((x, y), (3.85, -12.02));
    assert!((x, y) != (38.5, -120.2));
}

#[test]
fn monotone_length_in_delta_magnitude() {
    let lens: Vec<usize> = [0i64, 1, -16, 17, 1_000, -100_000, 10_000_000]
        .iter()
        .map(|&d| encode(&vec![(d, 0)]).len())
        .collect();
    for w in lens.windows(2) {
        assert!(w[0] <= w[1]);
    }
}

#[test]
fn byte_above_alphabet_fails() {
    // 127 is one past the top of the alphabet.
    assert_eq!(decode(&vec![127u8, 63u8]), Err(DecodeError::MalformedInput));
}

#[test]
fn round_trip_single_negative_point() {
    let pts = vec![(-17, -1)];
    assert_eq!(decode(&encode(&pts)), Ok(pts));
}

#[test]
fn pow10_values() {
    assert_eq!(pow10(0), 1);
    assert_eq!(pow10(5), 100_000);
    assert_eq!(pow10(18), 1_000_000_000_000_000_000);
}
