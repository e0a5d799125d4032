use ip_repr::interval::IntervalEncoding;
use ip_repr::vint::{deserialize_vint, serialize_vint};
use ip_repr::{DecodeError, EncodeError};

fn test_aux_vals(ip_repr: &IntervalEncoding, ip_addrs: &[u128]) {
    let data = ip_repr.encode(ip_addrs).unwrap();
    let decoded_ip_addrs = ip_repr.decode(&data).unwrap();
    assert_eq!(&decoded_ip_addrs, ip_addrs);
}

#[test]
fn test_compress() {
    let ip_addrs = &[
        1u128,
        100u128,
        3u128,
        99999u128,
        100000u128,
        100001u128,
        4_000_211_221u128,
        4_000_211_222u128,
        333u128,
    ];
    let interval_encoding = IntervalEncoding::default();
    test_aux_vals(&interval_encoding, ip_addrs)
}

#[test]
fn test_first_large_gaps() {
    let ip_addrs = &[1_000_000_000u128; 100];
    let interval_encoding = IntervalEncoding::default();
    test_aux_vals(&interval_encoding, ip_addrs)
}

#[test]
fn vint_round_trip_values() {
    let values: &[u128] = &[
        0,
        1,
        127,
        128,
        16383,
        16384,
        u64::MAX as u128,
        (u64::MAX as u128) + 1,
        u128::MAX,
    ];
    for &v in values {
        let mut buf: Vec<u8> = Vec::new();
        serialize_vint(v, &mut buf);
        assert!(buf.len() <= 19);
        let (decoded, end) = deserialize_vint(&buf, 0).unwrap();
        assert_eq!(decoded, v);
        assert_eq!(end, buf.len());
    }
}

#[test]
fn vint_accepts_non_canonical() {
    // A zero digit byte before the stop byte still encodes zero.
    assert_eq!(deserialize_vint(&[0x00, 0x80], 0), Ok((0u128, 2usize)));
    // 1 + 128 * 0: a padded encoding of one.
    assert_eq!(deserialize_vint(&[0x01, 0x80], 0), Ok((1u128, 2usize)));
}

#[test]
fn vint_rejects_unterminated() {
    // A lone digit byte with no stop bit is not a whole encoding.
    assert_eq!(deserialize_vint(&[0x00], 0), Err(DecodeError::MalformedVInt));
    // Nineteen digit bytes without a stop bit are rejected as well.
    let bytes = [0x7fu8; 19];
    assert_eq!(deserialize_vint(&bytes, 0), Err(DecodeError::MalformedVInt));
}

#[test]
fn sparse_values_fit_32_bits() {
    let xs: Vec<u128> = vec![
        1,
        3,
        100,
        333,
        99_999,
        100_000,
        100_001,
        4_000_211_221,
        4_000_211_222,
    ];
    let enc = IntervalEncoding(0);
    let data = enc.encode(&xs).unwrap();
    assert_eq!(enc.decode(&data).unwrap(), xs);
    let c = enc.train(&xs).unwrap();
    assert!(c.num_bits <= 32);
}

#[test]
fn constant_run_collapses_to_one_anchor() {
    let xs: Vec<u128> = vec![1_000_000_000u128; 100];
    let enc = IntervalEncoding(0);
    let data = enc.encode(&xs).unwrap();
    assert_eq!(enc.decode(&data).unwrap(), xs);
    let c = enc.train(&xs).unwrap();
    assert_eq!(c.anchors.len(), 1);
    assert_eq!(c.num_bits, 1);
}

#[test]
fn empty_input_round_trip() {
    let enc = IntervalEncoding(0);
    let data = enc.encode(&[]).unwrap();
    assert_eq!(data, Vec::<u8>::new());
    assert_eq!(enc.decode(&[]).unwrap(), Vec::<u128>::new());
}

#[test]
fn widest_span_round_trip() {
    let xs: Vec<u128> = vec![0, u64::MAX as u128];
    let enc = IntervalEncoding(0);
    let data = enc.encode(&xs).unwrap();
    assert_eq!(enc.decode(&data).unwrap(), xs);
    let c = enc.train(&xs).unwrap();
    assert_eq!(c.anchors.len(), 1);
    assert_eq!(c.num_bits, 1);
}

#[test]
fn widest_span_trainer_declines_on_large_budget() {
    // With a budget past any possible saving, no anchor is laid and the
    // raw width of sixty-four bits is kept.
    let xs: Vec<u128> = vec![0, u64::MAX as u128];
    let enc = IntervalEncoding(100_000);
    let c = enc.train(&xs).unwrap();
    assert_eq!(c.anchors.len(), 0);
    assert_eq!(c.num_bits, 64);
    let data = enc.encode(&xs).unwrap();
    assert_eq!(enc.decode(&data).unwrap(), xs);
}

#[test]
fn all_equal_num_bits_one() {
    let xs: Vec<u128> = vec![5, 5, 5, 5];
    for budget in [0usize, 5, 7] {
        let enc = IntervalEncoding(budget);
        let data = enc.encode(&xs).unwrap();
        assert_eq!(enc.decode(&data).unwrap(), xs);
        let c = enc.train(&xs).unwrap();
        assert_eq!(c.num_bits, 1);
    }
    // Once the budget covers the estimated saving the trainer declines
    // the anchor and keeps the raw width; the round trip still holds.
    for budget in [10usize, 64, 1000] {
        let enc = IntervalEncoding(budget);
        let data = enc.encode(&xs).unwrap();
        assert_eq!(enc.decode(&data).unwrap(), xs);
    }
}

#[test]
fn budget_sweep_random_sample() {
    // A deterministic pseudo-random mix of IPv4-mapped and IPv6-like
    // addresses, swept over header-cost budgets.
    let mut state: u128 = 0x2545F4914F6CDD1D;
    let mut xs: Vec<u128> = Vec::new();
    while xs.len() < 10_000 {
        state = state
            .wrapping_mul(6364136223846793005)
            .wrapping_add(1442695040888963407);
        // an IPv4-mapped address: low 32 bits under the ::ffff: prefix
        let v = 0xffff_0000_0000u128 + (state % 0x1_0000_0000);
        xs.push(v);
    }
    let mut sizes: Vec<usize> = Vec::new();
    let mut anchor_counts: Vec<usize> = Vec::new();
    for step in 0..16usize {
        let budget = step * 8;
        let enc = IntervalEncoding(budget);
        let data = enc.encode(&xs).unwrap();
        assert_eq!(enc.decode(&data).unwrap(), xs);
        sizes.push(data.len());
        anchor_counts.push(enc.train(&xs).unwrap().anchors.len());
    }
    // The sizes are recorded for inspection; every budget must round-trip,
    // and a higher budget never yields more anchors.
    assert_eq!(sizes.len(), 16);
    for w in anchor_counts.windows(2) {
        assert!(w[1] <= w[0]);
    }
}

#[test]
fn decode_rejects_malformed_headers() {
    let enc = IntervalEncoding(0);
    // An unterminated anchor count.
    assert_eq!(enc.decode(&[0x00]), Err(DecodeError::MalformedVInt));
    // Zero anchors, then a zero bit-width byte.
    assert_eq!(enc.decode(&[0x80, 0x00]), Err(DecodeError::InvalidNumBits));
    // Zero anchors, eight-bit codes, one value announced, but no body.
    assert_eq!(enc.decode(&[0x80, 0x08, 0x81]), Err(DecodeError::BodyTooShort));
    // A header that ends before the bit-width byte.
    assert_eq!(enc.decode(&[0x80]), Err(DecodeError::Truncated));
}

#[test]
fn encode_rejects_uncollapsible_span() {
    // With a budget too high to accept any anchor, the full 128-bit span
    // stays, and the compact space cannot fit 64 bits.
    let enc = IntervalEncoding(100_000);
    let xs: Vec<u128> = vec![0, u128::MAX];
    assert_eq!(enc.encode(&xs), Err(EncodeError::AmplitudeTooLarge));
    // With the budget at zero the same values collapse and round-trip.
    let enc0 = IntervalEncoding(0);
    let data = enc0.encode(&xs).unwrap();
    assert_eq!(enc0.decode(&data).unwrap(), xs);
}

#[test]
fn mixed_duplicates_round_trip() {
    let xs: Vec<u128> = vec![7, 7, 1, 9, 9, 9, 2, 7, 1_000_000, 2];
    let enc = IntervalEncoding(0);
    let data = enc.encode(&xs).unwrap();
    assert_eq!(enc.decode(&data).unwrap(), xs);
}

#[test]
fn descending_input_round_trip() {
    let xs: Vec<u128> = (0..500u128).rev().map(|v| v * 12345).collect();
    let enc = IntervalEncoding(16);
    let data = enc.encode(&xs).unwrap();
    assert_eq!(enc.decode(&data).unwrap(), xs);
}
