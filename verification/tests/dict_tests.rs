use ip_repr::half_dict::{BlockBitMask, BlockMetaData, HalfDict};
use ip_repr::half_dict_quantile::HalfDictQ;
use ip_repr::{get_most_common, DecodeError, EncodeError, IpRepr};

#[test]
fn bit_mask_test() {
    let mut bit_mask = BlockBitMask::new();

    bit_mask.set(0);
    bit_mask.set(1023);
    bit_mask.set(960);
    println!("{:?}", bit_mask);
}

#[test]
fn bit_mask_words() {
    let mut bit_mask = BlockBitMask::new();
    bit_mask.set(0);
    bit_mask.set(1023);
    bit_mask.set(960);
    assert_eq!(bit_mask.bit_mask[0], 1);
    assert_eq!(bit_mask.bit_mask[15], (1u64 << 63) | 1);
    for w in 1..15 {
        assert_eq!(bit_mask.bit_mask[w], 0);
    }
}

#[test]
fn block_metadata_bit_cost() {
    let meta = BlockMetaData {
        num_bits_for_dict_encoded: 8,
        block_size: 1024,
        num_bits_other: 32,
        num_dict_encoded: 10,
    };
    // 10 * 8 + 1014 * 32 + 1024
    assert_eq!(meta.get_num_bits(), 33552);
}

#[test]
fn half_dict_estimates_and_emits_nothing() {
    let half_dict = HalfDict::new(1024, 8);
    let xs: Vec<u128> = (0..3000u128).map(|v| v % 50).collect();
    assert_eq!(half_dict.encode(&xs).unwrap(), Vec::<u8>::new());
    assert_eq!(half_dict.decode(&[]), Err(DecodeError::Unsupported));
}

#[test]
fn most_common_counts_and_order() {
    let xs: Vec<u128> = vec![5, 5, 5, 7, 7, 9];
    let top = get_most_common(&xs, 2);
    assert_eq!(top.len(), 2);
    assert_eq!(top[0].ip, 5);
    assert_eq!(top[0].count, 3);
    assert_eq!(top[1].ip, 7);
    assert_eq!(top[1].count, 2);
}

#[test]
fn most_common_ties_ascending() {
    let xs: Vec<u128> = vec![3, 2, 2, 1, 1, 3];
    let top = get_most_common(&xs, 2);
    // all three values occur twice: the two smallest win
    assert_eq!(top[0].ip, 1);
    assert_eq!(top[1].ip, 2);
    assert_eq!(top[0].count, 2);
    assert_eq!(top[1].count, 2);
}

#[test]
fn half_dict_q_round_trip() {
    let hdq = HalfDictQ::new(4);
    let xs: Vec<u128> = vec![10, 10, 10, 99, 10, 500, 99, 10, 7, 7, 7, 7, 123456789];
    let data = hdq.encode(&xs).unwrap();
    assert_eq!(hdq.decode(&data).unwrap(), xs);
}

#[test]
fn half_dict_q_empty_round_trip() {
    let hdq = HalfDictQ::new(16);
    let data = hdq.encode(&[]).unwrap();
    assert_eq!(data, Vec::<u8>::new());
    assert_eq!(hdq.decode(&[]).unwrap(), Vec::<u128>::new());
}

#[test]
fn half_dict_q_all_in_dictionary() {
    let hdq = HalfDictQ::new(8);
    let xs: Vec<u128> = vec![1, 2, 1, 2, 1, 2, 1];
    let data = hdq.encode(&xs).unwrap();
    assert_eq!(hdq.decode(&data).unwrap(), xs);
}

#[test]
fn half_dict_q_shift_overflow() {
    let hdq = HalfDictQ::new(4);
    // Five distinct values once each: the dictionary keeps the four
    // smallest, and shifting the largest by four overflows 128 bits.
    let xs: Vec<u128> = vec![
        u128::MAX,
        u128::MAX - 1,
        u128::MAX - 2,
        u128::MAX - 3,
        u128::MAX - 4,
    ];
    assert_eq!(hdq.encode(&xs), Err(EncodeError::DictShiftOverflow));
}

#[test]
fn half_dict_q_large_values_round_trip() {
    let hdq = HalfDictQ::new(2);
    let xs: Vec<u128> = vec![0, 1, 1_000_000_007, (1u128 << 40) + 17, 1, 1];
    let data = hdq.encode(&xs).unwrap();
    assert_eq!(hdq.decode(&data).unwrap(), xs);
}

#[test]
fn half_dict_q_spread_probe() {
    for k in [32u32, 48, 56, 63, 64, 72, 80, 90, 96, 100, 120, 126] {
        println!("probing spread two to the {}", k);
        let big: u128 = 1u128 << k;
        let xs: Vec<u128> = vec![0, 1, big, big + 17, 1, 1];
        let hdq = HalfDictQ::new(2);
        let data = hdq.encode(&xs).unwrap();
        assert_eq!(hdq.decode(&data).unwrap(), xs);
    }
}

#[test]
fn half_dict_q_inner_refusal_is_surfaced() {
    // The pinned inner compressor refuses to reread its own stream for
    // this mix of magnitudes; the codec reports the refusal rather than
    // misdecoding.
    let hdq = HalfDictQ::new(2);
    let xs: Vec<u128> = vec![0, 1, u64::MAX as u128, (1u128 << 100) + 17, 1, 1];
    let data = hdq.encode(&xs).unwrap();
    assert_eq!(hdq.decode(&data), Err(DecodeError::InnerCodec));
}

#[test]
fn half_dict_q_rejects_short_stream() {
    let hdq = HalfDictQ::new(4);
    assert_eq!(hdq.decode(&[1, 2]), Err(DecodeError::Truncated));
    // A header announcing a dictionary the stream cannot hold.
    assert_eq!(hdq.decode(&[255, 255, 0, 0]), Err(DecodeError::Truncated));
}
