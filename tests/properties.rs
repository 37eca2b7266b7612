use waveform_db::bitvector::BitVector;
use waveform_db::errors::WaveformError;
use waveform_db::history::block::WaveformHistoryBlock;
use waveform_db::history::index::WaveformHistoryIndex;
use waveform_db::history::{WaveformHistory, BLOCK_SIZE};
use waveform_db::logic::{Bit, BitVectorRadix, Logic};
use waveform_db::signal_real::WaveformSignalReal;
use waveform_db::vector::WaveformSignalVector;
use waveform_db::{Waveform, WaveformSearchMode};

fn idx(timestamp_index: usize, value_index: usize) -> WaveformHistoryIndex {
    WaveformHistoryIndex {
        timestamp_index,
        value_index,
    }
}

fn history_of(timestamps: &[usize]) -> WaveformHistory {
    let mut history = WaveformHistory::new();
    for (i, t) in timestamps.iter().enumerate() {
        history.add_change(*t, i);
    }
    history
}

fn collect(history: &WaveformHistory) -> Vec<WaveformHistoryIndex> {
    let mut iter = history.into_iter();
    let mut out = Vec::new();
    while let Some(index) = iter.next() {
        out.push(index);
    }
    out
}

#[test]
fn scenario_ascii_hex() {
    let bv = BitVector::from_ascii(b"1001");
    assert_eq!(bv.get_bit(0), Logic::One);
    assert_eq!(bv.get_bit(1), Logic::Zero);
    assert_eq!(bv.get_bit(2), Logic::Zero);
    assert_eq!(bv.get_bit(3), Logic::One);
    assert_eq!(bv.to_string_radix(BitVectorRadix::Hexadecimal), "h9");
}

#[test]
fn scenario_ascii_four_state() {
    let bv = BitVector::from_ascii_four_state(b"Z00X");
    assert_eq!(bv.get_bit(0), Logic::Unknown);
    assert_eq!(bv.get_bit(1), Logic::Zero);
    assert_eq!(bv.get_bit(2), Logic::Zero);
    assert_eq!(bv.get_bit(3), Logic::HighImpedance);
    assert_eq!(bv.to_string_radix(BitVectorRadix::Binary), "bZ00X");
    assert_eq!(bv.to_string_radix(BitVectorRadix::Hexadecimal), "hX");
}

#[test]
fn scenario_decimal_masked() {
    let mut bv = BitVector::from_ascii_four_state(b"110ZZ");
    assert_eq!(bv.to_string_radix(BitVectorRadix::Decimal), "dZ");
    bv.set_bit(0, Logic::Unknown);
    bv.set_bit(1, Logic::Unknown);
    assert_eq!(bv.to_string_radix(BitVectorRadix::Decimal), "dX");
}

#[test]
fn scenario_history_search() {
    let history = history_of(&[5, 10, 15, 25]);
    assert_eq!(history.search_timestamp_index(7, WaveformSearchMode::Before), Some(idx(5, 0)));
    assert_eq!(history.search_timestamp_index(7, WaveformSearchMode::After), Some(idx(10, 1)));
    assert_eq!(history.search_timestamp_index(7, WaveformSearchMode::Closest), Some(idx(5, 0)));
    assert_eq!(history.search_timestamp_index(10, WaveformSearchMode::Exact), Some(idx(10, 1)));
    assert_eq!(history.search_timestamp_index(30, WaveformSearchMode::After), None);
    assert_eq!(history.search_timestamp_index(30, WaveformSearchMode::Closest), Some(idx(25, 3)));
}

#[test]
fn search_before_first_change() {
    let history = history_of(&[5, 10, 15, 25]);
    assert_eq!(history.search_timestamp_index(2, WaveformSearchMode::Before), None);
    assert_eq!(history.search_timestamp_index(2, WaveformSearchMode::Exact), None);
    assert_eq!(history.search_timestamp_index(2, WaveformSearchMode::After), Some(idx(5, 0)));
    assert_eq!(history.search_timestamp_index(2, WaveformSearchMode::Closest), Some(idx(5, 0)));
    let empty = WaveformHistory::new();
    assert_eq!(empty.search_timestamp_index(2, WaveformSearchMode::Closest), None);
}

#[test]
fn scenario_block_skip_then_run() {
    let mut raw = vec![0u8; BLOCK_SIZE];
    raw[7] = 3; // timestamp index 3
    raw[15] = 9; // value index 9
    raw[16] = 0x80;
    raw[17] = 0x01;
    raw[18] = 0x81;
    let block = WaveformHistoryBlock::new(&raw);
    assert_eq!(block.get_timestamp_index(), 3);
    assert_eq!(block.get_value_index(), 9);
    assert_eq!(block.iter().to_vec(), vec![idx(3, 9), idx(5, 10), idx(6, 11)]);
}

#[test]
fn scenario_block_long_skip() {
    let mut raw = vec![0u8; BLOCK_SIZE];
    raw[16] = 0x7F;
    raw[17] = 0x7F;
    raw[18] = 0xFF;
    raw[19] = 0xFF;
    let block = WaveformHistoryBlock::new(&raw);
    let decoded = block.iter().to_vec();
    assert_eq!(decoded.len(), 256);
    for (i, index) in decoded.iter().enumerate() {
        assert_eq!(*index, idx(127 * 128 + 127 + i, i));
    }
}

#[test]
fn block_skip_flushes_every_eight_digits() {
    // Nine digits of 1: the first eight form one group, the ninth another.
    let mut raw = vec![0u8; BLOCK_SIZE];
    for i in 0..9 {
        raw[16 + i] = 1;
    }
    raw[25] = 0x80;
    let block = WaveformHistoryBlock::new(&raw);
    let group: usize = (0..8).fold(0usize, |acc, _| acc * 128 + 1);
    assert_eq!(block.iter().to_vec(), vec![idx(group + 1, 0)]);
}

#[test]
fn block_seek_and_trailing_skips() {
    let mut raw = vec![0u8; BLOCK_SIZE];
    raw[16] = 0x82; // three changes: 0, 1, 2
    raw[17] = 0x04; // skip four
    raw[18] = 0x80; // one change: 7
    raw[19] = 0x05; // trailing skip digit, ignored
    let block = WaveformHistoryBlock::new(&raw);
    let mut iter = block.into_iter();
    assert_eq!(iter.seek(5), Some(idx(2, 2)));
    assert_eq!(iter.next(), Some(idx(7, 3)));
    assert_eq!(iter.next(), None);
    let mut iter = block.iter();
    assert_eq!(iter.seek(1), Some(idx(1, 1)));
    assert_eq!(iter.seek(100), Some(idx(7, 3)));
    assert_eq!(iter.next(), None);
}

#[test]
fn history_append_then_iterate() {
    let timestamps = [0usize, 1, 2, 3, 10, 200, 201, 100_000, 100_001, 1 << 40];
    let history = history_of(&timestamps);
    let expected: Vec<_> = timestamps.iter().enumerate().map(|(i, t)| idx(*t, i)).collect();
    assert_eq!(collect(&history), expected);
}

#[test]
fn history_huge_gap_opens_block() {
    let timestamps = [3usize, (1usize << 60) + 3, (1usize << 60) + 4];
    let history = history_of(&timestamps);
    assert_eq!(history.get_block_count(), 2);
    let expected: Vec<_> = timestamps.iter().enumerate().map(|(i, t)| idx(*t, i)).collect();
    assert_eq!(collect(&history), expected);
}

#[test]
fn history_block_size_boundary() {
    let mut history = WaveformHistory::new();
    for i in 0..65_536usize {
        history.add_change(i, i);
    }
    // 65,536 changes take 512 change bytes; a block holds 496.
    assert_eq!(history.get_block_count(), (512 + 495) / 496);
    assert_eq!(history.get_block_size(), 2 * BLOCK_SIZE);
    let decoded = collect(&history);
    assert_eq!(decoded.len(), 65_536);
    for (i, index) in decoded.iter().enumerate() {
        assert_eq!(*index, idx(i, i));
    }
    let second = history.get_block(1);
    assert_eq!(second.get_index(), idx(63_488, 63_488));
}

#[test]
fn history_search_matches_scan() {
    let timestamps = [2usize, 3, 9, 40, 41, 300, 1000];
    let history = history_of(&timestamps);
    for t in 0..1100usize {
        let before = timestamps.iter().rposition(|x| *x <= t);
        let after = timestamps.iter().position(|x| *x >= t);
        let exact = timestamps.iter().position(|x| *x == t);
        let closest = match (before, after) {
            (Some(b), Some(a)) => {
                if timestamps[a] - t < t - timestamps[b] {
                    Some(a)
                } else {
                    Some(b)
                }
            }
            (Some(b), None) => Some(b),
            (None, a) => a,
        };
        let as_index = |p: Option<usize>| p.map(|p| idx(timestamps[p], p));
        assert_eq!(history.search_timestamp_index(t, WaveformSearchMode::Before), as_index(before));
        assert_eq!(history.search_timestamp_index(t, WaveformSearchMode::After), as_index(after));
        assert_eq!(history.search_timestamp_index(t, WaveformSearchMode::Exact), as_index(exact));
        assert_eq!(history.search_timestamp_index(t, WaveformSearchMode::Closest), as_index(closest));
    }
}

#[test]
fn logic_pair_round_trip() {
    for l in [Logic::Zero, Logic::One, Logic::Unknown, Logic::HighImpedance] {
        assert_eq!(Logic::from(l.to_bool_pair()), l);
    }
    assert_eq!(Logic::HighImpedance.to_bool_pair(), (true, true));
    assert_eq!(Logic::Unknown.to_bool_pair(), (false, true));
    assert!(!Logic::Unknown.is_two_state());
    assert!(Logic::One.is_two_state());
    assert_eq!(Bit::from(Logic::HighImpedance), Bit::Zero);
    assert!(!bool::from(Logic::Unknown));
    assert_eq!(Logic::from((1usize, 1usize)), Logic::HighImpedance);
}

#[test]
fn bitvector_equality_zero_extends() {
    let short = BitVector::from_bits_two_state(3, 0b101u8);
    let long = BitVector::from_bits_two_state(7, 0b101u8);
    assert!(short == long);
    assert!(long == short);
    let four = BitVector::from_bits_four_state(7, 0b101u8, 0u8);
    assert!(short == four);
    let other = BitVector::from_bits_two_state(7, 0b1101u8);
    assert!(short != other);
}

#[test]
fn inline_and_heap_bits_agree() {
    for width in [32usize, 33, 64, 65] {
        for four_state in [false, true] {
            let mut bv = BitVector::new(width, four_state);
            assert_eq!(bv.is_pointer(), if four_state { width > 32 } else { width > 64 });
            for i in 0..width {
                let bit = match i % 4 {
                    0 => Logic::One,
                    1 => Logic::Zero,
                    2 => Logic::Unknown,
                    _ => Logic::HighImpedance,
                };
                bv.set_bit(i, bit);
            }
            bv.set_bit(width, Logic::One);
            assert_eq!(bv.get_bit(width), Logic::Zero);
            for i in 0..width {
                let bit = match i % 4 {
                    0 => Logic::One,
                    1 => Logic::Zero,
                    2 => Logic::Unknown,
                    _ => Logic::HighImpedance,
                };
                let expected = if four_state {
                    bit
                } else if bit == Logic::One {
                    Logic::One
                } else {
                    Logic::Zero
                };
                assert_eq!(bv.get_bit(i), expected);
            }
        }
    }
}

#[test]
fn be_bytes_round_trip() {
    let value = [0x01u8, 0x23, 0x45, 0x67, 0x89, 0xAB, 0xCD, 0xEF, 0x01, 0x7F];
    let mask = [0x00u8, 0x00, 0xFF, 0x00, 0x11, 0x00, 0x00, 0x80, 0x00, 0x01];
    for width in [73usize, 80] {
        let n = (width + 7) / 8;
        let mut v = value[10 - n..].to_vec();
        let mut m = mask[10 - n..].to_vec();
        v[0] &= ((1u16 << (width - 8 * (n - 1))) - 1) as u8;
        m[0] &= ((1u16 << (width - 8 * (n - 1))) - 1) as u8;
        let bv = BitVector::from_be_bytes_four_state(width, &v, &m);
        let mut v2 = vec![0u8; n];
        let mut m2 = vec![0u8; n];
        bv.to_be_bytes_four_state(&mut v2, &mut m2);
        assert_eq!(v, v2);
        assert_eq!(m, m2);
        let two = BitVector::from_be_bytes_two_state(width, &v);
        let mut v3 = vec![0u8; n];
        two.to_be_bytes_two_state(&mut v3);
        assert_eq!(v, v3);
    }
}

#[test]
fn ascii_binary_round_trip() {
    let text = b"10x1zZX0";
    let bv = BitVector::from_ascii_four_state(text);
    assert_eq!(bv.to_string_radix(BitVectorRadix::Binary), "b10X1ZZX0");
    let bv = BitVector::from_ascii(b"0110");
    assert_eq!(bv.to_string_radix(BitVectorRadix::Binary), "b0110");
}

#[test]
fn formatting_radices() {
    let bv = BitVector::from_bits_two_state(9, 0o517u16);
    assert_eq!(bv.to_string_radix(BitVectorRadix::Octal), "o517");
    assert_eq!(bv.to_string_radix(BitVectorRadix::Decimal), "d335");
    assert_eq!(bv.to_string_radix(BitVectorRadix::Hexadecimal), "h14F");
    let wide = BitVector::new(65, false);
    assert_eq!(wide.to_string_radix(BitVectorRadix::Decimal), "dOVERFLOW!");
    let full = BitVector::from_bits_two_state(64, u64::MAX);
    assert_eq!(full.to_string_radix(BitVectorRadix::Decimal), "d18446744073709551615");
    let zx = BitVector::from_ascii_four_state(b"Z0X1Z");
    assert_eq!(zx.to_string_radix(BitVectorRadix::Octal), "oZX");
    let empty = BitVector::new(0, true);
    assert_eq!(empty.to_string_radix(BitVectorRadix::Hexadecimal), "h");
}

#[test]
fn bits_egress_and_flags() {
    let bv = BitVector::from_bits_four_state(12, 0xABCu16, 0x00Fu16);
    assert_eq!(bv.to_bits_four_state::<u16>(), (0xABC, 0x00F));
    assert!(bv.is_unknown());
    assert!(!bv.is_high_impedance());
    let z = BitVector::from_bits_four_state(4, 0b1111u8, 0b0011u8);
    assert!(!z.is_unknown());
    assert!(z.is_high_impedance());
    let masked = BitVector::from_bits_two_state(4, 0xFFu8);
    assert_eq!(masked.to_bits_two_state::<u8>(), 0x0F);
    assert_eq!(BitVector::from(Logic::HighImpedance).get_bit(0), Logic::HighImpedance);
    assert_eq!(BitVector::from(Bit::One).get_bit(0), Logic::One);
    assert!(BitVector::new_unknown_bit().is_four_state());
    assert_eq!(BitVector::new_one_bit().get_bit(0), Logic::One);
    let mut iter = z.iter();
    assert_eq!(iter.next(), Some(Logic::HighImpedance));
    assert_eq!(iter.next(), Some(Logic::HighImpedance));
    assert_eq!(iter.next(), Some(Logic::One));
    assert_eq!(iter.next(), Some(Logic::One));
    assert_eq!(iter.next(), None);
}

#[test]
fn vector_signal_round_trip() {
    for width in [1usize, 2, 3, 4, 5, 9, 16] {
        let mut signal = WaveformSignalVector::new(width);
        let values: Vec<BitVector> = (0..6)
            .map(|k| {
                let mut bv = BitVector::new(width, true);
                for i in 0..width {
                    let bit = match (i + k) % 4 {
                        0 => Logic::One,
                        1 => Logic::Zero,
                        2 => Logic::Unknown,
                        _ => Logic::HighImpedance,
                    };
                    bv.set_bit(i, bit);
                }
                bv
            })
            .collect();
        for (k, bv) in values.iter().enumerate() {
            signal.update(3 * k + 1, bv.clone());
        }
        assert_eq!(signal.len(), 6);
        for (k, bv) in values.iter().enumerate() {
            let stored = signal.get_bitvector(k);
            assert_eq!(stored.get_bit_width(), width);
            for i in 0..width {
                assert_eq!(stored.get_bit(i), bv.get_bit(i));
            }
        }
        assert_eq!(
            signal.get_history().search_timestamp_index(4, WaveformSearchMode::Exact),
            Some(idx(4, 1))
        );
    }
}

#[test]
fn vector_signal_right_justifies() {
    let mut signal = WaveformSignalVector::new(12);
    signal.update(0, BitVector::from_ascii(b"101"));
    let stored = signal.get_bitvector(0);
    assert_eq!(stored.to_string_radix(BitVectorRadix::Binary), "b000000000101");
    assert_eq!(signal.get_vector_size(), 4);
}

#[test]
fn real_signal_bytes() {
    let mut signal = WaveformSignalReal::new();
    assert!(signal.is_empty());
    signal.update_bytes(2, 1.5f64.to_be_bytes());
    signal.update_bytes(7, (-0.25f64).to_be_bytes());
    assert_eq!(signal.len(), 2);
    assert_eq!(signal.get_width(), 64);
    assert_eq!(f64::from_be_bytes(signal.get_real_bytes(1)), -0.25);
    assert_eq!(signal.get_vector_size(), 16);
}

#[test]
fn waveform_errors() {
    let mut waveform = Waveform::new();
    waveform.insert_timestamp(10).unwrap();
    assert_eq!(
        waveform.insert_timestamp(4),
        Err(WaveformError::DecreasingTimestamp { timestamp: 4 })
    );
    assert_eq!(waveform.insert_timestamp(10), Ok(()));
    assert_eq!(waveform.timestamps_count(), 1);
    waveform.initialize_vector(7, 2);
    assert_eq!(
        waveform.update_vector(8, BitVector::new_one_bit()),
        Err(WaveformError::InvalidId { id: 8 })
    );
    assert_eq!(
        waveform.update_vector(7, BitVector::new(3, false)),
        Err(WaveformError::InvalidWidth {
            id: 7,
            expected: 2,
            actual: 3
        })
    );
    assert_eq!(waveform.update_vector(7, BitVector::new_one_bit()), Ok(()));
    waveform.initialize_real(9);
    assert_eq!(waveform.update_real_bytes(9, 2.0f64.to_be_bytes()), Ok(()));
    assert_eq!(
        waveform.update_real_bytes(1, 2.0f64.to_be_bytes()),
        Err(WaveformError::InvalidId { id: 1 })
    );
    assert_eq!(waveform.get_vector_signal(7).unwrap().len(), 1);
    assert_eq!(waveform.get_real_signal(9).unwrap().len(), 1);
    assert!(waveform.get_signal(3).is_none());
    waveform.insert_timestamp(20).unwrap();
    assert_eq!(waveform.get_timestamp_range(), 10..20);
}

#[test]
fn waveform_totals() {
    let mut waveform = Waveform::default();
    waveform.insert_timestamp(1).unwrap();
    waveform.initialize_vector(1, 4);
    waveform.initialize_vector(2, 12);
    waveform.initialize_real(3);
    waveform.initialize_real(4);
    waveform.update_vector(1, BitVector::from_ascii(b"1010")).unwrap();
    waveform.update_vector(2, BitVector::from_ascii(b"1")).unwrap();
    waveform.update_real_bytes(3, 0.5f64.to_be_bytes()).unwrap();
    assert_eq!(waveform.count_empty(), 1);
    assert_eq!(waveform.count_one(), 3);
    assert_eq!(waveform.get_block_size(), 3 * BLOCK_SIZE);
    assert_eq!(waveform.get_vector_size(), 1 + 4 + 8);
    waveform.initialize_vector(1, 4);
    assert_eq!(waveform.count_empty(), 2);
}

#[test]
fn waveform_shard_round_trip() {
    let mut waveform = Waveform::new();
    waveform.insert_timestamp(3).unwrap();
    waveform.insert_timestamp(8).unwrap();
    for id in 0..7usize {
        waveform.initialize_vector(id, 1 + id);
    }
    waveform.initialize_real(10);
    let shards = waveform.shard(3);
    assert_eq!(shards.len(), 3);
    assert!(shards[0].get_vector_signal(3).is_some());
    assert!(shards[0].get_vector_signal(1).is_none());
    assert!(shards[1].get_real_signal(10).is_some());
    assert_eq!(shards[2].get_timestamps(), &vec![3u64, 8]);
    let merged = Waveform::unshard(shards).unwrap();
    for id in 0..7usize {
        assert_eq!(merged.get_vector_signal(id).unwrap().get_width(), 1 + id);
    }
    assert!(merged.get_real_signal(10).is_some());
    assert_eq!(merged.timestamps_count(), 2);

    let mut other = Waveform::new();
    other.insert_timestamp(4).unwrap();
    let shards = vec![Waveform::new(), other];
    assert_eq!(
        Waveform::unshard(shards).err(),
        Some(WaveformError::MismatchedTimestamps)
    );
    assert_eq!(Waveform::unshard(Vec::new()).unwrap().timestamps_count(), 0);
}

#[test]
fn history_block_counts() {
    let history = WaveformHistory::new();
    assert_eq!(history.get_block_count(), 0);
    assert_eq!(history.get_block_size(), 0);
    assert_eq!(WaveformSignalVector::new(3).get_history().get_block_count(), 0);
    assert_eq!(WaveformSignalReal::new().get_history().get_block_count(), 0);
    // A gap needing 8 digits still fits; one needing 9 opens a block.
    let history = history_of(&[0, 1 << 55]);
    assert_eq!(history.get_block_count(), 1);
    let history = history_of(&[0, (1 << 56) + 1]);
    assert_eq!(history.get_block_count(), 2);
    // Changes one apart share run bytes: 128 of them take one byte.
    let consecutive: Vec<usize> = (0..300).collect();
    let history = history_of(&consecutive);
    assert_eq!(history.get_block_count(), 1);
    let block = history.get_block(0);
    assert_eq!(block.iter().to_vec().len(), 300);
}

#[test]
fn waveform_value_search() {
    let mut waveform = Waveform::new();
    waveform.insert_timestamp(0).unwrap();
    waveform.initialize_vector(1, 4);
    waveform.initialize_real(2);
    waveform.update_vector(1, BitVector::from_ascii_four_state(b"10X1")).unwrap();
    waveform.update_real_bytes(2, 1.25f64.to_be_bytes()).unwrap();
    waveform.insert_timestamp(5).unwrap();
    waveform.update_vector(1, BitVector::from_ascii(b"0110")).unwrap();
    let (bv, t) = waveform
        .search_vector_value(1, 0, WaveformSearchMode::Before, None)
        .unwrap();
    assert_eq!(t, 0);
    assert_eq!(bv.to_string_radix(BitVectorRadix::Binary), "b10X1");
    let (bit, t) = waveform
        .search_vector_value(1, 1, WaveformSearchMode::After, Some(2))
        .unwrap();
    assert_eq!(t, 1);
    assert_eq!(bit.get_bit(0), Logic::One);
    assert!(waveform.search_vector_value(2, 3, WaveformSearchMode::Before, None).is_none());
    let (bytes, t) = waveform.search_real_value(2, 9, WaveformSearchMode::Closest).unwrap();
    assert_eq!((f64::from_be_bytes(bytes), t), (1.25, 0));
    assert!(waveform.search_real_value(2, 9, WaveformSearchMode::Exact).is_none());
}
