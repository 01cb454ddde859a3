use arrow::array::BooleanBufferBuilder;
use compaction_planner::bitset::{iter_set_positions, iter_set_positions_with_offset, BitSet};
use rand::rngs::StdRng;
use rand::{RngCore, SeedableRng};
use rand::rngs::OsRng;

/// Computes a compacted representation of a given bool array
fn compact_bools(bools: &[bool]) -> Vec<u8> {
    bools
        .chunks(8)
        .map(|x| {
            let mut collect = 0_u8;
            for (idx, set) in x.iter().enumerate() {
                if *set {
                    collect |= 1 << idx
                }
            }
            collect
        })
        .collect()
}

fn iter_set_bools(bools: &[bool]) -> impl Iterator<Item = usize> + '_ {
    bools.iter().enumerate().filter_map(|(x, y)| y.then(|| x))
}

#[test]
fn test_compact_bools() {
    let bools = &[
        false, false, true, true, false, false, true, false, true, false,
    ];
    let collected = compact_bools(bools);
    let indexes: Vec<_> = iter_set_bools(bools).collect();
    assert_eq!(collected.as_slice(), &[0b01001100, 0b00000001]);
    assert_eq!(indexes.as_slice(), &[2, 3, 6, 8])
}

#[test]
fn test_bit_mask() {
    let mut mask = BitSet::new();

    mask.append_bits(8, &[0b11111111]);
    let d1 = mask.bytes().to_vec();

    mask.append_bits(3, &[0b01010010]);
    let d2 = mask.bytes().to_vec();

    mask.append_bits(5, &[0b00010100]);
    let d3 = mask.bytes().to_vec();

    mask.append_bits(2, &[0b11110010]);
    let d4 = mask.bytes().to_vec();

    mask.append_bits(15, &[0b11011010, 0b01010101]);
    let d5 = mask.bytes().to_vec();

    assert_eq!(d1.as_slice(), &[0b11111111]);
    assert_eq!(d2.as_slice(), &[0b11111111, 0b00000010]);
    assert_eq!(d3.as_slice(), &[0b11111111, 0b10100010]);
    assert_eq!(d4.as_slice(), &[0b11111111, 0b10100010, 0b00000010]);
    assert_eq!(
        d5.as_slice(),
        &[0b11111111, 0b10100010, 0b01101010, 0b01010111, 0b00000001]
    );

    assert!(mask.get(0));
    assert!(!mask.get(8));
    assert!(mask.get(9));
    assert!(mask.get(19));
}

fn make_rng() -> StdRng {
    let seed = OsRng.next_u64();
    println!("Seed: {seed}");
    StdRng::seed_from_u64(seed)
}

#[test]
fn test_bit_mask_all_set() {
    let mut mask = BitSet::new();
    let mut all_bools = vec![];
    let mut rng = make_rng();

    for _ in 0..100 {
        let mask_length = (rng.next_u32() % 50) as usize;
        let bools: Vec<_> = std::iter::repeat(true).take(mask_length).collect();

        let collected = compact_bools(&bools);
        mask.append_bits(mask_length, &collected);
        all_bools.extend_from_slice(&bools);
    }

    let collected = compact_bools(&all_bools);
    assert_eq!(mask.bytes(), collected);

    let expected_indexes: Vec<_> = iter_set_bools(&all_bools).collect();
    let actual_indexes: Vec<_> = iter_set_positions(mask.bytes());
    assert_eq!(expected_indexes, actual_indexes);
}

#[test]
fn test_bit_mask_fuzz() {
    let mut mask = BitSet::new();
    let mut all_bools = vec![];
    let mut rng = make_rng();

    for _ in 0..100 {
        let mask_length = (rng.next_u32() % 50) as usize;
        let bools: Vec<_> = std::iter::from_fn(|| Some(rng.next_u32() & 1 == 0))
            .take(mask_length)
            .collect();

        let collected = compact_bools(&bools);
        mask.append_bits(mask_length, &collected);
        all_bools.extend_from_slice(&bools);
    }

    let collected = compact_bools(&all_bools);
    assert_eq!(mask.bytes(), collected);

    let expected_indexes: Vec<_> = iter_set_bools(&all_bools).collect();
    let actual_indexes: Vec<_> = iter_set_positions(mask.bytes());
    assert_eq!(expected_indexes, actual_indexes);

    if !all_bools.is_empty() {
        for _ in 0..10 {
            let offset = rng.next_u32() as usize % all_bools.len();

            let expected_indexes: Vec<_> = iter_set_bools(&all_bools[offset..])
                .map(|x| x + offset)
                .collect();

            let actual_indexes: Vec<_> = iter_set_positions_with_offset(mask.bytes(), offset);

            assert_eq!(expected_indexes, actual_indexes);
        }
    }

    for index in actual_indexes {
        assert!(mask.get(index));
    }
}

#[test]
fn test_append_fuzz() {
    let mut mask = BitSet::new();
    let mut all_bools = vec![];
    let mut rng = make_rng();

    for _ in 0..100 {
        let len = (rng.next_u32() % 32) as usize;
        let set = rng.next_u32() & 1 == 0;

        match set {
            true => mask.append_set(len),
            false => mask.append_unset(len),
        }

        all_bools.extend(std::iter::repeat(set).take(len));

        let collected = compact_bools(&all_bools);
        assert_eq!(mask.bytes(), collected);
    }
}

#[test]
fn test_truncate_fuzz() {
    let mut mask = BitSet::new();
    let mut all_bools = vec![];
    let mut rng = make_rng();

    for _ in 0..100 {
        let mask_length = (rng.next_u32() % 32) as usize;
        let bools: Vec<_> = std::iter::from_fn(|| Some(rng.next_u32() & 1 == 0))
            .take(mask_length)
            .collect();

        let collected = compact_bools(&bools);
        mask.append_bits(mask_length, &collected);
        all_bools.extend_from_slice(&bools);

        if !all_bools.is_empty() {
            let truncate = rng.next_u32() as usize % all_bools.len();
            mask.truncate(truncate);
            all_bools.truncate(truncate);
        }

        let collected = compact_bools(&all_bools);
        assert_eq!(mask.bytes(), collected);
    }
}

#[test]
fn test_extend_range_fuzz() {
    let mut rng = make_rng();
    let src_len = 32;
    let src_bools: Vec<_> = std::iter::from_fn(|| Some(rng.next_u32() & 1 == 0))
        .take(src_len)
        .collect();

    let mut src_mask = BitSet::new();
    src_mask.append_bits(src_len, &compact_bools(&src_bools));

    let mut dst_bools = Vec::new();
    let mut dst_mask = BitSet::new();

    for _ in 0..100 {
        let a = rng.next_u32() as usize % src_len;
        let b = rng.next_u32() as usize % src_len;

        let start = a.min(b);
        let end = a.max(b);

        dst_bools.extend_from_slice(&src_bools[start..end]);
        dst_mask.extend_from_range(&src_mask, start..end);

        let collected = compact_bools(&dst_bools);
        assert_eq!(dst_mask.bytes(), collected);
    }
}

#[test]
fn test_arrow_compat() {
    let bools = &[
        false, false, true, true, false, false, true, false, true, false, false, true,
    ];

    let mut builder = BooleanBufferBuilder::new(bools.len());
    builder.append_slice(bools);
    let buffer = builder.finish();

    let collected = compact_bools(bools);
    let mut mask = BitSet::new();
    mask.append_bits(bools.len(), &collected);
    let mask_buffer = mask.to_arrow();

    assert_eq!(collected.as_slice(), buffer.values());
    assert_eq!(buffer.values(), mask_buffer.into_inner().as_slice());
}

#[test]
fn test_all_set_unset() {
    for i in 1..100 {
        let mut v = BitSet::new();
        v.append_set(i);
        assert!(v.is_all_set());
        assert!(!v.is_all_unset());
    }
}

#[test]
fn test_all_set_unset_multi_byte() {
    let mut v = BitSet::new();

    // Bitmap is composed of entirely set bits.
    v.append_set(100);
    assert!(v.is_all_set());
    assert!(!v.is_all_unset());

    // Now the bitmap is neither composed of entirely set, nor entirely
    // unset bits.
    v.append_unset(1);
    assert!(!v.is_all_set());
    assert!(!v.is_all_unset());

    let mut v = BitSet::new();

    // Bitmap is composed of entirely unset bits.
    v.append_unset(100);
    assert!(!v.is_all_set());
    assert!(v.is_all_unset());

    // And once again, it is neither all set, nor all unset.
    v.append_set(1);
    assert!(!v.is_all_set());
    assert!(!v.is_all_unset());
}

#[test]
fn test_all_set_unset_single_byte() {
    let mut v = BitSet::new();

    // Bitmap is composed of entirely set bits.
    v.append_set(2);
    assert!(v.is_all_set());
    assert!(!v.is_all_unset());

    // Now the bitmap is neither composed of entirely set, nor entirely
    // unset bits.
    v.append_unset(1);
    assert!(!v.is_all_set());
    assert!(!v.is_all_unset());

    let mut v = BitSet::new();

    // Bitmap is composed of entirely unset bits.
    v.append_unset(2);
    assert!(!v.is_all_set());
    assert!(v.is_all_unset());

    // And once again, it is neither all set, nor all unset.
    v.append_set(1);
    assert!(!v.is_all_set());
    assert!(!v.is_all_unset());
}

#[test]
fn test_all_set_unset_empty() {
    let v = BitSet::new();
    assert!(!v.is_all_set());
    assert!(v.is_all_unset());
}

fn bools_of(mask: &BitSet) -> Vec<bool> {
    (0..mask.len()).map(|i| mask.get(i)).collect()
}

#[test]
fn a_new_bitset_is_empty() {
    let mask = BitSet::new();
    assert_eq!(mask.len(), 0);
    assert!(mask.is_empty());
    assert_eq!(mask.byte_len(), 0);
    assert_eq!(mask.bytes(), &[] as &[u8]);
    let mask = BitSet::default();
    assert!(mask.is_empty());
    assert_eq!(mask.byte_len(), 0);
}

#[test]
fn with_size_gives_unset_bits() {
    let mask = BitSet::with_size(11);
    assert_eq!(mask.len(), 11);
    assert!(!mask.is_empty());
    assert_eq!(mask.byte_len(), 2);
    assert_eq!(mask.bytes(), &[0, 0]);
    assert!(mask.is_all_unset());
    assert!(BitSet::with_size(0).is_empty());
    assert_eq!(BitSet::with_size(8).byte_len(), 1);
    assert_eq!(BitSet::with_size(9).byte_len(), 2);
}

#[test]
fn set_sets_one_bit() {
    let mut mask = BitSet::with_size(20);
    mask.set(0);
    mask.set(9);
    mask.set(19);
    mask.set(9);
    assert_eq!(mask.bytes(), &[0b00000001, 0b00000010, 0b00001000]);
    for i in 0..20 {
        assert_eq!(mask.get(i), i == 0 || i == 9 || i == 19);
    }
    assert_eq!(mask.len(), 20);
}

#[test]
fn set_bits_are_appended_behind_what_is_there() {
    let mut mask = BitSet::new();
    mask.append_unset(3);
    mask.append_set(7);
    mask.append_unset(2);
    mask.append_set(0);
    assert_eq!(mask.len(), 12);
    assert_eq!(mask.bytes(), &[0b11111000, 0b00000011]);
    mask.append_set(4);
    assert_eq!(mask.bytes(), &[0b11111000, 0b11110011]);
    mask.append_set(1);
    assert_eq!(mask.bytes(), &[0b11111000, 0b11110011, 0b00000001]);
}

#[test]
fn truncate_keeps_the_first_bits() {
    let mut mask = BitSet::new();
    mask.append_set(20);
    mask.truncate(20);
    assert_eq!(mask.bytes(), &[0xff, 0xff, 0x0f]);
    mask.truncate(11);
    assert_eq!(mask.len(), 11);
    assert_eq!(mask.bytes(), &[0xff, 0b00000111]);
    // What was cut off does not come back.
    mask.append_unset(5);
    assert_eq!(mask.bytes(), &[0xff, 0b00000111]);
    mask.truncate(8);
    assert_eq!(mask.bytes(), &[0xff]);
    mask.truncate(0);
    assert!(mask.is_empty());
    assert_eq!(mask.byte_len(), 0);
}

#[test]
fn reserve_changes_no_bit() {
    let mut mask = BitSet::new();
    mask.append_bits(10, &[0b10101010, 0b00000001]);
    let before = mask.bytes().to_vec();
    mask.reserve(1000);
    mask.reserve(0);
    assert_eq!(mask.len(), 10);
    assert_eq!(mask.bytes(), before);
}

#[test]
fn only_the_counted_bits_are_appended() {
    let mut mask = BitSet::new();
    mask.append_bits(3, &[0b11111111]);
    assert_eq!(mask.bytes(), &[0b00000111]);
    mask.append_bits(0, &[]);
    assert_eq!(mask.len(), 3);
    mask.append_bits(9, &[0b00000000, 0b11111111]);
    assert_eq!(mask.len(), 12);
    assert_eq!(mask.bytes(), &[0b00000111, 0b00001000]);
}

#[test]
fn extend_from_appends_all_bits_of_the_other() {
    let mut a = BitSet::new();
    a.append_bits(5, &[0b00010110]);
    let mut b = BitSet::new();
    b.append_bits(6, &[0b00101001]);
    a.extend_from(&b);
    assert_eq!(a.len(), 11);
    assert_eq!(
        bools_of(&a),
        vec![false, true, true, false, true, true, false, false, true, false, true]
    );
    a.extend_from(&BitSet::new());
    assert_eq!(a.len(), 11);
    // The other set is as it was.
    assert_eq!(b.bytes(), &[0b00101001]);
}

#[test]
fn extend_from_range_appends_the_bits_of_the_range() {
    let mut src = BitSet::new();
    src.append_bits(20, &[0b11001010, 0b00110101, 0b00001001]);
    let all = bools_of(&src);

    // Within one byte, across two bytes, from the start of a byte, nothing.
    for (start, end) in [(1, 4), (3, 8), (5, 13), (6, 20), (8, 10), (8, 20), (0, 20), (7, 7)] {
        let mut dst = BitSet::new();
        dst.append_set(3);
        dst.extend_from_range(&src, start..end);
        let mut expected = vec![true; 3];
        expected.extend_from_slice(&all[start..end]);
        assert_eq!(bools_of(&dst), expected);
        assert_eq!(dst.bytes(), compact_bools(&expected));
    }
}

#[test]
fn a_bit_unset_in_the_middle_is_seen() {
    // Twenty bits of which only those of the second byte are not set.
    let mut mask = BitSet::new();
    mask.append_set(8);
    mask.append_unset(8);
    mask.append_set(4);
    assert!(!mask.is_all_set());
    assert!(!mask.is_all_unset());
    mask.set(8);
    for i in 9..16 {
        assert!(!mask.is_all_set());
        mask.set(i);
    }
    assert!(mask.is_all_set());
    // One bit set in the last byte is seen as well.
    let mut mask = BitSet::with_size(20);
    assert!(mask.is_all_unset());
    mask.set(19);
    assert!(!mask.is_all_unset());
}

#[test]
fn a_copy_holds_the_same_bits() {
    let mut mask = BitSet::new();
    mask.append_bits(13, &[0b01011010, 0b00010001]);
    let mut copy = mask.clone();
    assert_eq!(copy.len(), 13);
    assert_eq!(copy.bytes(), mask.bytes());
    copy.set(0);
    assert!(!mask.get(0));
    assert!(copy.get(0));
}

#[test]
fn the_arrow_buffer_holds_the_bits() {
    let mut mask = BitSet::new();
    mask.append_bits(13, &[0b01011010, 0b00010001]);
    let buffer = mask.to_arrow();
    assert_eq!(buffer.len(), 13);
    assert_eq!(buffer.offset(), 0);
    for i in 0..13 {
        assert_eq!(buffer.value(i), mask.get(i));
    }
    assert_eq!(buffer.count_set_bits(), 6);
    assert!(BitSet::new().to_arrow().is_empty());
}

#[test]
fn set_positions_come_in_increasing_order() {
    let bytes = [0b10000001, 0b00000000, 0b00010100, 0b11111111];
    let all = vec![0, 7, 18, 20, 24, 25, 26, 27, 28, 29, 30, 31];
    assert_eq!(iter_set_positions(&bytes), all);
    assert_eq!(iter_set_positions(&[]), Vec::<usize>::new());
    assert_eq!(iter_set_positions(&[0, 0, 0]), Vec::<usize>::new());
    for offset in 0..40 {
        let expected: Vec<usize> = all.iter().copied().filter(|p| *p >= offset).collect();
        assert_eq!(iter_set_positions_with_offset(&bytes, offset), expected);
    }
    assert_eq!(iter_set_positions_with_offset(&bytes, usize::MAX), Vec::<usize>::new());
}
