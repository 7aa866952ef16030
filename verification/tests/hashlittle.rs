use lookup3_bloom::lookup3::{choose_strategy, final_, hashlittle, hashlittle_with, mix, Strategy};

const STRATEGIES: [Strategy; 3] = [Strategy::Words, Strategy::HalfWords, Strategy::Bytes];

const TAIL_HASHES: [u32; 41] = [
    0xdc61c9cc, 0x18ea9086, 0xd0d44927, 0xfe0308eb, 0x328fc1cc, 0x6dd7f8b1, 0x5f708cfa, 0x50b187e4,
    0x168a93a0, 0x3ff2c18c, 0x5d44f9f4, 0x00ee6c7f, 0x9c29fa68, 0xd8afef4f, 0xc8102b63, 0x16317343,
    0x0219099b, 0xbf52fd69, 0xa020302e, 0x07bb7202, 0xf4b8fd88, 0x7103b439, 0xfbff32d0, 0x91d636a3,
    0xb7a6bd67, 0xd6e4902e, 0xe30209f1, 0x99ea67d1, 0x747dca65, 0xf06e888c, 0xc26e1941, 0x0cf58b81,
    0x521eaab9, 0xd4843b9a, 0x36099f05, 0xeeb1d063, 0x6ad30cfa, 0x99c40bdf, 0x56d6159e, 0x94b13be9,
    0x4d2591be,
];

fn counting_key(len: usize) -> Vec<u8> {
    let mut key: Vec<u8> = Vec::new();
    let mut i: usize = 0;
    while i < len {
        key.push((i + 1) as u8);
        i += 1;
    }
    key
}

#[test]
fn four_score_seed_zero() {
    assert_eq!(hashlittle(b"Four score and seven years ago", 0), 0x1777_0551);
}

#[test]
fn four_score_seed_one() {
    assert_eq!(hashlittle(b"Four score and seven years ago", 1), 0xcd62_8161);
}

#[test]
fn empty_key_goes_through_the_closing_transform() {
    let mut a: u32 = 0xdead_beef;
    let mut b: u32 = 0xdead_beef;
    let mut c: u32 = 0xdead_beef;
    final_(&mut a, &mut b, &mut c);
    assert_eq!(hashlittle(b"", 0), c);
    assert_eq!(hashlittle(b"", 0), 0x31b8_a510);
}

#[test]
fn empty_key_with_seed() {
    assert_eq!(hashlittle(b"", 0xdead_beef), 0xac59_8367);
    assert_eq!(hashlittle(b"", 1), 0x8ba9_414b);
}

#[test]
fn hashlittle_gives_the_expected_values() {
    assert_eq!(hashlittle(b"a", 0), 0x58d6_8708);
    assert_eq!(hashlittle(b"abc", 0), 0x0e39_7631);
    assert_eq!(hashlittle(b"hello world!", 0), 0x4b89_46db);
    assert_eq!(hashlittle(b"hello world!!", 0), 0xbdfd_2524);
}

#[test]
fn hashlittle_wraps_on_large_bytes_and_seed() {
    assert_eq!(hashlittle(&[0xff; 13], 0xffff_ffff), 0x3445_f31b);
}

#[test]
fn hashlittle_is_deterministic() {
    let key: Vec<u8> = counting_key(100);
    let first: u32 = hashlittle(&key, 12345);
    let second: u32 = hashlittle(&key, 12345);
    assert_eq!(first, second);
    let copy: Vec<u8> = key.clone();
    assert_eq!(hashlittle(&copy, 12345), first);
}

#[test]
fn hashlittle_depends_on_the_seed() {
    assert_ne!(hashlittle(b"abc", 0), hashlittle(b"abc", 1));
}

#[test]
fn twelve_bytes_are_one_block_without_a_mixing_round() {
    let key: Vec<u8> = counting_key(12);
    let start: u32 = 0xdead_beef_u32.wrapping_add(12).wrapping_add(9);
    let mut a: u32 = start.wrapping_add(0x0403_0201);
    let mut b: u32 = start.wrapping_add(0x0807_0605);
    let mut c: u32 = start.wrapping_add(0x0c0b_0a09);
    final_(&mut a, &mut b, &mut c);
    assert_eq!(hashlittle(&key, 9), c);
}

#[test]
fn thirteen_bytes_are_one_mixing_round_and_a_tail_of_one() {
    let key: Vec<u8> = counting_key(13);
    let start: u32 = 0xdead_beef_u32.wrapping_add(13).wrapping_add(9);
    let mut a: u32 = start.wrapping_add(0x0403_0201);
    let mut b: u32 = start.wrapping_add(0x0807_0605);
    let mut c: u32 = start.wrapping_add(0x0c0b_0a09);
    mix(&mut a, &mut b, &mut c);
    a = a.wrapping_add(0x0d);
    final_(&mut a, &mut b, &mut c);
    assert_eq!(hashlittle(&key, 9), c);
}

#[test]
fn every_tail_length_has_the_expected_hash() {
    let key: Vec<u8> = counting_key(40);
    let mut n: usize = 0;
    while n <= 40 {
        assert_eq!(hashlittle(&key[..n], 0x2a), TAIL_HASHES[n], "length {}", n);
        n += 1;
    }
}

#[test]
fn every_strategy_gives_the_expected_hash_for_every_tail_length() {
    let key: Vec<u8> = counting_key(40);
    for strategy in STRATEGIES {
        let mut n: usize = 0;
        while n <= 40 {
            assert_eq!(
                hashlittle_with(&key[..n], 0x2a, strategy),
                TAIL_HASHES[n],
                "length {} read as {:?}",
                n,
                strategy
            );
            n += 1;
        }
    }
}

#[test]
fn word_and_half_word_strategies_agree_with_bytes_on_high_bytes() {
    let mut key: Vec<u8> = Vec::new();
    let mut i: usize = 0;
    while i < 61 {
        key.push((255 - 3 * i) as u8);
        i += 1;
    }
    let mut n: usize = 0;
    while n <= key.len() {
        let by_bytes: u32 = hashlittle_with(&key[..n], 0xffff_fff0, Strategy::Bytes);
        assert_eq!(hashlittle_with(&key[..n], 0xffff_fff0, Strategy::Words), by_bytes);
        assert_eq!(hashlittle_with(&key[..n], 0xffff_fff0, Strategy::HalfWords), by_bytes);
        n += 1;
    }
}

#[test]
fn hash_does_not_depend_on_where_the_key_lies() {
    let key: Vec<u8> = counting_key(40);
    let mut n: usize = 0;
    while n <= 40 {
        let mut offset: usize = 0;
        while offset < 8 {
            let mut buffer: Vec<u8> = vec![0xa5; offset];
            buffer.extend_from_slice(&key[..n]);
            buffer.push(0x5a);
            let moved: &[u8] = &buffer[offset..offset + n];
            assert_eq!(hashlittle(moved, 0x2a), TAIL_HASHES[n], "length {} at offset {}", n, offset);
            offset += 1;
        }
        n += 1;
    }
}

#[test]
fn strategy_follows_the_address() {
    assert_eq!(choose_strategy(0, true), Strategy::Words);
    assert_eq!(choose_strategy(0x1000, true), Strategy::Words);
    assert_eq!(choose_strategy(0x1004, true), Strategy::Words);
    assert_eq!(choose_strategy(0x1002, true), Strategy::HalfWords);
    assert_eq!(choose_strategy(0x1006, true), Strategy::HalfWords);
    assert_eq!(choose_strategy(0x1001, true), Strategy::Bytes);
    assert_eq!(choose_strategy(0x1003, true), Strategy::Bytes);
    assert_eq!(choose_strategy(usize::MAX, true), Strategy::Bytes);
}

#[test]
fn strategy_is_bytes_unless_little_endian() {
    assert_eq!(choose_strategy(0x1000, false), Strategy::Bytes);
    assert_eq!(choose_strategy(0x1002, false), Strategy::Bytes);
    assert_eq!(choose_strategy(0x1001, false), Strategy::Bytes);
}
