use lookup3_bloom::bitset::Bitset;

#[test]
fn bitset_rejects_a_length_that_is_no_multiple_of_eight() {
    assert_eq!(Bitset::new(7).err(), Some("num_bits must be divisible by 8"));
    assert_eq!(Bitset::new(1).err(), Some("num_bits must be divisible by 8"));
    assert_eq!(Bitset::new(257).err(), Some("num_bits must be divisible by 8"));
}

#[test]
fn new_accepts_multiples_of_eight() {
    assert!(Bitset::new(0).is_ok());
    assert!(Bitset::new(8).is_ok());
    assert!(Bitset::new(256).is_ok());
}

#[test]
fn len_is_the_number_of_bits() {
    assert_eq!(Bitset::new(0).ok().unwrap().len(), 0);
    assert_eq!(Bitset::new(8).ok().unwrap().len(), 8);
    assert_eq!(Bitset::new(4096).ok().unwrap().len(), 4096);
}

#[test]
fn new_bitset_has_no_bit_set() {
    let set: Bitset = Bitset::new(64).ok().unwrap();
    let mut i: usize = 0;
    while i < 64 {
        assert_eq!(set.get_bit(i), Ok(false));
        i += 1;
    }
}

#[test]
fn set_then_get_reads_true_and_changes_no_other_bit() {
    let mut i: usize = 0;
    while i < 40 {
        let mut set: Bitset = Bitset::new(40).ok().unwrap();
        assert_eq!(set.set_bit(i), Ok(()));
        let mut j: usize = 0;
        while j < 40 {
            assert_eq!(set.get_bit(j), Ok(j == i), "bit {} after setting bit {}", j, i);
            j += 1;
        }
        i += 1;
    }
}

#[test]
fn set_bits_stay_set() {
    let mut set: Bitset = Bitset::new(24).ok().unwrap();
    assert_eq!(set.set_bit(3), Ok(()));
    assert_eq!(set.set_bit(8), Ok(()));
    assert_eq!(set.set_bit(23), Ok(()));
    assert_eq!(set.set_bit(3), Ok(()));
    let mut j: usize = 0;
    while j < 24 {
        assert_eq!(set.get_bit(j), Ok(j == 3 || j == 8 || j == 23));
        j += 1;
    }
    assert_eq!(set.len(), 24);
}

#[test]
fn get_bit_out_of_range_is_an_error() {
    let set: Bitset = Bitset::new(16).ok().unwrap();
    assert_eq!(set.get_bit(16), Err("idx is out of range"));
    assert_eq!(set.get_bit(usize::MAX), Err("idx is out of range"));
    let empty: Bitset = Bitset::new(0).ok().unwrap();
    assert_eq!(empty.get_bit(0), Err("idx is out of range"));
}

#[test]
fn set_bit_out_of_range_is_an_error_and_changes_nothing() {
    let mut set: Bitset = Bitset::new(16).ok().unwrap();
    assert_eq!(set.set_bit(5), Ok(()));
    assert_eq!(set.set_bit(16), Err("idx is out of range"));
    assert_eq!(set.set_bit(usize::MAX), Err("idx is out of range"));
    let mut j: usize = 0;
    while j < 16 {
        assert_eq!(set.get_bit(j), Ok(j == 5));
        j += 1;
    }
}
