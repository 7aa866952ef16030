use lookup3_bloom::bloom::Bloom;
use lookup3_bloom::sample::{make_word, CODE_LIMIT, FIRST_CODE, WORD_LEN};

#[test]
fn sample_word_has_five_printable_characters() {
    let mut rng = rand::thread_rng();
    let mut round: u32 = 0;
    while round < 500 {
        let word: String = make_word(&mut rng);
        assert_eq!(word.chars().count(), 5);
        assert_eq!(word.len(), 5);
        for c in word.chars() {
            assert!((c as u32) >= 33 && (c as u32) < 128, "character {:?}", c);
        }
        round += 1;
    }
}

#[test]
fn sample_word_limits() {
    assert_eq!(WORD_LEN, 5);
    assert_eq!(FIRST_CODE, 33);
    assert_eq!(CODE_LIMIT, 128);
}

#[test]
fn sample_words_differ() {
    let mut rng = rand::thread_rng();
    let first: String = make_word(&mut rng);
    let mut differs: bool = false;
    let mut round: u32 = 0;
    while round < 200 {
        if make_word(&mut rng) != first {
            differs = true;
        }
        round += 1;
    }
    assert!(differs);
}

#[test]
fn sample_words_that_were_added_are_found() {
    let mut seen: Vec<String> = Vec::new();
    let mut filter: Bloom = Bloom::new(256, 10).ok().unwrap();
    let mut rng = rand::thread_rng();
    let mut round: u32 = 0;
    while round < 300 {
        let word: String = make_word(&mut rng);
        filter.hash(word.as_bytes());
        seen.push(word);
        round += 1;
    }
    for word in seen {
        assert_eq!(filter.contains(word.as_bytes()), Some(()));
    }
}
