//! Random sample keys for exercising the approximate set.

use rand::rngs::ThreadRng;
use rand::Rng;
use vstd::prelude::*;

verus! {

/// The thread-local random number generator of the `rand` crate. Its state
/// is hidden: nothing is known of the numbers it will give.
#[verifier::external_type_specification]
#[verifier::external_body]
pub struct ExThreadRng(rand::rngs::ThreadRng);

/// The number of characters in a sample word.
pub const WORD_LEN: usize = 5;

/// The lowest character code of a sample word: `'!'`, the first printable
/// character that is not a space.
pub const FIRST_CODE: u8 = 33;

/// One more than the highest character code of a sample word.
pub const CODE_LIMIT: u8 = 128;

/// Whether the code of `c` is from `FIRST_CODE` up to but not including
/// `CODE_LIMIT`.
pub open spec fn is_sample_char(c: char) -> bool {
    FIRST_CODE <= (c as u32) && (c as u32) < CODE_LIMIT
}

/// Whether `word` is a sample word: `WORD_LEN` characters, each of them a
/// sample character.
pub open spec fn is_sample_word(word: Seq<char>) -> bool {
    &&& word.len() == WORD_LEN
    &&& forall|i: int| 0 <= i < word.len() ==> is_sample_char(#[trigger] word[i])
}

/// Draws a byte with `rand::Rng::gen_range(low, high)`, which returns a
/// value that is at least `low` and less than `high`, and panics unless
/// `low < high`. Which value it returns is left open.
#[verifier::external_body]
fn random_code(rng: &mut ThreadRng, low: u8, high: u8) -> (code: u8)
    requires
        low < high,
    ensures
        low <= code < high,
{
    rng.gen_range(low, high)
}

/// `String::push`: appends one character to the end of the string.
#[verifier::external_body]
fn push_char(word: &mut String, c: char)
    ensures
        final(word)@ == old(word)@.push(c),
{
    word.push(c)
}

/// Makes a random sample word from numbers drawn from `rng`.
pub fn make_word(rng: &mut ThreadRng) -> (word: String)
    ensures
        is_sample_word(word@),
{
    let mut word = String::new();
    let mut i: usize = 0;
    while i < WORD_LEN
        invariant
            i <= WORD_LEN,
            word@.len() == i,
            forall|j: int| 0 <= j < word@.len() ==> is_sample_char(#[trigger] word@[j]),
        decreases WORD_LEN - i,
    {
        let code: u8 = random_code(rng, FIRST_CODE, CODE_LIMIT);
        push_char(&mut word, code as char);
        i += 1;
    }
    word
}

} // verus!
