//! The lookup3 family of non-cryptographic hash functions: a seeded mixing
//! function that maps a sequence of bytes or of 32-bit words to one or two
//! 32-bit values. All register arithmetic is modulo 2^32.

use vstd::arithmetic::power2::{lemma2_to64, lemma_pow2_pos, lemma_pow2_strictly_increases, pow2};
use vstd::arithmetic::div_mod::{
    lemma_fundamental_div_mod, lemma_fundamental_div_mod_converse_mod, lemma_mod_multiples_vanish,
};
use vstd::bits::lemma_u32_shl_is_mul;
use vstd::prelude::*;

verus! {

/// The three 32-bit registers that one hash computation works on.
pub struct HashState {
    pub a: u32,
    pub b: u32,
    pub c: u32,
}

/// Left circular rotation of a 32-bit value by `k` bit positions, `k` taken modulo 32.
pub open spec fn rotl(x: u32, k: u8) -> u32 {
    let m = k % 32;
    if m == 0 {
        x
    } else {
        (x << m) | (x >> ((32 - m) as u8))
    }
}

/// One step of a mixing round: `x` less `z`, exclusive-or `z` rotated left by `k`.
pub open spec fn round_step(x: u32, z: u32, k: u8) -> u32 {
    x.wrapping_sub(z) ^ rotl(z, k)
}

/// One step of the closing transform: `x` exclusive-or `y`, less `y` rotated left by `k`.
pub open spec fn final_step(x: u32, y: u32, k: u8) -> u32 {
    (x ^ y).wrapping_sub(rotl(y, k))
}

/// The mixing round: six steps with rotations 4, 6, 8, 16, 19, 4, each followed
/// by adding one register into another.
pub open spec fn mix_state(s: HashState) -> HashState {
    let a1 = round_step(s.a, s.c, 4);
    let c1 = s.c.wrapping_add(s.b);
    let b1 = round_step(s.b, a1, 6);
    let a2 = a1.wrapping_add(c1);
    let c2 = round_step(c1, b1, 8);
    let b2 = b1.wrapping_add(a2);
    let a3 = round_step(a2, c2, 16);
    let c3 = c2.wrapping_add(b2);
    let b3 = round_step(b2, a3, 19);
    let a4 = a3.wrapping_add(c3);
    let c4 = round_step(c3, b3, 4);
    let b4 = b3.wrapping_add(a4);
    HashState { a: a4, b: b4, c: c4 }
}

/// The closing transform: seven steps with rotations 14, 11, 25, 16, 4, 14, 24.
pub open spec fn final_state(s: HashState) -> HashState {
    let c1 = final_step(s.c, s.b, 14);
    let a1 = final_step(s.a, c1, 11);
    let b1 = final_step(s.b, a1, 25);
    let c2 = final_step(c1, b1, 16);
    let a2 = final_step(a1, c2, 4);
    let b2 = final_step(b1, a2, 14);
    let c3 = final_step(c2, b2, 24);
    HashState { a: a2, b: b2, c: c3 }
}

/// The registers with `x`, `y` and `z` added into `a`, `b` and `c`.
pub open spec fn add_block(s: HashState, x: u32, y: u32, z: u32) -> HashState {
    HashState { a: s.a.wrapping_add(x), b: s.b.wrapping_add(y), c: s.c.wrapping_add(z) }
}

/// The value that the registers start from: 0xdeadbeef plus the length of the
/// input in bytes plus the seed, modulo 2^32.
pub open spec fn initial_value(byte_len: nat, seed: u32) -> u32 {
    ((0xdead_beef + byte_len + seed) % 0x1_0000_0000) as u32
}

/// The word at index `i`, or zero past the end of the sequence.
pub open spec fn word_or_zero(k: Seq<u32>, i: int) -> u32 {
    if 0 <= i < k.len() {
        k[i]
    } else {
        0
    }
}

/// The registers after the words from index `at` on have been folded into `s`:
/// while more than three words remain, three are added and a mixing round
/// follows; the last block of at most three words is added without a round.
pub open spec fn absorb_words(k: Seq<u32>, at: int, s: HashState) -> HashState
    decreases k.len() - at,
{
    let block = add_block(s, word_or_zero(k, at), word_or_zero(k, at + 1), word_or_zero(k, at + 2));
    if k.len() - at > 3 {
        absorb_words(k, at + 3, mix_state(block))
    } else {
        block
    }
}

/// The registers at the end of a hash of the words `k`, with primary seed `pc`
/// and secondary seed `pb`.
pub open spec fn word_registers(k: Seq<u32>, pc: u32, pb: u32) -> HashState {
    let init = initial_value(4 * k.len(), pc);
    final_state(absorb_words(k, 0, HashState { a: init, b: init, c: init.wrapping_add(pb) }))
}

/// The hash of the words `k` under `seed`.
pub open spec fn hash_words(k: Seq<u32>, seed: u32) -> u32 {
    word_registers(k, seed, 0).c
}

/// The two hashes of the words `k` under the seeds `pc` and `pb`.
pub open spec fn hash_words2(k: Seq<u32>, pc: u32, pb: u32) -> (u32, u32) {
    (word_registers(k, pc, pb).c, word_registers(k, pc, pb).b)
}

/// The byte at index `i`, or zero past the end of the sequence.
pub open spec fn byte_or_zero(bytes: Seq<u8>, i: int) -> u8 {
    if 0 <= i < bytes.len() {
        bytes[i]
    } else {
        0
    }
}

/// The little-endian value of the first `n` of the four bytes at index `at`,
/// bytes past the end of the sequence counting as zero.
pub open spec fn le_prefix(bytes: Seq<u8>, at: int, n: int) -> u32 {
    ((if n > 0 { byte_or_zero(bytes, at) as int } else { 0 })
        + (if n > 1 { 0x100 * byte_or_zero(bytes, at + 1) } else { 0 })
        + (if n > 2 { 0x1_0000 * byte_or_zero(bytes, at + 2) } else { 0 })
        + (if n > 3 { 0x100_0000 * byte_or_zero(bytes, at + 3) } else { 0 })) as u32
}

/// The little-endian 32-bit word at index `at`, bytes past the end of the
/// sequence counting as zero.
pub open spec fn le_word(bytes: Seq<u8>, at: int) -> u32 {
    le_prefix(bytes, at, 4)
}

/// The registers after the bytes from index `at` on have been folded into
/// `s`: while more than twelve bytes remain, three little-endian words are
/// added and a mixing round follows; the last block of at most twelve bytes,
/// padded with zeros, is added without a round.
pub open spec fn absorb_bytes(bytes: Seq<u8>, at: int, s: HashState) -> HashState
    decreases bytes.len() - at,
{
    let block = add_block(s, le_word(bytes, at), le_word(bytes, at + 4), le_word(bytes, at + 8));
    if bytes.len() - at > 12 {
        absorb_bytes(bytes, at + 12, mix_state(block))
    } else {
        block
    }
}

/// The hash of `bytes` under `seed`: the third register after the bytes have
/// been folded into registers that all start from the same value and the
/// closing transform has been applied once. The empty input goes through the
/// closing transform like any other.
pub open spec fn hash_bytes(bytes: Seq<u8>, seed: u32) -> u32 {
    let init = initial_value(bytes.len(), seed);
    final_state(absorb_bytes(bytes, 0, HashState { a: init, b: init, c: init })).c
}

/// How the bytes of a key are read: as 32-bit words, as 16-bit half-words, or
/// one by one. The choice affects speed only, never the hash.
#[derive(Clone, Copy, PartialEq, Eq, Debug, Structural)]
pub enum Strategy {
    /// Four bytes at a time, the last word masked to the bytes that are left.
    Words,
    /// Two bytes at a time, with one single byte where the length is odd.
    HalfWords,
    /// One byte at a time.
    Bytes,
}

/// The strategy for a key that starts at `address`: words where the address
/// is a multiple of four, half-words where it is a multiple of two, bytes
/// otherwise and on every machine that is not little-endian.
pub open spec fn strategy_for(address: usize, little_endian: bool) -> Strategy {
    if little_endian && address % 4 == 0 {
        Strategy::Words
    } else if little_endian && address % 2 == 0 {
        Strategy::HalfWords
    } else {
        Strategy::Bytes
    }
}

/// The number of values that `n` bits can address.
#[inline]
pub fn hash_size(n: u8) -> (r: u32)
    requires
        n < 32,
    ensures
        r == pow2(n as nat),
{
    proof {
        lemma2_to64();
        lemma_pow2_strictly_increases(n as nat, 32);
        lemma_u32_shl_is_mul(1, n as u32);
    }
    1u32 << n
}

/// A mask that keeps the low `n` bits of a hash value.
#[inline]
pub fn hash_mask(n: u8) -> (r: u32)
    requires
        n < 32,
    ensures
        r == pow2(n as nat) - 1,
{
    proof {
        lemma_pow2_pos(n as nat);
    }
    hash_size(n) - 1
}

/// Rotates `x` left by `k` bits, `k` taken modulo 32.
#[inline]
pub fn rot(x: u32, k: u8) -> (r: u32)
    ensures
        r == rotl(x, k),
{
    let m: u8 = k % 32;
    if m == 0 {
        x
    } else {
        x << m | x >> (32 - m)
    }
}

/// Scrambles the three registers with one mixing round.
#[inline]
pub fn mix(a: &mut u32, b: &mut u32, c: &mut u32)
    ensures
        (HashState { a: *final(a), b: *final(b), c: *final(c) }) == mix_state(
            HashState { a: *old(a), b: *old(b), c: *old(c) },
        ),
{
    *a = a.wrapping_sub(*c);
    *a ^= rot(*c, 4);
    *c = c.wrapping_add(*b);
    *b = b.wrapping_sub(*a);
    *b ^= rot(*a, 6);
    *a = a.wrapping_add(*c);
    *c = c.wrapping_sub(*b);
    *c ^= rot(*b, 8);
    *b = b.wrapping_add(*a);
    *a = a.wrapping_sub(*c);
    *a ^= rot(*c, 16);
    *c = c.wrapping_add(*b);
    *b = b.wrapping_sub(*a);
    *b ^= rot(*a, 19);
    *a = a.wrapping_add(*c);
    *c = c.wrapping_sub(*b);
    *c ^= rot(*b, 4);
    *b = b.wrapping_add(*a);
}

/// Applies the closing transform to the three registers.
#[inline]
pub fn final_(a: &mut u32, b: &mut u32, c: &mut u32)
    ensures
        (HashState { a: *final(a), b: *final(b), c: *final(c) }) == final_state(
            HashState { a: *old(a), b: *old(b), c: *old(c) },
        ),
{
    *c ^= *b;
    *c = c.wrapping_sub(rot(*b, 14));
    *a ^= *c;
    *a = a.wrapping_sub(rot(*c, 11));
    *b ^= *a;
    *b = b.wrapping_sub(rot(*a, 25));
    *c ^= *b;
    *c = c.wrapping_sub(rot(*b, 16));
    *a ^= *c;
    *a = a.wrapping_sub(rot(*c, 4));
    *b ^= *a;
    *b = b.wrapping_sub(rot(*a, 14));
    *c ^= *b;
    *c = c.wrapping_sub(rot(*b, 24));
}

/// A length and its remainder modulo 2^32 give the same starting value.
proof fn lemma_initial_value_congruent(len: nat, low: u32, seed: u32)
    requires
        low == len % 0x1_0000_0000,
    ensures
        initial_value(low as nat, seed) == initial_value(len, seed),
{
    let m: int = 0x1_0000_0000;
    lemma_fundamental_div_mod(len as int, m);
    lemma_mod_multiples_vanish(len as int / m, 0xdead_beef + low + seed, m);
}

/// Four times a count, modulo 2^32, from the count's remainder modulo 2^32.
proof fn lemma_scaled_length(n: nat, low: u32, length: u32)
    requires
        low == n % 0x1_0000_0000,
        length == (low * 4) % 0x1_0000_0000,
    ensures
        length == (4 * n) % 0x1_0000_0000,
{
    let m: int = 0x1_0000_0000;
    lemma_fundamental_div_mod(n as int, m);
    lemma_fundamental_div_mod(low * 4, m);
    lemma_fundamental_div_mod_converse_mod(
        4 * (n as int),
        m,
        4 * (n as int / m) + (low * 4) / m,
        length as int,
    );
}

/// The low 32 bits of a length.
fn low_bits(n: usize) -> (low: u32)
    ensures
        low == (n as int) % 0x1_0000_0000,
{
    let low: u32 = #[verifier::truncate] (n as u32);
    assert(low as u64 == (n as u64) % 0x1_0000_0000u64) by (bit_vector)
        requires
            low == n as u32,
    ;
    low
}

/// The starting value of the registers for an input whose length in bytes is
/// `length` modulo 2^32.
fn start_value(length: u32, seed: u32) -> (r: u32)
    ensures
        r == initial_value(length as nat, seed),
{
    let r: u32 = 0xdead_beef_u32.wrapping_add(length).wrapping_add(seed);
    proof {
        let sum: int = 0xdead_beef + length + seed;
        lemma_fundamental_div_mod_converse_mod(
            sum,
            0x1_0000_0000,
            (sum - r) / 0x1_0000_0000,
            r as int,
        );
    }
    r
}

/// Folds the words of `k` into registers that start from `pc`, with `pb`
/// added to the third, and closes with the final transform.
fn hashword_registers(k: &[u32], pc: u32, pb: u32) -> (r: (u32, u32, u32))
    ensures
        (HashState { a: r.0, b: r.1, c: r.2 }) == word_registers(k@, pc, pb),
{
    let n: usize = k.len();
    let low: u32 = low_bits(n);
    let length: u32 = low << 2;
    proof {
        assert(low << 2 == (low * 4) % 0x1_0000_0000) by (bit_vector);
        lemma_scaled_length(n as nat, low, length);
        lemma_initial_value_congruent(4 * (n as nat), length, pc);
    }
    let mut a: u32 = start_value(length, pc);
    let mut b: u32 = a;
    let mut c: u32 = a.wrapping_add(pb);
    let mut i: usize = 0;

    while n - i > 3
        invariant
            i <= n,
            n == k@.len(),
            absorb_words(k@, i as int, HashState { a, b, c }) == absorb_words(
                k@,
                0,
                HashState {
                    a: initial_value(4 * k@.len(), pc),
                    b: initial_value(4 * k@.len(), pc),
                    c: initial_value(4 * k@.len(), pc).wrapping_add(pb),
                },
            ),
        decreases n - i,
    {
        a = a.wrapping_add(k[i]);
        b = b.wrapping_add(k[i + 1]);
        c = c.wrapping_add(k[i + 2]);
        mix(&mut a, &mut b, &mut c);
        i += 3;
    }

    match n - i {
        3 => {
            c = c.wrapping_add(k[i + 2]);
            b = b.wrapping_add(k[i + 1]);
            a = a.wrapping_add(k[i]);
        },
        2 => {
            b = b.wrapping_add(k[i + 1]);
            a = a.wrapping_add(k[i]);
        },
        1 => {
            a = a.wrapping_add(k[i]);
        },
        _ => (),
    }

    final_(&mut a, &mut b, &mut c);
    (a, b, c)
}

/// Hashes a sequence of 32-bit words.
///
/// * `k` - the key
/// * `init_val` - the seed: the previous hash, or an arbitrary value
#[inline]
pub fn hashword(k: &[u32], init_val: u32) -> (r: u32)
    ensures
        r == hash_words(k@, init_val),
{
    let regs = hashword_registers(k, init_val, 0);
    regs.2
}

/// Hashes a sequence of 32-bit words under two seeds and returns two hash
/// values from one pass over the key.
///
/// * `k` - the key
/// * `pc` - primary seed
/// * `pb` - secondary seed
#[inline]
pub fn hashword2(k: &[u32], pc: u32, pb: u32) -> (r: (u32, u32))
    ensures
        r == hash_words2(k@, pc, pb),
{
    let regs = hashword_registers(k, pc, pb);
    (regs.2, regs.1)
}

/// A byte moved up by one, two or three byte positions is the byte times
/// 2^8, 2^16 or 2^24, and combining bytes in distinct positions with `|`
/// adds them.
proof fn lemma_byte_lanes(b0: u8, b1: u8, b2: u8, b3: u8)
    by (bit_vector)
    ensures
        (b1 as u32) << 8 == 0x100 * b1,
        (b2 as u32) << 16 == 0x1_0000 * b2,
        (b3 as u32) << 24 == 0x100_0000 * b3,
        (b0 as u32) | (b1 as u32) << 8 | (b2 as u32) << 16 | (b3 as u32) << 24 == b0 + 0x100 * b1
            + 0x1_0000 * b2 + 0x100_0000 * b3,
        (b0 as u16) | (b1 as u16) << 8 == b0 + 0x100 * b1,
{
}

/// A word that fits in the low one, two or three bytes is unchanged by the
/// mask of that width.
proof fn lemma_mask_keeps(w: u32)
    by (bit_vector)
    ensures
        w < 0x100 ==> w & 0xff == w,
        w < 0x1_0000 ==> w & 0xffff == w,
        w < 0x100_0000 ==> w & 0xff_ffff == w,
{
}

/// Combines `n` bytes from index `at` on, the first in the lowest position.
fn le_bytes(key: &[u8], at: usize, n: usize) -> (r: u32)
    requires
        1 <= n <= 4,
        at + n <= key.len(),
    ensures
        r == le_prefix(key@, at as int, n as int),
{
    proof {
        lemma_byte_lanes(
            key@[at as int],
            byte_or_zero(key@, at + 1),
            byte_or_zero(key@, at + 2),
            byte_or_zero(key@, at + 3),
        );
    }
    let mut r: u32 = key[at] as u32;
    if n > 1 {
        r = r + ((key[at + 1] as u32) << 8);
    }
    if n > 2 {
        r = r + ((key[at + 2] as u32) << 16);
    }
    if n > 3 {
        r = r + ((key[at + 3] as u32) << 24);
    }
    r
}

/// Reads the 32-bit little-endian word at index `at`. Where fewer than four
/// bytes are left, the missing high bytes read as zero.
fn load_word(key: &[u8], at: usize) -> (r: u32)
    requires
        at <= key.len(),
    ensures
        r == le_word(key@, at as int),
{
    let left: usize = key.len() - at;
    let b0: u8 = if left > 0 { key[at] } else { 0 };
    let b1: u8 = if left > 1 { key[at + 1] } else { 0 };
    let b2: u8 = if left > 2 { key[at + 2] } else { 0 };
    let b3: u8 = if left > 3 { key[at + 3] } else { 0 };
    proof {
        lemma_byte_lanes(b0, b1, b2, b3);
    }
    (b0 as u32) | (b1 as u32) << 8 | (b2 as u32) << 16 | (b3 as u32) << 24
}

/// Reads the 16-bit little-endian half-word at index `at`.
fn load_half(key: &[u8], at: usize) -> (r: u16)
    requires
        at + 2 <= key.len(),
    ensures
        r == le_prefix(key@, at as int, 2),
{
    proof {
        lemma_byte_lanes(key@[at as int], key@[at + 1], 0, 0);
    }
    (key[at] as u16) | (key[at + 1] as u16) << 8
}

/// Reads the two half-words at index `at` and joins them into one word, the
/// first in the low half.
fn load_half_pair(key: &[u8], at: usize) -> (r: u32)
    requires
        at + 4 <= key.len(),
    ensures
        r == le_word(key@, at as int),
{
    let lo: u16 = load_half(key, at);
    let hi: u16 = load_half(key, at + 2);
    assert(((hi as u32) << 16) == 0x1_0000 * hi) by (bit_vector);
    (lo as u32) + ((hi as u32) << 16)
}

/// Folds `key` into the registers by 32-bit words: twelve bytes at a time as
/// three whole words, then the last block as whole words and one word masked
/// to the bytes that are left.
fn fold_words(key: &[u8], a: u32, b: u32, c: u32) -> (r: (u32, u32, u32))
    ensures
        (HashState { a: r.0, b: r.1, c: r.2 }) == absorb_bytes(key@, 0, HashState { a, b, c }),
{
    let ghost start = HashState { a, b, c };
    let n: usize = key.len();
    let mut a: u32 = a;
    let mut b: u32 = b;
    let mut c: u32 = c;
    let mut i: usize = 0;

    while n - i > 12
        invariant
            i <= n,
            n == key@.len(),
            absorb_bytes(key@, i as int, HashState { a, b, c }) == absorb_bytes(key@, 0, start),
        decreases n - i,
    {
        a = a.wrapping_add(load_word(key, i));
        b = b.wrapping_add(load_word(key, i + 4));
        c = c.wrapping_add(load_word(key, i + 8));
        mix(&mut a, &mut b, &mut c);
        i += 12;
    }

    proof {
        lemma_mask_keeps(le_word(key@, i as int));
        lemma_mask_keeps(le_word(key@, i + 4));
        lemma_mask_keeps(le_word(key@, i + 8));
    }
    match n - i {
        12 => {
            c = c.wrapping_add(load_word(key, i + 8));
            b = b.wrapping_add(load_word(key, i + 4));
            a = a.wrapping_add(load_word(key, i));
        },
        11 => {
            c = c.wrapping_add(load_word(key, i + 8) & 0xff_ffff);
            b = b.wrapping_add(load_word(key, i + 4));
            a = a.wrapping_add(load_word(key, i));
        },
        10 => {
            c = c.wrapping_add(load_word(key, i + 8) & 0xffff);
            b = b.wrapping_add(load_word(key, i + 4));
            a = a.wrapping_add(load_word(key, i));
        },
        9 => {
            c = c.wrapping_add(load_word(key, i + 8) & 0xff);
            b = b.wrapping_add(load_word(key, i + 4));
            a = a.wrapping_add(load_word(key, i));
        },
        8 => {
            b = b.wrapping_add(load_word(key, i + 4));
            a = a.wrapping_add(load_word(key, i));
        },
        7 => {
            b = b.wrapping_add(load_word(key, i + 4) & 0xff_ffff);
            a = a.wrapping_add(load_word(key, i));
        },
        6 => {
            b = b.wrapping_add(load_word(key, i + 4) & 0xffff);
            a = a.wrapping_add(load_word(key, i));
        },
        5 => {
            b = b.wrapping_add(load_word(key, i + 4) & 0xff);
            a = a.wrapping_add(load_word(key, i));
        },
        4 => {
            a = a.wrapping_add(load_word(key, i));
        },
        3 => {
            a = a.wrapping_add(load_word(key, i) & 0xff_ffff);
        },
        2 => {
            a = a.wrapping_add(load_word(key, i) & 0xffff);
        },
        1 => {
            a = a.wrapping_add(load_word(key, i) & 0xff);
        },
        _ => (),
    }

    (a, b, c)
}

/// Folds `key` into the registers by 16-bit half-words: twelve bytes at a
/// time as six half-words, then the last block as half-words and, where its
/// length is odd, one single byte.
fn fold_half_words(key: &[u8], a: u32, b: u32, c: u32) -> (r: (u32, u32, u32))
    ensures
        (HashState { a: r.0, b: r.1, c: r.2 }) == absorb_bytes(key@, 0, HashState { a, b, c }),
{
    let ghost start = HashState { a, b, c };
    let n: usize = key.len();
    let mut a: u32 = a;
    let mut b: u32 = b;
    let mut c: u32 = c;
    let mut i: usize = 0;

    while n - i > 12
        invariant
            i <= n,
            n == key@.len(),
            absorb_bytes(key@, i as int, HashState { a, b, c }) == absorb_bytes(key@, 0, start),
        decreases n - i,
    {
        a = a.wrapping_add(load_half_pair(key, i));
        b = b.wrapping_add(load_half_pair(key, i + 4));
        c = c.wrapping_add(load_half_pair(key, i + 8));
        mix(&mut a, &mut b, &mut c);
        i += 12;
    }

    proof {
        lemma_byte_lanes(0, 0, byte_or_zero(key@, i + 2), 0);
        lemma_byte_lanes(0, 0, byte_or_zero(key@, i + 6), 0);
        lemma_byte_lanes(0, 0, byte_or_zero(key@, i + 10), 0);
    }
    match n - i {
        12 => {
            c = c.wrapping_add(load_half_pair(key, i + 8));
            b = b.wrapping_add(load_half_pair(key, i + 4));
            a = a.wrapping_add(load_half_pair(key, i));
        },
        11 => {
            c = c.wrapping_add((key[i + 10] as u32) << 16);
            c = c.wrapping_add(load_half(key, i + 8) as u32);
            b = b.wrapping_add(load_half_pair(key, i + 4));
            a = a.wrapping_add(load_half_pair(key, i));
        },
        10 => {
            c = c.wrapping_add(load_half(key, i + 8) as u32);
            b = b.wrapping_add(load_half_pair(key, i + 4));
            a = a.wrapping_add(load_half_pair(key, i));
        },
        9 => {
            c = c.wrapping_add(key[i + 8] as u32);
            b = b.wrapping_add(load_half_pair(key, i + 4));
            a = a.wrapping_add(load_half_pair(key, i));
        },
        8 => {
            b = b.wrapping_add(load_half_pair(key, i + 4));
            a = a.wrapping_add(load_half_pair(key, i));
        },
        7 => {
            b = b.wrapping_add((key[i + 6] as u32) << 16);
            b = b.wrapping_add(load_half(key, i + 4) as u32);
            a = a.wrapping_add(load_half_pair(key, i));
        },
        6 => {
            b = b.wrapping_add(load_half(key, i + 4) as u32);
            a = a.wrapping_add(load_half_pair(key, i));
        },
        5 => {
            b = b.wrapping_add(key[i + 4] as u32);
            a = a.wrapping_add(load_half_pair(key, i));
        },
        4 => {
            a = a.wrapping_add(load_half_pair(key, i));
        },
        3 => {
            a = a.wrapping_add((key[i + 2] as u32) << 16);
            a = a.wrapping_add(load_half(key, i) as u32);
        },
        2 => {
            a = a.wrapping_add(load_half(key, i) as u32);
        },
        1 => {
            a = a.wrapping_add(key[i] as u32);
        },
        _ => (),
    }

    (a, b, c)
}

/// Folds `key` into the registers byte by byte: twelve bytes at a time, four
/// to each register, then the last block of one to twelve bytes.
fn fold_bytes(key: &[u8], a: u32, b: u32, c: u32) -> (r: (u32, u32, u32))
    ensures
        (HashState { a: r.0, b: r.1, c: r.2 }) == absorb_bytes(key@, 0, HashState { a, b, c }),
{
    let ghost start = HashState { a, b, c };
    let n: usize = key.len();
    let mut a: u32 = a;
    let mut b: u32 = b;
    let mut c: u32 = c;
    let mut i: usize = 0;

    while n - i > 12
        invariant
            i <= n,
            n == key@.len(),
            absorb_bytes(key@, i as int, HashState { a, b, c }) == absorb_bytes(key@, 0, start),
        decreases n - i,
    {
        a = a.wrapping_add(le_bytes(key, i, 4));
        b = b.wrapping_add(le_bytes(key, i + 4, 4));
        c = c.wrapping_add(le_bytes(key, i + 8, 4));
        mix(&mut a, &mut b, &mut c);
        i += 12;
    }

    match n - i {
        12 => {
            c = c.wrapping_add(le_bytes(key, i + 8, 4));
            b = b.wrapping_add(le_bytes(key, i + 4, 4));
            a = a.wrapping_add(le_bytes(key, i, 4));
        },
        11 => {
            c = c.wrapping_add(le_bytes(key, i + 8, 3));
            b = b.wrapping_add(le_bytes(key, i + 4, 4));
            a = a.wrapping_add(le_bytes(key, i, 4));
        },
        10 => {
            c = c.wrapping_add(le_bytes(key, i + 8, 2));
            b = b.wrapping_add(le_bytes(key, i + 4, 4));
            a = a.wrapping_add(le_bytes(key, i, 4));
        },
        9 => {
            c = c.wrapping_add(le_bytes(key, i + 8, 1));
            b = b.wrapping_add(le_bytes(key, i + 4, 4));
            a = a.wrapping_add(le_bytes(key, i, 4));
        },
        8 => {
            b = b.wrapping_add(le_bytes(key, i + 4, 4));
            a = a.wrapping_add(le_bytes(key, i, 4));
        },
        7 => {
            b = b.wrapping_add(le_bytes(key, i + 4, 3));
            a = a.wrapping_add(le_bytes(key, i, 4));
        },
        6 => {
            b = b.wrapping_add(le_bytes(key, i + 4, 2));
            a = a.wrapping_add(le_bytes(key, i, 4));
        },
        5 => {
            b = b.wrapping_add(le_bytes(key, i + 4, 1));
            a = a.wrapping_add(le_bytes(key, i, 4));
        },
        4 => {
            a = a.wrapping_add(le_bytes(key, i, 4));
        },
        3 => {
            a = a.wrapping_add(le_bytes(key, i, 3));
        },
        2 => {
            a = a.wrapping_add(le_bytes(key, i, 2));
        },
        1 => {
            a = a.wrapping_add(le_bytes(key, i, 1));
        },
        _ => (),
    }

    (a, b, c)
}

/// Picks the strategy for a key that starts at `address`.
pub fn choose_strategy(address: usize, little_endian: bool) -> (s: Strategy)
    ensures
        s == strategy_for(address, little_endian),
{
    assert(address & 0x3 == address % 4) by (bit_vector);
    assert(address & 0x1 == address % 2) by (bit_vector);
    if little_endian && (address & 0x3) == 0 {
        Strategy::Words
    } else if little_endian && (address & 0x1) == 0 {
        Strategy::HalfWords
    } else {
        Strategy::Bytes
    }
}

/// Hashes a sequence of bytes, reading it in the way that `strategy` names.
/// The result is the same under every strategy.
///
/// * `key` - the key
/// * `init_val` - the seed: the previous hash, or an arbitrary value
pub fn hashlittle_with(key: &[u8], init_val: u32, strategy: Strategy) -> (r: u32)
    ensures
        r == hash_bytes(key@, init_val),
{
    let n: usize = key.len();
    let low: u32 = low_bits(n);
    proof {
        lemma_initial_value_congruent(n as nat, low, init_val);
    }
    let start: u32 = start_value(low, init_val);
    let (mut a, mut b, mut c) = match strategy {
        Strategy::Words => fold_words(key, start, start, start),
        Strategy::HalfWords => fold_half_words(key, start, start, start),
        Strategy::Bytes => fold_bytes(key, start, start, start),
    };
    final_(&mut a, &mut b, &mut c);
    c
}

/// The address at which `key` starts in memory, from `<[u8]>::as_ptr`.
/// Nothing is claimed of it: it differs from one buffer to the next.
#[verifier::external_body]
fn start_address(key: &[u8]) -> usize {
    key.as_ptr() as usize
}

/// `u32::to_le`: the value in the byte order of a little-endian machine,
/// which is the value itself exactly where the machine is little-endian.
/// Nothing is claimed of it: it depends on the machine.
#[verifier::external_body]
fn as_little_endian(x: u32) -> u32 {
    x.to_le()
}

/// Hashes a sequence of bytes. The way the key is read is chosen from the
/// address it starts at and the byte order of the machine; the hash depends
/// on neither.
///
/// * `key` - the key
/// * `init_val` - the seed: the previous hash, or an arbitrary value
#[inline]
pub fn hashlittle(key: &[u8], init_val: u32) -> (r: u32)
    ensures
        r == hash_bytes(key@, init_val),
{
    let little_endian: bool = as_little_endian(1) == 1;
    let strategy = choose_strategy(start_address(key), little_endian);
    hashlittle_with(key, init_val, strategy)
}

/// The hash is a function of the bytes of the key and of the seed alone: two
/// keys that hold the same bytes have the same hash under the same seed,
/// wherever each of them lies in memory and however it is read.
pub proof fn lemma_equal_keys_hash_alike(x: &[u8], y: &[u8], seed: u32)
    requires
        x@ == y@,
    ensures
        hash_bytes(x@, seed) == hash_bytes(y@, seed),
{
}

} // verus!
