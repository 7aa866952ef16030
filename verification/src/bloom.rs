//! An approximate-membership set: a bit vector in which every added value
//! sets the bits that a family of seeded hashes picks for it. A query never
//! denies a value that was added; it may admit one that was not.

use crate::bitset::Bitset;
use crate::lookup3::{hash_bytes, hashlittle};
use vstd::prelude::*;

verus! {

/// What a filter holds: its bits and the number of hash functions it uses.
pub ghost struct BloomState {
    pub bits: Seq<bool>,
    pub hash_count: nat,
}

/// The index of the bit that hash function number `i` picks for `value` in a
/// vector of `len` bits: the hash of the value under seed `i`, modulo `len`.
pub open spec fn bit_position(value: Seq<u8>, i: nat, len: nat) -> int {
    hash_bytes(value, i as u32) as int % len as int
}

/// Whether one of the first `count` hash functions picks bit `j` for `value`.
pub open spec fn probes(value: Seq<u8>, count: nat, len: nat, j: int) -> bool {
    exists|i: nat| i < count && #[trigger] bit_position(value, i, len) == j
}

impl BloomState {
    /// The state after `value` has been added: every bit that one of the hash
    /// functions picks for it is set, and no other bit changes.
    pub open spec fn inserted(self, value: Seq<u8>) -> BloomState {
        BloomState {
            bits: Seq::new(
                self.bits.len(),
                |j: int| self.bits[j] || probes(value, self.hash_count, self.bits.len(), j),
            ),
            hash_count: self.hash_count,
        }
    }

    /// The state after the values have been added one after the other.
    pub open spec fn inserted_all(self, values: Seq<Seq<u8>>) -> BloomState
        decreases values.len(),
    {
        if values.len() == 0 {
            self
        } else {
            self.inserted_all(values.drop_last()).inserted(values.last())
        }
    }

    /// Whether `value` may have been added: every bit that the hash functions
    /// pick for it is set. A filter without bits keeps no record and admits
    /// every value.
    pub open spec fn might_contain(self, value: Seq<u8>) -> bool {
        self.bits.len() == 0 || forall|i: nat|
            i < self.hash_count ==> self.bits[#[trigger] bit_position(value, i, self.bits.len())]
    }
}

/// An approximate set of byte strings.
pub struct Bloom {
    bitset: Bitset,
    num_hash_func: u8,
}

impl View for Bloom {
    type V = BloomState;

    closed spec fn view(&self) -> BloomState {
        BloomState { bits: self.bitset@, hash_count: self.num_hash_func as nat }
    }
}

impl Bloom {
    /// Makes an empty filter of `num_bits` bits that uses `num_hash_func`
    /// hash functions. The number of bits must be a multiple of eight.
    pub fn new(num_bits: usize, num_hash_func: u8) -> (r: Result<Bloom, &'static str>)
        ensures
            num_bits % 8 == 0 ==> r is Ok && r->Ok_0@ == (BloomState {
                bits: Seq::new(num_bits as nat, |i: int| false),
                hash_count: num_hash_func as nat,
            }),
            num_bits % 8 != 0 ==> r is Err && r->Err_0@ == "num_bits must be divisible by 8"@,
    {
        match Bitset::new(num_bits) {
            Ok(bitset) => Ok(Bloom { bitset, num_hash_func }),
            Err(e) => Err(e),
        }
    }

    /// The seeds of the filter's hash functions, in the order in which they
    /// are applied: function number `i` is the byte hash under seed `i`.
    fn init_hash_funcs(&self) -> (seeds: Vec<u32>)
        ensures
            seeds@.len() == self@.hash_count,
            forall|i: int| 0 <= i < seeds@.len() ==> seeds@[i] == i,
    {
        let mut seeds: Vec<u32> = Vec::new();
        let mut i: u8 = 0;
        while i < self.num_hash_func
            invariant
                i <= self.num_hash_func,
                seeds@.len() == i,
                forall|j: int| 0 <= j < seeds@.len() ==> seeds@[j] == j,
            decreases self.num_hash_func - i,
        {
            seeds.push(i as u32);
            i += 1;
        }
        seeds
    }

    /// Adds `value` to the set.
    pub fn hash(&mut self, value: &[u8])
        ensures
            final(self)@ == old(self)@.inserted(value@),
    {
        let len: usize = self.bitset.len();
        let seeds = self.init_hash_funcs();
        if len == 0 {
            assert(self@.bits =~= old(self)@.inserted(value@).bits);
            return ;
        }
        let mut i: usize = 0;
        while i < seeds.len()
            invariant
                i <= seeds@.len(),
                len > 0,
                seeds@.len() == old(self)@.hash_count,
                forall|j: int| 0 <= j < seeds@.len() ==> seeds@[j] == j,
                self@.hash_count == old(self)@.hash_count,
                self@.bits.len() == len,
                old(self)@.bits.len() == len,
                forall|j: int|
                    0 <= j < len ==> self@.bits[j] == (old(self)@.bits[j] || probes(
                        value@,
                        i as nat,
                        len as nat,
                        j,
                    )),
            decreases seeds@.len() - i,
        {
            let position: usize = hashlittle(value, seeds[i]) as usize % len;
            assert(position == bit_position(value@, i as nat, len as nat));
            let _ = self.bitset.set_bit(position);
            proof {
                assert forall|j: int| 0 <= j < len implies self@.bits[j] == (old(self)@.bits[j]
                    || probes(value@, (i + 1) as nat, len as nat, j)) by {
                    if probes(value@, i as nat, len as nat, j) {
                        let t = choose|t: nat|
                            t < i && #[trigger] bit_position(value@, t, len as nat) == j;
                        assert(t < i + 1 && bit_position(value@, t, len as nat) == j);
                    }
                    if probes(value@, (i + 1) as nat, len as nat, j) && j != position {
                        let t = choose|t: nat|
                            t < i + 1 && #[trigger] bit_position(value@, t, len as nat) == j;
                        assert(t < i);
                    }
                }
            }
            i += 1;
        }
        assert(self@.bits =~= old(self)@.inserted(value@).bits);
    }

    /// Asks whether `value` may have been added: `Some` where every bit that
    /// the hash functions pick for it is set, `None` where the value was
    /// certainly never added.
    pub fn contains(&self, value: &[u8]) -> (r: Option<()>)
        ensures
            r is Some <==> self@.might_contain(value@),
    {
        let len: usize = self.bitset.len();
        let seeds = self.init_hash_funcs();
        if len == 0 {
            return Some(());
        }
        let mut i: usize = 0;
        while i < seeds.len()
            invariant
                i <= seeds@.len(),
                len > 0,
                seeds@.len() == self@.hash_count,
                forall|j: int| 0 <= j < seeds@.len() ==> seeds@[j] == j,
                self@.bits.len() == len,
                forall|t: nat|
                    t < i ==> self@.bits[#[trigger] bit_position(value@, t, len as nat)],
            decreases seeds@.len() - i,
        {
            let position: usize = hashlittle(value, seeds[i]) as usize % len;
            assert(position == bit_position(value@, i as nat, len as nat));
            match self.bitset.get_bit(position) {
                Ok(true) => {},
                _ => {
                    return None;
                },
            }
            i += 1;
        }
        Some(())
    }
}

/// A value that has been added is never denied.
pub proof fn lemma_added_is_found(s: BloomState, value: Seq<u8>)
    ensures
        s.inserted(value).might_contain(value),
{
    let len = s.bits.len();
    if len > 0 {
        assert forall|i: nat| i < s.hash_count implies s.inserted(value).bits[#[trigger] bit_position(
            value,
            i,
            len,
        )] by {
            assert(probes(value, s.hash_count, len, bit_position(value, i, len)));
        }
    }
}

/// Adding a value never makes the set deny another one that it admitted.
pub proof fn lemma_add_keeps_found(s: BloomState, value: Seq<u8>, other: Seq<u8>)
    requires
        s.might_contain(value),
    ensures
        s.inserted(other).might_contain(value),
{
}

/// No false negatives: after any values have been added one after the other
/// to any set, the set admits each of them.
pub proof fn lemma_no_false_negative(s: BloomState, values: Seq<Seq<u8>>, i: int)
    requires
        0 <= i < values.len(),
    ensures
        s.inserted_all(values).might_contain(values[i]),
    decreases values.len(),
{
    let before = s.inserted_all(values.drop_last());
    if i == values.len() - 1 {
        lemma_added_is_found(before, values.last());
    } else {
        lemma_no_false_negative(s, values.drop_last(), i);
        lemma_add_keeps_found(before, values[i], values.last());
    }
}

} // verus!
