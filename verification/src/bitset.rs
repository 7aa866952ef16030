//! A bit vector of fixed length.

use vstd::prelude::*;

verus! {

/// Whether bit `j` of `byte` is set, bit 0 being the lowest.
pub open spec fn bit_of(byte: u8, j: int) -> bool {
    byte & (1u8 << (j as u8)) != 0
}

/// The bits with the one at index `i` set.
pub open spec fn with_bit_set(bits: Seq<bool>, i: int) -> Seq<bool> {
    bits.update(i, true)
}

/// A vector of bits, eight to a byte. Its length is fixed when it is made
/// and is a multiple of eight.
pub struct Bitset {
    bits: Vec<u8>,
}

impl View for Bitset {
    type V = Seq<bool>;

    /// The bits in order of their index: bit `i` is bit `i % 8` of byte `i / 8`.
    closed spec fn view(&self) -> Seq<bool> {
        Seq::new(8 * self.bits@.len(), |i: int| bit_of(self.bits@[i / 8], i % 8))
    }
}

impl Bitset {
    /// The number of bits fits in a `usize`.
    #[verifier::type_invariant]
    spec fn well_formed(&self) -> bool {
        8 * self.bits@.len() <= usize::MAX
    }

    /// Makes a vector of `num_bits` bits, none of them set. The length must
    /// be a multiple of eight.
    pub fn new(num_bits: usize) -> (r: Result<Bitset, &'static str>)
        ensures
            num_bits % 8 == 0 ==> r is Ok && r->Ok_0@ == Seq::new(num_bits as nat, |i: int| false),
            num_bits % 8 != 0 ==> r is Err && r->Err_0@ == "num_bits must be divisible by 8"@,
    {
        if num_bits % 8 != 0 {
            return Err("num_bits must be divisible by 8");
        }
        let len: usize = num_bits / 8;
        let set = Bitset { bits: vec![0u8; len] };
        proof {
            assert forall|i: int| 0 <= i < set@.len() implies !set@[i] by {
                let j: u8 = (i % 8) as u8;
                assert(0u8 & (1u8 << j) == 0) by (bit_vector);
            }
            assert(set@ =~= Seq::new(num_bits as nat, |i: int| false));
        }
        Ok(set)
    }

    /// Reads the bit at `idx`.
    pub fn get_bit(&self, idx: usize) -> (r: Result<bool, &'static str>)
        ensures
            idx < self@.len() ==> r == Ok::<bool, &'static str>(self@[idx as int]),
            idx >= self@.len() ==> r is Err && r->Err_0@ == "idx is out of range"@,
    {
        proof {
            use_type_invariant(self);
        }
        if idx >= self.bits.len() * 8 {
            return Err("idx is out of range");
        }
        let array_idx: usize = idx >> 3;
        let bit_idx: usize = idx & 0b111;
        assert(idx >> 3 == idx / 8 && idx & 0b111 == idx % 8) by (bit_vector);
        let element: u8 = self.bits[array_idx];
        Ok(element & (1u8 << bit_idx) != 0)
    }

    /// Sets the bit at `idx` and leaves every other bit as it was.
    pub fn set_bit(&mut self, idx: usize) -> (r: Result<(), &'static str>)
        ensures
            idx < old(self)@.len() ==> r is Ok,
            idx < old(self)@.len() ==> final(self)@ == with_bit_set(old(self)@, idx as int),
            idx >= old(self)@.len() ==> r is Err && r->Err_0@ == "idx is out of range"@,
            idx >= old(self)@.len() ==> final(self)@ == old(self)@,
    {
        proof {
            use_type_invariant(&*self);
        }
        if idx >= self.bits.len() * 8 {
            return Err("idx is out of range");
        }
        let array_idx: usize = idx >> 3;
        let bit_idx: usize = idx & 0b111;
        assert(idx >> 3 == idx / 8 && idx & 0b111 == idx % 8) by (bit_vector);
        let element: u8 = self.bits[array_idx];
        let updated: u8 = element | (1u8 << bit_idx);
        self.bits[array_idx] = updated;
        proof {
            assert forall|i: int| 0 <= i < old(self)@.len() implies self@[i] == with_bit_set(
                old(self)@,
                idx as int,
            )[i] by {
                let j: u8 = (i % 8) as u8;
                let k: u8 = bit_idx as u8;
                assert(j < 8 && k < 8 ==> ((element | (1u8 << k)) & (1u8 << j) != 0) == (j == k || (
                element & (1u8 << j) != 0))) by (bit_vector);
            }
            assert(self@ =~= with_bit_set(old(self)@, idx as int));
        }
        Ok(())
    }

    /// The number of bits.
    pub fn len(&self) -> (n: usize)
        ensures
            n == self@.len(),
    {
        proof {
            use_type_invariant(self);
        }
        self.bits.len() * 8
    }
}

/// Setting the bit at `i` makes that bit read as set, changes no bit at
/// another index, and keeps the length.
pub proof fn lemma_set_then_get(bits: Seq<bool>, i: int, j: int)
    requires
        0 <= i < bits.len(),
        0 <= j < bits.len(),
    ensures
        with_bit_set(bits, i).len() == bits.len(),
        with_bit_set(bits, i)[i],
        j != i ==> with_bit_set(bits, i)[j] == bits[j],
{
}

} // verus!
