//! Bloom filters: they answer quickly that a key is not in a table.

use std::collections::hash_map::DefaultHasher;
use std::hash::Hasher;
use vstd::prelude::*;
use vstd::std_specs::hash::DefaultHasherAdditionalSpecFns;
use crate::bytes::{le_bytes, put_u64};
use crate::storage::bits::{
    bits_of, byte_bit, from_bytes, get_bit, max_bits, raw_bytes, resize_with_zeros, set_bit, zeros,
    BitRow,
};

verus! {

/// How large a filter is: how many bits, and how many of them a key sets.
#[derive(Clone, Copy, Debug, PartialEq, Eq, Structural)]
pub struct BloomSize {
    pub num_bits: usize,
    pub num_hashes: u32,
}

/// A Bloom filter over byte strings.
///
/// A key sets the bits at `h1 + i * h2`, for two hashes of the key.
#[derive(Debug)]
pub struct BloomFilter {
    bits: BitRow,
    num_hashes: u32,
    num_bits: usize,
}

/// The two hashes of a key. A key is hashed as its length in eight bytes and
/// then its bytes; the second hash takes a constant in addition.
pub open spec fn hash_pair_of(key: Seq<u8>) -> (u64, u64) {
    let plain = seq![le_bytes(key.len(), 8), key];
    (
        DefaultHasher::spec_finish(plain),
        DefaultHasher::spec_finish(plain.push(le_bytes(0xDEAD_BEEF, 8))),
    )
}

/// The `i`-th bit that a key with the hashes `h` sets among `num_bits`.
pub open spec fn bit_index(h: (u64, u64), i: int, num_bits: nat) -> int {
    ((h.0 + (i * h.1) % 0x1_0000_0000_0000_0000) % 0x1_0000_0000_0000_0000) % num_bits as int
}

/// Every bit that a key sets is set.
pub open spec fn covers(bits: Seq<bool>, num_hashes: nat, key: Seq<u8>) -> bool {
    forall|i: int|
        0 <= i < num_hashes ==> bits[#[trigger] bit_index(hash_pair_of(key), i, bits.len())]
}

/// `j` is one of the first `n` bits that a key sets.
pub open spec fn sets_bit(n: nat, num_bits: nat, key: Seq<u8>, j: int) -> bool {
    exists|i: int| 0 <= i < n && j == #[trigger] bit_index(hash_pair_of(key), i, num_bits)
}

/// The bits after a key was added to `bits`.
pub open spec fn with_key(bits: Seq<bool>, num_hashes: nat, key: Seq<u8>) -> Seq<bool> {
    Seq::new(bits.len(), |j: int| bits[j] || sets_bit(num_hashes, bits.len(), key, j))
}

impl BloomFilter {
    /// The bits of the filter.
    pub closed spec fn bits(&self) -> Seq<bool> {
        bits_of(self.bits)
    }

    /// How many bits a key sets.
    pub closed spec fn hashes(&self) -> nat {
        self.num_hashes as nat
    }

    /// The number of bits is what the filter records.
    pub closed spec fn well_formed(&self) -> bool {
        &&& bits_of(self.bits).len() == self.num_bits
        &&& self.num_bits <= max_bits()
    }

    /// Keys can be added and looked up.
    pub open spec fn usable(&self) -> bool {
        self.well_formed() && (self.bits().len() > 0 || self.hashes() == 0)
    }

    /// A filter without keys, of a given size but of at least eight bits and
    /// one hash.
    pub fn with_size(size: BloomSize) -> (r: Self)
        requires
            size.num_bits <= max_bits(),
        ensures
            r.usable(),
            r.bits() == Seq::new(
                if size.num_bits < 8 {
                    8
                } else {
                    size.num_bits as nat
                },
                |i: int| false,
            ),
            r.hashes() == if size.num_hashes < 1 {
                1
            } else {
                size.num_hashes as nat
            },
    {
        let num_bits: usize = if size.num_bits < 8 {
            8
        } else {
            size.num_bits
        };
        let num_hashes: u32 = if size.num_hashes < 1 {
            1
        } else {
            size.num_hashes
        };
        BloomFilter { bits: zeros(num_bits), num_hashes, num_bits }
    }

    /// A filter from its stored bytes, cut off or filled with zero bits to
    /// `num_bits`.
    pub fn from_raw(bits: Vec<u8>, num_hashes: u32, num_bits: usize) -> (r: Self)
        requires
            bits@.len() * 8 <= max_bits(),
            num_bits <= max_bits(),
        ensures
            r.well_formed(),
            r.hashes() == num_hashes,
            r.bits() == Seq::new(
                num_bits as nat,
                |i: int| i < bits@.len() * 8 && byte_bit(bits@, i),
            ),
    {
        let ghost data = bits@;
        let mut row: BitRow = from_bytes(bits);
        resize_with_zeros(&mut row, num_bits);
        assert(bits_of(row) =~= Seq::new(
            num_bits as nat,
            |i: int| i < data.len() * 8 && byte_bit(data, i),
        ));
        BloomFilter { bits: row, num_hashes, num_bits }
    }

    /// Adds a key.
    pub fn insert(&mut self, key: &[u8])
        requires
            old(self).usable(),
        ensures
            final(self).usable(),
            final(self).hashes() == old(self).hashes(),
            final(self).bits() == with_key(old(self).bits(), old(self).hashes(), key@),
    {
        let h: (u64, u64) = Self::hash_pair(key);
        let ghost before = bits_of(self.bits);
        let mut i: u32 = 0;
        assert(bits_of(self.bits) =~= with_key(before, 0, key@));
        while i < self.num_hashes
            invariant
                i <= self.num_hashes,
                self.usable(),
                self.num_hashes == old(self).num_hashes,
                before == bits_of(old(self).bits),
                before.len() == self.num_bits,
                h == hash_pair_of(key@),
                bits_of(self.bits) == with_key(before, i as nat, key@),
            decreases self.num_hashes - i,
        {
            let idx: usize = self.get_index(h, i);
            set_bit(&mut self.bits, idx, true);
            proof {
                let n = before.len();
                assert forall|j: int| 0 <= j < n implies sets_bit((i + 1) as nat, n, key@, j) == (
                sets_bit(i as nat, n, key@, j) || j == idx) by {
                    if sets_bit((i + 1) as nat, n, key@, j) {
                        let x = choose|x: int|
                            0 <= x < i + 1 && j == #[trigger] bit_index(hash_pair_of(key@), x, n);
                        if x < i {
                            assert(sets_bit(i as nat, n, key@, j));
                        }
                    }
                    if j == idx {
                        assert(j == bit_index(hash_pair_of(key@), i as int, n));
                    }
                    if sets_bit(i as nat, n, key@, j) {
                        let x = choose|x: int|
                            0 <= x < i && j == #[trigger] bit_index(hash_pair_of(key@), x, n);
                        assert(0 <= x < i + 1);
                    }
                }
                assert(bits_of(self.bits) =~= with_key(before, (i + 1) as nat, key@));
            }
            i += 1;
        }
    }

    /// Whether a key may have been added: `false` means that it was not.
    pub fn may_contain(&self, key: &[u8]) -> (r: bool)
        requires
            self.usable(),
        ensures
            r == covers(self.bits(), self.hashes(), key@),
    {
        let h: (u64, u64) = Self::hash_pair(key);
        let mut i: u32 = 0;
        while i < self.num_hashes
            invariant
                i <= self.num_hashes,
                self.usable(),
                h == hash_pair_of(key@),
                forall|x: int|
                    0 <= x < i ==> bits_of(self.bits)[#[trigger] bit_index(
                        h,
                        x,
                        bits_of(self.bits).len(),
                    )],
            decreases self.num_hashes - i,
        {
            let idx: usize = self.get_index(h, i);
            assert(idx == bit_index(h, i as int, self.bits().len()));
            if !get_bit(&self.bits, idx) {
                return false;
            }
            i += 1;
        }
        true
    }

    /// The bytes that hold the bits.
    pub fn as_bytes(&self) -> (r: &[u8])
        requires
            self.well_formed(),
        ensures
            r@.len() == (self.bits().len() + 7) / 8,
            forall|i: int|
                0 <= i < self.bits().len() ==> #[trigger] byte_bit(r@, i) == self.bits()[i],
    {
        raw_bytes(&self.bits)
    }

    pub fn num_hashes(&self) -> (r: u32)
        ensures
            r == self.hashes(),
    {
        self.num_hashes
    }

    pub fn num_bits(&self) -> (r: usize)
        requires
            self.well_formed(),
        ensures
            r == self.bits().len(),
    {
        self.num_bits
    }

    /// The two hashes of a key.
    pub fn hash_pair(key: &[u8]) -> (r: (u64, u64))
        ensures
            r == hash_pair_of(key@),
    {
        let mut len: Vec<u8> = Vec::new();
        put_u64(&mut len, key.len() as u64);
        let mut mix: Vec<u8> = Vec::new();
        put_u64(&mut mix, 0xDEAD_BEEF);
        proof {
            assert(len@ =~= le_bytes(key@.len(), 8));
            assert(mix@ =~= le_bytes(0xDEAD_BEEF, 8));
        }
        let mut first: DefaultHasher = DefaultHasher::new();
        first.write(len.as_slice());
        first.write(key);
        let mut second: DefaultHasher = DefaultHasher::new();
        second.write(len.as_slice());
        second.write(key);
        second.write(mix.as_slice());
        proof {
            let plain = seq![le_bytes(key@.len(), 8), key@];
            assert(first@ =~= plain);
            assert(second@ =~= plain.push(le_bytes(0xDEAD_BEEF, 8)));
        }
        (first.finish(), second.finish())
    }

    fn get_index(&self, h: (u64, u64), i: u32) -> (r: usize)
        requires
            self.well_formed(),
            self.num_bits > 0,
        ensures
            r == bit_index(h, i as int, bits_of(self.bits).len()),
            r < self.num_bits,
    {
        let product: u64 = (i as u64).wrapping_mul(h.1);
        let sum: u64 = h.0.wrapping_add(product);
        let n: u64 = self.num_bits as u64;
        let idx: u64 = sum % n;
        proof {
            lemma_wrapping(i, h);
        }
        idx as usize
    }
}

proof fn lemma_wrapping(i: u32, h: (u64, u64))
    ensures
        h.0.wrapping_add((i as u64).wrapping_mul(h.1)) == (h.0 + (i * h.1)
            % 0x1_0000_0000_0000_0000) % 0x1_0000_0000_0000_0000,
{
}

/// A key that was added is found, whatever was added after it.
pub proof fn law_added_keys_are_found(bits: Seq<bool>, num_hashes: nat, key: Seq<u8>, later: Seq<u8>)
    requires
        bits.len() > 0,
    ensures
        covers(with_key(bits, num_hashes, key), num_hashes, key),
        covers(bits, num_hashes, later) ==> covers(
            with_key(bits, num_hashes, key),
            num_hashes,
            later,
        ),
{
    let n = bits.len();
    let h = hash_pair_of(key);
    let added = with_key(bits, num_hashes, key);
    assert forall|i: int| 0 <= i < num_hashes implies added[#[trigger] bit_index(h, i, n)] by {
        assert(0 <= bit_index(h, i, n) < n);
        assert(sets_bit(num_hashes, n, key, bit_index(h, i, n)));
    }
    let g = hash_pair_of(later);
    if covers(bits, num_hashes, later) {
        assert forall|i: int| 0 <= i < num_hashes implies added[#[trigger] bit_index(g, i, n)] by {
            assert(0 <= bit_index(g, i, n) < n);
            assert(bits[bit_index(g, i, n)]);
        }
    }
}

/// A filter read back from its bytes has the bits that were written.
pub proof fn law_filter_round_trip(bits: Seq<bool>, data: Seq<u8>)
    requires
        data.len() == (bits.len() + 7) / 8,
        forall|i: int| 0 <= i < bits.len() ==> #[trigger] byte_bit(data, i) == bits[i],
    ensures
        Seq::new(bits.len(), |i: int| i < data.len() * 8 && byte_bit(data, i)) == bits,
{
    assert(Seq::new(bits.len(), |i: int| i < data.len() * 8 && byte_bit(data, i)) =~= bits);
}

} // verus!
