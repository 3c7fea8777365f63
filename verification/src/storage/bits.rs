//! Growable rows of bits, eight to a byte with the least significant bit first.

use bitvec::order::Lsb0;
use bitvec::vec::BitVec;
use vstd::prelude::*;

verus! {

/// A `bitvec::vec::BitVec` of bytes in `Lsb0` order.
#[verifier::external_body]
#[derive(Debug)]
pub struct BitRow {
    bits: BitVec<u8, Lsb0>,
}

/// The bits that a bit vector holds, in order.
pub uninterp spec fn bits_of(row: BitRow) -> Seq<bool>;

/// The greatest number of bits that a bit vector can hold.
pub open spec fn max_bits() -> nat {
    usize::MAX as nat / 8
}

/// Bit `i` of a row of bytes, counted from the least significant bit of the
/// first byte.
pub open spec fn byte_bit(data: Seq<u8>, i: int) -> bool {
    (data[i / 8] >> ((i % 8) as u8)) & 1u8 == 1u8
}

/// `BitVec::repeat` with a zero bit: `len` zero bits. It panics where `len`
/// exceeds the length that a bit vector can encode.
#[verifier::external_body]
pub(crate) fn zeros(len: usize) -> (r: BitRow)
    requires
        len <= max_bits(),
    ensures
        bits_of(r) == Seq::new(len as nat, |i: int| false),
{
    BitRow { bits: BitVec::repeat(false, len) }
}

/// `BitVec::from_vec`: the bits of the bytes. It panics where there are more
/// bits than a bit vector can encode.
#[verifier::external_body]
pub(crate) fn from_bytes(data: Vec<u8>) -> (r: BitRow)
    requires
        data@.len() * 8 <= max_bits(),
    ensures
        bits_of(r) == Seq::new(data@.len() * 8, |i: int| byte_bit(data@, i)),
{
    BitRow { bits: BitVec::from_vec(data) }
}

/// `BitVec::resize` with a zero bit: cuts the bits off at `len`, or adds zero
/// bits up to it. It panics where `len` exceeds the length that a bit vector
/// can encode.
#[verifier::external_body]
pub(crate) fn resize_with_zeros(row: &mut BitRow, len: usize)
    requires
        len <= max_bits(),
    ensures
        bits_of(*final(row)) == Seq::new(
            len as nat,
            |i: int| i < bits_of(*old(row)).len() && bits_of(*old(row))[i],
        ),
{
    row.bits.resize(len, false)
}

/// `BitSlice::set`: writes one bit. It panics where `index` is out of range.
#[verifier::external_body]
pub(crate) fn set_bit(row: &mut BitRow, index: usize, value: bool)
    requires
        index < bits_of(*old(row)).len(),
    ensures
        bits_of(*final(row)) == bits_of(*old(row)).update(index as int, value),
{
    row.bits.set(index, value)
}

/// Indexing a bit vector: reads one bit. It panics where `index` is out of
/// range.
#[verifier::external_body]
pub(crate) fn get_bit(row: &BitRow, index: usize) -> (r: bool)
    requires
        index < bits_of(*row).len(),
    ensures
        r == bits_of(*row)[index as int],
{
    row.bits[index]
}

/// `BitVec::as_raw_slice`: the bytes that hold the bits. What the unused bits
/// of the last byte are is left open.
#[verifier::external_body]
pub(crate) fn raw_bytes(row: &BitRow) -> (r: &[u8])
    ensures
        r@.len() == (bits_of(*row).len() + 7) / 8,
        forall|i: int|
            0 <= i < bits_of(*row).len() ==> #[trigger] byte_bit(r@, i) == bits_of(*row)[i],
{
    row.bits.as_raw_slice()
}

} // verus!
