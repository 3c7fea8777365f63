//! The footer at the end of a table file.
//!
//! Forty bytes, every number least significant byte first: the offset and the
//! size of the index, the offset and the size of the Bloom filter in eight
//! bytes each, then the number of hashes and a magic number in four each.

use vstd::prelude::*;
use vstd::array::array_as_slice;
use crate::bytes::{
    get_u32, get_u64, le_bytes, le_value, lemma_base_pow, lemma_le_round_trip, put_u32, put_u64,
};
use crate::error::Error;
use crate::text::{hex32, hex32_text, joined};

verus! {

pub const FOOTER_SIZE: usize = 40;

/// The number that ends every table file: "STBL".
pub const MAGIC: u32 = 0x5354_424C;

/// Where the parts of a table file stand.
#[derive(Debug, Clone, Copy, PartialEq, Eq, Structural)]
pub struct Footer {
    pub index_offset: u64,
    pub index_size: u64,
    pub bloom_offset: u64,
    pub bloom_size: u64,
    pub bloom_num_hashes: u32,
}

/// A footer as it is stored.
pub open spec fn encode_footer(f: Footer) -> Seq<u8> {
    le_bytes(f.index_offset as nat, 8) + le_bytes(f.index_size as nat, 8) + le_bytes(
        f.bloom_offset as nat,
        8,
    ) + le_bytes(f.bloom_size as nat, 8) + le_bytes(f.bloom_num_hashes as nat, 4) + le_bytes(
        MAGIC as nat,
        4,
    )
}

/// What forty stored bytes say, or why they are no footer.
pub open spec fn decode_footer(data: Seq<u8>) -> Result<Footer, Seq<char>> {
    let magic = le_value(data.subrange(36, 40));
    if magic != MAGIC {
        Err("SSTable footer magic mismatch: "@ + hex32(magic) + " != "@ + hex32(MAGIC as nat))
    } else {
        Ok(
            Footer {
                index_offset: le_value(data.subrange(0, 8)) as u64,
                index_size: le_value(data.subrange(8, 16)) as u64,
                bloom_offset: le_value(data.subrange(16, 24)) as u64,
                bloom_size: le_value(data.subrange(24, 32)) as u64,
                bloom_num_hashes: le_value(data.subrange(32, 36)) as u32,
            },
        )
    }
}

/// Reading a footer that was stored gives it back.
pub proof fn law_footer_round_trip(f: Footer)
    ensures
        encode_footer(f).len() == FOOTER_SIZE,
        decode_footer(encode_footer(f)) == Ok::<Footer, Seq<char>>(f),
{
    lemma_base_pow();
    lemma_le_round_trip(f.index_offset as nat, 8);
    lemma_le_round_trip(f.index_size as nat, 8);
    lemma_le_round_trip(f.bloom_offset as nat, 8);
    lemma_le_round_trip(f.bloom_size as nat, 8);
    lemma_le_round_trip(f.bloom_num_hashes as nat, 4);
    lemma_le_round_trip(MAGIC as nat, 4);
    let data = encode_footer(f);
    assert(data.subrange(0, 8) =~= le_bytes(f.index_offset as nat, 8));
    assert(data.subrange(8, 16) =~= le_bytes(f.index_size as nat, 8));
    assert(data.subrange(16, 24) =~= le_bytes(f.bloom_offset as nat, 8));
    assert(data.subrange(24, 32) =~= le_bytes(f.bloom_size as nat, 8));
    assert(data.subrange(32, 36) =~= le_bytes(f.bloom_num_hashes as nat, 4));
    assert(data.subrange(36, 40) =~= le_bytes(MAGIC as nat, 4));
}

impl Footer {
    /// The footer as it is stored.
    pub fn encode(&self) -> (r: [u8; 40])
        ensures
            r@ == encode_footer(*self),
    {
        let mut buf: Vec<u8> = Vec::with_capacity(FOOTER_SIZE);
        put_u64(&mut buf, self.index_offset);
        put_u64(&mut buf, self.index_size);
        put_u64(&mut buf, self.bloom_offset);
        put_u64(&mut buf, self.bloom_size);
        put_u32(&mut buf, self.bloom_num_hashes);
        put_u32(&mut buf, MAGIC);
        proof {
            law_footer_round_trip(*self);
            assert(buf@ =~= encode_footer(*self));
        }
        let mut out: [u8; 40] = [0u8; 40];
        let mut i: usize = 0;
        while i < 40
            invariant
                i <= 40,
                buf@.len() == 40,
                forall|j: int| 0 <= j < i ==> out@[j] == buf@[j],
            decreases 40 - i,
        {
            out[i] = buf[i];
            i += 1;
        }
        assert(out@ =~= buf@);
        out
    }

    /// Reads a footer.
    pub fn decode(buf: &[u8; 40]) -> (r: Result<Footer, Error>)
        ensures
            match decode_footer(buf@) {
                Ok(f) => r == Ok::<Footer, Error>(f),
                Err(e) => r matches Err(Error::Corruption(m)) && m@ == e,
            },
    {
        let data: &[u8] = array_as_slice(buf);
        let magic: u32 = get_u32(data, 36);
        if magic != MAGIC {
            let found: String = joined(
                "SSTable footer magic mismatch: ",
                hex32_text(magic).as_str(),
            );
            let message: String = found.concat(" != ").concat(hex32_text(MAGIC).as_str());
            return Err(Error::Corruption(message));
        }
        Ok(
            Footer {
                index_offset: get_u64(data, 0),
                index_size: get_u64(data, 8),
                bloom_offset: get_u64(data, 16),
                bloom_size: get_u64(data, 24),
                bloom_num_hashes: get_u32(data, 32),
            },
        )
    }
}

} // verus!
