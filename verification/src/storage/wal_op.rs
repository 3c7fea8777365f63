//! The writes that the log of the storage engine records.
//!
//! A record starts with a tag: 1 for a write, followed by the key and the
//! value; 2 for a deletion, followed by the key. Each is preceded by its length
//! in four bytes.

use vstd::prelude::*;
use crate::bytes::{
    append, copy_range, get_u32, le_bytes, le_value, lemma_base_pow, lemma_le_round_trip, put_u32,
};
use crate::error::Error;
use crate::storage::run::Layer;
use crate::text::{decimal, decimal_text, joined};

verus! {

/// A write to the storage engine.
#[derive(Debug)]
pub enum WalOp {
    Put { key: Vec<u8>, value: Vec<u8> },
    Delete { key: Vec<u8> },
}

/// What a write does.
pub enum OpView {
    Put(Seq<u8>, Seq<u8>),
    Delete(Seq<u8>),
}

impl View for WalOp {
    type V = OpView;

    open spec fn view(&self) -> OpView {
        match self {
            WalOp::Put { key, value } => OpView::Put(key@, value@),
            WalOp::Delete { key } => OpView::Delete(key@),
        }
    }
}

/// A write as its record stores it.
pub open spec fn encode_op(op: OpView) -> Seq<u8> {
    match op {
        OpView::Put(key, value) => seq![1u8] + le_bytes(key.len(), 4) + key + le_bytes(
            value.len(),
            4,
        ) + value,
        OpView::Delete(key) => seq![2u8] + le_bytes(key.len(), 4) + key,
    }
}

/// What a record says, or why it is damaged. Bytes that are left over do not
/// matter.
pub open spec fn decode_op(data: Seq<u8>) -> Result<OpView, Seq<char>> {
    if data.len() == 0 {
        Err("empty WAL op"@)
    } else if data[0] != 1 && data[0] != 2 {
        Err("unknown WAL op tag: "@ + decimal(data[0] as nat))
    } else if data.len() < 5 {
        Err("WAL op truncated"@)
    } else {
        let key_len = le_value(data.subrange(1, 5)) as int;
        if 5 + key_len > data.len() {
            Err("WAL op truncated"@)
        } else if data[0] == 2 {
            Ok(OpView::Delete(data.subrange(5, 5 + key_len)))
        } else if 9 + key_len > data.len() {
            Err("WAL op truncated"@)
        } else {
            let value_len = le_value(data.subrange(5 + key_len, 9 + key_len)) as int;
            if 9 + key_len + value_len > data.len() {
                Err("WAL op truncated"@)
            } else {
                Ok(
                    OpView::Put(
                        data.subrange(5, 5 + key_len),
                        data.subrange(9 + key_len, 9 + key_len + value_len),
                    ),
                )
            }
        }
    }
}

/// The lengths fit their fields.
pub open spec fn op_fits(op: OpView) -> bool {
    match op {
        OpView::Put(key, value) => key.len() <= u32::MAX && value.len() <= u32::MAX,
        OpView::Delete(key) => key.len() <= u32::MAX,
    }
}

/// The length of the record of a write.
pub open spec fn op_size(op: OpView) -> nat {
    match op {
        OpView::Put(key, value) => 9 + key.len() + value.len(),
        OpView::Delete(key) => 5 + key.len(),
    }
}

/// Reading the record of a write gives the write back.
pub proof fn law_op_round_trip(op: OpView)
    requires
        op_fits(op),
    ensures
        decode_op(encode_op(op)) == Ok::<OpView, Seq<char>>(op),
        encode_op(op).len() == op_size(op),
{
    lemma_base_pow();
    let data = encode_op(op);
    match op {
        OpView::Put(key, value) => {
            lemma_le_round_trip(key.len(), 4);
            lemma_le_round_trip(value.len(), 4);
            let n = key.len() as int;
            assert(data.subrange(1, 5) =~= le_bytes(key.len(), 4));
            assert(data.subrange(5, 5 + n) =~= key);
            assert(data.subrange(5 + n, 9 + n) =~= le_bytes(value.len(), 4));
            assert(data.subrange(9 + n, 9 + n + value.len()) =~= value);
        },
        OpView::Delete(key) => {
            lemma_le_round_trip(key.len(), 4);
            assert(data.subrange(1, 5) =~= le_bytes(key.len(), 4));
            assert(data.subrange(5, 5 + key.len() as int) =~= key);
        },
    }
}

/// What a write does to a layer.
pub open spec fn with_op(m: Layer, op: OpView) -> Layer {
    match op {
        OpView::Put(key, value) => m.insert(key, Some(value)),
        OpView::Delete(key) => m.insert(key, None),
    }
}

/// What a row of records makes of an empty layer, or why one of them is
/// damaged.
pub open spec fn replay(records: Seq<Seq<u8>>) -> Result<Layer, Seq<char>>
    decreases records.len(),
{
    if records.len() == 0 {
        Ok(Layer::empty())
    } else {
        match replay(records.drop_last()) {
            Err(e) => Err(e),
            Ok(m) => match decode_op(records.last()) {
                Err(e) => Err(e),
                Ok(op) => Ok(with_op(m, op)),
            },
        }
    }
}

/// Where a part of the records is damaged, so is the whole.
pub proof fn lemma_replay_err(records: Seq<Seq<u8>>, n: nat)
    requires
        n <= records.len(),
        replay(records.take(n as int)) is Err,
    ensures
        replay(records) == replay(records.take(n as int)),
    decreases records.len() - n,
{
    if n < records.len() {
        assert(records.take((n + 1) as int).drop_last() =~= records.take(n as int));
        lemma_replay_err(records, n + 1);
    } else {
        assert(records.take(n as int) =~= records);
    }
}

impl WalOp {
    /// The write as its record stores it.
    pub fn encode(&self) -> (r: Vec<u8>)
        requires
            op_fits(self@),
        ensures
            r@ == encode_op(self@),
    {
        let mut buf: Vec<u8> = Vec::new();
        match self {
            WalOp::Put { key, value } => {
                buf.push(0x01);
                put_u32(&mut buf, key.len() as u32);
                append(&mut buf, key.as_slice());
                put_u32(&mut buf, value.len() as u32);
                append(&mut buf, value.as_slice());
            },
            WalOp::Delete { key } => {
                buf.push(0x02);
                put_u32(&mut buf, key.len() as u32);
                append(&mut buf, key.as_slice());
            },
        }
        assert(buf@ =~= encode_op(self@));
        buf
    }

    /// Reads a record.
    pub fn decode(data: &[u8]) -> (r: Result<WalOp, Error>)
        ensures
            match decode_op(data@) {
                Ok(op) => r matches Ok(w) && w@ == op,
                Err(e) => r matches Err(Error::Corruption(m)) && m@ == e,
            },
    {
        if data.len() == 0 {
            return Err(Error::Corruption("empty WAL op".to_string()));
        }
        let tag: u8 = data[0];
        if tag != 1 && tag != 2 {
            return Err(
                Error::Corruption(
                    joined("unknown WAL op tag: ", decimal_text(tag as u64).as_str()),
                ),
            );
        }
        let len: usize = data.len();
        if len < 5 {
            return Err(Error::Corruption("WAL op truncated".to_string()));
        }
        let key_len: u32 = get_u32(data, 1);
        if ((len - 5) as u64) < key_len as u64 {
            return Err(Error::Corruption("WAL op truncated".to_string()));
        }
        let key_end: usize = 5 + key_len as usize;
        let key: Vec<u8> = copy_range(data, 5, key_end);
        if tag == 2 {
            return Ok(WalOp::Delete { key });
        }
        if len - key_end < 4 {
            return Err(Error::Corruption("WAL op truncated".to_string()));
        }
        let value_len: u32 = get_u32(data, key_end);
        let value_start: usize = key_end + 4;
        if ((len - value_start) as u64) < value_len as u64 {
            return Err(Error::Corruption("WAL op truncated".to_string()));
        }
        let value: Vec<u8> = copy_range(data, value_start, value_start + value_len as usize);
        Ok(WalOp::Put { key, value })
    }
}

} // verus!
