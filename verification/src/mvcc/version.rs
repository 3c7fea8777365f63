//! How versions of keys and values are stored.
//!
//! The internal key of a version is the user key followed by the complement of
//! the revision in eight bytes, most significant first, so that of two versions
//! of a key the newer one sorts first.

use vstd::prelude::*;
use crate::bytes::{
    append, be_bytes, be_value, copy, copy_range, get_u32, get_u64, get_u64_be, le_bytes, le_value,
    lemma_base_pow, lemma_be_bytes_of_value, lemma_be_order, lemma_be_round_trip,
    lemma_be_value_bound, lemma_le_round_trip, lemma_lex_at, lemma_lex_common_prefix,
    lemma_ones_greatest, lex_le, lex_lt, put_u32, put_u64, put_u64_be,
};

verus! {

/// The bytes of the revision in an internal key.
pub const REVISION_SUFFIX_LEN: usize = 8;

/// The bytes of a revision in an internal key.
pub open spec fn revision_suffix(revision: u64) -> Seq<u8> {
    be_bytes((u64::MAX - revision) as nat, 8)
}

/// The internal key of a version.
pub open spec fn version_key(user_key: Seq<u8>, revision: u64) -> Seq<u8> {
    user_key + revision_suffix(revision)
}

/// The user key of an internal key.
pub open spec fn user_key_of(encoded: Seq<u8>) -> Seq<u8> {
    encoded.take(encoded.len() - 8)
}

/// The revision of an internal key.
pub open spec fn revision_of(encoded: Seq<u8>) -> u64 {
    (u64::MAX - be_value(encoded.skip(encoded.len() - 8))) as u64
}

/// Decoding an internal key gives the user key and the revision back.
pub proof fn law_key_round_trip(user_key: Seq<u8>, revision: u64)
    ensures
        version_key(user_key, revision).len() == user_key.len() + 8,
        user_key_of(version_key(user_key, revision)) == user_key,
        revision_of(version_key(user_key, revision)) == revision,
{
    lemma_base_pow();
    lemma_be_round_trip((u64::MAX - revision) as nat, 8);
    let encoded = version_key(user_key, revision);
    assert(encoded.take(encoded.len() - 8) =~= user_key);
    assert(encoded.skip(encoded.len() - 8) =~= revision_suffix(revision));
}

/// Every byte string of eight bytes or more is the internal key of a version.
pub proof fn lemma_key_of_parts(encoded: Seq<u8>)
    requires
        encoded.len() >= 8,
    ensures
        version_key(user_key_of(encoded), revision_of(encoded)) == encoded,
{
    lemma_base_pow();
    let tail = encoded.skip(encoded.len() - 8);
    lemma_be_value_bound(tail);
    lemma_be_bytes_of_value(tail);
    assert(user_key_of(encoded) + tail =~= encoded);
}

/// Of two versions of a key the newer one sorts first.
pub proof fn law_newest_first(user_key: Seq<u8>, a: u64, b: u64)
    ensures
        lex_lt(version_key(user_key, a), version_key(user_key, b)) <==> a > b,
{
    lemma_base_pow();
    lemma_be_order((u64::MAX - a) as nat, (u64::MAX - b) as nat, 8);
    lemma_lex_common_prefix(user_key, revision_suffix(a), revision_suffix(b));
}

/// The internal key of a user key and a revision.
pub fn encode_key(user_key: &[u8], revision: u64) -> (r: Vec<u8>)
    ensures
        r@ == version_key(user_key@, revision),
{
    let mut encoded: Vec<u8> = Vec::new();
    append(&mut encoded, user_key);
    put_u64_be(&mut encoded, u64::MAX - revision);
    assert(encoded@ =~= version_key(user_key@, revision));
    encoded
}

/// The user key and the revision of an internal key.
pub fn decode_key(encoded: &[u8]) -> (r: (&[u8], u64))
    requires
        encoded@.len() >= 8,
    ensures
        r.0@ == user_key_of(encoded@),
        r.1 == revision_of(encoded@),
{
    let split: usize = encoded.len() - REVISION_SUFFIX_LEN;
    let user_key: &[u8] = &encoded[0..split];
    let inverted: u64 = get_u64_be(encoded, split);
    proof {
        assert(encoded@.subrange(split as int, split + 8) =~= encoded@.skip(split as int));
        assert(encoded@.subrange(0, split as int) =~= user_key_of(encoded@));
    }
    (user_key, u64::MAX - inverted)
}

/// The smallest internal key of a user key.
pub fn encode_key_prefix_start(user_key: &[u8]) -> (r: Vec<u8>)
    ensures
        r@ == version_key(user_key@, u64::MAX),
{
    encode_key(user_key, u64::MAX)
}

/// A byte string counted up by one as a big-endian number; where every byte is
/// 255, zeros with a one before them.
pub open spec fn incremented(s: Seq<u8>) -> Seq<u8>
    decreases s.len(),
{
    if s.len() == 0 {
        seq![1u8]
    } else if s.last() < 0xFF {
        s.drop_last().push((s.last() + 1) as u8)
    } else {
        incremented(s.drop_last()).push(0u8)
    }
}

/// All bytes are 255; no byte string is above every one that begins so.
pub open spec fn all_ones(s: Seq<u8>) -> bool {
    forall|i: int| 0 <= i < s.len() ==> #[trigger] s[i] == 0xFF
}

/// The byte string that bounds the internal keys of a user key from above: the
/// user key counted up, and eight zeros; where all of its bytes are 255, the
/// user key and nine more such bytes.
pub open spec fn prefix_end(user_key: Seq<u8>) -> Seq<u8> {
    if all_ones(user_key) {
        user_key + Seq::new(9, |i: int| 0xFFu8)
    } else {
        incremented(user_key) + Seq::new(8, |i: int| 0u8)
    }
}

/// The byte string that bounds the internal keys of a user key from above.
pub fn encode_key_prefix_end(user_key: &[u8]) -> (r: Vec<u8>)
    ensures
        r@ == prefix_end(user_key@),
        forall|revision: u64| lex_lt(#[trigger] version_key(user_key@, revision), r@),
{
    let mut end: Vec<u8> = copy(user_key);
    let mut place: usize = 0;
    while place < user_key.len() && user_key[place] == 0xFF
        invariant
            place <= user_key@.len(),
            forall|j: int| 0 <= j < place ==> #[trigger] user_key@[j] == 0xFF,
        decreases user_key.len() - place,
    {
        place += 1;
    }
    let ones: bool = place == user_key.len();
    assert(ones == all_ones(user_key@));
    if !ones {
        increment_bytes(&mut end);
    }
    let (count, filler): (usize, u8) = if ones {
        (REVISION_SUFFIX_LEN + 1, 0xFF)
    } else {
        (REVISION_SUFFIX_LEN, 0x00)
    };
    let mut i: usize = 0;
    let ghost head = end@;
    assert(head + Seq::new(0, |j: int| filler) =~= head);
    while i < count
        invariant
            i <= count,
            end@ == head + Seq::new(i as nat, |j: int| filler),
        decreases count - i,
    {
        end.push(filler);
        i += 1;
        assert(end@ =~= head + Seq::new(i as nat, |j: int| filler));
    }
    proof {
        assert(end@ =~= prefix_end(user_key@));
        assert forall|revision: u64| lex_lt(#[trigger] version_key(user_key@, revision), end@) by {
            law_prefix_range(user_key@, revision);
        }
    }
    end
}

/// Counts a byte string up by one.
pub fn increment_bytes(bytes: &mut Vec<u8>)
    ensures
        final(bytes)@ == incremented(old(bytes)@),
{
    let ghost all = bytes@;
    let mut i: usize = bytes.len();
    assert(all.take(i as int) =~= all);
    assert(incremented(all) + Seq::new(0, |j: int| 0u8) =~= incremented(all));
    while i > 0
        invariant
            i <= bytes.len(),
            bytes@.len() == all.len(),
            all == old(bytes)@,
            forall|j: int| 0 <= j < i ==> bytes@[j] == all[j],
            forall|j: int| i <= j < all.len() ==> bytes@[j] == 0u8,
            incremented(all) == incremented(all.take(i as int)) + Seq::new(
                (all.len() - i) as nat,
                |j: int| 0u8,
            ),
        decreases i,
    {
        i -= 1;
        let ghost part = all.take(i + 1);
        assert(part.drop_last() =~= all.take(i as int));
        let b: u8 = bytes[i];
        if b < 0xFF {
            bytes[i] = b + 1;
            assert(bytes@ =~= incremented(all));
            return;
        }
        bytes[i] = 0x00;
        assert(incremented(all.take(i as int)).push(0u8) + Seq::new(
            (all.len() - i - 1) as nat,
            |j: int| 0u8,
        ) =~= incremented(all.take(i as int)) + Seq::new((all.len() - i) as nat, |j: int| 0u8));
    }
    bytes.insert(0, 0x01);
    assert(all.take(0) =~= Seq::<u8>::empty());
    assert(bytes@ =~= incremented(all));
}

/// Counting up makes a byte string greater, unless all of its bytes are 255.
proof fn lemma_incremented_greater(s: Seq<u8>)
    requires
        exists|i: int| 0 <= i < s.len() && #[trigger] s[i] != 0xFF,
    ensures
        incremented(s).len() == s.len(),
        exists|n: int|
            0 <= n < s.len() && (#[trigger] incremented(s)[n]) > s[n] && incremented(s).take(n)
                == s.take(n),
    decreases s.len(),
{
    let t = incremented(s);
    if s.last() < 0xFF {
        let n = s.len() - 1;
        assert(t[n] > s[n]);
        assert(t.take(n) =~= s.take(n));
    } else {
        let r = s.drop_last();
        let i = choose|i: int| 0 <= i < s.len() && #[trigger] s[i] != 0xFF;
        assert(r[i] == s[i]);
        lemma_incremented_greater(r);
        let u = incremented(r);
        let n = choose|n: int| 0 <= n < r.len() && (#[trigger] u[n]) > r[n] && u.take(n) == r.take(n);
        assert(t[n] == u[n]);
        assert(t.take(n) =~= u.take(n));
        assert(s.take(n) =~= r.take(n));
    }
}

/// The versions of a user key lie between the two bounds.
pub proof fn law_prefix_range(user_key: Seq<u8>, revision: u64)
    ensures
        lex_le(version_key(user_key, u64::MAX), version_key(user_key, revision)),
        lex_lt(version_key(user_key, revision), prefix_end(user_key)),
{
    law_newest_first(user_key, u64::MAX, revision);
    law_key_round_trip(user_key, revision);
    if all_ones(user_key) {
        let ones = Seq::new(9, |i: int| 0xFFu8);
        lemma_ones_greatest(revision_suffix(revision), ones);
        lemma_lex_common_prefix(user_key, revision_suffix(revision), ones);
    } else {
        law_prefix_end(user_key, revision_suffix(revision));
    }
}

/// Everything that begins with a user key lies below its upper bound, unless all
/// bytes of the user key are 255.
pub proof fn law_prefix_end(user_key: Seq<u8>, rest: Seq<u8>)
    requires
        !all_ones(user_key),
    ensures
        lex_lt(user_key + rest, prefix_end(user_key)),
{
    lemma_incremented_greater(user_key);
    let up = incremented(user_key);
    let n = choose|n: int|
        0 <= n < user_key.len() && (#[trigger] up[n]) > user_key[n] && up.take(n) == user_key.take(n);
    let a = user_key + rest;
    let b = prefix_end(user_key);
    assert(a.take(n) =~= user_key.take(n));
    assert(b.take(n) =~= up.take(n));
    lemma_lex_at(a, b, n);
}

/// A version of a value: the value, or `None` where the key was deleted, and
/// what is recorded with it.
#[derive(Debug, PartialEq, Eq)]
pub struct VersionedValue {
    pub value: Option<Vec<u8>>,
    pub create_revision: u64,
    pub mod_revision: u64,
    pub lease_id: i64,
    pub ttl_seconds: i64,
}

/// What a version says.
pub struct VersionView {
    pub value: Option<Seq<u8>>,
    pub create_revision: u64,
    pub mod_revision: u64,
    pub lease_id: i64,
    pub ttl_seconds: i64,
}

impl View for VersionedValue {
    type V = VersionView;

    open spec fn view(&self) -> VersionView {
        VersionView {
            value: match self.value {
                Some(v) => Some(v@),
                None => None,
            },
            create_revision: self.create_revision,
            mod_revision: self.mod_revision,
            lease_id: self.lease_id,
            ttl_seconds: self.ttl_seconds,
        }
    }
}

/// The eight little-endian bytes of a signed number, as two's complement.
pub open spec fn signed_bytes(x: i64) -> Seq<u8> {
    le_bytes((x as u64) as nat, 8)
}

/// The tag, and the value with its length where there is one.
pub open spec fn value_head(value: Option<Seq<u8>>) -> Seq<u8> {
    match value {
        Some(v) => seq![1u8] + le_bytes(v.len(), 4) + v,
        None => seq![2u8],
    }
}

/// A version as it is stored.
pub open spec fn encode_version(v: VersionView) -> Seq<u8> {
    value_head(v.value) + le_bytes(v.create_revision as nat, 8) + le_bytes(
        v.mod_revision as nat,
        8,
    ) + signed_bytes(v.lease_id) + signed_bytes(v.ttl_seconds)
}

/// The numbers of a version, read at `at`.
pub open spec fn decode_numbers(data: Seq<u8>, at: int, value: Option<Seq<u8>>) -> VersionView {
    VersionView {
        value,
        create_revision: le_value(data.subrange(at, at + 8)) as u64,
        mod_revision: le_value(data.subrange(at + 8, at + 16)) as u64,
        lease_id: (le_value(data.subrange(at + 16, at + 24)) as u64) as i64,
        ttl_seconds: (le_value(data.subrange(at + 24, at + 32)) as u64) as i64,
    }
}

/// What stored bytes say, where they are long enough to be a version.
pub open spec fn decode_version(data: Seq<u8>) -> Option<VersionView> {
    if data.len() == 0 {
        None
    } else if data[0] == 1 {
        if data.len() < 5 {
            None
        } else {
            let len = le_value(data.subrange(1, 5)) as int;
            if data.len() < 37 + len {
                None
            } else {
                Some(decode_numbers(data, 5 + len, Some(data.subrange(5, 5 + len))))
            }
        }
    } else if data.len() < 33 {
        None
    } else {
        Some(decode_numbers(data, 1, None))
    }
}

proof fn lemma_signed_round_trip(x: i64)
    ensures
        (x as u64) as i64 == x,
{
    assert((x as u64) as i64 == x) by (bit_vector);
}

/// Reading a version that was stored gives it back.
pub proof fn law_version_round_trip(v: VersionView)
    requires
        v.value matches Some(b) ==> b.len() <= u32::MAX,
    ensures
        decode_version(encode_version(v)) == Some(v),
        encode_version(v).len() == match v.value {
            Some(b) => 37 + b.len(),
            None => 33,
        },
{
    lemma_base_pow();
    lemma_le_round_trip(v.create_revision as nat, 8);
    lemma_le_round_trip(v.mod_revision as nat, 8);
    lemma_le_round_trip((v.lease_id as u64) as nat, 8);
    lemma_le_round_trip((v.ttl_seconds as u64) as nat, 8);
    lemma_signed_round_trip(v.lease_id);
    lemma_signed_round_trip(v.ttl_seconds);
    let data = encode_version(v);
    let at = value_head(v.value).len() as int;
    if let Some(b) = v.value {
        lemma_le_round_trip(b.len(), 4);
        assert(data.subrange(1, 5) =~= le_bytes(b.len(), 4));
        assert(data.subrange(5, 5 + b.len() as int) =~= b);
    }
    assert(data.subrange(at, at + 8) =~= le_bytes(v.create_revision as nat, 8));
    assert(data.subrange(at + 8, at + 16) =~= le_bytes(v.mod_revision as nat, 8));
    assert(data.subrange(at + 16, at + 24) =~= signed_bytes(v.lease_id));
    assert(data.subrange(at + 24, at + 32) =~= signed_bytes(v.ttl_seconds));
}

impl VersionedValue {
    /// The version as it is stored.
    pub fn encode(&self) -> (r: Vec<u8>)
        requires
            self.value matches Some(v) ==> v@.len() <= u32::MAX,
        ensures
            r@ == encode_version(self@),
    {
        let mut buf: Vec<u8> = Vec::new();
        match &self.value {
            Some(v) => {
                buf.push(0x01);
                put_u32(&mut buf, v.len() as u32);
                append(&mut buf, v.as_slice());
            },
            None => {
                buf.push(0x02);
            },
        }
        assert(buf@ =~= value_head(self@.value));
        put_u64(&mut buf, self.create_revision);
        put_u64(&mut buf, self.mod_revision);
        put_u64(&mut buf, self.lease_id as u64);
        put_u64(&mut buf, self.ttl_seconds as u64);
        buf
    }

    /// Reads a stored version.
    pub fn decode(data: &[u8]) -> (r: Self)
        requires
            decode_version(data@) is Some,
        ensures
            decode_version(data@) == Some(r@),
    {
        let tag: u8 = data[0];
        if tag == 0x01 {
            let len: u32 = get_u32(data, 1);
            let total: usize = data.len();
            let end: usize = 5 + len as usize;
            let value: Vec<u8> = copy_range(data, 5, end);
            Self::numbers(data, end, Some(value))
        } else {
            Self::numbers(data, 1, None)
        }
    }

    fn numbers(data: &[u8], at: usize, value: Option<Vec<u8>>) -> (r: Self)
        requires
            at + 32 <= data@.len(),
        ensures
            r@ == decode_numbers(
                data@,
                at as int,
                match value {
                    Some(v) => Some(v@),
                    None => None,
                },
            ),
    {
        let len: usize = data.len();
        VersionedValue {
            value,
            create_revision: get_u64(data, at),
            mod_revision: get_u64(data, at + 8),
            lease_id: get_u64(data, at + 16) as i64,
            ttl_seconds: get_u64(data, at + 24) as i64,
        }
    }
}

} // verus!
