//! Byte strings: fixed-width integers in little- and big-endian order, and the
//! lexicographic order by which keys are sorted.

use vstd::prelude::*;

verus! {

/// The `n` low-order bytes of `x`, least significant first.
pub open spec fn le_bytes(x: nat, n: nat) -> Seq<u8>
    decreases n,
{
    if n == 0 {
        Seq::empty()
    } else {
        seq![(x % 256) as u8] + le_bytes(x / 256, (n - 1) as nat)
    }
}

/// The number whose digits in base 256, least significant first, are `s`.
pub open spec fn le_value(s: Seq<u8>) -> nat
    decreases s.len(),
{
    if s.len() == 0 {
        0
    } else {
        s[0] as nat + 256 * le_value(s.drop_first())
    }
}

/// The `n` low-order bytes of `x`, most significant first.
pub open spec fn be_bytes(x: nat, n: nat) -> Seq<u8>
    decreases n,
{
    if n == 0 {
        Seq::empty()
    } else {
        be_bytes(x / 256, (n - 1) as nat).push((x % 256) as u8)
    }
}

/// The number whose digits in base 256, most significant first, are `s`.
pub open spec fn be_value(s: Seq<u8>) -> nat
    decreases s.len(),
{
    if s.len() == 0 {
        0
    } else {
        256 * be_value(s.drop_last()) + s.last() as nat
    }
}

/// `256` to the power of `n`.
pub open spec fn base_pow(n: nat) -> nat
    decreases n,
{
    if n == 0 {
        1
    } else {
        256 * base_pow((n - 1) as nat)
    }
}

pub proof fn lemma_base_pow()
    ensures
        base_pow(4) == 0x1_0000_0000,
        base_pow(8) == 0x1_0000_0000_0000_0000,
{
    reveal_with_fuel(base_pow, 9);
}

/// An encoding has the width that was asked for.
pub proof fn lemma_le_bytes_len(x: nat, n: nat)
    ensures
        le_bytes(x, n).len() == n,
    decreases n,
{
    if n > 0 {
        lemma_le_bytes_len(x / 256, (n - 1) as nat);
    }
}

/// Decoding a little-endian encoding gives the number back.
pub proof fn lemma_le_round_trip(x: nat, n: nat)
    requires
        x < base_pow(n),
    ensures
        le_bytes(x, n).len() == n,
        le_value(le_bytes(x, n)) == x,
    decreases n,
{
    lemma_le_bytes_len(x, n);
    if n > 0 {
        lemma_le_round_trip(x / 256, (n - 1) as nat);
        assert(le_bytes(x, n).drop_first() =~= le_bytes(x / 256, (n - 1) as nat));
    }
}

/// A little-endian value of `n` bytes is below `256` to the power of `n`.
pub proof fn lemma_le_value_bound(s: Seq<u8>)
    ensures
        le_value(s) < base_pow(s.len()),
    decreases s.len(),
{
    if s.len() > 0 {
        lemma_le_value_bound(s.drop_first());
    }
}

/// A big-endian value of `n` bytes is below `256` to the power of `n`.
pub proof fn lemma_be_value_bound(s: Seq<u8>)
    ensures
        be_value(s) < base_pow(s.len()),
    decreases s.len(),
{
    if s.len() > 0 {
        lemma_be_value_bound(s.drop_last());
    }
}

/// Encoding the value of a byte string gives the byte string back.
pub proof fn lemma_le_bytes_of_value(s: Seq<u8>)
    ensures
        le_bytes(le_value(s), s.len()) == s,
    decreases s.len(),
{
    if s.len() > 0 {
        let t = s.drop_first();
        lemma_le_bytes_of_value(t);
        assert(le_value(s) % 256 == s[0] as nat);
        assert(le_value(s) / 256 == le_value(t));
        assert(s =~= seq![s[0]] + t);
    } else {
        assert(s =~= Seq::<u8>::empty());
    }
}

/// Decoding a big-endian encoding gives the number back.
pub proof fn lemma_be_round_trip(x: nat, n: nat)
    requires
        x < base_pow(n),
    ensures
        be_bytes(x, n).len() == n,
        be_value(be_bytes(x, n)) == x,
    decreases n,
{
    if n > 0 {
        lemma_be_round_trip(x / 256, (n - 1) as nat);
        assert(be_bytes(x, n).drop_last() =~= be_bytes(x / 256, (n - 1) as nat));
    }
}

/// Encoding the value of a byte string most significant first gives it back.
pub proof fn lemma_be_bytes_of_value(s: Seq<u8>)
    ensures
        be_bytes(be_value(s), s.len()) == s,
    decreases s.len(),
{
    if s.len() > 0 {
        let t = s.drop_last();
        lemma_be_bytes_of_value(t);
        assert(be_value(s) % 256 == s.last() as nat);
        assert(be_value(s) / 256 == be_value(t));
        assert(s =~= t.push(s.last()));
    } else {
        assert(s =~= Seq::<u8>::empty());
    }
}

/// `a` comes before `b` in lexicographic order.
pub open spec fn lex_lt(a: Seq<u8>, b: Seq<u8>) -> bool
    decreases a.len(),
{
    if b.len() == 0 {
        false
    } else if a.len() == 0 {
        true
    } else {
        a[0] < b[0] || (a[0] == b[0] && lex_lt(a.drop_first(), b.drop_first()))
    }
}

/// `a` comes before `b` in lexicographic order or is `b`.
pub open spec fn lex_le(a: Seq<u8>, b: Seq<u8>) -> bool {
    a == b || lex_lt(a, b)
}

/// No byte string comes before itself.
pub proof fn lemma_lex_irreflexive(a: Seq<u8>)
    ensures
        !lex_lt(a, a),
    decreases a.len(),
{
    if a.len() > 0 {
        lemma_lex_irreflexive(a.drop_first());
    }
}

/// The lexicographic order is transitive.
pub proof fn lemma_lex_transitive(a: Seq<u8>, b: Seq<u8>, c: Seq<u8>)
    requires
        lex_lt(a, b),
        lex_lt(b, c),
    ensures
        lex_lt(a, c),
    decreases a.len(),
{
    if a.len() > 0 && a[0] == b[0] && b[0] == c[0] {
        lemma_lex_transitive(a.drop_first(), b.drop_first(), c.drop_first());
    }
}

/// Of two different byte strings one comes before the other.
pub proof fn lemma_lex_total(a: Seq<u8>, b: Seq<u8>)
    ensures
        lex_lt(a, b) || lex_lt(b, a) || a == b,
    decreases a.len(),
{
    if a.len() == 0 && b.len() == 0 {
        assert(a =~= b);
    } else if a.len() > 0 && b.len() > 0 && a[0] == b[0] {
        lemma_lex_total(a.drop_first(), b.drop_first());
        if a.drop_first() == b.drop_first() {
            assert(a =~= seq![a[0]] + a.drop_first());
            assert(b =~= seq![b[0]] + b.drop_first());
        }
    }
}

/// The order is asymmetric.
pub proof fn lemma_lex_asymmetric(a: Seq<u8>, b: Seq<u8>)
    requires
        lex_lt(a, b),
    ensures
        !lex_lt(b, a),
        a != b,
{
    lemma_lex_irreflexive(a);
    if lex_lt(b, a) {
        lemma_lex_transitive(a, b, a);
    }
}

/// A common prefix does not change how two byte strings compare.
pub proof fn lemma_lex_common_prefix(p: Seq<u8>, a: Seq<u8>, b: Seq<u8>)
    ensures
        lex_lt(p + a, p + b) == lex_lt(a, b),
    decreases p.len(),
{
    if p.len() == 0 {
        assert(p + a =~= a);
        assert(p + b =~= b);
    } else {
        lemma_lex_common_prefix(p.drop_first(), a, b);
        assert((p + a).drop_first() =~= p.drop_first() + a);
        assert((p + b).drop_first() =~= p.drop_first() + b);
    }
}

/// A proper prefix comes before what it is a prefix of.
pub proof fn lemma_lex_prefix(p: Seq<u8>, s: Seq<u8>)
    requires
        s.len() > 0,
    ensures
        lex_lt(p, p + s),
{
    lemma_lex_common_prefix(p, Seq::empty(), s);
    assert(p + Seq::<u8>::empty() =~= p);
}

/// The last byte decides between byte strings that agree before it.
pub proof fn lemma_lex_push(a: Seq<u8>, b: Seq<u8>, u: u8, v: u8)
    requires
        a.len() == b.len(),
    ensures
        lex_lt(a.push(u), b.push(v)) <==> lex_lt(a, b) || (a == b && u < v),
    decreases a.len(),
{
    if a.len() == 0 {
        reveal_with_fuel(lex_lt, 2);
        assert(a =~= b);
        assert(a.push(u).drop_first() =~= Seq::<u8>::empty());
        assert(b.push(v).drop_first() =~= Seq::<u8>::empty());
    } else {
        lemma_lex_push(a.drop_first(), b.drop_first(), u, v);
        assert(a.push(u).drop_first() =~= a.drop_first().push(u));
        assert(b.push(v).drop_first() =~= b.drop_first().push(v));
        if a[0] == b[0] && a.drop_first() == b.drop_first() {
            assert(a =~= seq![a[0]] + a.drop_first());
            assert(b =~= seq![b[0]] + b.drop_first());
        }
    }
}

/// Byte strings that first differ at `n` compare as they do there.
pub proof fn lemma_lex_at(a: Seq<u8>, b: Seq<u8>, n: int)
    requires
        0 <= n < a.len(),
        n < b.len(),
        a.take(n) == b.take(n),
        a[n] < b[n],
    ensures
        lex_lt(a, b),
{
    let p = a.take(n);
    assert(a =~= p + a.skip(n));
    assert(b =~= p + b.skip(n));
    lemma_lex_common_prefix(p, a.skip(n), b.skip(n));
}

/// Where a byte string comes before another, it is a proper prefix of it or is
/// smaller where they first differ.
pub proof fn lemma_lex_split(a: Seq<u8>, b: Seq<u8>) -> (n: int)
    requires
        lex_lt(a, b),
    ensures
        0 <= n <= a.len(),
        n < b.len(),
        a.take(n) == b.take(n),
        n < a.len() ==> a[n] < b[n],
    decreases a.len(),
{
    if a.len() == 0 {
        assert(a.take(0) =~= b.take(0));
        0
    } else if a[0] < b[0] {
        assert(a.take(0) =~= b.take(0));
        0
    } else {
        let n = lemma_lex_split(a.drop_first(), b.drop_first());
        assert forall|i: int| 0 <= i < n + 1 implies a[i] == b[i] by {
            if i > 0 {
                assert(a.drop_first().take(n)[i - 1] == b.drop_first().take(n)[i - 1]);
            }
        }
        assert(a.take(n + 1) =~= b.take(n + 1));
        n + 1
    }
}

/// Zeros come before every byte string that is at least as long, or are it.
pub proof fn lemma_zeros_least(z: Seq<u8>, t: Seq<u8>)
    requires
        z.len() <= t.len(),
        forall|i: int| 0 <= i < z.len() ==> #[trigger] z[i] == 0,
    ensures
        lex_le(z, t),
    decreases z.len(),
{
    if z.len() == 0 {
        if t.len() == 0 {
            assert(z =~= t);
        }
    } else if t[0] == 0 {
        lemma_zeros_least(z.drop_first(), t.drop_first());
        if z.drop_first() == t.drop_first() {
            assert(z =~= seq![z[0]] + z.drop_first());
            assert(t =~= seq![t[0]] + t.drop_first());
        }
    }
}

/// Every byte string comes before a longer one of bytes 255.
pub proof fn lemma_ones_greatest(t: Seq<u8>, ones: Seq<u8>)
    requires
        t.len() < ones.len(),
        forall|i: int| 0 <= i < ones.len() ==> #[trigger] ones[i] == 0xFF,
    ensures
        lex_lt(t, ones),
    decreases t.len(),
{
    if t.len() > 0 && t[0] == 0xFF {
        lemma_ones_greatest(t.drop_first(), ones.drop_first());
    }
}

/// The encoding of zero consists of zeros.
pub proof fn lemma_be_zero(n: nat)
    ensures
        be_bytes(0, n).len() == n,
        forall|i: int| 0 <= i < n ==> #[trigger] be_bytes(0, n)[i] == 0,
    decreases n,
{
    if n > 0 {
        lemma_be_zero((n - 1) as nat);
    }
}

/// Big-endian encodings of one width sort as the numbers that they encode.
pub proof fn lemma_be_order(x: nat, y: nat, n: nat)
    requires
        x < base_pow(n),
        y < base_pow(n),
    ensures
        lex_lt(be_bytes(x, n), be_bytes(y, n)) <==> x < y,
    decreases n,
{
    if n > 0 {
        let m = (n - 1) as nat;
        lemma_be_order(x / 256, y / 256, m);
        lemma_be_round_trip(x / 256, m);
        lemma_be_round_trip(y / 256, m);
        lemma_lex_push(
            be_bytes(x / 256, m),
            be_bytes(y / 256, m),
            (x % 256) as u8,
            (y % 256) as u8,
        );
    }
}

/// How one byte string stands to another in lexicographic order.
#[derive(Clone, Copy, Debug, PartialEq, Eq, Structural)]
pub enum KeyOrder {
    Before,
    Same,
    After,
}

/// Compares two byte strings.
pub fn compare(a: &[u8], b: &[u8]) -> (r: KeyOrder)
    ensures
        r == KeyOrder::Before <==> lex_lt(a@, b@),
        r == KeyOrder::Same <==> a@ == b@,
        r == KeyOrder::After <==> lex_lt(b@, a@),
{
    proof {
        lemma_lex_total(a@, b@);
        lemma_lex_irreflexive(a@);
        if lex_lt(a@, b@) {
            lemma_lex_asymmetric(a@, b@);
        }
        if lex_lt(b@, a@) {
            lemma_lex_asymmetric(b@, a@);
        }
        assert(a@.skip(0) =~= a@);
        assert(b@.skip(0) =~= b@);
    }
    let mut i: usize = 0;
    while i < a.len() && i < b.len()
        invariant
            i <= a.len(),
            i <= b.len(),
            forall|j: int| 0 <= j < i ==> a@[j] == b@[j],
            lex_lt(a@, b@) == lex_lt(a@.skip(i as int), b@.skip(i as int)),
            lex_lt(b@, a@) == lex_lt(b@.skip(i as int), a@.skip(i as int)),
            !(lex_lt(a@, b@) && lex_lt(b@, a@)),
            a@ == b@ ==> !lex_lt(a@, b@) && !lex_lt(b@, a@),
        decreases a.len() - i,
    {
        let x: u8 = a[i];
        let y: u8 = b[i];
        if x < y {
            return KeyOrder::Before;
        }
        if x > y {
            return KeyOrder::After;
        }
        proof {
            assert(a@.skip(i as int).drop_first() =~= a@.skip(i + 1));
            assert(b@.skip(i as int).drop_first() =~= b@.skip(i + 1));
        }
        i += 1;
    }
    if i < b.len() {
        KeyOrder::Before
    } else if i < a.len() {
        KeyOrder::After
    } else {
        assert(a@ =~= b@);
        KeyOrder::Same
    }
}

/// Whether two byte strings are equal.
pub fn equal(a: &[u8], b: &[u8]) -> (r: bool)
    ensures
        r == (a@ == b@),
{
    match compare(a, b) {
        KeyOrder::Same => true,
        _ => false,
    }
}

/// Whether `a` comes before `b`.
pub fn precedes(a: &[u8], b: &[u8]) -> (r: bool)
    ensures
        r == lex_lt(a@, b@),
{
    match compare(a, b) {
        KeyOrder::Before => true,
        _ => false,
    }
}

/// Appends a byte string to a buffer.
pub fn append(buf: &mut Vec<u8>, data: &[u8])
    ensures
        final(buf)@ == old(buf)@ + data@,
{
    buf.extend_from_slice(data);
    assert(buf@ =~= old(buf)@ + data@);
}

/// A copy of a byte string.
pub fn copy(data: &[u8]) -> (r: Vec<u8>)
    ensures
        r@ == data@,
{
    let mut out: Vec<u8> = Vec::with_capacity(data.len());
    append(&mut out, data);
    assert(out@ =~= data@);
    out
}

/// A copy of the bytes of `data` from `start` up to but excluding `end`.
pub fn copy_range(data: &[u8], start: usize, end: usize) -> (r: Vec<u8>)
    requires
        start <= end <= data@.len(),
    ensures
        r@ == data@.subrange(start as int, end as int),
{
    copy(&data[start..end])
}

/// Appends the four little-endian bytes of a number.
pub fn put_u32(buf: &mut Vec<u8>, x: u32)
    ensures
        final(buf)@ == old(buf)@ + le_bytes(x as nat, 4),
{
    put_le(buf, x as u64, 4);
}

/// Appends the four low-order bytes of a length, least significant first.
pub fn put_len(buf: &mut Vec<u8>, len: usize)
    ensures
        final(buf)@ == old(buf)@ + le_bytes(len as nat, 4),
{
    put_le(buf, len as u64, 4);
}

/// Appends the eight little-endian bytes of a number.
pub fn put_u64(buf: &mut Vec<u8>, x: u64)
    ensures
        final(buf)@ == old(buf)@ + le_bytes(x as nat, 8),
{
    put_le(buf, x, 8);
}

fn put_le(buf: &mut Vec<u8>, x: u64, width: usize)
    ensures
        final(buf)@ == old(buf)@ + le_bytes(x as nat, width as nat),
{
    let mut rest: u64 = x;
    let mut left: usize = width;
    assert(old(buf)@ + le_bytes(rest as nat, left as nat) =~= buf@ + le_bytes(rest as nat, left as nat));
    while left > 0
        invariant
            left <= width,
            old(buf)@ + le_bytes(x as nat, width as nat) == buf@ + le_bytes(rest as nat, left as nat),
        decreases left,
    {
        let ghost before = buf@;
        buf.push((rest % 256) as u8);
        proof {
            assert(before + le_bytes(rest as nat, left as nat) =~= buf@ + le_bytes(
                (rest / 256) as nat,
                (left - 1) as nat,
            ));
        }
        rest = rest / 256;
        left -= 1;
    }
    assert(buf@ + le_bytes(rest as nat, 0) =~= buf@);
}

/// Reads the four bytes at `at` as a little-endian number.
pub fn get_u32(data: &[u8], at: usize) -> (r: u32)
    requires
        at + 4 <= data@.len(),
    ensures
        r as nat == le_value(data@.subrange(at as int, at + 4)),
{
    let v: u64 = get_le(data, at, 4);
    proof {
        lemma_le_value_bound(data@.subrange(at as int, at + 4));
        lemma_base_pow();
    }
    v as u32
}

/// Reads the eight bytes at `at` as a little-endian number.
pub fn get_u64(data: &[u8], at: usize) -> (r: u64)
    requires
        at + 8 <= data@.len(),
    ensures
        r as nat == le_value(data@.subrange(at as int, at + 8)),
{
    get_le(data, at, 8)
}

fn get_le(data: &[u8], at: usize, width: usize) -> (r: u64)
    requires
        at + width <= data@.len(),
        width <= 8,
    ensures
        r as nat == le_value(data@.subrange(at as int, at + width)),
{
    let len: usize = data.len();
    let mut value: u64 = 0;
    let mut left: usize = width;
    assert(data@.subrange(at + width, at + width) =~= Seq::<u8>::empty());
    while left > 0
        invariant
            left <= width <= 8,
            len == data@.len(),
            at + width <= len,
            value as nat == le_value(data@.subrange(at + left, at + width)),
        decreases left,
    {
        left -= 1;
        proof {
            let s = data@.subrange(at + left, at + width);
            assert(s.drop_first() =~= data@.subrange(at + left + 1, at + width));
            lemma_le_value_bound(s);
            lemma_base_pow_monotonic(s.len(), 8);
            lemma_base_pow();
        }
        value = data[at + left] as u64 + 256 * value;
    }
    value
}

pub proof fn lemma_base_pow_monotonic(m: nat, n: nat)
    requires
        m <= n,
    ensures
        base_pow(m) <= base_pow(n),
    decreases n,
{
    if m < n {
        lemma_base_pow_monotonic(m, (n - 1) as nat);
    }
}

/// Appends the eight big-endian bytes of a number.
pub fn put_u64_be(buf: &mut Vec<u8>, x: u64)
    ensures
        final(buf)@ == old(buf)@ + be_bytes(x as nat, 8),
{
    put_be(buf, x, 8);
}

fn put_be(buf: &mut Vec<u8>, x: u64, width: usize)
    ensures
        final(buf)@ == old(buf)@ + be_bytes(x as nat, width as nat),
    decreases width,
{
    if width == 0 {
        assert(buf@ =~= old(buf)@ + be_bytes(x as nat, 0));
    } else {
        put_be(buf, x / 256, width - 1);
        buf.push((x % 256) as u8);
        assert(buf@ =~= old(buf)@ + be_bytes(x as nat, width as nat));
    }
}

/// Reads the eight bytes at `at` as a big-endian number.
pub fn get_u64_be(data: &[u8], at: usize) -> (r: u64)
    requires
        at + 8 <= data@.len(),
    ensures
        r as nat == be_value(data@.subrange(at as int, at + 8)),
{
    let len: usize = data.len();
    let mut value: u64 = 0;
    let mut i: usize = 0;
    assert(data@.subrange(at as int, at as int) =~= Seq::<u8>::empty());
    while i < 8
        invariant
            i <= 8,
            len == data@.len(),
            at + 8 <= len,
            value as nat == be_value(data@.subrange(at as int, at + i)),
        decreases 8 - i,
    {
        proof {
            let s = data@.subrange(at as int, at + i + 1);
            assert(s.drop_last() =~= data@.subrange(at as int, at + i));
            lemma_be_value_bound(s);
            lemma_base_pow_monotonic(s.len(), 8);
            lemma_base_pow();
        }
        value = 256 * value + data[at + i] as u64;
        i += 1;
    }
    value
}

} // verus!
