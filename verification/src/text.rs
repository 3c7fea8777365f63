//! Numbers as text, for messages and file names.

use vstd::prelude::*;

verus! {

/// `String::push` appends one character.
pub assume_specification[ String::push ](text: &mut String, c: char)
    ensures
        final(text)@ == old(text)@.push(c),
;

/// The character of a digit in a base up to sixteen.
pub open spec fn digit_char(d: nat) -> char {
    if d < 10 {
        ((0x30 + d) as u8) as char
    } else {
        ((0x57 + d) as u8) as char
    }
}

/// A number in a base from two to sixteen, without leading zeros.
pub open spec fn digits(n: nat, base: nat) -> Seq<char>
    decreases n,
    via digits_terminate
{
    if n < base || base < 2 {
        seq![digit_char(n)]
    } else {
        digits(n / base, base).push(digit_char(n % base))
    }
}

#[via_fn]
proof fn digits_terminate(n: nat, base: nat) {
    if n >= base && base >= 2 {
        lemma_quotient_smaller(n, base);
    }
}

proof fn lemma_quotient_smaller(n: nat, base: nat)
    by (nonlinear_arith)
    requires
        n >= base,
        base >= 2,
    ensures
        n / base < n,
{
}

/// A number in decimal.
pub open spec fn decimal(n: nat) -> Seq<char> {
    digits(n, 10)
}

/// `text` with zeros put before it up to a width.
pub open spec fn zero_padded(text: Seq<char>, width: nat) -> Seq<char> {
    if text.len() < width {
        Seq::new((width - text.len()) as nat, |i: int| '0') + text
    } else {
        text
    }
}

/// A 32-bit number as `0x` and eight hexadecimal digits.
pub open spec fn hex32(n: nat) -> Seq<char> {
    "0x"@ + zero_padded(digits(n, 16), 8)
}

/// The value of a decimal digit, where `c` is one.
pub open spec fn digit_value(c: char) -> Option<nat> {
    if '0' <= c && c <= '9' {
        Some((c as u32 - 0x30) as nat)
    } else {
        None
    }
}

/// The number that a row of decimal digits denotes, where it is one.
pub open spec fn digits_value(s: Seq<char>) -> Option<nat>
    decreases s.len(),
{
    if s.len() == 0 {
        Some(0)
    } else {
        match (digits_value(s.drop_last()), digit_value(s.last())) {
            (Some(v), Some(d)) => Some(10 * v + d),
            _ => None,
        }
    }
}

/// What a text denotes as an unsigned 64-bit number: one or more decimal
/// digits, a plus sign before them allowed, with a value that fits.
pub open spec fn number_of(s: Seq<char>) -> Option<u64> {
    let body = if s.len() > 0 && s[0] == '+' {
        s.drop_first()
    } else {
        s
    };
    if body.len() == 0 {
        None
    } else {
        match digits_value(body) {
            Some(v) => if v <= u64::MAX {
                Some(v as u64)
            } else {
                None
            },
            None => None,
        }
    }
}

/// Joins texts.
pub fn joined(first: &str, second: &str) -> (r: String)
    ensures
        r@ == first@ + second@,
{
    first.to_string().concat(second)
}

/// Appends a number to a text.
pub fn push_number(text: &mut String, n: u64, base: u64)
    requires
        2 <= base <= 16,
    ensures
        final(text)@ == old(text)@ + digits(n as nat, base as nat),
    decreases n,
{
    if n >= base {
        proof {
            lemma_quotient_smaller(n as nat, base as nat);
        }
        push_number(text, n / base, base);
        text.push(digit(n % base));
    } else {
        text.push(digit(n));
    }
    assert(text@ =~= old(text)@ + digits(n as nat, base as nat));
}

fn digit(d: u64) -> (c: char)
    requires
        d < 16,
    ensures
        c == digit_char(d as nat),
{
    if d < 10 {
        (0x30 + d as u8) as char
    } else {
        (0x57 + d as u8) as char
    }
}

/// A number in decimal.
pub fn decimal_text(n: u64) -> (r: String)
    ensures
        r@ == decimal(n as nat),
{
    let mut text: String = String::new();
    push_number(&mut text, n, 10);
    assert(text@ =~= decimal(n as nat));
    text
}

/// A number in decimal, with zeros before it up to a width.
pub fn padded_decimal(n: u64, width: usize) -> (r: String)
    ensures
        r@ == zero_padded(decimal(n as nat), width as nat),
{
    zero_padded_text(decimal_text(n), width)
}

fn zero_padded_text(text: String, width: usize) -> (r: String)
    ensures
        r@ == zero_padded(text@, width as nat),
{
    let len: usize = text.as_str().unicode_len();
    if len >= width {
        return text;
    }
    let mut out: String = String::new();
    let mut i: usize = 0;
    while i < width - len
        invariant
            len < width,
            i <= width - len,
            out@ == Seq::new(i as nat, |j: int| '0'),
        decreases width - len - i,
    {
        out.push('0');
        i += 1;
        assert(out@ =~= Seq::new(i as nat, |j: int| '0'));
    }
    assert(out@ =~= Seq::new((width - len) as nat, |j: int| '0'));
    out.concat(text.as_str())
}

/// A 32-bit number as `0x` and eight hexadecimal digits.
pub fn hex32_text(n: u32) -> (r: String)
    ensures
        r@ == hex32(n as nat),
{
    let mut body: String = String::new();
    push_number(&mut body, n as u64, 16);
    assert(body@ =~= digits(n as nat, 16));
    joined("0x", zero_padded_text(body, 8).as_str())
}

/// Reads a text as an unsigned 64-bit number.
pub fn parse_u64(s: &str) -> (r: Option<u64>)
    ensures
        r == number_of(s@),
{
    let len: usize = s.unicode_len();
    let start: usize = if len > 0 && s.get_char(0) == '+' {
        1
    } else {
        0
    };
    let ghost body = s@.skip(start as int);
    proof {
        assert(body =~= if start == 1 {
            s@.drop_first()
        } else {
            s@
        });
    }
    if start == len {
        return None;
    }
    let mut value: u64 = 0;
    let mut i: usize = start;
    assert(body.take(0) =~= Seq::<char>::empty());
    while i < len
        invariant
            start <= i <= len,
            len == s@.len(),
            body == s@.skip(start as int),
            body.len() > 0,
            number_of(s@) == match digits_value(body) {
                Some(v) => if v <= u64::MAX {
                    Some(v as u64)
                } else {
                    None
                },
                None => None,
            },
            digits_value(body.take(i - start)) == Some(value as nat),
        decreases len - i,
    {
        let c: char = s.get_char(i);
        proof {
            let longer = body.take(i - start + 1);
            assert(longer.drop_last() =~= body.take(i - start));
            assert(longer.last() == c);
            lemma_digits_value_prefix(body, (i - start + 1) as nat);
            assert(body.take(body.len() as int) =~= body);
        }
        if !('0' <= c && c <= '9') {
            return None;
        }
        let d: u64 = (c as u32 - 0x30) as u64;
        if value > (u64::MAX - d) / 10 {
            assert(10 * value + d > u64::MAX);
            return None;
        }
        value = 10 * value + d;
        i += 1;
    }
    assert(body.take(len - start) =~= body);
    Some(value)
}

/// A text that denotes a number has prefixes that denote numbers no larger.
proof fn lemma_digits_value_prefix(s: Seq<char>, n: nat)
    requires
        n <= s.len(),
    ensures
        digits_value(s) is Some ==> digits_value(s.take(n as int)) is Some && digits_value(
            s.take(n as int),
        )->0 <= digits_value(s)->0,
    decreases s.len() - n,
{
    if n == s.len() {
        assert(s.take(n as int) =~= s);
    } else {
        lemma_digits_value_prefix(s, n + 1);
        assert(s.take((n + 1) as int).drop_last() =~= s.take(n as int));
    }
}

/// The digits of a number denote the number.
pub proof fn lemma_decimal_value(n: nat)
    ensures
        digits_value(decimal(n)) == Some(n),
        decimal(n).len() > 0,
        decimal(n)[0] != '+',
    decreases n,
{
    reveal_with_fuel(digits_value, 2);
    if n < 10 {
        assert(decimal(n).drop_last() =~= Seq::<char>::empty());
    } else {
        lemma_decimal_value(n / 10);
        assert(decimal(n).drop_last() =~= decimal(n / 10));
    }
}

/// Reading a number that was written in decimal gives it back.
pub proof fn law_number_round_trip(n: u64)
    ensures
        number_of(decimal(n as nat)) == Some(n),
{
    lemma_decimal_value(n as nat);
}

/// Zeros before digits do not change the number that they denote.
proof fn lemma_zeros_before(k: nat, s: Seq<char>)
    ensures
        digits_value(Seq::new(k, |i: int| '0') + s) == digits_value(s),
    decreases s.len(), k,
{
    let zeros = Seq::new(k, |i: int| '0');
    let all = zeros + s;
    if s.len() > 0 {
        lemma_zeros_before(k, s.drop_last());
        assert(all.drop_last() =~= zeros + s.drop_last());
        assert(all.last() == s.last());
    } else if k > 0 {
        let fewer = Seq::new((k - 1) as nat, |i: int| '0');
        lemma_zeros_before((k - 1) as nat, s);
        assert(all.drop_last() =~= fewer + s);
        assert(all.last() == '0');
        assert(digits_value(s) == Some(0nat));
    } else {
        assert(all =~= s);
    }
}

/// Reading a number that was written in decimal, with zeros put before it, gives
/// it back. None of its characters is a dot.
pub proof fn law_padded_number_round_trip(n: u64, width: nat)
    ensures
        number_of(zero_padded(decimal(n as nat), width)) == Some(n),
        forall|i: int|
            0 <= i < zero_padded(decimal(n as nat), width).len() ==> (
            #[trigger] zero_padded(decimal(n as nat), width)[i]) != '.',
        zero_padded(decimal(n as nat), width).len() > 0,
{
    let s = decimal(n as nat);
    let padded = zero_padded(s, width);
    lemma_decimal_value(n as nat);
    if s.len() < width {
        lemma_zeros_before((width - s.len()) as nat, s);
    }
    assert forall|i: int| 0 <= i < padded.len() implies (#[trigger] padded[i]) != '.' by {
        lemma_digits_only(padded, i);
    }
}

/// A text that denotes a number consists of digits.
proof fn lemma_digits_only(s: Seq<char>, i: int)
    requires
        digits_value(s) is Some,
        0 <= i < s.len(),
    ensures
        digit_value(s[i]) is Some,
    decreases s.len(),
{
    if i < s.len() - 1 {
        lemma_digits_only(s.drop_last(), i);
    }
}

/// A text starts with another.
pub open spec fn starts_with(s: Seq<char>, p: Seq<char>) -> bool {
    p.len() <= s.len() && s.take(p.len() as int) == p
}

/// A text ends with another.
pub open spec fn ends_with(s: Seq<char>, p: Seq<char>) -> bool {
    p.len() <= s.len() && s.skip(s.len() - p.len()) == p
}

/// The place of the first `c` in a text from `from` on, or its length.
pub open spec fn index_of_char(s: Seq<char>, c: char, from: int) -> int
    decreases s.len() - from,
{
    if from < 0 || from >= s.len() {
        s.len() as int
    } else if s[from] == c {
        from
    } else {
        index_of_char(s, c, from + 1)
    }
}

/// The part of a text before the first `c`; the whole where it has none.
pub open spec fn before_char(s: Seq<char>, c: char) -> Seq<char> {
    s.take(index_of_char(s, c, 0))
}

/// The first `c` stands where it was looked for or later, and within the text
/// or at its end.
pub proof fn lemma_index_of_char(s: Seq<char>, c: char, from: int)
    requires
        0 <= from <= s.len(),
    ensures
        from <= index_of_char(s, c, from) <= s.len(),
        index_of_char(s, c, from) < s.len() ==> s[index_of_char(s, c, from)] == c,
        forall|i: int| from <= i < index_of_char(s, c, from) ==> s[i] != c,
    decreases s.len() - from,
{
    if from < s.len() && s[from] != c {
        lemma_index_of_char(s, c, from + 1);
    }
}

/// A part of a text, by characters.
pub fn slice(s: &str, start: usize, end: usize) -> (r: String)
    requires
        start <= end <= s@.len(),
    ensures
        r@ == s@.subrange(start as int, end as int),
{
    let mut out: String = String::new();
    let mut i: usize = start;
    assert(out@ =~= s@.subrange(start as int, start as int));
    while i < end
        invariant
            start <= i <= end <= s@.len(),
            out@ == s@.subrange(start as int, i as int),
        decreases end - i,
    {
        out.push(s.get_char(i));
        i += 1;
        assert(out@ =~= s@.subrange(start as int, i as int));
    }
    out
}

/// Whether a text has another one at a place.
pub fn has_at(s: &str, at: usize, p: &str) -> (r: bool)
    ensures
        r == (at + p@.len() <= s@.len() && s@.subrange(at as int, at + p@.len()) == p@),
{
    let n: usize = s.unicode_len();
    let m: usize = p.unicode_len();
    if at > n || m > n - at {
        return false;
    }
    let mut i: usize = 0;
    while i < m
        invariant
            i <= m,
            m == p@.len(),
            n == s@.len(),
            at + m <= n,
            forall|j: int| 0 <= j < i ==> s@[at + j] == p@[j],
        decreases m - i,
    {
        if s.get_char(at + i) != p.get_char(i) {
            assert(s@.subrange(at as int, at + p@.len())[i as int] != p@[i as int]);
            return false;
        }
        i += 1;
    }
    assert(s@.subrange(at as int, at + p@.len()) =~= p@);
    true
}

/// What follows a prefix, where a text starts with it.
pub fn strip_prefix(s: &str, p: &str) -> (r: Option<String>)
    ensures
        match r {
            Some(t) => starts_with(s@, p@) && t@ == s@.skip(p@.len() as int),
            None => !starts_with(s@, p@),
        },
{
    assert(s@.len() >= p@.len() ==> s@.subrange(0, p@.len() as int) =~= s@.take(p@.len() as int));
    if has_at(s, 0, p) {
        let t: String = slice(s, p.unicode_len(), s.unicode_len());
        assert(t@ =~= s@.skip(p@.len() as int));
        Some(t)
    } else {
        None
    }
}

/// What precedes a suffix, where a text ends with it.
pub fn strip_suffix(s: &str, p: &str) -> (r: Option<String>)
    ensures
        match r {
            Some(t) => ends_with(s@, p@) && t@ == s@.take(s@.len() - p@.len()),
            None => !ends_with(s@, p@),
        },
{
    let n: usize = s.unicode_len();
    let m: usize = p.unicode_len();
    if m > n {
        return None;
    }
    assert(s@.subrange(n - m, n - m + p@.len()) =~= s@.skip(n - m));
    if has_at(s, n - m, p) {
        let t: String = slice(s, 0, n - m);
        assert(t@ =~= s@.take(n - m));
        Some(t)
    } else {
        None
    }
}

/// The place of the first `c` in a text from `from` on, or its length.
pub fn find_char(s: &str, c: char, from: usize) -> (r: usize)
    requires
        from <= s@.len(),
    ensures
        r == index_of_char(s@, c, from as int),
        from <= r <= s@.len(),
{
    let n: usize = s.unicode_len();
    let mut i: usize = from;
    proof {
        lemma_index_of_char(s@, c, from as int);
    }
    while i < n
        invariant
            from <= i <= n,
            n == s@.len(),
            index_of_char(s@, c, from as int) == index_of_char(s@, c, i as int),
        decreases n - i,
    {
        if s.get_char(i) == c {
            return i;
        }
        i += 1;
    }
    n
}

/// The part of a text before the first `c`.
pub fn head_before(s: &str, c: char) -> (r: String)
    ensures
        r@ == before_char(s@, c),
{
    let end: usize = find_char(s, c, 0);
    let t: String = slice(s, 0, end);
    assert(t@ =~= before_char(s@, c));
    t
}

} // verus!
