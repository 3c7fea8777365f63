//! Texts as words: white space, trimming, searching.

use vstd::prelude::*;
use crate::text::{decimal, decimal_text, has_at, joined, slice};

verus! {

/// A character with the Unicode property White_Space.
pub open spec fn white(c: char) -> bool {
    let n = c as u32;
    ||| 0x09 <= n <= 0x0D
    ||| n == 0x20
    ||| n == 0x85
    ||| n == 0xA0
    ||| n == 0x1680
    ||| 0x2000 <= n <= 0x200A
    ||| n == 0x2028
    ||| n == 0x2029
    ||| n == 0x202F
    ||| n == 0x205F
    ||| n == 0x3000
}

/// Whether a character is white space.
pub fn is_white(c: char) -> (r: bool)
    ensures
        r == white(c),
{
    let n: u32 = c as u32;
    (0x09 <= n && n <= 0x0D) || n == 0x20 || n == 0x85 || n == 0xA0 || n == 0x1680 || (0x2000 <= n
        && n <= 0x200A) || n == 0x2028 || n == 0x2029 || n == 0x202F || n == 0x205F || n == 0x3000
}

/// The first place from `from` on whose character is white space, or is not, as
/// asked; the length where there is none.
pub open spec fn next_place(s: Seq<char>, from: int, blank: bool) -> int
    decreases s.len() - from,
{
    if from < 0 || from >= s.len() {
        s.len() as int
    } else if white(s[from]) == blank {
        from
    } else {
        next_place(s, from + 1, blank)
    }
}

/// A place that is found lies ahead and within the text or at its end.
pub proof fn lemma_next_place(s: Seq<char>, from: int, blank: bool)
    requires
        0 <= from <= s.len(),
    ensures
        from <= next_place(s, from, blank) <= s.len(),
    decreases s.len() - from,
{
    if from < s.len() && white(s[from]) != blank {
        lemma_next_place(s, from + 1, blank);
    }
}

/// The first place from `from` on whose character is white space, or is not.
pub fn find_place(s: &str, from: usize, blank: bool) -> (r: usize)
    requires
        from <= s@.len(),
    ensures
        r == next_place(s@, from as int, blank),
        from <= r <= s@.len(),
{
    let n: usize = s.unicode_len();
    let mut i: usize = from;
    proof {
        lemma_next_place(s@, from as int, blank);
    }
    while i < n
        invariant
            from <= i <= n,
            n == s@.len(),
            next_place(s@, from as int, blank) == next_place(s@, i as int, blank),
        decreases n - i,
    {
        if is_white(s.get_char(i)) == blank {
            return i;
        }
        i += 1;
    }
    n
}

/// The place that is looked for is the first that has what is asked.
pub proof fn lemma_place_at(s: Seq<char>, from: int, blank: bool, at: int)
    requires
        0 <= from <= at <= s.len(),
        forall|i: int| from <= i < at ==> white(#[trigger] s[i]) != blank,
        at < s.len() ==> white(s[at]) == blank,
    ensures
        next_place(s, from, blank) == at,
    decreases at - from,
{
    if from < at {
        assert(white(s[from]) != blank);
        lemma_place_at(s, from + 1, blank, at);
    }
}

/// A text with no white space at its ends stays whole when it is trimmed; white
/// space before and after it goes.
pub proof fn law_trimming_takes_ends_off(before: Seq<char>, s: Seq<char>, after: Seq<char>)
    requires
        s.len() > 0,
        !white(s[0]),
        !white(s.last()),
        forall|i: int| 0 <= i < before.len() ==> white(#[trigger] before[i]),
        forall|i: int| 0 <= i < after.len() ==> white(#[trigger] after[i]),
    ensures
        trimmed(before + s + after) == s,
{
    let all = before + s + after;
    assert forall|i: int| 0 <= i < before.len() implies white(#[trigger] all[i]) != false by {
        assert(all[i] == before[i]);
    }
    lemma_place_at(all, 0, false, before.len() as int);
    let rest = all.skip(before.len() as int);
    assert(rest =~= s + after);
    lemma_solid(s, after);
    assert(rest.take(s.len() as int) =~= s);
}

proof fn lemma_solid(s: Seq<char>, after: Seq<char>)
    requires
        s.len() > 0,
        !white(s.last()),
        forall|i: int| 0 <= i < after.len() ==> white(#[trigger] after[i]),
    ensures
        solid_len(s + after) == s.len(),
    decreases after.len(),
{
    let all = s + after;
    if after.len() > 0 {
        assert(all.last() == after[after.len() - 1]);
        assert(all.drop_last() =~= s + after.drop_last());
        assert forall|i: int| 0 <= i < after.drop_last().len() implies white(
            #[trigger] after.drop_last()[i],
        ) by {
            assert(after.drop_last()[i] == after[i]);
        }
        lemma_solid(s, after.drop_last());
    } else {
        assert(all =~= s);
    }
}

/// The length of a text without the white space at its end.
pub open spec fn solid_len(s: Seq<char>) -> nat
    decreases s.len(),
{
    if s.len() > 0 && white(s.last()) {
        solid_len(s.drop_last())
    } else {
        s.len()
    }
}

/// A text without the white space at its ends.
pub open spec fn trimmed(s: Seq<char>) -> Seq<char> {
    let rest = s.skip(next_place(s, 0, false));
    rest.take(solid_len(rest) as int)
}

/// A text without the white space at its ends.
pub fn trim(s: &str) -> (r: String)
    ensures
        r@ == trimmed(s@),
{
    let start: usize = find_place(s, 0, false);
    let ghost rest = s@.skip(start as int);
    let mut end: usize = s.unicode_len();
    assert(rest.take(end - start) =~= rest);
    while end > start && is_white(s.get_char(end - 1))
        invariant
            start <= end <= s@.len(),
            rest == s@.skip(start as int),
            solid_len(rest) == solid_len(rest.take(end - start)),
        ensures
            start <= end <= s@.len(),
            solid_len(rest) == solid_len(rest.take(end - start)),
            end == start || !white(s@[end - 1]),
        decreases end,
    {
        assert(rest.take(end - start).last() == s@[end - 1]);
        assert(rest.take(end - start).drop_last() =~= rest.take(end - start - 1));
        end -= 1;
    }
    let t: String = slice(s, start, end);
    proof {
        if end > start {
            assert(rest.take(end - start).last() == s@[end - 1]);
        }
        assert(solid_len(rest) == end - start);
        assert(t@ =~= trimmed(s@));
    }
    t
}

/// The n-th word from `from` on, counted from zero; words are what white space
/// separates.
pub open spec fn word_from(s: Seq<char>, from: int, n: nat) -> Option<Seq<char>>
    decreases n,
{
    let start = next_place(s, from, false);
    let end = next_place(s, start, true);
    if start >= s.len() {
        None
    } else if n == 0 {
        Some(s.subrange(start, end))
    } else {
        word_from(s, end, (n - 1) as nat)
    }
}

/// The n-th word of a text, counted from zero.
pub fn nth_word(s: &str, n: usize) -> (r: Option<String>)
    ensures
        match word_from(s@, 0, n as nat) {
            Some(w) => r matches Some(t) && t@ == w,
            None => r is None,
        },
{
    let len: usize = s.unicode_len();
    let mut left: usize = n;
    let mut from: usize = 0;
    loop
        invariant
            from <= s@.len(),
            len == s@.len(),
            word_from(s@, 0, n as nat) == word_from(s@, from as int, left as nat),
        decreases left,
    {
        let start: usize = find_place(s, from, false);
        if start >= len {
            return None;
        }
        let end: usize = find_place(s, start, true);
        if left == 0 {
            return Some(slice(s, start, end));
        }
        left -= 1;
        from = end;
    }
}

/// Whether two texts are the same.
pub fn same(a: &str, b: &str) -> (r: bool)
    ensures
        r == (a@ == b@),
{
    if a.unicode_len() != b.unicode_len() {
        return false;
    }
    assert(a@.subrange(0, b@.len() as int) =~= a@);
    has_at(a, 0, b)
}

/// The first place of `p` in a text from `from` on.
pub open spec fn place_of(s: Seq<char>, p: Seq<char>, from: int) -> Option<int>
    decreases s.len() + 1 - from,
{
    if from < 0 || from + p.len() > s.len() {
        None
    } else if s.subrange(from, from + p.len()) == p {
        Some(from)
    } else {
        place_of(s, p, from + 1)
    }
}

/// The first place of `p` in a text.
pub fn find(s: &str, p: &str) -> (r: Option<usize>)
    ensures
        match place_of(s@, p@, 0) {
            Some(i) => r matches Some(j) && j == i && i + p@.len() <= s@.len(),
            None => r is None,
        },
{
    let n: usize = s.unicode_len();
    let m: usize = p.unicode_len();
    if m > n {
        return None;
    }
    let mut i: usize = 0;
    loop
        invariant
            n == s@.len(),
            m == p@.len(),
            m <= n,
            i <= n - m,
            place_of(s@, p@, 0) == place_of(s@, p@, i as int),
        decreases n - m - i,
    {
        if has_at(s, i, p) {
            return Some(i);
        }
        if i == n - m {
            proof {
                reveal_with_fuel(place_of, 2);
            }
            return None;
        }
        i += 1;
    }
}

/// An optional number as it is written in messages.
pub open spec fn option_view(n: Option<u64>) -> Seq<char> {
    match n {
        Some(x) => "Some("@ + decimal(x as nat) + ")"@,
        None => "None"@,
    }
}

/// An optional number as it is written in messages.
pub fn option_text(n: Option<u64>) -> (r: String)
    ensures
        r@ == option_view(n),
{
    match n {
        Some(x) => joined("Some(", decimal_text(x).as_str()).concat(")"),
        None => "None".to_string(),
    }
}

/// A signed number in decimal.
pub open spec fn signed_decimal(n: int) -> Seq<char> {
    if n < 0 {
        "-"@ + decimal((-n) as nat)
    } else {
        decimal(n as nat)
    }
}

/// A signed number in decimal.
pub fn signed_text(n: i64) -> (r: String)
    ensures
        r@ == signed_decimal(n as int),
{
    if n < 0 {
        let size: u64 = (-(n as i128)) as u64;
        joined("-", decimal_text(size).as_str())
    } else {
        decimal_text(n as u64)
    }
}

/// A text in quotation marks, with what cannot be shown escaped: what the
/// `Debug` of `str` writes.
pub uninterp spec fn quoted(text: Seq<char>) -> Seq<char>;

/// The `Debug` of `str`: a text in quotation marks, with what cannot be shown
/// escaped. Which characters are escaped, and how, is left to the name.
#[verifier::external_body]
pub(crate) fn quote(text: &str) -> (r: String)
    ensures
        r@ == quoted(text@),
{
    format!("{:?}", text)
}

} // verus!
