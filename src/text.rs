//! Small text rules: decimal numbers and exact words.
use vstd::prelude::*;

verus! {

/// Whether `c` is an ASCII decimal digit.
pub open spec fn is_digit(c: char) -> bool {
    '0' <= c <= '9'
}

/// Value of the decimal digit `c`.
pub open spec fn digit_value(c: char) -> int {
    c as int - '0' as int
}

/// Whether every character of `s` is a decimal digit.
pub open spec fn all_digits(s: Seq<char>) -> bool {
    forall|i: int| 0 <= i < s.len() ==> is_digit(#[trigger] s[i])
}

/// Value of a run of decimal digits, most significant first.
pub open spec fn digits_value(s: Seq<char>) -> int
    decreases s.len(),
{
    if s.len() == 0 {
        0
    } else {
        10 * digits_value(s.drop_last()) + digit_value(s.last())
    }
}

/// The digits of a decimal number in text: all of it, or all after one
/// leading `+`.
pub open spec fn unsigned_digits(s: Seq<char>) -> Seq<char> {
    if s.len() > 0 && s[0] == '+' {
        s.drop_first()
    } else {
        s
    }
}

/// The `u32` that `s` writes in decimal: an optional `+`, then one or more
/// digits, with a value that fits in 32 bits.
pub open spec fn decimal_u32(s: Seq<char>) -> Option<u32> {
    let d = unsigned_digits(s);
    if d.len() > 0 && all_digits(d) && digits_value(d) <= u32::MAX {
        Some(digits_value(d) as u32)
    } else {
        None
    }
}

proof fn lemma_digits_value_grows(s: Seq<char>, i: int)
    requires
        0 <= i <= s.len(),
        all_digits(s),
    ensures
        0 <= digits_value(s.take(i)) <= digits_value(s),
    decreases s.len() - i,
{
    if i < s.len() {
        lemma_digits_value_grows(s, i + 1);
        assert(s.take(i + 1).drop_last() =~= s.take(i));
    } else {
        assert(s.take(i) =~= s);
    }
    lemma_digits_value_nonneg(s.take(i));
}

proof fn lemma_digits_value_nonneg(s: Seq<char>)
    requires
        all_digits(s),
    ensures
        digits_value(s) >= 0,
    decreases s.len(),
{
    if s.len() > 0 {
        lemma_digits_value_nonneg(s.drop_last());
    }
}

/// The characters of `s`, in order.
pub fn chars_of(s: &str) -> (r: Vec<char>)
    ensures
        r@ == s@,
{
    let mut r: Vec<char> = Vec::new();
    for c in it: s.chars()
        invariant
            r@ == it.seq().take(it.index() as int),
    {
        r.push(c);
    }
    r
}

/// Whether `s` holds exactly the characters of `word`.
pub fn is_word(s: &Vec<char>, word: &str) -> (r: bool)
    ensures
        r == (s@ == word@),
{
    let w = chars_of(word);
    if s.len() != w.len() {
        return false;
    }
    let mut i: usize = 0;
    while i < s.len()
        invariant
            i <= s.len() == w.len(),
            w@ == word@,
            forall|j: int| 0 <= j < i ==> s@[j] == w@[j],
        decreases s.len() - i,
    {
        if s[i] != w[i] {
            return false;
        }
        i = i + 1;
    }
    assert(s@ =~= w@);
    true
}

/// Reads a `u32` written in decimal, as `str::parse::<u32>` accepts it.
pub fn parse_u32(s: &Vec<char>) -> (r: Option<u32>)
    ensures
        r == decimal_u32(s@),
{
    let start: usize = if s.len() > 0 && s[0] == '+' { 1 } else { 0 };
    let ghost d = unsigned_digits(s@);
    assert(d =~= s@.subrange(start as int, s@.len() as int));
    if start >= s.len() {
        return None;
    }
    let mut acc: u64 = 0;
    let mut i: usize = start;
    while i < s.len()
        invariant
            start <= i <= s.len(),
            d == unsigned_digits(s@),
            d =~= s@.subrange(start as int, s@.len() as int),
            all_digits(d.take(i - start)),
            acc == digits_value(d.take(i - start)),
            acc <= u32::MAX,
        decreases s.len() - i,
    {
        let c = s[i];
        if !('0' <= c && c <= '9') {
            assert(d[i - start] == s@[i as int]);
            assert(!is_digit(d[i - start]));
            assert(!all_digits(d));
            return None;
        }
        let ghost k: int = i - start;
        assert(d.take(k + 1).drop_last() =~= d.take(k));
        assert(d.take(k + 1).last() == c);
        let next: u64 = acc * 10 + (c as u64 - '0' as u64);
        i = i + 1;
        assert(all_digits(d.take(i - start))) by {
            assert forall|j: int| 0 <= j < d.take(i - start).len() implies is_digit(
                #[trigger] d.take(i - start)[j],
            ) by {
                if j < k {
                    assert(d.take(i - start)[j] == d.take(k)[j]);
                }
            }
        }
        if next > 0xffff_ffff {
            proof {
                assert(digits_value(d.take(k + 1)) == 10 * digits_value(d.take(k)) + digit_value(c));
                if all_digits(d) {
                    lemma_digits_value_grows(d, k + 1);
                    assert(digits_value(d) > u32::MAX);
                }
            }
            return None;
        }
        acc = next;
    }
    assert(d.take(i - start) =~= d);
    Some(acc as u32)
}

} // verus!
