//! Small helpers for building text.

use vstd::prelude::*;

verus! {

/// Appends one character to a string.
///
/// Trusted: stands for `String::push` of the standard library, which appends
/// the given character to the end of the string and changes nothing else.
#[verifier::external_body]
pub(crate) fn push_char(s: &mut String, c: char)
    ensures
        final(s)@ == old(s)@.push(c),
{
    s.push(c);
}

/// Appends characters to a string.
pub fn push_chars(s: &mut String, chars: &Vec<char>)
    ensures
        final(s)@ == old(s)@ + chars@,
{
    let mut i: usize = 0;
    while i < chars.len()
        invariant
            i <= chars@.len(),
            s@ == old(s)@ + chars@.subrange(0, i as int),
        decreases chars@.len() - i,
    {
        push_char(s, chars[i]);
        i += 1;
        assert(s@ =~= old(s)@ + chars@.subrange(0, i as int));
    }
    assert(chars@.subrange(0, i as int) =~= chars@);
}

/// The decimal digit of a value below ten.
pub open spec fn decimal_digit(n: nat) -> char {
    (48 + n) as char
}

/// The decimal numeral of a number, without leading zeros.
pub open spec fn decimal(n: nat) -> Seq<char>
    decreases n,
{
    if n < 10 {
        seq![decimal_digit(n)]
    } else {
        decimal(n / 10).push(decimal_digit(n % 10))
    }
}

/// The numeral of a number, or nothing where the number is zero.
spec fn leading(n: nat) -> Seq<char> {
    if n == 0 {
        Seq::empty()
    } else {
        decimal(n)
    }
}

/// Appends the decimal numeral of a number to a string.
pub fn push_decimal(s: &mut String, n: usize)
    ensures
        final(s)@ == old(s)@ + decimal(n as nat),
{
    let mut digits: Vec<char> = Vec::new();
    digits.push((48u8 + (n % 10) as u8) as char);
    let mut m: usize = n / 10;
    assert(leading(m as nat) + digits@.reverse() =~= decimal(n as nat));
    while m > 0
        invariant
            digits@.len() > 0,
            leading(m as nat) + digits@.reverse() == decimal(n as nat),
        decreases m,
    {
        let ghost before = digits@;
        let d = (48u8 + (m % 10) as u8) as char;
        digits.push(d);
        assert(leading(m as nat) =~= leading((m / 10) as nat).push(d));
        assert(digits@.reverse() =~= seq![d] + before.reverse());
        assert(leading((m / 10) as nat) + digits@.reverse() =~= leading(m as nat)
            + before.reverse());
        m = m / 10;
    }
    assert(digits@.reverse() =~= decimal(n as nat));
    let mut k: usize = digits.len();
    while k > 0
        invariant
            k <= digits@.len(),
            s@ == old(s)@ + digits@.reverse().subrange(0, digits@.len() - k),
        decreases k,
    {
        k -= 1;
        push_char(s, digits[k]);
        assert(digits@.reverse().subrange(0, digits@.len() - k) =~= digits@.reverse().subrange(
            0,
            digits@.len() - k - 1,
        ).push(digits@[k as int]));
    }
    assert(digits@.reverse().subrange(0, digits@.len() as int) =~= digits@.reverse());
}

} // verus!
