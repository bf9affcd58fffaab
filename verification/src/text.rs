//! Small text utilities: decimal rendering of integers as `format!("{:02}", n)`
//! does it, and a character search over a `str`.
use vstd::prelude::*;

verus! {

/// The ASCII digit for `d` (`0 <= d < 10`).
pub open spec fn digit_char(d: int) -> char {
    (48 + d) as char
}

/// The decimal digits of `n`, most significant first, without leading zeros.
pub open spec fn digits(n: nat) -> Seq<char>
    decreases n,
{
    if n < 10 {
        seq![digit_char(n as int)]
    } else {
        digits(n / 10).push(digit_char((n % 10) as int))
    }
}

/// What `format!("{:02}", n)` gives for an integer `n`: the decimal number with a
/// leading `-` when negative, zero-padded to at least two characters.
pub open spec fn pad2(n: int) -> Seq<char> {
    if n < 0 {
        seq!['-'] + digits((-n) as nat)
    } else if n < 10 {
        seq!['0'] + digits(n as nat)
    } else {
        digits(n as nat)
    }
}

/// Appends one character to `s`.
#[verifier::external_body]
pub(crate) fn push_char(s: &mut String, c: char)
    ensures
        final(s)@ == old(s)@.push(c),
{
    s.push(c);
}

fn digit(d: u64) -> (c: char)
    requires
        d < 10,
    ensures
        c == digit_char(d as int),
{
    match d {
        0 => '0',
        1 => '1',
        2 => '2',
        3 => '3',
        4 => '4',
        5 => '5',
        6 => '6',
        7 => '7',
        8 => '8',
        _ => '9',
    }
}

/// Appends the decimal digits of `n` to `s`.
pub fn push_digits(s: &mut String, n: u64)
    ensures
        final(s)@ == old(s)@ + digits(n as nat),
    decreases n,
{
    if n >= 10 {
        push_digits(s, n / 10);
    }
    push_char(s, digit(n % 10));
    proof {
        if n < 10 {
            assert(old(s)@ + digits(n as nat) =~= old(s)@.push(digit_char(n as int)));
        } else {
            assert((old(s)@ + digits((n / 10) as nat)).push(digit_char((n % 10) as int)) =~= old(s)@
                + digits(n as nat));
        }
    }
}

/// Appends `n` rendered as `format!("{:02}", n)` to `s`.
pub fn push_pad2(s: &mut String, n: i64)
    ensures
        final(s)@ == old(s)@ + pad2(n as int),
{
    if n < 0 {
        push_char(s, '-');
        let magnitude: u64 = (0i128 - (n as i128)) as u64;
        push_digits(s, magnitude);
        assert(old(s)@.push('-') + digits(magnitude as nat) =~= old(s)@ + pad2(n as int));
    } else {
        if n < 10 {
            push_char(s, '0');
            push_digits(s, n as u64);
            assert(old(s)@.push('0') + digits(n as nat) =~= old(s)@ + pad2(n as int));
        } else {
            push_digits(s, n as u64);
        }
    }
}

/// Whether `c` occurs in `s`.
pub fn has_char(s: &str, c: char) -> (b: bool)
    ensures
        b == s@.contains(c),
{
    let len = s.unicode_len();
    let mut i: usize = 0;
    while i < len
        invariant
            len == s@.len(),
            0 <= i <= len,
            forall|j: int| 0 <= j < i ==> s@[j] != c,
        decreases len - i,
    {
        if s.get_char(i) == c {
            assert(s@[i as int] == c);
            return true;
        }
        i = i + 1;
    }
    false
}

} // verus!

verus! {

/// `c` is one of the ASCII digits `0`..`9`.
pub open spec fn is_digit(c: char) -> bool {
    48 <= (c as u32) <= 57
}

/// The number that a string of decimal digits reads as.
pub open spec fn decimal_value(s: Seq<char>) -> int
    decreases s.len(),
{
    if s.len() == 0 {
        0
    } else {
        decimal_value(s.drop_last()) * 10 + ((s.last() as u32) - 48)
    }
}

/// The digits of `n` read back as `n`, and only the number zero starts with `0`.
pub proof fn lemma_digits_read_back(n: nat)
    ensures
        digits(n).len() >= 1,
        forall|i: int| 0 <= i < digits(n).len() ==> is_digit(#[trigger] digits(n)[i]),
        decimal_value(digits(n)) == n,
        digits(n)[0] == '0' <==> n == 0,
    decreases n,
{
    if n >= 10 {
        lemma_digits_read_back(n / 10);
        let s = digits(n);
        assert(s.drop_last() =~= digits(n / 10));
        assert(s[0] == digits(n / 10)[0]);
        assert(s.last() == digit_char((n % 10) as int));
        assert((digit_char((n % 10) as int) as u32) == 48 + n % 10);
        vstd::arithmetic::div_mod::lemma_fundamental_div_mod(n as int, 10);
        assert(decimal_value(s) == decimal_value(digits(n / 10)) * 10 + (n % 10));
    } else {
        let s = digits(n);
        assert(s.drop_last() =~= Seq::<char>::empty());
        assert(decimal_value(Seq::<char>::empty()) == 0);
        assert((digit_char(n as int) as u32) == 48 + n);
    }
}

/// `format!("{:02}", n)` writes `n` in decimal: a non-negative number as digits that
/// read back as `n`, at least two of them, with a leading `0` only to reach two; a
/// negative one as `-` followed by the digits of its magnitude, without leading zeros.
pub proof fn lemma_pad2_decimal(n: int)
    ensures
        n >= 0 ==> {
            &&& pad2(n).len() >= 2
            &&& forall|i: int| 0 <= i < pad2(n).len() ==> is_digit(#[trigger] pad2(n)[i])
            &&& decimal_value(pad2(n)) == n
            &&& (pad2(n).len() == 2 || pad2(n)[0] != '0')
        },
        n < 0 ==> {
            let rest = pad2(n).drop_first();
            &&& pad2(n)[0] == '-'
            &&& rest.len() >= 1
            &&& forall|i: int| 0 <= i < rest.len() ==> is_digit(#[trigger] rest[i])
            &&& decimal_value(rest) == -n
            &&& rest[0] != '0'
        },
{
    if n < 0 {
        lemma_digits_read_back((-n) as nat);
        assert(pad2(n).drop_first() =~= digits((-n) as nat));
    } else if n < 10 {
        lemma_digits_read_back(n as nat);
        let s = pad2(n);
        assert(s =~= seq!['0', digit_char(n)]);
        assert(s.drop_last() =~= seq!['0']);
        assert(s.drop_last().drop_last() =~= Seq::<char>::empty());
        assert(decimal_value(Seq::<char>::empty()) == 0);
        assert(('0' as u32) == 48);
        assert(decimal_value(s.drop_last()) == 0);
        assert((digit_char(n) as u32) == 48 + n);
    } else {
        lemma_digits_read_back(n as nat);
        vstd::arithmetic::div_mod::lemma_div_pos_is_pos(n, 10);
        lemma_digits_long(n as nat);
    }
}

/// A number of at least two digits has at least two characters.
proof fn lemma_digits_long(n: nat)
    requires
        n >= 10,
    ensures
        digits(n).len() >= 2,
{
    lemma_digits_read_back(n / 10);
}

} // verus!
