//! Decimal digit strings: the identifiers carried by markers.
//!
//! A marker identifier is written as one or more ASCII digits.  Two digit
//! strings denote the same identifier exactly when they agree after leading
//! zeros are removed, which coincides with equality of the denoted integers;
//! `canon_digits` computes that canonical form.  `digits_of` is the canonical
//! decimal spelling of a number, used when rendering.

use vstd::prelude::*;

verus! {

/// True of the ten ASCII digit characters.
pub open spec fn is_digit(c: char) -> bool {
    ||| c == '0'
    ||| c == '1'
    ||| c == '2'
    ||| c == '3'
    ||| c == '4'
    ||| c == '5'
    ||| c == '6'
    ||| c == '7'
    ||| c == '8'
    ||| c == '9'
}

/// Numeric value of one digit character.
pub open spec fn digit_val(c: char) -> nat {
    if c == '0' {
        0
    } else if c == '1' {
        1
    } else if c == '2' {
        2
    } else if c == '3' {
        3
    } else if c == '4' {
        4
    } else if c == '5' {
        5
    } else if c == '6' {
        6
    } else if c == '7' {
        7
    } else if c == '8' {
        8
    } else {
        9
    }
}

/// Digit character for a value below ten.
pub open spec fn digit_char(d: nat) -> char {
    if d == 0 {
        '0'
    } else if d == 1 {
        '1'
    } else if d == 2 {
        '2'
    } else if d == 3 {
        '3'
    } else if d == 4 {
        '4'
    } else if d == 5 {
        '5'
    } else if d == 6 {
        '6'
    } else if d == 7 {
        '7'
    } else if d == 8 {
        '8'
    } else {
        '9'
    }
}

/// Decimal digits of `n`, most significant first, without leading zeros.
pub open spec fn digits_of(n: nat) -> Seq<char>
    decreases n,
{
    if n < 10 {
        seq![digit_char(n)]
    } else {
        digits_of(n / 10).push(digit_char(n % 10))
    }
}

/// Value denoted by a digit string, most significant digit first.
pub open spec fn digits_val(s: Seq<char>) -> nat
    decreases s.len(),
{
    if s.len() == 0 {
        0
    } else {
        digits_val(s.drop_last()) * 10 + digit_val(s.last())
    }
}

/// Canonical form of a digit string: leading zeros removed, keeping at least
/// one character.
pub open spec fn canon_digits(s: Seq<char>) -> Seq<char>
    decreases s.len(),
{
    if s.len() <= 1 {
        s
    } else if s[0] == '0' {
        canon_digits(s.subrange(1, s.len() as int))
    } else {
        s
    }
}

pub proof fn lemma_digit_char_val(d: nat)
    requires
        d < 10,
    ensures
        is_digit(digit_char(d)),
        digit_val(digit_char(d)) == d,
{
}

/// The digits of a number are digits, there is at least one, and the first
/// one is nonzero unless the number is below ten.
pub proof fn lemma_digits_of_shape(n: nat)
    ensures
        digits_of(n).len() >= 1,
        forall|k: int| 0 <= k < digits_of(n).len() ==> is_digit(#[trigger] digits_of(n)[k]),
        digits_of(n).len() > 1 ==> digits_of(n)[0] != '0',
        n >= 10 ==> digits_of(n).len() > 1,
    decreases n,
{
    if n < 10 {
        lemma_digit_char_val(n);
    } else {
        lemma_digits_of_shape(n / 10);
        lemma_digit_char_val(n % 10);
        assert(n / 10 >= 1);
        assert(digits_of(n) == digits_of(n / 10).push(digit_char(n % 10)));
        assert(digits_of(n)[0] == digits_of(n / 10)[0]);
        if digits_of(n / 10).len() == 1 {
            assert(digits_of(n / 10)[0] == digit_char(n / 10)) by {
                if n / 10 >= 10 {
                    lemma_digits_of_shape(n / 10 / 10);
                }
            }
        }
    }
}

/// The canonical spelling of a number has no leading zero to strip.
pub proof fn lemma_canon_digits_of(n: nat)
    ensures
        canon_digits(digits_of(n)) == digits_of(n),
{
    lemma_digits_of_shape(n);
}

/// Reading back the decimal spelling of `n` yields `n`.
pub proof fn lemma_digits_val_of(n: nat)
    ensures
        digits_val(digits_of(n)) == n,
    decreases n,
{
    if n < 10 {
        lemma_digit_char_val(n);
        let w = seq![digit_char(n)];
        assert(digits_of(n) == w);
        assert(w.drop_last() =~= Seq::<char>::empty());
        assert(digits_val(w) == digits_val(w.drop_last()) * 10 + digit_val(w.last()));
    } else {
        lemma_digits_val_of(n / 10);
        lemma_digit_char_val(n % 10);
        let w = digits_of(n / 10).push(digit_char(n % 10));
        assert(digits_of(n) == w);
        assert(w.drop_last() =~= digits_of(n / 10));
        assert(w.last() == digit_char(n % 10));
        assert(digits_val(w) == digits_val(w.drop_last()) * 10 + digit_val(w.last()));
        assert(n == (n / 10) * 10 + n % 10) by (nonlinear_arith);
    }
}

/// Decimal spellings of distinct numbers are distinct.
pub proof fn lemma_digits_of_injective(a: nat, b: nat)
    requires
        digits_of(a) == digits_of(b),
    ensures
        a == b,
{
    lemma_digits_val_of(a);
    lemma_digits_val_of(b);
}

/// Exec mirror of `digit_char`.
fn digit_char_of(d: usize) -> (c: char)
    requires
        d < 10,
    ensures
        c == digit_char(d as nat),
{
    if d == 0 {
        '0'
    } else if d == 1 {
        '1'
    } else if d == 2 {
        '2'
    } else if d == 3 {
        '3'
    } else if d == 4 {
        '4'
    } else if d == 5 {
        '5'
    } else if d == 6 {
        '6'
    } else if d == 7 {
        '7'
    } else if d == 8 {
        '8'
    } else {
        '9'
    }
}

/// Append the decimal digits of `n` to `out`.
pub fn push_digits(out: &mut Vec<char>, n: usize)
    ensures
        final(out)@ == old(out)@ + digits_of(n as nat),
    decreases n,
{
    if n < 10 {
        out.push(digit_char_of(n));
        proof {
            assert(out@ =~= old(out)@ + digits_of(n as nat));
        }
    } else {
        push_digits(out, n / 10);
        out.push(digit_char_of(n % 10));
        proof {
            assert(digits_of(n as nat) == digits_of(n as nat / 10).push(
                digit_char(n as nat % 10),
            ));
            assert(out@ =~= old(out)@ + digits_of(n as nat));
        }
    }
}

} // verus!
