//! Natural numbers in decimal notation.

use vstd::prelude::*;

verus! {

/// `c` is one of the ten decimal digits.
pub open spec fn is_digit(c: char) -> bool {
    '0' <= c <= '9'
}

/// The number a decimal digit stands for.
pub open spec fn digit_value(c: char) -> nat
    recommends
        is_digit(c),
{
    (c as u32 - '0' as u32) as nat
}

/// The decimal digit of a number below ten.
pub open spec fn digit_char(d: nat) -> char
    recommends
        d < 10,
{
    (d + '0' as u32) as u32 as char
}

/// Every character of `s` is a decimal digit.
pub open spec fn all_digits(s: Seq<char>) -> bool {
    forall|i: int| 0 <= i < s.len() ==> is_digit(#[trigger] s[i])
}

/// The decimal notation of `n`, without leading zeros.
pub open spec fn digits_text(n: nat) -> Seq<char>
    decreases n,
{
    if n < 10 {
        seq![digit_char(n)]
    } else {
        digits_text(n / 10).push(digit_char(n % 10))
    }
}

/// The number that a sequence of decimal digits denotes.
pub open spec fn digits_value(s: Seq<char>) -> nat
    decreases s.len(),
{
    if s.len() == 0 {
        0
    } else {
        digits_value(s.drop_last()) * 10 + digit_value(s.last())
    }
}

/// The decimal notation of an integer: that of its magnitude, after a minus
/// sign where it is negative.
pub open spec fn integer_text(n: int) -> Seq<char> {
    if n < 0 {
        seq!['-'] + digits_text((-n) as nat)
    } else {
        digits_text(n as nat)
    }
}

/// The integer that decimal digits denote, with or without a minus sign
/// before them.
pub open spec fn integer_value(s: Seq<char>) -> int {
    if s.len() > 0 && s[0] == '-' {
        -(digits_value(s.drop_first()) as int)
    } else {
        digits_value(s) as int
    }
}

/// The integer that a literal denotes: one sign or none, then a digit, then
/// digits and underscores, of which the underscores do not count. `None`
/// for any other text.
pub open spec fn integer_literal(s: Seq<char>) -> Option<int> {
    let signed = s.len() > 0 && (s[0] == '-' || s[0] == '+');
    let body = if signed {
        s.drop_first()
    } else {
        s
    };
    if body.len() > 0 && is_digit(body[0]) && (forall|i: int|
        0 <= i < body.len() ==> is_digit(#[trigger] body[i]) || body[i] == '_') {
        let magnitude = digits_value(body.filter(|c: char| c != '_')) as int;
        Some(
            if s[0] == '-' {
                -magnitude
            } else {
                magnitude
            },
        )
    } else {
        None
    }
}

/// The notation of an integer denotes the integer, and begins with a minus
/// sign just when the integer is negative.
pub proof fn lemma_integer_text(n: int)
    ensures
        integer_text(n).len() > 0,
        (integer_text(n)[0] == '-') == (n < 0),
        integer_value(integer_text(n)) == n,
{
    if n < 0 {
        lemma_digits_text((-n) as nat);
        assert(integer_text(n).drop_first() =~= digits_text((-n) as nat));
    } else {
        lemma_digits_text(n as nat);
    }
}

/// The notation of a number is made of digits, and denotes the number.
pub proof fn lemma_digits_text(n: nat)
    ensures
        digits_text(n).len() > 0,
        all_digits(digits_text(n)),
        digits_value(digits_text(n)) == n,
    decreases n,
{
    if n < 10 {
        assert(digits_text(n).drop_last() =~= Seq::<char>::empty());
        assert(digits_value(digits_text(n).drop_last()) == 0);
    } else {
        lemma_digits_text(n / 10);
        assert(digits_text(n).drop_last() =~= digits_text(n / 10));
    }
}

/// The decimal notation of `n`.
pub fn digits_of(n: u32) -> (r: Vec<char>)
    ensures
        r@ == digits_text(n as nat),
{
    let mut reversed: Vec<char> = Vec::new();
    let mut rest = n;
    while rest >= 10
        invariant
            digits_text(n as nat) == digits_text(rest as nat) + reversed@.reverse(),
        decreases rest,
    {
        let digit = (rest % 10) as u8;
        let ghost before = reversed@;
        reversed.push((digit + 48u8) as char);
        proof {
            assert(reversed@.reverse() =~= seq![digit_char((rest % 10) as nat)] + before.reverse());
            assert(digits_text(rest as nat) + before.reverse() =~= digits_text((rest / 10) as nat)
                + reversed@.reverse());
        }
        rest = rest / 10;
    }
    let mut r: Vec<char> = Vec::new();
    r.push((rest as u8 + 48u8) as char);
    let mut i: usize = reversed.len();
    while i > 0
        invariant
            i <= reversed.len(),
            r@ == digits_text(rest as nat) + reversed@.reverse().subrange(
                0,
                reversed.len() - i,
            ),
        decreases i,
    {
        i -= 1;
        r.push(reversed[i]);
        proof {
            let all = reversed@.reverse();
            assert(all.subrange(0, reversed.len() - i) =~= all.subrange(
                0,
                reversed.len() - i - 1,
            ).push(reversed@[i as int]));
        }
    }
    proof {
        assert(reversed@.reverse().subrange(0, reversed.len() as int) =~= reversed@.reverse());
    }
    r
}

/// The number that the digits `digits[from..to]` denote, where a `u32` can
/// hold it.
pub fn number_of(digits: &Vec<char>, from: usize, to: usize) -> (r: Option<u32>)
    requires
        from <= to <= digits.len(),
        all_digits(digits@.subrange(from as int, to as int)),
    ensures
        r == if digits_value(digits@.subrange(from as int, to as int)) <= u32::MAX {
            Some(digits_value(digits@.subrange(from as int, to as int)) as u32)
        } else {
            None
        },
{
    let mut value: u32 = 0;
    let mut i = from;
    let ghost all = digits@.subrange(from as int, to as int);
    while i < to
        invariant
            from <= i <= to <= digits.len(),
            all == digits@.subrange(from as int, to as int),
            all_digits(all),
            value == digits_value(all.subrange(0, i - from)),
        decreases to - i,
    {
        let c = digits[i];
        assert(all[i - from] == c);
        let d = c as u32 - '0' as u32;
        proof {
            assert(all.subrange(0, i + 1 - from).drop_last() =~= all.subrange(0, i - from));
            lemma_digits_value_grows(all, i + 1 - from);
        }
        if value > (u32::MAX - d) / 10 {
            return None;
        }
        value = value * 10 + d;
        i += 1;
    }
    proof {
        assert(all.subrange(0, to - from) =~= all);
    }
    Some(value)
}

/// A prefix of a sequence of digits denotes no more than the sequence.
pub proof fn lemma_digits_value_grows(s: Seq<char>, n: int)
    requires
        0 <= n <= s.len(),
    ensures
        digits_value(s.subrange(0, n)) <= digits_value(s),
    decreases s.len() - n,
{
    if n < s.len() {
        lemma_digits_value_grows(s, n + 1);
        assert(s.subrange(0, n + 1).drop_last() =~= s.subrange(0, n));
    } else {
        assert(s.subrange(0, n) =~= s);
    }
}

} // verus!
