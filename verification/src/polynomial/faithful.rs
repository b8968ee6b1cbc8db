//! The domains whose coefficients are read back from their text.

use super::display::{
    fraction_text, multiplication_sign, sign_text, CoefficientFormat, PolynomialFormat,
};
use super::parsing::{
    coefficient_run, coefficient_value, is_coefficient_char, is_space, opening_len, parsed,
    term_at, without_spaces,
};
use super::round_trip::{faithful, follows, law_text_round_trip, lemma_unspaced, reads_back};
use super::Polynomial;
use crate::algebra::Domain;
use crate::decimal::{all_digits, digits_text, integer_literal, is_digit, lemma_digits_text};
use crate::integer::Integer;
use crate::rational::{
    lemma_ratio_over_one, lemma_ratio_sign, ratio, rational_literal, slash_index, Rational,
};
use vstd::prelude::*;

verus! {

/// The sign of a term without its white space.
pub open spec fn sign_written(negative: bool, is_leading_term: bool) -> Seq<char> {
    if negative {
        seq!['-']
    } else if is_leading_term {
        Seq::empty()
    } else {
        seq!['+']
    }
}

/// The sign of a term without its white space is the sign alone.
pub proof fn lemma_sign_written(negative: bool, is_leading_term: bool)
    ensures
        without_spaces(sign_text(negative, is_leading_term)) == sign_written(
            negative,
            is_leading_term,
        ),
{
    reveal_strlit("- ");
    reveal_strlit(" - ");
    reveal_strlit(" + ");
    reveal_with_fuel(Seq::filter, 4);
    let text = sign_text(negative, is_leading_term);
    if is_leading_term && negative {
        assert(text =~= seq!['-', ' ']);
        assert(text.drop_last() =~= seq!['-']);
        assert(text.drop_last().drop_last() =~= Seq::<char>::empty());
        assert(without_spaces(text) =~= seq!['-']);
    } else if !is_leading_term {
        let sign = if negative {
            '-'
        } else {
            '+'
        };
        assert(text =~= seq![' ', sign, ' ']);
        assert(text.drop_last() =~= seq![' ', sign]);
        assert(text.drop_last().drop_last() =~= seq![' ']);
        assert(text.drop_last().drop_last().drop_last() =~= Seq::<char>::empty());
        assert(without_spaces(text) =~= seq![sign]);
    } else {
        assert(without_spaces(text) =~= Seq::<char>::empty());
    }
}

/// A run of characters that can stand in a coefficient, which ends before a
/// character that cannot, or with the text, is as long as it is.
pub proof fn lemma_coefficient_run_exact(s: Seq<char>, i: int, n: int)
    requires
        0 <= i,
        0 <= n,
        i + n <= s.len(),
        forall|j: int| i <= j < i + n ==> is_coefficient_char(#[trigger] s[j]),
        i + n == s.len() || !is_coefficient_char(s[i + n]),
    ensures
        coefficient_run(s, i) == n,
    decreases n,
{
    if n > 0 {
        lemma_coefficient_run_exact(s, i + 1, n - 1);
    }
}

/// The part of a term before its indeterminate, where the term has no
/// brackets: a coefficient of `m` characters, and an asterisk behind it or
/// none.
pub proof fn lemma_head_without_brackets(s: Seq<char>, m: int, starred: bool)
    requires
        0 <= m <= s.len(),
        forall|j: int| 0 <= j < m ==> is_coefficient_char(#[trigger] s[j]),
        s.len() > 0 ==> s[0] != '(',
        s.len() > 1 && (s[0] == '+' || s[0] == '-') ==> s[1] != '(',
        if starred {
            m < s.len() && s[m] == '*'
        } else {
            m == s.len() || s[m] == 'x'
        },
    ensures
        ({
            let term = term_at(s, 0);
            &&& term.asterisk_end == if starred {
                m + 1
            } else {
                m
            }
            &&& !term.opened()
            &&& !term.closed()
            &&& !term.negated(s)
            &&& term.coefficient(s) == s.subrange(0, m)
        }),
{
    reveal(term_at);
    assert(opening_len(s, 0) == 0);
    lemma_coefficient_run_exact(s, 0, m);
}

/// Digits are left as they are when underscores are taken out.
pub proof fn lemma_digits_without_underscores(digits: Seq<char>)
    requires
        all_digits(digits),
    ensures
        digits.filter(|c: char| c != '_') == digits,
    decreases digits.len(),
{
    reveal_with_fuel(Seq::filter, 1);
    if digits.len() > 0 {
        lemma_digits_without_underscores(digits.drop_last());
        assert(digits.drop_last().push(digits.last()) =~= digits);
    }
}

/// The decimal notation of a number, with or without a sign before it, is
/// the literal of the number.
pub proof fn lemma_integer_literal(n: nat, sign: Seq<char>)
    requires
        sign.len() == 0 || sign == seq!['+'] || sign == seq!['-'],
    ensures
        integer_literal(sign + digits_text(n)) == Some(
            if sign == seq!['-'] {
                -(n as int)
            } else {
                n as int
            },
        ),
{
    let digits = digits_text(n);
    let text = sign + digits;
    lemma_digits_text(n);
    lemma_digits_without_underscores(digits);
    if sign.len() == 0 {
        assert(text =~= digits);
        assert(is_digit(text[0]));
    } else {
        assert(text[0] == sign[0]);
        assert(text.drop_first() =~= digits);
    }
}

/// The text of an integer coefficient without its white space: the sign,
/// then the digits of the magnitude as far as it is written.
pub open spec fn integer_written(c: Integer, is_leading_term: bool, is_last_term: bool) -> Seq<
    char,
> {
    let magnitude = if c.value() < 0 {
        -c.value()
    } else {
        c.value()
    };
    sign_written(c.value() < 0, is_leading_term) + if magnitude != 1 || is_last_term {
        digits_text(magnitude as nat)
    } else {
        Seq::empty()
    }
}

/// What the text of an integer coefficient is without its white space.
pub proof fn lemma_integer_written(c: Integer, is_leading_term: bool, is_last_term: bool)
    requires
        c.well_formed(),
    ensures
        without_spaces(c.formatted(is_leading_term, is_last_term, PolynomialFormat::Standard))
            == integer_written(c, is_leading_term, is_last_term),
{
    let magnitude = if c.value() < 0 {
        -c.value()
    } else {
        c.value()
    };
    let digits = if magnitude != 1 || is_last_term {
        digits_text(magnitude as nat)
    } else {
        Seq::empty()
    };
    lemma_sign_written(c.value() < 0, is_leading_term);
    lemma_digits_text(magnitude as nat);
    lemma_unspaced(digits);
    Seq::filter_distributes_over_add(
        sign_text(c.value() < 0, is_leading_term),
        digits,
        |c: char| !is_space(c),
    );
    assert(c.formatted(is_leading_term, is_last_term, PolynomialFormat::Standard) =~= sign_text(
        c.value() < 0,
        is_leading_term,
    ) + digits);
}

/// The characters of the text of an integer coefficient can stand in a
/// coefficient, and none of them is a bracket.
proof fn lemma_integer_written_chars(c: Integer, is_leading_term: bool, is_last_term: bool)
    requires
        c.well_formed(),
    ensures
        forall|j: int|
            0 <= j < integer_written(c, is_leading_term, is_last_term).len()
                ==> is_coefficient_char(
                #[trigger] integer_written(c, is_leading_term, is_last_term)[j],
            ),
{
    let written = integer_written(c, is_leading_term, is_last_term);
    let magnitude = (if c.value() < 0 {
        -c.value()
    } else {
        c.value()
    }) as nat;
    let sign = sign_written(c.value() < 0, is_leading_term);
    lemma_digits_text(magnitude);
    assert forall|j: int| 0 <= j < written.len() implies is_coefficient_char(
        #[trigger] written[j],
    ) by {
        if j >= sign.len() {
            assert(written[j] == digits_text(magnitude)[j - sign.len()]);
        } else {
            assert(written[j] == sign[j]);
        }
    }
}

/// The value that the text of an integer coefficient other than zero is
/// read as.
proof fn lemma_integer_written_value(c: Integer, is_leading_term: bool, is_last_term: bool)
    requires
        c.well_formed(),
        c.value() != 0,
    ensures
        coefficient_value::<Integer>(integer_written(c, is_leading_term, is_last_term)) == Ok::<
            int,
            Seq<char>,
        >(c.value()),
        is_last_term ==> integer_written(c, is_leading_term, is_last_term).len() > 0
            && integer_written(c, is_leading_term, is_last_term) != seq!['+'] && integer_written(
            c,
            is_leading_term,
            is_last_term,
        ) != seq!['-'],
        !is_leading_term ==> integer_written(c, is_leading_term, is_last_term).len() > 0 && (
        integer_written(c, is_leading_term, is_last_term)[0] == '+' || integer_written(
            c,
            is_leading_term,
            is_last_term,
        )[0] == '-'),
{
    let written = integer_written(c, is_leading_term, is_last_term);
    let magnitude = (if c.value() < 0 {
        -c.value()
    } else {
        c.value()
    }) as nat;
    let sign = sign_written(c.value() < 0, is_leading_term);
    lemma_digits_text(magnitude);
    if magnitude != 1 || is_last_term {
        lemma_integer_literal(magnitude, sign);
        assert(written.len() >= 1);
        if written.len() == 1 {
            assert(written[0] == digits_text(magnitude)[0]);
        } else {
            assert(written != seq!['+'] && written != seq!['-']);
        }
        if sign.len() > 0 {
            assert(written[0] == sign[0]);
        }
    } else {
        assert(written =~= sign);
    }
}

/// An integer coefficient other than zero is read back from its text.
pub proof fn lemma_integer_reads_back(
    c: Integer,
    is_leading_term: bool,
    is_last_term: bool,
    rest: Seq<char>,
)
    requires
        c.well_formed(),
        c.value() != 0,
        follows(rest, is_last_term),
    ensures
        reads_back(c, is_leading_term, is_last_term, rest),
{
    let written = integer_written(c, is_leading_term, is_last_term);
    let s = written + rest;
    let w = written.len() as int;
    lemma_integer_written(c, is_leading_term, is_last_term);
    lemma_integer_written_chars(c, is_leading_term, is_last_term);
    lemma_integer_written_value(c, is_leading_term, is_last_term);
    assert forall|j: int| 0 <= j < w implies is_coefficient_char(#[trigger] s[j]) by {
        assert(s[j] == written[j]);
    }
    if rest.len() > 0 {
        assert(s[w] == rest[0]);
    }
    if w > 0 {
        assert(s[0] == written[0]);
    }
    if w > 1 {
        assert(s[1] == written[1]);
    }
    lemma_head_without_brackets(s, w, false);
    assert(s.subrange(0, w) =~= written);
}

/// The integers have a faithful literal rendering.
pub proof fn lemma_integers_faithful()
    ensures
        faithful::<Integer>(),
{
    lemma_integer_literal(0, Seq::empty());
    assert(Seq::<char>::empty() + digits_text(0) =~= seq!['0']);
    assert forall|c: Integer, is_leading_term: bool, is_last_term: bool, rest: Seq<char>|
        #![trigger reads_back(c, is_leading_term, is_last_term, rest)]
        c.well_formed() && c.value() != 0 && follows(rest, is_last_term) implies reads_back(
        c,
        is_leading_term,
        is_last_term,
        rest,
    ) by {
        lemma_integer_reads_back(c, is_leading_term, is_last_term, rest);
    }
}

/// A polynomial with integer coefficients is read back from its text in the
/// standard format.
pub proof fn law_integer_text_round_trip(p: Polynomial<Integer>)
    requires
        p.well_formed(),
    ensures
        parsed::<Integer>(p.rendered(PolynomialFormat::Standard)) == Ok::<
            Map<nat, int>,
            Seq<char>,
        >(p@),
{
    lemma_integers_faithful();
    law_text_round_trip(p);
}

/// The first `/` of a text stands behind the part of it that has none.
pub proof fn lemma_slash_index(before: Seq<char>, after: Seq<char>)
    requires
        forall|i: int| 0 <= i < before.len() ==> #[trigger] before[i] != '/',
    ensures
        slash_index(before + seq!['/'] + after) == before.len(),
        slash_index(before) == before.len(),
    decreases before.len(),
{
    let text = before + seq!['/'] + after;
    if before.len() == 0 {
        assert(text[0] == '/');
    } else {
        assert(text[0] == before[0]);
        lemma_slash_index(before.drop_first(), after);
        assert(text.drop_first() =~= before.drop_first() + seq!['/'] + after);
    }
}

/// A fraction, with or without a sign before it, is the literal of the
/// ratio.
pub proof fn lemma_rational_literal(n: nat, d: nat, sign: Seq<char>)
    requires
        sign.len() == 0 || sign == seq!['+'] || sign == seq!['-'],
        d > 0,
    ensures
        rational_literal(sign + digits_text(n) + seq!['/'] + digits_text(d)) == Some(
            ratio(
                if sign == seq!['-'] {
                    -(n as int)
                } else {
                    n as int
                },
                d as int,
            ),
        ),
{
    let numerator = sign + digits_text(n);
    let text = numerator + seq!['/'] + digits_text(d);
    lemma_digits_text(n);
    lemma_digits_text(d);
    assert forall|i: int| 0 <= i < numerator.len() implies #[trigger] numerator[i] != '/' by {
        if i >= sign.len() {
            assert(numerator[i] == digits_text(n)[i - sign.len()]);
        } else {
            assert(numerator[i] == sign[i]);
        }
    }
    lemma_slash_index(numerator, digits_text(d));
    lemma_integer_literal(n, sign);
    lemma_integer_literal(d, Seq::empty());
    assert(text.subrange(0, numerator.len() as int) =~= numerator);
    assert(text.subrange(numerator.len() as int + 1, text.len() as int) =~= Seq::<char>::empty()
        + digits_text(d));
}

/// The text of a rational coefficient without its white space: the sign,
/// the fraction as far as it is written, and the asterisk in every term but
/// the constant one.
pub open spec fn rational_written(c: Rational, is_leading_term: bool, is_last_term: bool) -> Seq<
    char,
> {
    let magnitude = if c.numerator() < 0 {
        -c.numerator()
    } else {
        c.numerator()
    };
    sign_written(c.numerator() < 0, is_leading_term) + (if c.numerator() != c.denominator()
        || is_last_term {
        digits_text(magnitude as nat) + seq!['/'] + digits_text(c.denominator() as nat)
    } else {
        Seq::empty()
    }) + (if !is_last_term {
        seq!['*']
    } else {
        Seq::empty()
    })
}

/// What the text of a rational coefficient is without its white space.
pub proof fn lemma_rational_written(c: Rational, is_leading_term: bool, is_last_term: bool)
    requires
        c.well_formed(),
    ensures
        without_spaces(c.formatted(is_leading_term, is_last_term, PolynomialFormat::Standard))
            == rational_written(c, is_leading_term, is_last_term),
{
    reveal_strlit("/");
    reveal_strlit("*");
    let format = PolynomialFormat::Standard;
    let magnitude = (if c.numerator() < 0 {
        -c.numerator()
    } else {
        c.numerator()
    }) as nat;
    let sign = sign_text(c.numerator() < 0, is_leading_term);
    let fraction = if c.numerator() != c.denominator() || is_last_term {
        fraction_text(c.numerator(), c.denominator(), format)
    } else {
        Seq::empty()
    };
    let marker = if !is_last_term {
        multiplication_sign(format)
    } else {
        Seq::empty()
    };
    lemma_sign_written(c.numerator() < 0, is_leading_term);
    lemma_digits_text(magnitude);
    lemma_digits_text(c.denominator() as nat);
    assert("/"@ =~= seq!['/']);
    assert("*"@ =~= seq!['*']);
    assert(fraction_text(c.numerator(), c.denominator(), format) =~= digits_text(magnitude)
        + seq!['/'] + digits_text(c.denominator() as nat));
    assert forall|i: int| 0 <= i < fraction.len() implies !is_space(#[trigger] fraction[i]) by {
        let above = digits_text(magnitude);
        if i < above.len() {
            assert(fraction[i] == above[i]);
        } else if i > above.len() {
            assert(fraction[i] == digits_text(c.denominator() as nat)[i - above.len() - 1]);
        }
    }
    lemma_unspaced(fraction);
    lemma_unspaced(marker);
    Seq::filter_distributes_over_add(sign, fraction, |c: char| !is_space(c));
    Seq::filter_distributes_over_add(sign + fraction, marker, |c: char| !is_space(c));
}

/// The literal in the text of a rational coefficient: the sign, and the
/// fraction as far as it is written.
pub open spec fn rational_literal_written(
    c: Rational,
    is_leading_term: bool,
    is_last_term: bool,
) -> Seq<char> {
    let magnitude = if c.numerator() < 0 {
        -c.numerator()
    } else {
        c.numerator()
    };
    sign_written(c.numerator() < 0, is_leading_term) + (if c.numerator() != c.denominator()
        || is_last_term {
        digits_text(magnitude as nat) + seq!['/'] + digits_text(c.denominator() as nat)
    } else {
        Seq::empty()
    })
}

/// The characters of the literal of a rational coefficient can stand in a
/// coefficient.
proof fn lemma_rational_written_chars(c: Rational, is_leading_term: bool, is_last_term: bool)
    requires
        c.well_formed(),
    ensures
        forall|j: int|
            0 <= j < rational_literal_written(c, is_leading_term, is_last_term).len()
                ==> is_coefficient_char(
                #[trigger] rational_literal_written(c, is_leading_term, is_last_term)[j],
            ),
{
    let literal = rational_literal_written(c, is_leading_term, is_last_term);
    let magnitude = (if c.numerator() < 0 {
        -c.numerator()
    } else {
        c.numerator()
    }) as nat;
    let below = c.denominator() as nat;
    let sign = sign_written(c.numerator() < 0, is_leading_term);
    lemma_digits_text(magnitude);
    lemma_digits_text(below);
    assert forall|j: int| 0 <= j < literal.len() implies is_coefficient_char(
        #[trigger] literal[j],
    ) by {
        if j < sign.len() {
            assert(literal[j] == sign[j]);
        } else {
            let i = j - sign.len();
            let above = digits_text(magnitude);
            let fraction = above + seq!['/'] + digits_text(below);
            assert(literal[j] == fraction[i]);
            if i < above.len() {
                assert(fraction[i] == above[i]);
            } else if i > above.len() {
                assert(fraction[i] == digits_text(below)[i - above.len() - 1]);
            }
        }
    }
}

/// The value that the literal of a rational coefficient other than zero is
/// read as.
proof fn lemma_rational_written_value(c: Rational, is_leading_term: bool, is_last_term: bool)
    requires
        c.well_formed(),
        c.value() != 0real,
    ensures
        coefficient_value::<Rational>(
            rational_literal_written(c, is_leading_term, is_last_term),
        ) == Ok::<real, Seq<char>>(c.value()),
        is_last_term ==> rational_literal_written(c, is_leading_term, is_last_term).len() > 1,
        !is_leading_term ==> rational_literal_written(c, is_leading_term, is_last_term).len() > 0
            && (rational_literal_written(c, is_leading_term, is_last_term)[0] == '+'
            || rational_literal_written(c, is_leading_term, is_last_term)[0] == '-'),
{
    let literal = rational_literal_written(c, is_leading_term, is_last_term);
    let magnitude = (if c.numerator() < 0 {
        -c.numerator()
    } else {
        c.numerator()
    }) as nat;
    let below = c.denominator() as nat;
    let sign = sign_written(c.numerator() < 0, is_leading_term);
    lemma_ratio_sign(c.numerator(), c.denominator());
    lemma_digits_text(magnitude);
    lemma_digits_text(below);
    if c.numerator() != c.denominator() || is_last_term {
        lemma_rational_literal(magnitude, below, sign);
        assert(literal =~= sign + digits_text(magnitude) + seq!['/'] + digits_text(below));
        assert(literal.len() >= 3);
        assert(literal != seq!['+'] && literal != seq!['-']);
    } else {
        assert(literal =~= sign);
    }
    if sign.len() > 0 {
        assert(literal[0] == sign[0]);
    }
}

/// A rational coefficient other than zero is read back from its text.
pub proof fn lemma_rational_reads_back(
    c: Rational,
    is_leading_term: bool,
    is_last_term: bool,
    rest: Seq<char>,
)
    requires
        c.well_formed(),
        c.value() != 0real,
        follows(rest, is_last_term),
    ensures
        reads_back(c, is_leading_term, is_last_term, rest),
{
    let written = rational_written(c, is_leading_term, is_last_term);
    let literal = rational_literal_written(c, is_leading_term, is_last_term);
    let s = written + rest;
    let m = literal.len() as int;
    lemma_rational_written(c, is_leading_term, is_last_term);
    lemma_rational_written_chars(c, is_leading_term, is_last_term);
    lemma_rational_written_value(c, is_leading_term, is_last_term);
    assert(written =~= literal + if !is_last_term {
        seq!['*']
    } else {
        Seq::empty()
    });
    assert forall|j: int| 0 <= j < m implies is_coefficient_char(#[trigger] s[j]) by {
        assert(s[j] == literal[j]);
    }
    if !is_last_term {
        assert(s[m] == '*');
        assert(s[m + 1] == rest[0]);
    }
    if m > 0 {
        assert(s[0] == literal[0]);
    }
    if m > 1 {
        assert(s[1] == literal[1]);
    }
    lemma_head_without_brackets(s, m, !is_last_term);
    assert(s.subrange(0, m) =~= literal);
}

/// The rational numbers have a faithful literal rendering.
pub proof fn lemma_rationals_faithful()
    ensures
        faithful::<Rational>(),
{
    lemma_integer_literal(0, Seq::empty());
    assert(Seq::<char>::empty() + digits_text(0) =~= seq!['0']);
    assert(slash_index(seq!['0']) == 1) by {
        assert(seq!['0'].drop_first() =~= Seq::<char>::empty());
        reveal_with_fuel(slash_index, 2);
    }
    lemma_ratio_over_one(0);
    assert forall|c: Rational, is_leading_term: bool, is_last_term: bool, rest: Seq<char>|
        #![trigger reads_back(c, is_leading_term, is_last_term, rest)]
        c.well_formed() && c.value() != 0real && follows(rest, is_last_term) implies reads_back(
        c,
        is_leading_term,
        is_last_term,
        rest,
    ) by {
        lemma_rational_reads_back(c, is_leading_term, is_last_term, rest);
    }
}

/// A polynomial with rational coefficients is read back from its text in
/// the standard format.
pub proof fn law_rational_text_round_trip(p: Polynomial<Rational>)
    requires
        p.well_formed(),
    ensures
        parsed::<Rational>(p.rendered(PolynomialFormat::Standard)) == Ok::<
            Map<nat, real>,
            Seq<char>,
        >(p@),
{
    lemma_rationals_faithful();
    law_text_round_trip(p);
}

} // verus!
