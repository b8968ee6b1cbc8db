//! Polynomials from text.

use super::model;
use super::Polynomial;
use crate::algebra::{Domain, Ring};
use crate::decimal::{digits_value, is_digit, number_of};
use crate::text::{characters, text_of, Literal};
use vstd::prelude::*;
use vstd::string::StringExecFns;

verus! {

/// Why a text is no polynomial.
#[derive(Debug)]
pub struct PolynomialParsingError(pub String);

/// `c` is white space.
pub open spec fn is_space(c: char) -> bool {
    ||| '\u{9}' <= c <= '\u{d}'
    ||| c == ' '
    ||| c == '\u{85}'
    ||| c == '\u{a0}'
    ||| c == '\u{1680}'
    ||| '\u{2000}' <= c <= '\u{200a}'
    ||| c == '\u{2028}'
    ||| c == '\u{2029}'
    ||| c == '\u{202f}'
    ||| c == '\u{205f}'
    ||| c == '\u{3000}'
}

/// `c` can stand in a coefficient: a digit, a sign, or one of `.`, `/`, `i`
/// and `j`.
pub open spec fn is_coefficient_char(c: char) -> bool {
    is_digit(c) || c == '.' || c == 'i' || c == 'j' || c == '+' || c == '-' || c == '/'
}

/// The text without its white space.
pub open spec fn without_spaces(text: Seq<char>) -> Seq<char> {
    text.filter(|c: char| !is_space(c))
}

/// 1 where `c` stands at the index `i` of `s`, else 0.
pub open spec fn one_at(s: Seq<char>, i: int, c: char) -> int {
    if 0 <= i < s.len() && s[i] == c {
        1
    } else {
        0
    }
}

/// The number of characters that can stand in a coefficient, from the index
/// `i` of `s` on, up to the first that cannot.
pub open spec fn coefficient_run(s: Seq<char>, i: int) -> int
    decreases s.len() - i,
{
    if 0 <= i < s.len() && is_coefficient_char(s[i]) {
        1 + coefficient_run(s, i + 1)
    } else {
        0
    }
}

/// The number of digits from the index `i` of `s` on, up to the first
/// character that is none.
pub open spec fn digit_run(s: Seq<char>, i: int) -> int
    decreases s.len() - i,
{
    if 0 <= i < s.len() && is_digit(s[i]) {
        1 + digit_run(s, i + 1)
    } else {
        0
    }
}

/// The length of an opening bracket at the index `i` of `s`, with the sign
/// before it if there is one: 0 where there is no bracket.
pub open spec fn opening_len(s: Seq<char>, i: int) -> int {
    if one_at(s, i, '(') == 1 {
        1
    } else if (one_at(s, i, '+') == 1 || one_at(s, i, '-') == 1) && one_at(s, i + 1, '(') == 1 {
        2
    } else {
        0
    }
}

/// Where the parts of a term stand in a text.
///
/// A term is made of these parts, each of which may be missing: an opening
/// bracket with or without a sign before it, a coefficient, a closing
/// bracket, an asterisk, the indeterminate `x`, and an exponent. The exponent
/// is a run of digits, with or without a caret and an opening brace before it
/// and a closing brace after it.
pub struct TermShape {
    /// The index at which the term begins.
    pub start: int,
    /// The index at which the coefficient begins, behind the opening bracket.
    pub coefficient_start: int,
    /// The index behind the coefficient.
    pub coefficient_end: int,
    /// The index behind the closing bracket.
    pub closing_end: int,
    /// The index behind the asterisk.
    pub asterisk_end: int,
    /// The index behind the indeterminate.
    pub indeterminate_end: int,
    /// The index at which the digits of the exponent begin.
    pub digits_start: int,
    /// The index behind the digits of the exponent.
    pub digits_end: int,
    /// The index behind the term.
    pub end: int,
}

/// The term that begins at the index `i` of `s`: each part as long as it can
/// be.
#[verifier::opaque]
pub open spec fn term_at(s: Seq<char>, i: int) -> TermShape {
    let coefficient_start = i + opening_len(s, i);
    let coefficient_end = coefficient_start + coefficient_run(s, coefficient_start);
    let closing_end = coefficient_end + one_at(s, coefficient_end, ')');
    let asterisk_end = closing_end + one_at(s, closing_end, '*');
    let indeterminate_end = asterisk_end + one_at(s, asterisk_end, 'x');
    let brace_start = indeterminate_end + one_at(s, indeterminate_end, '^');
    let digits_start = brace_start + one_at(s, brace_start, '{');
    let digits_end = digits_start + digit_run(s, digits_start);
    TermShape {
        start: i,
        coefficient_start,
        coefficient_end,
        closing_end,
        asterisk_end,
        indeterminate_end,
        digits_start,
        digits_end,
        end: if digits_end == digits_start {
            indeterminate_end
        } else {
            digits_end + one_at(s, digits_end, '}')
        },
    }
}

/// A run of characters ends within the text.
pub proof fn lemma_runs_within(s: Seq<char>, i: int)
    requires
        0 <= i <= s.len(),
    ensures
        0 <= coefficient_run(s, i) <= s.len() - i,
        0 <= digit_run(s, i) <= s.len() - i,
    decreases s.len() - i,
{
    if i < s.len() {
        lemma_runs_within(s, i + 1);
    }
}

/// The parts of a term stand one behind the other, within the text.
pub proof fn lemma_term_within(s: Seq<char>, i: int)
    requires
        0 <= i <= s.len(),
    ensures
        ({
            let term = term_at(s, i);
            i == term.start <= term.coefficient_start <= term.coefficient_end
                <= term.closing_end <= term.asterisk_end <= term.indeterminate_end
                <= term.digits_start <= term.digits_end <= s.len()
                && term.indeterminate_end <= term.end <= s.len()
        }),
{
    reveal(term_at);
    let term = term_at(s, i);
    lemma_runs_within(s, term.coefficient_start);
    lemma_runs_within(s, term.digits_start);
}

impl TermShape {
    /// The term has an opening bracket.
    pub open spec fn opened(self) -> bool {
        self.coefficient_start > self.start
    }

    /// The term has a closing bracket.
    pub open spec fn closed(self) -> bool {
        self.closing_end > self.coefficient_end
    }

    /// The term has the indeterminate.
    pub open spec fn has_indeterminate(self) -> bool {
        self.indeterminate_end > self.asterisk_end
    }

    /// The term has an exponent.
    pub open spec fn has_exponent(self) -> bool {
        self.digits_end > self.digits_start
    }

    /// The term has a minus sign before its opening bracket.
    pub open spec fn negated(self, s: Seq<char>) -> bool {
        self.coefficient_start == self.start + 2 && s[self.start] == '-'
    }

    /// The text of the coefficient.
    pub open spec fn coefficient(self, s: Seq<char>) -> Seq<char> {
        s.subrange(self.coefficient_start, self.coefficient_end)
    }

    /// The coefficient is missing or a sign alone.
    pub open spec fn bare(self, s: Seq<char>) -> bool {
        self.coefficient(s).len() == 0 || self.coefficient(s) == seq!['+'] || self.coefficient(s)
            == seq!['-']
    }

    /// The digits of the exponent.
    pub open spec fn digits(self, s: Seq<char>) -> Seq<char> {
        s.subrange(self.digits_start, self.digits_end)
    }

    /// The text of the term.
    pub open spec fn text(self, s: Seq<char>) -> Seq<char> {
        s.subrange(self.start, self.end)
    }
}

/// The message for a text in which no term begins at the index `i`.
pub open spec fn unread_message(s: Seq<char>, i: int) -> Seq<char> {
    "no term can be read from '"@ + s.subrange(i, s.len() as int) + "'"@
}

/// The message for a term with one bracket of the two.
pub open spec fn bracket_message(term: Seq<char>) -> Seq<char> {
    "the bracket was not closed in the term '"@ + term + "'"@
}

/// The message for a term without a coefficient and without the
/// indeterminate.
pub open spec fn empty_term_message(term: Seq<char>) -> Seq<char> {
    "the term '"@ + term + "' has neither a coefficient nor an indeterminate"@
}

/// The message for a coefficient that is no literal of the domain.
pub open spec fn coefficient_message(coefficient: Seq<char>) -> Seq<char> {
    "could not parse '"@ + coefficient + "' as a coefficient"@
}

/// The message for an exponent that a polynomial cannot store.
pub open spec fn exponent_message(digits: Seq<char>) -> Seq<char> {
    "the exponent '"@ + digits + "' is too large"@
}

/// The value of a coefficient: that of the literal, and one or minus one for
/// a sign alone or a missing coefficient. An error for a text that is no
/// literal of the domain.
pub open spec fn coefficient_value<T: Literal>(coefficient: Seq<char>) -> Result<
    T::Value,
    Seq<char>,
> {
    if coefficient.len() == 0 || coefficient == seq!['+'] {
        Ok(T::one_value())
    } else if coefficient == seq!['-'] {
        Ok(T::negation(T::one_value()))
    } else {
        match T::literal_value(coefficient) {
            Some(value) => Ok(value),
            None => Err(coefficient_message(coefficient)),
        }
    }
}

/// The coefficient and the exponent that a term stands for, or the message
/// that says why it stands for none.
///
/// A term with one bracket of the two is refused, and so is one with neither
/// a coefficient nor the indeterminate. A minus sign before the bracket
/// negates the coefficient. Without an exponent, the exponent is 1 where the
/// term has the indeterminate and 0 where it has not.
#[verifier::opaque]
pub open spec fn term_value<T: Literal>(s: Seq<char>, term: TermShape) -> Result<
    (T::Value, nat),
    Seq<char>,
> {
    if term.opened() != term.closed() {
        Err(bracket_message(term.text(s)))
    } else if term.bare(s) && !term.has_indeterminate() {
        Err(empty_term_message(term.text(s)))
    } else {
        match coefficient_value::<T>(term.coefficient(s)) {
            Err(message) => Err(message),
            Ok(value) => {
                let signed = if term.negated(s) {
                    T::negation(value)
                } else {
                    value
                };
                if !term.has_exponent() {
                    Ok(
                        (
                            signed,
                            if term.has_indeterminate() {
                                1nat
                            } else {
                                0nat
                            },
                        ),
                    )
                } else if digits_value(term.digits(s)) <= u32::MAX {
                    Ok((signed, digits_value(term.digits(s))))
                } else {
                    Err(exponent_message(term.digits(s)))
                }
            },
        }
    }
}

/// The polynomial that the terms of `s` from the index `i` on add up to, on
/// top of `sum`, or the message for the first term that cannot be read.
pub open spec fn parsed_from<T: Literal>(s: Seq<char>, i: int, sum: Map<nat, T::Value>) -> Result<
    Map<nat, T::Value>,
    Seq<char>,
>
    decreases s.len() - i,
{
    if i < 0 || i >= s.len() {
        Ok(sum)
    } else {
        let term = term_at(s, i);
        if term.end <= i {
            Err(unread_message(s, i))
        } else {
            proof {
                lemma_term_within(s, i);
            }
            match term_value::<T>(s, term) {
                Err(message) => Err(message),
                Ok((value, power)) => parsed_from::<T>(
                    s,
                    term.end,
                    model::with_coefficient::<T>(
                        sum,
                        power,
                        T::sum(model::coefficient::<T>(sum, power), value),
                    ),
                ),
            }
        }
    }
}

/// The polynomial that a text stands for: the sum of its terms, read one
/// after the other from the text without its white space. The empty text
/// stands for the zero polynomial.
pub open spec fn parsed<T: Literal>(text: Seq<char>) -> Result<Map<nat, T::Value>, Seq<char>> {
    parsed_from::<T>(without_spaces(text), 0, Map::empty())
}

/// Whether `c` is white space.
pub fn is_whitespace(c: char) -> (b: bool)
    ensures
        b == is_space(c),
{
    ('\u{9}' <= c && c <= '\u{d}') || c == ' ' || c == '\u{85}' || c == '\u{a0}' || c
        == '\u{1680}' || ('\u{2000}' <= c && c <= '\u{200a}') || c == '\u{2028}' || c
        == '\u{2029}' || c == '\u{202f}' || c == '\u{205f}' || c == '\u{3000}'
}

/// The characters of `text` that are no white space.
fn strip(text: &Vec<char>) -> (r: Vec<char>)
    ensures
        r@ == without_spaces(text@),
{
    let mut r: Vec<char> = Vec::new();
    let mut i: usize = 0;
    while i < text.len()
        invariant
            i <= text.len(),
            r@ == without_spaces(text@.subrange(0, i as int)),
        decreases text.len() - i,
    {
        let c = text[i];
        proof {
            let next = text@.subrange(0, i + 1);
            assert(next.drop_last() =~= text@.subrange(0, i as int));
            assert(next.last() == c);
            reveal_with_fuel(Seq::filter, 2);
        }
        if !is_whitespace(c) {
            r.push(c);
        }
        i += 1;
    }
    assert(text@.subrange(0, text.len() as int) =~= text@);
    r
}

/// Whether `c` can stand in a coefficient.
fn is_coefficient(c: char) -> (b: bool)
    ensures
        b == is_coefficient_char(c),
{
    ('0' <= c && c <= '9') || c == '.' || c == 'i' || c == 'j' || c == '+' || c == '-' || c == '/'
}

/// The index behind the characters that can stand in a coefficient, from
/// `from` on.
fn coefficient_end(s: &Vec<char>, from: usize) -> (end: usize)
    requires
        from <= s.len(),
    ensures
        from <= end <= s.len(),
        end == from + coefficient_run(s@, from as int),
{
    let mut end = from;
    while end < s.len() && is_coefficient(s[end])
        invariant
            from <= end <= s.len(),
            coefficient_run(s@, from as int) == end - from + coefficient_run(s@, end as int),
        decreases s.len() - end,
    {
        end += 1;
    }
    end
}

/// The index behind the digits from `from` on.
fn digits_end(s: &Vec<char>, from: usize) -> (end: usize)
    requires
        from <= s.len(),
    ensures
        from <= end <= s.len(),
        end == from + digit_run(s@, from as int),
        crate::decimal::all_digits(s@.subrange(from as int, end as int)),
{
    let mut end = from;
    while end < s.len() && '0' <= s[end] && s[end] <= '9'
        invariant
            from <= end <= s.len(),
            digit_run(s@, from as int) == end - from + digit_run(s@, end as int),
            crate::decimal::all_digits(s@.subrange(from as int, end as int)),
        decreases s.len() - end,
    {
        end += 1;
    }
    end
}

/// The index behind the character `c`, where it stands at the index `i`;
/// else `i`.
fn skip_one(s: &Vec<char>, i: usize, c: char) -> (end: usize)
    requires
        i <= s.len(),
    ensures
        i <= end <= s.len(),
        end == i + one_at(s@, i as int, c),
{
    if i < s.len() && s[i] == c {
        i + 1
    } else {
        i
    }
}

/// Where the parts of a term stand in a text.
struct Term {
    start: usize,
    coefficient_start: usize,
    coefficient_end: usize,
    closing_end: usize,
    asterisk_end: usize,
    indeterminate_end: usize,
    digits_start: usize,
    digits_end: usize,
    end: usize,
}

impl Term {
    spec fn shape(self) -> TermShape {
        TermShape {
            start: self.start as int,
            coefficient_start: self.coefficient_start as int,
            coefficient_end: self.coefficient_end as int,
            closing_end: self.closing_end as int,
            asterisk_end: self.asterisk_end as int,
            indeterminate_end: self.indeterminate_end as int,
            digits_start: self.digits_start as int,
            digits_end: self.digits_end as int,
            end: self.end as int,
        }
    }
}

/// The term that begins at the index `i` of `s`.
fn scan_term(s: &Vec<char>, i: usize) -> (term: Term)
    requires
        i <= s.len(),
    ensures
        term.shape() == term_at(s@, i as int),
        i == term.start <= term.coefficient_start <= term.coefficient_end <= term.closing_end
            <= term.asterisk_end <= term.indeterminate_end <= term.digits_start
            <= term.digits_end <= s.len(),
        term.indeterminate_end <= term.end <= s.len(),
        crate::decimal::all_digits(s@.subrange(term.digits_start as int, term.digits_end as int)),
{
    reveal(term_at);
    let coefficient_start = if skip_one(s, i, '(') > i {
        i + 1
    } else if (skip_one(s, i, '+') > i || skip_one(s, i, '-') > i) && skip_one(s, i + 1, '(') > i
        + 1 {
        i + 2
    } else {
        i
    };
    let coefficient_end = coefficient_end(s, coefficient_start);
    let closing_end = skip_one(s, coefficient_end, ')');
    let asterisk_end = skip_one(s, closing_end, '*');
    let indeterminate_end = skip_one(s, asterisk_end, 'x');
    let brace_start = skip_one(s, indeterminate_end, '^');
    let digits_start = skip_one(s, brace_start, '{');
    let digits_end = digits_end(s, digits_start);
    let end = if digits_end == digits_start {
        indeterminate_end
    } else {
        skip_one(s, digits_end, '}')
    };
    Term {
        start: i,
        coefficient_start,
        coefficient_end,
        closing_end,
        asterisk_end,
        indeterminate_end,
        digits_start,
        digits_end,
        end,
    }
}

/// The error with the message `before`, `quoted`, `after`.
fn error_about(before: &str, quoted: &Vec<char>, from: usize, to: usize, after: &str) -> (r:
    PolynomialParsingError)
    requires
        from <= to <= quoted.len(),
    ensures
        r.0@ == before@ + quoted@.subrange(from as int, to as int) + after@,
{
    let text = text_of(quoted, from, to);
    PolynomialParsingError(before.to_owned().concat(text.as_str()).concat(after))
}

/// The coefficient that a literal denotes, or the error that says that it
/// denotes none.
pub fn parse_coefficient<T: Literal>(coefficient_str: &str) -> (r: Result<
    T,
    PolynomialParsingError,
>)
    ensures
        match r {
            Ok(c) => c.well_formed() && T::literal_value(coefficient_str@) == Some(c.value()),
            Err(e) => T::literal_value(coefficient_str@) is None && e.0@ == coefficient_message(
                coefficient_str@,
            ),
        },
{
    match T::from_literal(coefficient_str) {
        Some(c) => Ok(c),
        None => Err(
            PolynomialParsingError(
                "could not parse '".to_owned().concat(coefficient_str).concat(
                    "' as a coefficient",
                ),
            ),
        ),
    }
}

/// The coefficient of a term: that of the literal, and one or minus one for
/// a sign alone or a missing coefficient.
fn coefficient_of<T: Ring + Literal>(s: &Vec<char>, from: usize, to: usize) -> (r: Result<
    T,
    PolynomialParsingError,
>)
    requires
        from <= to <= s.len(),
    ensures
        match r {
            Ok(c) => c.well_formed() && coefficient_value::<T>(
                s@.subrange(from as int, to as int),
            ) == Ok::<T::Value, Seq<char>>(c.value()),
            Err(e) => coefficient_value::<T>(s@.subrange(from as int, to as int)) == Err::<
                T::Value,
                Seq<char>,
            >(e.0@),
        },
{
    let ghost text = s@.subrange(from as int, to as int);
    if to == from {
        return Ok(T::one());
    }
    if to == from + 1 && s[from] == '+' {
        assert(text =~= seq!['+']);
        return Ok(T::one());
    }
    if to == from + 1 && s[from] == '-' {
        assert(text =~= seq!['-']);
        assert(seq!['-'][0] != seq!['+'][0]);
        return Ok(T::one().negated());
    }
    proof {
        if text == seq!['+'] || text == seq!['-'] {
            assert(text.len() == 1);
            assert(text[0] == s@[from as int]);
        }
    }
    let literal = text_of(s, from, to);
    parse_coefficient(literal.as_str())
}

impl<T: Ring + Literal> Polynomial<T> {
    /// Constructs a new instance from a given polynomial string representation.
    ///
    /// The string is a sequence of terms, each of the form
    /// `<coefficient>x<power>`, with its sign before it. White space
    /// is skipped wherever it stands. The `x` may be left out in a term of
    /// degree zero, and the power in a term of degree one. A coefficient may
    /// stand in brackets.
    ///
    /// Additionally:
    /// - An asterisk `*` sign might be inserted after the coefficient.
    /// - A caret `^` character may be inserted before the power, and the
    ///   power may stand in braces.
    ///
    /// Terms of the same degree may occur multiple times in the string.
    /// Only the character `x` may be used as an indeterminate.
    pub fn from_str(string: &str) -> (r: Result<Polynomial<T>, PolynomialParsingError>)
        ensures
            match r {
                Ok(poly) => poly.well_formed() && parsed::<T>(string@) == Ok::<
                    Map<nat, T::Value>,
                    Seq<char>,
                >(poly@),
                Err(e) => parsed::<T>(string@) == Err::<Map<nat, T::Value>, Seq<char>>(e.0@),
            },
    {
        let all = characters(string);
        let s = strip(&all);
        let mut poly = Polynomial::zero();
        let mut i: usize = 0;
        while i < s.len()
            invariant
                i <= s.len(),
                s@ == without_spaces(string@),
                poly.well_formed(),
                parsed::<T>(string@) == parsed_from::<T>(s@, i as int, poly@),
            decreases s.len() - i,
        {
            reveal(term_value);
            let term = scan_term(&s, i);
            if term.end == i {
                return Err(error_about("no term can be read from '", &s, i, s.len(), "'"));
            }
            if (term.coefficient_start > term.start) != (term.closing_end > term.coefficient_end) {
                return Err(
                    error_about(
                        "the bracket was not closed in the term '",
                        &s,
                        term.start,
                        term.end,
                        "'",
                    ),
                );
            }
            let indeterminate = term.indeterminate_end > term.asterisk_end;
            let bare = term.coefficient_end == term.coefficient_start || (term.coefficient_end
                == term.coefficient_start + 1 && (s[term.coefficient_start] == '+'
                || s[term.coefficient_start] == '-'));
            proof {
                let text = term.shape().coefficient(s@);
                if text == seq!['+'] || text == seq!['-'] {
                    assert(text.len() == 1);
                    assert(text[0] == s@[term.coefficient_start as int]);
                }
                if bare && text.len() > 0 {
                    assert(text =~= seq![s@[term.coefficient_start as int]]);
                }
            }
            if bare && !indeterminate {
                return Err(
                    error_about(
                        "the term '",
                        &s,
                        term.start,
                        term.end,
                        "' has neither a coefficient nor an indeterminate",
                    ),
                );
            }
            let coefficient = match coefficient_of::<T>(
                &s,
                term.coefficient_start,
                term.coefficient_end,
            ) {
                Ok(coefficient) => coefficient,
                Err(e) => {
                    return Err(e);
                },
            };
            let bracket_positive = !(term.coefficient_start - term.start == 2 && s[term.start]
                == '-');
            let coefficient = if bracket_positive {
                coefficient
            } else {
                coefficient.negated()
            };
            let exponent: u32 = if term.digits_end > term.digits_start {
                match number_of(&s, term.digits_start, term.digits_end) {
                    Some(exponent) => exponent,
                    None => {
                        return Err(
                            error_about(
                                "the exponent '",
                                &s,
                                term.digits_start,
                                term.digits_end,
                                "' is too large",
                            ),
                        );
                    },
                }
            } else if !indeterminate {
                0
            } else {
                1
            };
            poly.add_coefficient_at(exponent, coefficient);
            i = term.end;
        }
        Ok(poly)
    }
}

} // verus!
