//! A polynomial is read back from its text in the standard format.

use super::display::{indeterminate_text, CoefficientFormat, PolynomialFormat};
use super::model;
use super::parsing::{
    coefficient_run, coefficient_value, digit_run, is_space, lemma_term_within, one_at,
    opening_len, parsed, parsed_from, term_at, term_value, without_spaces, TermShape,
};
use super::Polynomial;
use crate::algebra;
use crate::algebra::{Domain, Ring};
use crate::decimal::{all_digits, digits_text, digits_value, is_digit, lemma_digits_text};
use crate::text::Literal;
use vstd::prelude::*;

verus! {

/// What may follow the coefficient of a term: nothing in the constant term,
/// and the indeterminate in every other.
pub open spec fn follows(rest: Seq<char>, is_last_term: bool) -> bool {
    if is_last_term {
        rest.len() == 0
    } else {
        rest.len() > 0 && rest[0] == 'x'
    }
}

/// The coefficient `c` is read back from its text in the standard format,
/// where `rest` follows the text: the term that begins with the text has the
/// text as all that stands before its indeterminate, has both brackets or
/// none, and has the value of `c` as the value of its coefficient. The text of
/// a coefficient that does not lead begins with a sign, and that of a
/// constant term is more than a sign.
pub open spec fn reads_back<T: Literal + CoefficientFormat>(
    c: T,
    is_leading_term: bool,
    is_last_term: bool,
    rest: Seq<char>,
) -> bool {
    let written = without_spaces(
        c.formatted(is_leading_term, is_last_term, PolynomialFormat::Standard),
    );
    let s = written + rest;
    let term = term_at(s, 0);
    &&& term.asterisk_end == written.len()
    &&& term.opened() == term.closed()
    &&& is_last_term ==> !term.bare(s)
    &&& !is_leading_term ==> written.len() > 0 && (written[0] == '+' || written[0] == '-')
    &&& match coefficient_value::<T>(term.coefficient(s)) {
        Ok(value) => c.value() == if term.negated(s) {
            T::negation(value)
        } else {
            value
        },
        Err(_) => false,
    }
}

/// The domain has a faithful literal rendering: `0` is the literal of zero,
/// and every coefficient other than zero is read back from its text in the
/// standard format, whatever its place in the polynomial.
pub open spec fn faithful<T: Literal + CoefficientFormat>() -> bool {
    &&& T::literal_value(seq!['0']) == Some(T::zero_value())
    &&& forall|c: T, is_leading_term: bool, is_last_term: bool, rest: Seq<char>|
        #![trigger reads_back(c, is_leading_term, is_last_term, rest)]
        c.well_formed() && c.value() != T::zero_value() && follows(rest, is_last_term)
            ==> reads_back(c, is_leading_term, is_last_term, rest)
}

/// A run of characters depends on the text from its first character on
/// alone.
pub proof fn lemma_runs_shift(a: Seq<char>, b: Seq<char>, j: int)
    requires
        0 <= j <= b.len(),
    ensures
        coefficient_run(a + b, a.len() + j) == coefficient_run(b, j),
        digit_run(a + b, a.len() + j) == digit_run(b, j),
    decreases b.len() - j,
{
    if j < b.len() {
        lemma_runs_shift(a, b, j + 1);
        assert((a + b)[a.len() + j] == b[j]);
    }
}

/// `term` moved up by `n` characters.
pub open spec fn shifted(term: TermShape, n: int) -> TermShape {
    TermShape {
        start: term.start + n,
        coefficient_start: term.coefficient_start + n,
        coefficient_end: term.coefficient_end + n,
        closing_end: term.closing_end + n,
        asterisk_end: term.asterisk_end + n,
        indeterminate_end: term.indeterminate_end + n,
        digits_start: term.digits_start + n,
        digits_end: term.digits_end + n,
        end: term.end + n,
    }
}

/// A term depends on the text from its first character on alone: behind a
/// text `a`, it has the shape and the value that it has without `a`.
pub proof fn lemma_term_shift<T: Literal>(a: Seq<char>, b: Seq<char>)
    ensures
        term_at(a + b, a.len() as int) == shifted(term_at(b, 0), a.len() as int),
        term_value::<T>(a + b, term_at(a + b, a.len() as int)) == term_value::<T>(
            b,
            term_at(b, 0),
        ),
{
    reveal(term_at);
    reveal(term_value);
    let s = a + b;
    let n = a.len() as int;
    let term = term_at(b, 0);
    lemma_term_within(b, 0);
    assert forall|j: int, c: char| 0 <= j <= b.len() implies one_at(s, n + j, c) == one_at(
        b,
        j,
        c,
    ) by {
        if j < b.len() {
            assert(s[n + j] == b[j]);
        }
    }
    assert(opening_len(s, n) == opening_len(b, 0)) by {
        assert(one_at(s, n + 0, '(') == one_at(b, 0, '('));
        assert(one_at(s, n + 0, '+') == one_at(b, 0, '+'));
        assert(one_at(s, n + 0, '-') == one_at(b, 0, '-'));
        if b.len() >= 1 {
            assert(one_at(s, n + 1, '(') == one_at(b, 1, '('));
        }
    }
    lemma_runs_shift(a, b, term.coefficient_start);
    assert(one_at(s, n + term.coefficient_end, ')') == one_at(b, term.coefficient_end, ')'));
    assert(one_at(s, n + term.closing_end, '*') == one_at(b, term.closing_end, '*'));
    assert(one_at(s, n + term.asterisk_end, 'x') == one_at(b, term.asterisk_end, 'x'));
    assert(one_at(s, n + term.indeterminate_end, '^') == one_at(b, term.indeterminate_end, '^'));
    let brace_start = term.indeterminate_end + one_at(b, term.indeterminate_end, '^');
    assert(one_at(s, n + brace_start, '{') == one_at(b, brace_start, '{'));
    lemma_runs_shift(a, b, term.digits_start);
    assert(one_at(s, n + term.digits_end, '}') == one_at(b, term.digits_end, '}'));
    let moved = term_at(s, n);
    assert(moved == shifted(term, n));
    assert(moved.coefficient(s) =~= term.coefficient(b));
    assert(moved.digits(s) =~= term.digits(b));
    assert(moved.text(s) =~= term.text(b));
    if moved.negated(s) || term.negated(b) {
        assert(s[n] == b[0]);
    }
}

/// A run of digits that ends before a character that is no digit, or with
/// the text, is as long as it is.
pub proof fn lemma_digit_run_exact(s: Seq<char>, i: int, n: int)
    requires
        0 <= i,
        0 <= n,
        i + n <= s.len(),
        forall|j: int| i <= j < i + n ==> is_digit(#[trigger] s[j]),
        i + n == s.len() || !is_digit(s[i + n]),
    ensures
        digit_run(s, i) == n,
    decreases n,
{
    if n > 0 {
        lemma_digit_run_exact(s, i + 1, n - 1);
    }
}

/// The text of the indeterminate and its power has no white space.
pub proof fn lemma_indeterminate_text(power: nat)
    ensures
        without_spaces(indeterminate_text(power, PolynomialFormat::Standard))
            == indeterminate_text(power, PolynomialFormat::Standard),
        power == 0 ==> indeterminate_text(power, PolynomialFormat::Standard).len() == 0,
        power == 1 ==> indeterminate_text(power, PolynomialFormat::Standard) == seq!['x'],
        power >= 2 ==> indeterminate_text(power, PolynomialFormat::Standard) == seq!['x', '^']
            + digits_text(power),
{
    reveal_strlit("x");
    reveal_strlit("x^");
    let text = indeterminate_text(power, PolynomialFormat::Standard);
    if power == 1 {
        assert(text =~= seq!['x']);
    }
    if power >= 2 {
        assert("x^"@ =~= seq!['x', '^']);
        lemma_digits_text(power);
    }
    lemma_unspaced(text);
}

/// A text without white space is left as it is when its white space is
/// taken out.
pub proof fn lemma_unspaced(text: Seq<char>)
    requires
        forall|i: int| 0 <= i < text.len() ==> !is_space(#[trigger] text[i]),
    ensures
        without_spaces(text) == text,
    decreases text.len(),
{
    reveal_with_fuel(Seq::filter, 1);
    if text.len() > 0 {
        lemma_unspaced(text.drop_last());
        assert(text.drop_last().push(text.last()) =~= text);
    }
}

/// A term whose text ends behind its coefficient has no indeterminate and no
/// exponent.
pub proof fn lemma_tail_constant(s: Seq<char>, w: int)
    requires
        term_at(s, 0).asterisk_end == w,
        w == s.len(),
    ensures
        !term_at(s, 0).has_indeterminate(),
        !term_at(s, 0).has_exponent(),
        term_at(s, 0).end == w,
{
    reveal(term_at);
    assert(digit_run(s, w) == 0);
}

/// A term with the indeterminate behind its coefficient, and then a sign or
/// nothing more, has no exponent, and ends behind the indeterminate.
pub proof fn lemma_tail_linear(s: Seq<char>, w: int)
    requires
        term_at(s, 0).asterisk_end == w,
        0 <= w < s.len(),
        s[w] == 'x',
        w + 1 == s.len() || s[w + 1] == '+' || s[w + 1] == '-',
    ensures
        term_at(s, 0).has_indeterminate(),
        !term_at(s, 0).has_exponent(),
        term_at(s, 0).end == w + 1,
{
    reveal(term_at);
    assert(one_at(s, w, 'x') == 1);
    assert(one_at(s, w + 1, '^') == 0);
    assert(one_at(s, w + 1, '{') == 0);
    assert(digit_run(s, w + 1) == 0);
}

/// A term with the indeterminate, a caret and digits behind its coefficient,
/// and then a sign or nothing more, has the digits as its exponent, and ends
/// behind them.
pub proof fn lemma_tail_power(s: Seq<char>, w: int, digits: Seq<char>)
    requires
        term_at(s, 0).asterisk_end == w,
        0 <= w,
        digits.len() > 0,
        all_digits(digits),
        w + 2 + digits.len() <= s.len(),
        s[w] == 'x',
        s[w + 1] == '^',
        s.subrange(w + 2, w + 2 + digits.len()) == digits,
        w + 2 + digits.len() == s.len() || s[w + 2 + digits.len()] == '+' || s[w + 2
            + digits.len()] == '-',
    ensures
        term_at(s, 0).has_indeterminate(),
        term_at(s, 0).has_exponent(),
        term_at(s, 0).digits(s) == digits,
        term_at(s, 0).end == w + 2 + digits.len(),
{
    reveal(term_at);
    let d = digits.len() as int;
    assert(one_at(s, w, 'x') == 1);
    assert(one_at(s, w + 1, '^') == 1);
    assert(s[w + 2] == digits[0]);
    assert(one_at(s, w + 2, '{') == 0);
    assert forall|j: int| w + 2 <= j < w + 2 + d implies is_digit(#[trigger] s[j]) by {
        assert(s[j] == s.subrange(w + 2, w + 2 + d)[j - w - 2]);
    }
    lemma_digit_run_exact(s, w + 2, d);
    assert(one_at(s, w + 2 + d, '}') == 0);
}

/// The value of a term from what its parts are.
pub proof fn lemma_term_value<T: Literal>(s: Seq<char>, value: T::Value, power: nat)
    requires
        term_at(s, 0).opened() == term_at(s, 0).closed(),
        !term_at(s, 0).bare(s) || power > 0,
        match coefficient_value::<T>(term_at(s, 0).coefficient(s)) {
            Ok(read) => value == if term_at(s, 0).negated(s) {
                T::negation(read)
            } else {
                read
            },
            Err(_) => false,
        },
        power <= u32::MAX,
        tail_reads_as(s, power),
    ensures
        term_value::<T>(s, term_at(s, 0)) == Ok::<(T::Value, nat), Seq<char>>((value, power)),
{
    reveal(term_value);
}

/// The text of a term and what follows it: the text of its coefficient
/// without its white space, the indeterminate with its power, and the rest.
pub open spec fn term_and_rest(written: Seq<char>, power: nat, rest: Seq<char>) -> Seq<char> {
    written + (indeterminate_text(power, PolynomialFormat::Standard) + rest)
}

/// What the indeterminate and the exponent of a term are read as, where
/// they stand for `power`.
pub open spec fn tail_reads_as(s: Seq<char>, power: nat) -> bool {
    let term = term_at(s, 0);
    &&& term.has_indeterminate() == (power > 0)
    &&& if term.has_exponent() {
        digits_value(term.digits(s)) == power
    } else if term.has_indeterminate() {
        power == 1
    } else {
        power == 0
    }
}

/// The indeterminate, a caret and digits are read back from their text,
/// where the coefficient is.
proof fn lemma_tail_read_digits(written: Seq<char>, digits: Seq<char>, rest: Seq<char>)
    requires
        digits.len() > 0,
        all_digits(digits),
        rest.len() == 0 || rest[0] == '+' || rest[0] == '-',
        term_at(written + ((seq!['x', '^'] + digits) + rest), 0).asterisk_end == written.len(),
    ensures
        ({
            let s = written + ((seq!['x', '^'] + digits) + rest);
            let term = term_at(s, 0);
            &&& term.end == written.len() + 2 + digits.len()
            &&& term.has_indeterminate()
            &&& term.has_exponent()
            &&& term.digits(s) == digits
        }),
{
    let s = written + ((seq!['x', '^'] + digits) + rest);
    let w = written.len() as int;
    assert(s[w] == 'x');
    assert(s[w + 1] == '^');
    assert(s.subrange(w + 2, w + 2 + digits.len()) =~= digits);
    if rest.len() > 0 {
        assert(s[w + 2 + digits.len()] == rest[0]);
    }
    lemma_tail_power(s, w, digits);
}

/// The indeterminate with a power of two or more is read back from its
/// text, where the coefficient is.
proof fn lemma_tail_read_power(written: Seq<char>, power: nat, rest: Seq<char>)
    requires
        power >= 2,
        rest.len() == 0 || rest[0] == '+' || rest[0] == '-',
        term_at(term_and_rest(written, power, rest), 0).asterisk_end == written.len(),
    ensures
        term_at(term_and_rest(written, power, rest), 0).end == written.len() + indeterminate_text(
            power,
            PolynomialFormat::Standard,
        ).len(),
        tail_reads_as(term_and_rest(written, power, rest), power),
{
    lemma_indeterminate_text(power);
    lemma_digits_text(power);
    lemma_tail_read_digits(written, digits_text(power), rest);
}

/// The bare indeterminate is read back from its text, where the coefficient
/// is.
proof fn lemma_tail_read_linear(written: Seq<char>, rest: Seq<char>)
    requires
        rest.len() == 0 || rest[0] == '+' || rest[0] == '-',
        term_at(term_and_rest(written, 1, rest), 0).asterisk_end == written.len(),
    ensures
        term_at(term_and_rest(written, 1, rest), 0).end == written.len() + 1,
        tail_reads_as(term_and_rest(written, 1, rest), 1),
{
    let s = term_and_rest(written, 1, rest);
    let w = written.len() as int;
    lemma_indeterminate_text(1);
    assert(s =~= written + (seq!['x'] + rest));
    assert(s[w] == 'x');
    if rest.len() > 0 {
        assert(s[w + 1] == rest[0]);
    }
    lemma_tail_linear(s, w);
}

/// A constant term has no indeterminate and no exponent.
proof fn lemma_tail_read_constant(written: Seq<char>)
    requires
        term_at(term_and_rest(written, 0, Seq::empty()), 0).asterisk_end == written.len(),
    ensures
        term_at(term_and_rest(written, 0, Seq::empty()), 0).end == written.len(),
        tail_reads_as(term_and_rest(written, 0, Seq::empty()), 0),
{
    let s = term_and_rest(written, 0, Seq::empty());
    lemma_indeterminate_text(0);
    assert(s =~= written);
    lemma_tail_constant(s, written.len() as int);
}

/// A term is read back from its text: where the text of a coefficient other
/// than zero and of the indeterminate with its power stands before a text
/// that is empty or begins with a sign, the term that begins there ends
/// where its text ends, and stands for the coefficient and the power.
pub proof fn lemma_term_read<T: Literal + CoefficientFormat>(
    c: T,
    power: nat,
    is_leading_term: bool,
    rest: Seq<char>,
)
    requires
        faithful::<T>(),
        c.well_formed(),
        c.value() != T::zero_value(),
        power < model::exponent_bound(),
        power == 0 ==> rest.len() == 0,
        rest.len() == 0 || rest[0] == '+' || rest[0] == '-',
    ensures
        ({
            let written = without_spaces(
                c.formatted(is_leading_term, power == 0, PolynomialFormat::Standard),
            );
            let s = term_and_rest(written, power, rest);
            let term = term_at(s, 0);
            &&& term.end == written.len() + indeterminate_text(
                power,
                PolynomialFormat::Standard,
            ).len()
            &&& term.end > 0
            &&& term_value::<T>(s, term) == Ok::<(T::Value, nat), Seq<char>>((c.value(), power))
        }),
{
    let written = without_spaces(
        c.formatted(is_leading_term, power == 0, PolynomialFormat::Standard),
    );
    let named = indeterminate_text(power, PolynomialFormat::Standard);
    let s = term_and_rest(written, power, rest);
    lemma_indeterminate_text(power);
    assert(follows(named + rest, power == 0));
    assert(reads_back(c, is_leading_term, power == 0, named + rest));
    if power == 0 {
        assert(rest =~= Seq::<char>::empty());
        lemma_tail_read_constant(written);
    } else if power == 1 {
        lemma_tail_read_linear(written, rest);
    } else {
        lemma_tail_read_power(written, power, rest);
    }
    lemma_term_value::<T>(s, c.value(), power);
    lemma_term_within(s, 0);
}

impl<T: Ring + Literal + CoefficientFormat> Polynomial<T> {
    /// The text of the term of the exponent `power` without its white
    /// space; empty where no such term is stored.
    pub open spec fn term_written(&self, power: nat) -> Seq<char> {
        if self@.contains_key(power) {
            without_spaces(self.term_text(power as u32, PolynomialFormat::Standard))
        } else {
            Seq::empty()
        }
    }

    /// The texts of the terms with an exponent of `lo` or above without
    /// their white space, the highest exponent first.
    pub open spec fn written_from(&self, lo: nat) -> Seq<char> {
        without_spaces(self.terms_text(lo, PolynomialFormat::Standard))
    }

    /// The texts of the terms with an exponent below `n` without their
    /// white space, the highest exponent first.
    pub open spec fn written_below(&self, n: nat) -> Seq<char>
        decreases n,
    {
        if n == 0 {
            Seq::empty()
        } else {
            self.term_written((n - 1) as nat) + self.written_below((n - 1) as nat)
        }
    }

    /// The terms of the polynomial with an exponent of `lo` or above.
    pub open spec fn from_exponent(&self, lo: nat) -> Map<nat, T::Value> {
        Map::new(|k: nat| self@.contains_key(k) && k >= lo, |k: nat| self@[k])
    }

    /// The terms from `lo` on are those above `lo`, and then the term of
    /// `lo`.
    proof fn lemma_written_from(&self, lo: nat)
        requires
            self.well_formed(),
            lo < model::exponent_bound(),
        ensures
            self.written_from(lo) == self.written_from(lo + 1) + self.term_written(lo),
    {
        let format = PolynomialFormat::Standard;
        let term = if self.terms().contains_key(lo as u32) {
            self.term_text(lo as u32, format)
        } else {
            Seq::empty()
        };
        Seq::filter_distributes_over_add(
            self.terms_text(lo + 1, format),
            term,
            |c: char| !is_space(c),
        );
        if !self.terms().contains_key(lo as u32) {
            assert(without_spaces(Seq::<char>::empty()) =~= Seq::<char>::empty());
        }
    }

    /// The whole text is made of the terms from `lo` on and the terms below
    /// `lo`.
    proof fn lemma_written_splits(&self, lo: nat)
        requires
            self.well_formed(),
            lo <= model::exponent_bound(),
        ensures
            self.written_from(0) == self.written_from(lo) + self.written_below(lo),
        decreases lo,
    {
        if lo == 0 {
            assert(self.written_from(0) =~= self.written_from(0) + Seq::<char>::empty());
        } else {
            let n = (lo - 1) as nat;
            self.lemma_written_splits(n);
            self.lemma_written_from(n);
            assert(self.written_from(lo) + (self.term_written(n) + self.written_below(n))
                =~= (self.written_from(lo) + self.term_written(n)) + self.written_below(n));
        }
    }

    /// The text of a stored term without its white space: that of its
    /// coefficient, and the indeterminate with its power.
    proof fn lemma_term_written(&self, power: nat)
        requires
            self.well_formed(),
            self@.contains_key(power),
        ensures
            self.term_written(power) == without_spaces(
                self.terms()[power as u32].formatted(
                    model::degree_below::<T>(self@, power + 1),
                    power == 0,
                    PolynomialFormat::Standard,
                ),
            ) + indeterminate_text(power, PolynomialFormat::Standard),
    {
        lemma_indeterminate_text(power);
        Seq::filter_distributes_over_add(
            self.terms()[power as u32].formatted(
                model::degree_below::<T>(self@, power + 1),
                power == 0,
                PolynomialFormat::Standard,
            ),
            indeterminate_text(power, PolynomialFormat::Standard),
            |c: char| !is_space(c),
        );
    }

    /// Below a stored term, the text is empty or begins with a sign.
    proof fn lemma_written_below_begins(&self, n: nat)
        requires
            self.well_formed(),
            faithful::<T>(),
            n <= model::exponent_bound(),
            !model::degree_below::<T>(self@, n),
        ensures
            self.written_below(n).len() == 0 || self.written_below(n)[0] == '+'
                || self.written_below(n)[0] == '-',
        decreases n,
    {
        if n > 0 {
            let k = (n - 1) as nat;
            if self@.contains_key(k) {
                let c = self.terms()[k as u32];
                let rest = if k == 0 {
                    Seq::<char>::empty()
                } else {
                    seq!['x']
                };
                assert(self.terms().contains_key(k as u32));
                assert(follows(rest, k == 0));
                assert(reads_back(c, false, k == 0, rest));
                self.lemma_term_written(k);
                assert(!model::degree_below::<T>(self@, k + 1));
            } else {
                assert(!model::degree_below::<T>(self@, k)) by {
                    let j = choose|j: nat| self@.contains_key(j) && !(j < n);
                    assert(self@.contains_key(j) && !(j < k));
                }
                self.lemma_written_below_begins(k);
                assert(self.written_below(n) =~= self.written_below(k));
            }
        }
    }

    /// Reading the term of the exponent `k`, which is stored, after the terms
    /// above it: what is read from there on is what is read behind the term,
    /// with the term added.
    proof fn lemma_read_term(&self, k: nat)
        requires
            self.well_formed(),
            faithful::<T>(),
            k < model::exponent_bound(),
            self@.contains_key(k),
        ensures
            parsed_from::<T>(
                self.written_from(0),
                self.written_from(k + 1).len() as int,
                self.from_exponent(k + 1),
            ) == parsed_from::<T>(
                self.written_from(0),
                self.written_from(k).len() as int,
                self.from_exponent(k),
            ),
    {
        let all = self.written_from(0);
        let c = self.terms()[k as u32];
        let is_leading_term = model::degree_below::<T>(self@, k + 1);
        let above = self.written_from(k + 1);
        let below = self.written_below(k);
        let term_text = self.term_written(k);
        let sum = self.from_exponent(k + 1);
        self.lemma_view_sparse();
        self.lemma_written_splits(k + 1);
        self.lemma_written_from(k);
        assert(self.terms().contains_key(k as u32));
        self.lemma_term_written(k);
        if k > 0 {
            assert(!model::degree_below::<T>(self@, k));
            self.lemma_written_below_begins(k);
        }
        lemma_term_read::<T>(c, k, is_leading_term, below);
        assert(term_text + below =~= term_and_rest(
            without_spaces(c.formatted(is_leading_term, k == 0, PolynomialFormat::Standard)),
            k,
            below,
        ));
        lemma_term_shift::<T>(above, term_text + below);
        assert(all =~= above + (term_text + below));
        let term = term_at(all, above.len() as int);
        assert(term.end == above.len() + term_text.len());
        assert(term_value::<T>(all, term) == Ok::<(T::Value, nat), Seq<char>>((c.value(), k)));
        algebra::lemma_zero_sum::<T>(c.value());
        assert(model::with_coefficient::<T>(
            sum,
            k,
            T::sum(model::coefficient::<T>(sum, k), c.value()),
        ) =~= self.from_exponent(k));
        assert(self.written_from(k).len() == above.len() + term_text.len());
        lemma_read_one::<T>(all, above.len() as int, sum, c.value(), k);
    }

    /// When the terms above `lo` are read, what is read from there on is
    /// the polynomial.
    proof fn lemma_read_from(&self, lo: nat)
        requires
            self.well_formed(),
            faithful::<T>(),
            lo <= model::exponent_bound(),
        ensures
            parsed_from::<T>(
                self.written_from(0),
                self.written_from(lo).len() as int,
                self.from_exponent(lo),
            ) == Ok::<Map<nat, T::Value>, Seq<char>>(self@),
        decreases lo,
    {
        if lo == 0 {
            assert(self.from_exponent(0) =~= self@);
        } else {
            let k = (lo - 1) as nat;
            self.lemma_read_from(k);
            if self@.contains_key(k) {
                self.lemma_read_term(k);
            } else {
                self.lemma_written_from(k);
                assert(self.from_exponent(lo) =~= self.from_exponent(k));
                assert(self.written_from(k) =~= self.written_from(lo));
            }
        }
    }
}

/// Reading one term: where the term at the index `i` stands for `value` and
/// `power`, what is read from `i` on is what is read behind the term, with
/// the term added.
pub proof fn lemma_read_one<T: Literal>(
    s: Seq<char>,
    i: int,
    sum: Map<nat, T::Value>,
    value: T::Value,
    power: nat,
)
    requires
        0 <= i < s.len(),
        term_at(s, i).end > i,
        term_value::<T>(s, term_at(s, i)) == Ok::<(T::Value, nat), Seq<char>>((value, power)),
    ensures
        parsed_from::<T>(s, i, sum) == parsed_from::<T>(
            s,
            term_at(s, i).end,
            model::with_coefficient::<T>(
                sum,
                power,
                T::sum(model::coefficient::<T>(sum, power), value),
            ),
        ),
{
}

/// A polynomial is read back from its text in the standard format, over a
/// domain with a faithful literal rendering.
pub proof fn law_text_round_trip<T: Ring + Literal + CoefficientFormat>(p: Polynomial<T>)
    requires
        p.well_formed(),
        faithful::<T>(),
    ensures
        parsed::<T>(p.rendered(PolynomialFormat::Standard)) == Ok::<Map<nat, T::Value>, Seq<char>>(
            p@,
        ),
{
    if p@ == Map::<nat, T::Value>::empty() {
        reveal_strlit("0");
        reveal(term_at);
        reveal(term_value);
        let s = seq!['0'];
        assert("0"@ =~= s);
        lemma_unspaced(s);
        let term = term_at(s, 0);
        assert(coefficient_run(s, 1) == 0);
        assert(digit_run(s, 1) == 0);
        assert(term.coefficient(s) =~= s);
        assert(s[0] != '+' && s[0] != '-');
        T::law_sum_zero(T::zero_value());
        let empty = Map::<nat, T::Value>::empty();
        assert(model::with_coefficient::<T>(
            empty,
            0,
            T::sum(model::coefficient::<T>(empty, 0), T::zero_value()),
        ) =~= empty);
        assert(parsed_from::<T>(s, 1, empty) == Ok::<Map<nat, T::Value>, Seq<char>>(empty));
    } else {
        p.lemma_read_from(model::exponent_bound());
        p.lemma_view_sparse();
        assert(p.from_exponent(model::exponent_bound()) =~= Map::<nat, T::Value>::empty());
        assert(p.terms_text(model::exponent_bound(), PolynomialFormat::Standard)
            =~= Seq::<char>::empty());
        assert(without_spaces(Seq::<char>::empty()) =~= Seq::<char>::empty());
    }
}

} // verus!
