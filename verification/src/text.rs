//! The text forms of the values of a domain, and conversions between strings
//! and sequences of characters.

use crate::algebra::{Domain, Signed};
use vstd::prelude::*;

verus! {

/// A text: its characters, one after the other.
pub type Text = Seq<char>;

/// A domain whose values have a plain text form: a minus sign where the
/// value is negative, then the text of its magnitude.
pub trait PlainText: Signed {
    /// The text form of the value without its sign.
    spec fn magnitude_text(&self) -> Text;

    fn magnitude_to_text(&self) -> (r: String)
        requires
            self.well_formed(),
        ensures
            r@ == self.magnitude_text(),
    ;
}

/// A domain whose values can be written as literals.
pub trait Literal: Domain {
    /// The value that a literal denotes; `None` for a text that is no
    /// literal of the domain.
    spec fn literal_value(text: Text) -> Option<Self::Value>;

    /// The value that `text` denotes, if it is a literal of the domain.
    fn from_literal(text: &str) -> (r: Option<Self>)
        ensures
            match r {
                Some(c) => c.well_formed() && Self::literal_value(text@) == Some(c.value()),
                None => Self::literal_value(text@) is None,
            },
    ;
}

/// The characters of `text`.
pub fn characters(text: &str) -> (r: Vec<char>)
    ensures
        r@ == text@,
{
    let mut r: Vec<char> = Vec::new();
    for c in it: text.chars()
        invariant
            it.seq() == text@,
            r@ == text@.subrange(0, it.index()),
    {
        r.push(c);
        assert(text@.subrange(0, it.index() + 1) =~= text@.subrange(0, it.index()).push(c));
    }
    assert(text@.subrange(0, text@.len() as int) =~= text@);
    r
}

/// The string made of the characters `chars[from..to]`.
///
/// Trusted: the body collects the characters with `String::from_iter` of the
/// standard library, which gives the string that holds them in their order.
#[verifier::external_body]
pub(crate) fn text_of(chars: &Vec<char>, from: usize, to: usize) -> (r: String)
    requires
        from <= to <= chars.len(),
    ensures
        r@ == chars@.subrange(from as int, to as int),
{
    String::from_iter(chars[from..to].iter())
}

} // verus!
