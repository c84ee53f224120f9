//! Characters and strings: what is taken from `std` on trust, the input as a
//! vector of characters, and numbers in decimal.

use vstd::prelude::*;
use vstd::std_specs::iter::IteratorSpec;
use vstd::string::*;

verus! {

/// Whether a word is a Unicode scalar value, that is, the code point of a `char`.
pub open spec fn is_scalar_value(word: u32) -> bool {
    word <= 0xD7FF || (0xE000 <= word && word <= 0x10FFFF)
}

/// `char::from_u32` of `std`, taken on trust: it gives the character whose
/// code point is `word` when `word` is a Unicode scalar value, and `None` for
/// every other word.
pub assume_specification[ char::from_u32 ](word: u32) -> (r: Option<char>)
    ensures
        r == if is_scalar_value(word) {
            Some(word as char)
        } else {
            None::<char>
        },
;

/// `String::push` of `std`, taken on trust: it appends the one character to
/// the end of the string and leaves the rest as it was.
pub assume_specification[ String::push ](text: &mut String, ch: char)
    ensures
        final(text)@ == old(text)@.push(ch),
;

/// `==` on `str` of `std`, taken on trust: two string slices are equal
/// exactly when they hold the same characters in the same order.
pub assume_specification[ <str as PartialEq>::eq ](a: &str, b: &str) -> (r: bool)
    ensures
        r == (a@ == b@),
;

/// The characters of `text`, in order.
pub fn chars_of(text: &str) -> (chars: Vec<char>)
    ensures
        chars@ == text@,
{
    broadcast use group_string_axioms;

    let mut rest = text.chars();
    let mut chars: Vec<char> = Vec::new();
    loop
        invariant
            rest.obeys_prophetic_iter_laws(),
            rest.decrease() is Some,
            chars@ + rest.remaining() == text@,
        ensures
            chars@ == text@,
        decreases rest.decrease()->0,
    {
        match rest.next() {
            Some(ch) => {
                chars.push(ch);
            },
            None => {
                break ;
            },
        }
    }
    chars
}

/// The character for a decimal digit: `'0'` for 0 up to `'9'` for 9.
pub open spec fn digit(d: nat) -> char {
    (48 + d) as char
}

/// `n` in decimal, without sign or leading zeros; `"0"` for 0.
pub open spec fn decimal(n: nat) -> Seq<char>
    decreases n,
{
    if n < 10 {
        seq![digit(n)]
    } else {
        decimal(n / 10).push(digit(n % 10))
    }
}

/// Appends `n` in decimal to `text`.
pub fn push_decimal(text: &mut String, n: u32)
    ensures
        final(text)@ == old(text)@ + decimal(n as nat),
    decreases n,
{
    if n >= 10 {
        push_decimal(text, n / 10);
    }
    let low: u8 = (n % 10) as u8;
    text.push((48u8 + low) as char);
}

} // verus!
