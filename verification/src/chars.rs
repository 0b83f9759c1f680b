//! Character classification and text helpers shared by the tokenizer, the
//! parser and the snapshot codec.
use vstd::prelude::*;

verus! {

/// What `char::is_whitespace` returns: the Unicode whitespace classification
/// of a character, a function of the character alone.
pub uninterp spec fn is_unicode_whitespace(c: char) -> bool;

/// What `char::is_alphabetic` returns: the Unicode alphabetic classification
/// of a character, a function of the character alone.
pub uninterp spec fn is_unicode_alphabetic(c: char) -> bool;

/// What `char::is_alphanumeric` returns: the Unicode alphanumeric
/// classification of a character, a function of the character alone.
pub uninterp spec fn is_unicode_alphanumeric(c: char) -> bool;

/// Relies on char::is_whitespace: whether the character has the Unicode
/// whitespace property, depending on the character alone.
#[verifier::external_body]
pub(crate) fn whitespace_char(c: char) -> (r: bool)
    ensures
        r == is_unicode_whitespace(c),
{
    c.is_whitespace()
}

/// Relies on char::is_alphabetic: whether the character is in the Unicode
/// Alphabetic category, depending on the character alone.
#[verifier::external_body]
pub(crate) fn alphabetic_char(c: char) -> (r: bool)
    ensures
        r == is_unicode_alphabetic(c),
{
    c.is_alphabetic()
}

/// Relies on char::is_alphanumeric: whether the character is Unicode
/// alphabetic or numeric, depending on the character alone.
#[verifier::external_body]
pub(crate) fn alphanumeric_char(c: char) -> (r: bool)
    ensures
        r == is_unicode_alphanumeric(c),
{
    c.is_alphanumeric()
}

/// The decimal digits, `'0'` through `'9'`.
pub open spec fn is_decimal_digit(c: char) -> bool {
    48 <= c as u32 <= 57
}

pub(crate) fn decimal_digit_char(c: char) -> (r: bool)
    ensures
        r == is_decimal_digit(c),
{
    let u = c as u32;
    48 <= u && u <= 57
}

/// The code of a character with ASCII letters folded to lower case; other
/// characters keep their own code.
pub open spec fn lower_code(c: char) -> int {
    if 65 <= c as u32 <= 90 {
        c as u32 + 32
    } else {
        c as u32 as int
    }
}

/// Case-insensitive equality of two texts, folding ASCII letters only.
pub open spec fn ascii_ieq_text(a: Seq<char>, b: Seq<char>) -> bool {
    &&& a.len() == b.len()
    &&& forall|i: int| 0 <= i < a.len() ==> lower_code(a[i]) == lower_code(b[i])
}

fn lower_code_of(c: char) -> (r: u32)
    ensures
        r as int == lower_code(c),
{
    let u = c as u32;
    if 65 <= u && u <= 90 {
        u + 32
    } else {
        u
    }
}

/// Compares two texts for equality up to ASCII case.
pub fn ascii_ieq(a: &str, b: &str) -> (r: bool)
    ensures
        r == ascii_ieq_text(a@, b@),
{
    let a_len = a.unicode_len();
    let b_len = b.unicode_len();
    if a_len != b_len {
        return false;
    }
    let mut i: usize = 0;
    while i < a_len
        invariant
            a_len == a@.len(),
            b_len == b@.len(),
            a_len == b_len,
            i <= a_len,
            forall|j: int| 0 <= j < i ==> lower_code(a@[j]) == lower_code(b@[j]),
        decreases a_len - i,
    {
        let ca = a.get_char(i);
        let cb = b.get_char(i);
        if lower_code_of(ca) != lower_code_of(cb) {
            return false;
        }
        i = i + 1;
    }
    true
}

/// Compares two texts for exact equality, character by character.
pub fn text_eq(a: &str, b: &str) -> (r: bool)
    ensures
        r == (a@ == b@),
{
    let a_len = a.unicode_len();
    let b_len = b.unicode_len();
    if a_len != b_len {
        return false;
    }
    let mut i: usize = 0;
    while i < a_len
        invariant
            a_len == a@.len(),
            b_len == b@.len(),
            a_len == b_len,
            i <= a_len,
            forall|j: int| 0 <= j < i ==> a@[j] == b@[j],
        decreases a_len - i,
    {
        if a.get_char(i) != b.get_char(i) {
            return false;
        }
        i = i + 1;
    }
    proof {
        assert(a@ =~= b@);
    }
    true
}

/// The character that a Unicode scalar value denotes, if the value is one.
pub open spec fn spec_char_of(u: u32) -> Option<char> {
    if vstd::utf8::is_scalar(u) {
        Some(u as char)
    } else {
        None
    }
}

/// Relies on char::from_u32: returns the character with the given code, or
/// None where the code is no Unicode scalar value.
#[verifier::external_body]
pub(crate) fn char_from_u32(u: u32) -> (r: Option<char>)
    ensures
        r == spec_char_of(u),
{
    char::from_u32(u)
}

/// Relies on String::push: appends the given character to the end of the
/// string.
#[verifier::external_body]
pub(crate) fn push_char(s: &mut String, c: char)
    ensures
        final(s)@ == old(s)@.push(c),
{
    s.push(c)
}

} // verus!
