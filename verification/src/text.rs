//! What the library needs of `String` and `str` beyond what is specified
//! for them elsewhere.

use vstd::prelude::*;

verus! {

/// `String::push` of the standard library: it appends the given character
/// to the end of the string. Not proved here: taken from the standard
/// library's documentation.
pub assume_specification[ std::string::String::push ](
    text: &mut std::string::String,
    character: char,
)
    ensures
        final(text)@ == old(text)@.push(character),
;

/// `==` on `str`, the standard library's `PartialEq::eq`: it tells whether
/// the two slices hold the same characters. Not proved here: taken from the
/// standard library's documentation.
pub assume_specification[ <str as PartialEq>::eq ](left: &str, right: &str) -> (equal: bool)
    ensures
        equal == (left@ == right@),
;

/// What the standard library's debug formatting makes of a text: the text
/// between quotation marks, with the characters escaped that the standard
/// library escapes there. This crate gives the result a name and says
/// nothing more of it.
pub uninterp spec fn debug_quoted(text: Seq<char>) -> Seq<char>;

/// The standard library's `Debug` formatting of a `str`, reached through
/// `format!("{:?}", text)`. Not proved here: the contract claims only that
/// the result depends on the characters of `text` alone. Which of them it
/// escapes, and how, is the standard library's matter.
#[verifier::external_body]
pub(crate) fn quote(text: &str) -> (quoted: String)
    ensures
        quoted@ == debug_quoted(text@),
{
    format!("{:?}", text)
}

/// The text that debug formatting makes of a value with one field: the
/// variant's name, then the field's own text in round brackets.
pub fn tuple_variant_text(variant: &str, field: &str) -> (text: String)
    ensures
        text@ == variant@ + seq!['('] + field@ + seq![')'],
{
    let mut text = String::from_str(variant);
    text.push('(');
    text.append(field);
    text.push(')');
    text
}

/// The characters of `text`, in order.
pub fn characters_of(text: &str) -> (characters: Vec<char>)
    ensures
        characters@ == text@,
{
    broadcast use vstd::string::group_string_axioms;

    let mut characters: Vec<char> = Vec::new();
    for character in walk: text.chars()
        invariant
            walk.seq() == text@,
            characters@ == walk.seq().take(walk.index() as int),
    {
        characters.push(character);
    }
    characters
}

} // verus!
