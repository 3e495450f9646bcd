//! Which characters count as letters of the vocabulary.
use vstd::prelude::*;

verus! {

/// Whether the accented letters of [`is_accented`] count as letters too.
pub const SPANISH: bool = true;

/// The extra accented letters: ñ á í é ó ú ü.
pub open spec fn is_accented(c: char) -> bool {
    c == 'ñ' || c == 'á' || c == 'í' || c == 'é' || c == 'ó' || c == 'ú' || c == 'ü'
}

/// A lowercase ASCII letter, by code point.
pub open spec fn is_base_letter(c: char) -> bool {
    97 <= (c as u32) <= 122
}

/// A character that may stand in a word.
pub open spec fn is_letter(c: char) -> bool {
    is_base_letter(c) || (SPANISH && is_accented(c))
}

/// True when `letter` is one of the extra accented letters.
pub fn get_spanish(letter: char) -> (r: bool)
    ensures
        r == is_accented(letter),
{
    letter == 'ñ' || letter == 'á' || letter == 'í' || letter == 'é' || letter == 'ó'
        || letter == 'ú' || letter == 'ü'
}

/// The code points of the base alphabet.
pub struct English;

impl English {
    /// Code point of `a`.
    pub fn start() -> (r: i32)
        ensures
            r == 97,
    {
        97
    }

    /// Code point of `z`.
    pub fn end() -> (r: i32)
        ensures
            r == 122,
    {
        122
    }

    /// True when `letter` may stand in a word.
    pub fn is_range(letter: char) -> (r: bool)
        ensures
            r == is_letter(letter),
    {
        let value = letter as u32;
        let is_english = value >= English::start() as u32 && value <= English::end() as u32;
        if SPANISH {
            is_english || get_spanish(letter)
        } else {
            is_english
        }
    }
}

/// An ASCII punctuation character.
pub open spec fn is_ascii_punct(c: char) -> bool {
    let u = c as u32;
    (33 <= u <= 47) || (58 <= u <= 64) || (91 <= u <= 96) || (123 <= u <= 126)
}

/// Every lowercase ASCII letter is a letter; no digit and no ASCII
/// punctuation is; beyond the base alphabet only the accented letters
/// count, and only when they are turned on.
pub proof fn lemma_alphabet(c: char)
    ensures
        97 <= (c as u32) <= 122 ==> is_letter(c),
        48 <= (c as u32) <= 57 ==> !is_letter(c),
        is_ascii_punct(c) ==> !is_letter(c),
        !is_base_letter(c) ==> (is_letter(c) <==> SPANISH && is_accented(c)),
{
}

} // verus!
