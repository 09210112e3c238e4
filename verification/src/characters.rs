//! What is asked of single characters: their lowercase form, their class, the number of bytes that
//! they take, and what separates paths.
use vstd::prelude::*;

verus! {

/// The lowercase mapping of a character: one character or more.
pub uninterp spec fn lowercase_mapping(c: char) -> Seq<char>;

/// Whether a character is numeric.
pub uninterp spec fn numeric(c: char) -> bool;

/// Whether a character is lowercase.
pub uninterp spec fn lowercase(c: char) -> bool;

/// Whether a character is uppercase.
pub uninterp spec fn uppercase(c: char) -> bool;

/// Calls `char::to_lowercase`. What is believed: the result depends on the character alone, and
/// it holds one character or more.
#[verifier::external_body]
pub(crate) fn to_lowercase(c: char) -> (mapped: Vec<char>)
    ensures
        mapped@ == lowercase_mapping(c),
        mapped@.len() >= 1,
{
    c.to_lowercase().collect()
}

/// `char::is_numeric`. What is believed: the answer depends on the character alone.
pub assume_specification[ char::is_numeric ](c: char) -> (answer: bool)
    ensures
        answer == numeric(c),
;

/// `char::is_lowercase`. What is believed: the answer depends on the character alone.
pub assume_specification[ char::is_lowercase ](c: char) -> (answer: bool)
    ensures
        answer == lowercase(c),
;

/// `char::is_uppercase`. What is believed: the answer depends on the character alone.
pub assume_specification[ char::is_uppercase ](c: char) -> (answer: bool)
    ensures
        answer == uppercase(c),
;

/// The separator of path components on this platform, `std::path::MAIN_SEPARATOR`. Which
/// character that is depends on the platform, so nothing is claimed of it.
#[verifier::external_body]
pub(crate) fn main_separator() -> char {
    std::path::MAIN_SEPARATOR
}

/// Calls `std::path::Path::is_absolute`. Which paths are absolute depends on the platform, so
/// nothing is claimed of the answer.
#[verifier::external_body]
pub(crate) fn is_absolute(path: &str) -> bool {
    std::path::Path::new(path).is_absolute()
}

/// This platform separates path components by the character.
pub closed spec fn platform_separator(separator: char) -> bool {
    call_ensures(main_separator, (), separator)
}

/// Whether this platform takes a path with a drive in front to be absolute.
pub closed spec fn platform_drives(drives: bool) -> bool {
    call_ensures(is_absolute, ("C:\\",), drives)
}

/// How paths are written on this platform: what separates their components, and whether they are
/// those of Windows, with backslashes and drives.
pub open spec fn platform(separator: char, windows: bool) -> bool {
    &&& platform_separator(separator)
    &&& exists|drives: bool| #[trigger]
        platform_drives(drives) && windows == (separator == '\\' && drives)
}

/// How paths are written on this platform.
pub fn this_platform() -> (platform: (char, bool))
    ensures
        self::platform(platform.0, platform.1),
{
    let separator: char = main_separator();
    let drives: bool = is_absolute("C:\\");
    assert(platform_drives(drives));
    (separator, separator == '\\' && drives)
}

/// The number of bytes that a character takes in UTF-8.
pub open spec fn utf8_width(c: char) -> nat {
    let scalar = c as u32;
    if scalar < 0x80 {
        1
    } else if scalar < 0x800 {
        2
    } else if scalar < 0x1_0000 {
        3
    } else {
        4
    }
}

/// The number of bytes that a character takes in UTF-8.
pub fn len_utf8(c: char) -> (width: usize)
    ensures
        width == utf8_width(c),
{
    let scalar: u32 = c as u32;
    if scalar < 0x80 {
        1
    } else if scalar < 0x800 {
        2
    } else if scalar < 0x1_0000 {
        3
    } else {
        4
    }
}

/// A word begins right after `previous`: after a hyphen, an underscore, a space or a numeric
/// character, and where the case rises.
pub open spec fn word_begins_after(previous: char, is_numeric: bool, case_rises: bool) -> bool {
    ||| previous == '-'
    ||| previous == '_'
    ||| previous == ' '
    ||| is_numeric
    ||| case_rises
}

/// A word begins at `next`, which stands right after `previous`.
pub open spec fn word_boundary(previous: char, next: char) -> bool {
    word_begins_after(previous, numeric(previous), lowercase(previous) && uppercase(next))
}

/// Whether a word begins right after `previous`, given what is known of the two characters.
pub fn begins_word(previous: char, is_numeric: bool, case_rises: bool) -> (answer: bool)
    ensures
        answer == word_begins_after(previous, is_numeric, case_rises),
{
    previous == '-' || previous == '_' || previous == ' ' || is_numeric || case_rises
}

/// Whether a word begins at `next`, which stands right after `previous`.
pub fn is_word_boundary(previous: char, next: char) -> (answer: bool)
    ensures
        answer == word_boundary(previous, next),
{
    let case_rises: bool = previous.is_lowercase() && next.is_uppercase();
    begins_word(previous, previous.is_numeric(), case_rises)
}

} // verus!
