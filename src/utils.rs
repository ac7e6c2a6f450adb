use vstd::prelude::*;

verus! {

/// Whether std classes `c` as alphanumeric (Unicode `Alphabetic` or `Numeric`).
pub uninterp spec fn alphanumeric(c: char) -> bool;

/// Whether std classes `c` as Unicode `White_Space`.
pub uninterp spec fn whitespace(c: char) -> bool;

/// Relies on `char::is_alphanumeric`, whose answer depends on the character alone.
#[verifier::external_body]
fn char_is_alphanumeric(c: char) -> (r: bool)
    ensures
        r == alphanumeric(c),
{
    c.is_alphanumeric()
}

/// Relies on `char::is_whitespace`, whose answer depends on the character alone.
#[verifier::external_body]
pub(crate) fn char_is_whitespace(c: char) -> (r: bool)
    ensures
        r == whitespace(c),
{
    c.is_whitespace()
}

/// Code points inside the CJK ideograph blocks: the Unified Ideographs,
/// Extensions A to E, and the Compatibility Ideographs.
pub open spec fn cjk(c: char) -> bool {
    let v = c as u32;
    ||| 0x4E00 <= v <= 0x9FFF
    ||| 0x3400 <= v <= 0x4DBF
    ||| 0x20000 <= v <= 0x2A6DF
    ||| 0x2A700 <= v <= 0x2B73F
    ||| 0x2B740 <= v <= 0x2B81F
    ||| 0x2B820 <= v <= 0x2CEAF
    ||| 0xF900 <= v <= 0xFAFF
}

/// A letter or digit outside the CJK blocks: the body of an alphabetic run.
pub open spec fn alpha_char(c: char) -> bool {
    alphanumeric(c) && !cjk(c)
}

/// Hyphen, underscore and apostrophe, which may join the letters of a run.
pub open spec fn connector(c: char) -> bool {
    c == '-' || c == '_' || c == '\''
}

/// True for CJK ideographs, including the extension blocks that hold rare
/// Cantonese characters such as U+20BA9 and U+20E4C.
pub fn is_cjk(ch: char) -> (r: bool)
    ensures
        r == cjk(ch),
{
    let v: u32 = ch as u32;
    (0x4E00 <= v && v <= 0x9FFF) || (0x3400 <= v && v <= 0x4DBF) || (0x20000 <= v && v
        <= 0x2A6DF) || (0x2A700 <= v && v <= 0x2B73F) || (0x2B740 <= v && v <= 0x2B81F) || (
    0x2B820 <= v && v <= 0x2CEAF) || (0xF900 <= v && v <= 0xFAFF)
}

/// True if `ch` is a letter or digit but not a CJK ideograph, such as an
/// ASCII letter, a digit or an accented letter.
pub fn is_alpha_char(ch: char) -> (r: bool)
    ensures
        r == alpha_char(ch),
{
    char_is_alphanumeric(ch) && !is_cjk(ch)
}

/// True if `ch` is an intra-word connector: hyphen, underscore or apostrophe.
pub fn is_connector(ch: char) -> (r: bool)
    ensures
        r == connector(ch),
{
    ch == '-' || ch == '_' || ch == '\''
}

} // verus!
