//! Character classification and case mapping.
//!
//! Specifications are fully concrete on ASCII characters; outside ASCII they
//! defer to named, uninterpreted results of the corresponding std functions,
//! which trusted wrappers below tie to the real Unicode behaviour.

use vstd::prelude::*;

verus! {

/// Result of `char::is_alphabetic` on a non-ASCII character.
pub uninterp spec fn alpha_ext(c: char) -> bool;

/// Result of `char::is_whitespace` on a non-ASCII character.
pub uninterp spec fn ws_ext(c: char) -> bool;

/// Result of `char::is_uppercase` on a non-ASCII character.
pub uninterp spec fn upper_ext(c: char) -> bool;

/// Result of `char::is_alphanumeric` on a non-ASCII character.
pub uninterp spec fn alnum_ext(c: char) -> bool;

/// First character of `char::to_uppercase` on a non-ASCII character.
pub uninterp spec fn upper_first_ext(c: char) -> char;

/// Result of `str::to_lowercase` on a string with a non-ASCII character.
pub uninterp spec fn lower_str_ext(s: Seq<char>) -> Seq<char>;

/// Result of `str::to_uppercase` on a string with a non-ASCII character.
pub uninterp spec fn upper_str_ext(s: Seq<char>) -> Seq<char>;

pub open spec fn is_ascii_char(c: char) -> bool {
    (c as u32) < 128
}

pub open spec fn is_alpha(c: char) -> bool {
    if is_ascii_char(c) {
        ('a' <= c && c <= 'z') || ('A' <= c && c <= 'Z')
    } else {
        alpha_ext(c)
    }
}

pub open spec fn is_ws(c: char) -> bool {
    if is_ascii_char(c) {
        c == ' ' || c == '\t' || c == '\n' || c == '\r' || c == '\u{b}' || c == '\u{c}'
    } else {
        ws_ext(c)
    }
}

pub open spec fn is_upper(c: char) -> bool {
    if is_ascii_char(c) {
        'A' <= c && c <= 'Z'
    } else {
        upper_ext(c)
    }
}

pub open spec fn is_alnum(c: char) -> bool {
    if is_ascii_char(c) {
        ('a' <= c && c <= 'z') || ('A' <= c && c <= 'Z') || ('0' <= c && c <= '9')
    } else {
        alnum_ext(c)
    }
}

/// A word character, as the whole-word boundaries of filler matching use it:
/// an alphanumeric character or an underscore.
pub open spec fn is_word_char(c: char) -> bool {
    is_alnum(c) || c == '_'
}

pub open spec fn ascii_lower(c: char) -> char {
    if 'A' <= c && c <= 'Z' {
        (((c as u8) + 32) as char)
    } else {
        c
    }
}

pub open spec fn ascii_upper(c: char) -> char {
    if 'a' <= c && c <= 'z' {
        (((c as u8) - 32) as char)
    } else {
        c
    }
}

/// First character of the uppercase mapping of `c`.
pub open spec fn upper_first(c: char) -> char {
    if is_ascii_char(c) {
        ascii_upper(c)
    } else {
        upper_first_ext(c)
    }
}

pub open spec fn all_ascii(s: Seq<char>) -> bool {
    forall|k: int| 0 <= k < s.len() ==> is_ascii_char(#[trigger] s[k])
}

/// What `str::to_lowercase` returns: the per-character ASCII mapping on
/// all-ASCII input, a named result otherwise.
pub open spec fn lower_seq(s: Seq<char>) -> Seq<char> {
    if all_ascii(s) {
        s.map_values(|c: char| ascii_lower(c))
    } else {
        lower_str_ext(s)
    }
}

/// What `str::to_uppercase` returns: the per-character ASCII mapping on
/// all-ASCII input, a named result otherwise.
pub open spec fn upper_seq(s: Seq<char>) -> Seq<char> {
    if all_ascii(s) {
        s.map_values(|c: char| ascii_upper(c))
    } else {
        upper_str_ext(s)
    }
}

/// Relies on char::is_alphabetic: on ASCII it holds exactly of the letters.
#[verifier::external_body]
pub fn char_is_alphabetic(c: char) -> (r: bool)
    ensures
        r == is_alpha(c),
        !is_ascii_char(c) ==> r == alpha_ext(c),
{
    c.is_alphabetic()
}

/// Relies on char::is_whitespace: on ASCII it holds exactly of space, tab,
/// line feed, vertical tab, form feed and carriage return.
#[verifier::external_body]
pub fn char_is_whitespace(c: char) -> (r: bool)
    ensures
        r == is_ws(c),
        !is_ascii_char(c) ==> r == ws_ext(c),
{
    c.is_whitespace()
}

/// Relies on char::is_uppercase: on ASCII it holds exactly of `A`..=`Z`.
#[verifier::external_body]
pub fn char_is_uppercase(c: char) -> (r: bool)
    ensures
        r == is_upper(c),
        !is_ascii_char(c) ==> r == upper_ext(c),
{
    c.is_uppercase()
}

/// Relies on char::is_alphanumeric: on ASCII it holds exactly of the letters
/// and digits.
#[verifier::external_body]
pub fn char_is_alphanumeric(c: char) -> (r: bool)
    ensures
        r == is_alnum(c),
        !is_ascii_char(c) ==> r == alnum_ext(c),
{
    c.is_alphanumeric()
}

/// Relies on char::to_uppercase: its first character, which on ASCII is the
/// ASCII uppercase mapping. The mapping is never empty, so `unwrap_or` never
/// falls back.
#[verifier::external_body]
pub fn char_upper_first(c: char) -> (r: char)
    ensures
        r == upper_first(c),
        !is_ascii_char(c) ==> r == upper_first_ext(c),
{
    c.to_uppercase().next().unwrap_or(c)
}

/// Relies on str::to_lowercase, which on all-ASCII input lowercases each
/// character in place.
#[verifier::external_body]
pub fn lower_chars(v: &Vec<char>) -> (r: Vec<char>)
    ensures
        r@ == lower_seq(v@),
        !all_ascii(v@) ==> r@ == lower_str_ext(v@),
{
    let s: String = v.iter().collect();
    s.to_lowercase().chars().collect()
}

/// Relies on str::to_uppercase, which on all-ASCII input uppercases each
/// character in place.
#[verifier::external_body]
pub fn upper_chars(v: &Vec<char>) -> (r: Vec<char>)
    ensures
        r@ == upper_seq(v@),
        !all_ascii(v@) ==> r@ == upper_str_ext(v@),
{
    let s: String = v.iter().collect();
    s.to_uppercase().chars().collect()
}

/// Relies on String's FromIterator over chars: the collected string holds
/// exactly the characters of `v` in order.
#[verifier::external_body]
pub fn chars_to_string(v: &Vec<char>) -> (r: String)
    ensures
        r@ == v@,
{
    v.iter().collect()
}

/// The characters of a string slice, as a vector.
pub fn str_chars(s: &str) -> (r: Vec<char>)
    ensures
        r@ == s@,
{
    let n = s.unicode_len();
    let mut r: Vec<char> = Vec::new();
    let mut i: usize = 0;
    while i < n
        invariant
            n == s@.len(),
            i <= n,
            r@ == s@.subrange(0, i as int),
        decreases n - i,
    {
        r.push(s.get_char(i));
        i = i + 1;
        assert(r@ =~= s@.subrange(0, i as int));
    }
    assert(r@ =~= s@);
    r
}

/// Appends the characters of `src` to `dst`.
pub fn extend_chars(dst: &mut Vec<char>, src: &Vec<char>)
    ensures
        final(dst)@ == old(dst)@ + src@,
{
    let mut i: usize = 0;
    while i < src.len()
        invariant
            i <= src@.len(),
            dst@ == old(dst)@ + src@.subrange(0, i as int),
        decreases src@.len() - i,
    {
        dst.push(src[i]);
        i = i + 1;
        assert(dst@ =~= old(dst)@ + src@.subrange(0, i as int));
    }
    assert(dst@ =~= old(dst)@ + src@);
}

/// Copies a character vector.
pub fn copy_chars(v: &Vec<char>) -> (r: Vec<char>)
    ensures
        r@ == v@,
{
    let mut r: Vec<char> = Vec::new();
    extend_chars(&mut r, v);
    r
}

/// Executable ASCII lower-casing, matching `ascii_lower`.
pub fn ascii_lower_char(c: char) -> (r: char)
    ensures
        r == ascii_lower(c),
{
    let u = c as u32;
    if 65 <= u && u <= 90 {
        ((u as u8) + 32) as char
    } else {
        c
    }
}

} // verus!
