//! Lexical and phonetic similarity of cleaned words.

use vstd::prelude::*;

verus! {

/// The character-level edit distance: the minimum number of insertions,
/// deletions and substitutions turning `a` into `b`.
pub open spec fn edit_dist(a: Seq<char>, b: Seq<char>) -> nat
    decreases a.len() + b.len(),
{
    if a.len() == 0 {
        b.len()
    } else if b.len() == 0 {
        a.len()
    } else {
        let swap = edit_dist(a.drop_first(), b.drop_first()) + (if a[0] == b[0] {
            0nat
        } else {
            1nat
        });
        let del = edit_dist(a.drop_first(), b) + 1;
        let ins = edit_dist(a, b.drop_first()) + 1;
        if swap <= del && swap <= ins {
            swap
        } else if del <= ins {
            del
        } else {
            ins
        }
    }
}

/// The edit distance never exceeds the longer length: substituting the
/// overlap and inserting or deleting the rest always suffices.
pub proof fn lemma_edit_dist_le_max(a: Seq<char>, b: Seq<char>)
    ensures
        edit_dist(a, b) <= (if a.len() >= b.len() {
            a.len()
        } else {
            b.len()
        }),
    decreases a.len() + b.len(),
{
    if a.len() == 0 || b.len() == 0 {
    } else {
        lemma_edit_dist_le_max(a.drop_first(), b.drop_first());
    }
}

/// Relies on strsim::levenshtein: the minimum number of character
/// insertions, deletions and substitutions turning one string into the
/// other, computed over the strings' characters.
#[verifier::external_body]
pub fn levenshtein_chars(a: &Vec<char>, b: &Vec<char>) -> (r: usize)
    ensures
        r as nat == edit_dist(a@, b@),
{
    let sa: String = a.iter().collect();
    let sb: String = b.iter().collect();
    strsim::levenshtein(&sa, &sb)
}

/// Whether two words share the same Soundex code.
pub uninterp spec fn soundex_eq(a: Seq<char>, b: Seq<char>) -> bool;

/// Relies on natural::phonetics::soundex: whether the Soundex encodings of
/// the two words coincide, a function of the characters alone. Its encoder
/// indexes the first character, so empty words are excluded.
#[verifier::external_body]
pub fn soundex_chars(a: &Vec<char>, b: &Vec<char>) -> (r: bool)
    requires
        a@.len() > 0,
        b@.len() > 0,
    ensures
        r == soundex_eq(a@, b@),
{
    let sa: String = a.iter().collect();
    let sb: String = b.iter().collect();
    natural::phonetics::soundex(&sa, &sb)
}

} // verus!
