//! Custom-vocabulary correction: each whitespace token of the input is
//! scored against every vocabulary entry by a blend of normalized edit
//! distance and Soundex agreement, and the best entry strictly below the
//! threshold replaces it, with the token's case pattern and surrounding
//! punctuation preserved.

use vstd::prelude::*;

use crate::chars::char_is_alphabetic;
use crate::chars::copy_chars;
use crate::chars::char_is_uppercase;
use crate::chars::char_upper_first;
use crate::chars::chars_to_string;
use crate::chars::extend_chars;
use crate::chars::is_alpha;
use crate::chars::is_upper;
use crate::chars::lower_chars;
use crate::chars::lower_seq;
use crate::chars::str_chars;
use crate::chars::upper_chars;
use crate::chars::upper_first;
use crate::chars::upper_seq;
use crate::distance::edit_dist;
use crate::distance::lemma_edit_dist_le_max;
use crate::distance::levenshtein_chars;
use crate::distance::soundex_chars;
use crate::distance::soundex_eq;
use crate::tokenize::join_sp;
use crate::tokenize::join_sp_exec;
use crate::tokenize::split_ws;
use crate::tokenize::split_ws_exec;

verus! {

/// A similarity cutoff, as the exact rational `num / den`. A candidate
/// replaces a token only if its combined score is strictly below it.
/// With `den == 0` the cutoff acts as infinite when `num > 0` (every score
/// qualifies) and as zero when `num == 0` (none does).
#[derive(Clone, Copy)]
pub struct Threshold {
    pub num: u64,
    pub den: u64,
}

/// Length of the leading run of non-alphabetic characters.
pub open spec fn pre_len(s: Seq<char>) -> nat
    decreases s.len(),
{
    if s.len() == 0 || is_alpha(s[0]) {
        0
    } else {
        1 + pre_len(s.drop_first())
    }
}

/// Length of the trailing run of non-alphabetic characters.
pub open spec fn suf_len(s: Seq<char>) -> nat
    decreases s.len(),
{
    if s.len() == 0 || is_alpha(s.last()) {
        0
    } else {
        1 + suf_len(s.drop_last())
    }
}

/// `pre_len` is pinned down by where the first alphabetic character stands.
pub proof fn lemma_pre_len_is(s: Seq<char>, k: int)
    requires
        0 <= k <= s.len(),
        forall|m: int| 0 <= m < k ==> !is_alpha(#[trigger] s[m]),
        k < s.len() ==> is_alpha(s[k]),
    ensures
        pre_len(s) == k,
    decreases s.len(),
{
    if s.len() == 0 || is_alpha(s[0]) {
        assert(k == 0);
    } else {
        assert(k >= 1);
        let d = s.drop_first();
        assert forall|m: int| 0 <= m < k - 1 implies !is_alpha(#[trigger] d[m]) by {
            assert(d[m] == s[m + 1]);
        }
        if k - 1 < d.len() {
            assert(d[k - 1] == s[k]);
        }
        lemma_pre_len_is(d, k - 1);
    }
}

/// `suf_len` is pinned down by where the last alphabetic character stands.
pub proof fn lemma_suf_len_is(s: Seq<char>, k: int)
    requires
        0 <= k <= s.len(),
        forall|m: int| s.len() - k <= m < s.len() ==> !is_alpha(#[trigger] s[m]),
        k < s.len() ==> is_alpha(s[s.len() - 1 - k]),
    ensures
        suf_len(s) == k,
    decreases s.len(),
{
    if s.len() == 0 || is_alpha(s.last()) {
        assert(k == 0);
    } else {
        assert(k >= 1);
        let d = s.drop_last();
        assert forall|m: int| d.len() - (k - 1) <= m < d.len() implies !is_alpha(
            #[trigger] d[m],
        ) by {
            assert(d[m] == s[m]);
        }
        if k - 1 < d.len() {
            assert(d[d.len() - 1 - (k - 1)] == s[s.len() - 1 - k]);
        }
        lemma_suf_len_is(d, k - 1);
    }
}

/// The token with non-alphabetic characters stripped from both ends; empty
/// when the token has no alphabetic character at all.
pub open spec fn trim_non_alpha(s: Seq<char>) -> Seq<char> {
    if pre_len(s) == s.len() {
        Seq::empty()
    } else {
        s.subrange(pre_len(s) as int, s.len() - suf_len(s))
    }
}

/// Whether the phonetic boost applies: both words are nonempty and share a
/// Soundex code. An empty vocabulary entry never matches phonetically.
pub open spec fn phonetic_match(a: Seq<char>, b: Seq<char>) -> bool {
    a.len() > 0 && b.len() > 0 && soundex_eq(a, b)
}

/// An entry takes part in scoring only when the cleaned lengths differ by at
/// most five characters.
pub open spec fn cand_considered(cleaned: Seq<char>, v: Seq<char>) -> bool {
    -5 <= cleaned.len() - v.len() <= 5
}

/// Numerator of the combined score: the edit distance, shrunk to three
/// tenths by a phonetic match (the denominator carries the factor ten).
pub open spec fn cand_num(cleaned: Seq<char>, v: Seq<char>) -> nat {
    edit_dist(cleaned, v) * (if phonetic_match(cleaned, v) {
        3nat
    } else {
        10nat
    })
}

/// Denominator of the combined score: ten times the longer cleaned length,
/// so that `cand_num / cand_den` is the normalized edit distance, possibly
/// shrunk to three tenths.
pub open spec fn cand_den(cleaned: Seq<char>, v: Seq<char>) -> nat {
    10 * (if cleaned.len() >= v.len() {
        cleaned.len()
    } else {
        v.len()
    })
}

/// The score `n / d` lies strictly below the threshold.
pub open spec fn below_threshold(n: nat, d: nat, t: Threshold) -> bool {
    n * t.den < t.num * d
}

/// The score `n1 / d1` lies strictly below `n2 / d2`.
pub open spec fn score_lt(n1: nat, d1: nat, n2: nat, d2: nat) -> bool {
    n1 * d2 < n2 * d1
}

/// Index of the best-scoring vocabulary entry among the first `k`, scanning
/// in order: an entry qualifies when it is considered and scores strictly
/// below the threshold, and a later entry displaces an earlier one only when
/// it scores strictly lower, so ties keep the first-seen entry.
pub open spec fn best_upto(cleaned: Seq<char>, vl: Seq<Seq<char>>, t: Threshold, k: int) -> Option<
    int,
>
    decreases k,
{
    if k <= 0 {
        None
    } else {
        let prev = best_upto(cleaned, vl, t, k - 1);
        let i = k - 1;
        let v = vl[i];
        if !cand_considered(cleaned, v) {
            prev
        } else if !below_threshold(cand_num(cleaned, v), cand_den(cleaned, v), t) {
            prev
        } else {
            match prev {
                None => Some(i),
                Some(j) => if score_lt(
                    cand_num(cleaned, v),
                    cand_den(cleaned, v),
                    cand_num(cleaned, vl[j]),
                    cand_den(cleaned, vl[j]),
                ) {
                    Some(i)
                } else {
                    prev
                },
            }
        }
    }
}

/// Every character of the word is uppercase.
pub open spec fn all_upper(s: Seq<char>) -> bool {
    forall|k: int| 0 <= k < s.len() ==> is_upper(#[trigger] s[k])
}

/// The replacement recased after the original: an all-uppercase original
/// uppercases the whole replacement; an original with an uppercase first
/// character uppercases only the replacement's first character; anything
/// else leaves the replacement as the vocabulary spells it.
pub open spec fn preserve_case(orig: Seq<char>, repl: Seq<char>) -> Seq<char> {
    if all_upper(orig) {
        upper_seq(repl)
    } else if orig.len() > 0 && is_upper(orig[0]) {
        if repl.len() == 0 {
            repl
        } else {
            repl.update(0, upper_first(repl[0]))
        }
    } else {
        repl
    }
}

/// What correction makes of one token: the cleaned form (ends trimmed of
/// non-alphabetic characters, then lowercased) is scored against the
/// lowercased vocabulary; tokens with an empty or over-50-character cleaned
/// form pass through unchanged, as do tokens without a qualifying entry;
/// otherwise the recased entry stands between the token's stripped ends.
pub open spec fn token_out(tok: Seq<char>, vocab: Seq<Seq<char>>, t: Threshold) -> Seq<char> {
    let cleaned = lower_seq(trim_non_alpha(tok));
    if cleaned.len() == 0 || cleaned.len() > 50 {
        tok
    } else {
        let vl = vocab.map_values(|w: Seq<char>| lower_seq(w));
        match best_upto(cleaned, vl, t, vocab.len() as int) {
            None => tok,
            Some(i) => tok.take(pre_len(tok) as int) + preserve_case(tok, vocab[i]) + tok.skip(
                tok.len() - suf_len(tok),
            ),
        }
    }
}

/// The corrected text: unchanged for an empty vocabulary, otherwise every
/// whitespace token corrected and the results joined with single spaces.
pub open spec fn spec_apply_custom_words(
    text: Seq<char>,
    vocab: Seq<Seq<char>>,
    t: Threshold,
) -> Seq<char> {
    if vocab.len() == 0 {
        text
    } else {
        join_sp(split_ws(text).map_values(|tok: Seq<char>| token_out(tok, vocab, t)))
    }
}

/// Recases `repl` after the case pattern of `orig`.
fn preserve_case_chars(orig: &Vec<char>, repl: &Vec<char>) -> (r: Vec<char>)
    ensures
        r@ == preserve_case(orig@, repl@),
{
    let n = orig.len();
    let mut all_up = true;
    let mut k: usize = 0;
    while k < n
        invariant
            k <= n,
            n == orig@.len(),
            all_up <==> (forall|m: int| 0 <= m < k ==> is_upper(#[trigger] orig@[m])),
        decreases n - k,
    {
        if !char_is_uppercase(orig[k]) {
            all_up = false;
        }
        k = k + 1;
    }
    if all_up {
        upper_chars(repl)
    } else if n > 0 && char_is_uppercase(orig[0]) {
        if repl.len() == 0 {
            copy_chars(repl)
        } else {
            let mut r: Vec<char> = Vec::new();
            r.push(char_upper_first(repl[0]));
            let mut j: usize = 1;
            while j < repl.len()
                invariant
                    1 <= j <= repl@.len(),
                    r@ == repl@.update(0, upper_first(repl@[0])).subrange(0, j as int),
                decreases repl@.len() - j,
            {
                r.push(repl[j]);
                j = j + 1;
                assert(r@ =~= repl@.update(0, upper_first(repl@[0])).subrange(0, j as int));
            }
            assert(r@ =~= repl@.update(0, upper_first(repl@[0])));
            r
        }
    } else {
        copy_chars(repl)
    }
}

/// Corrects one token against the vocabulary. `vo` holds the entries as
/// spelled, `vl` their lowercased forms.
fn correct_token(tok: &Vec<char>, vo: &Vec<Vec<char>>, vl: &Vec<Vec<char>>, t: Threshold) -> (r:
    Vec<char>)
    requires
        vl.deep_view().len() == vo.deep_view().len(),
        forall|m: int|
            0 <= m < vo.deep_view().len() ==> vl.deep_view()[m] == lower_seq(
                #[trigger] vo.deep_view()[m],
            ),
    ensures
        r@ == token_out(tok@, vo.deep_view(), t),
{
    let ghost vocab = vo.deep_view();
    let n = tok.len();
    // leading run of non-alphabetic characters
    let mut p: usize = 0;
    while p < n && !char_is_alphabetic(tok[p])
        invariant
            p <= n,
            n == tok@.len(),
            forall|m: int| 0 <= m < p ==> !is_alpha(#[trigger] tok@[m]),
        decreases n - p,
    {
        p = p + 1;
    }
    proof {
        lemma_pre_len_is(tok@, p as int);
    }
    if p == n {
        // no alphabetic character: the cleaned form is empty
        assert(trim_non_alpha(tok@) =~= Seq::<char>::empty());
        assert(lower_seq(trim_non_alpha(tok@)).len() == 0);
        return copy_chars(tok);
    }
    // trailing run of non-alphabetic characters
    let mut q: usize = 0;
    while q < n && !char_is_alphabetic(tok[n - 1 - q])
        invariant
            q <= n,
            n == tok@.len(),
            forall|m: int| n - q <= m < n ==> !is_alpha(#[trigger] tok@[m]),
        decreases n - q,
    {
        q = q + 1;
    }
    proof {
        lemma_suf_len_is(tok@, q as int);
        assert(is_alpha(tok@[p as int]));
        assert(p + q < n || !is_alpha(tok@[p as int]));
    }
    let mut trimmed: Vec<char> = Vec::new();
    let mut m: usize = p;
    while m < n - q
        invariant
            p <= m <= n - q,
            q < n,
            n == tok@.len(),
            trimmed@ == tok@.subrange(p as int, m as int),
        decreases n - q - m,
    {
        trimmed.push(tok[m]);
        m = m + 1;
        assert(trimmed@ =~= tok@.subrange(p as int, m as int));
    }
    assert(trimmed@ == trim_non_alpha(tok@));
    let cleaned = lower_chars(&trimmed);
    let ghost cl = lower_seq(trim_non_alpha(tok@));
    if cleaned.len() == 0 || cleaned.len() > 50 {
        return copy_chars(tok);
    }
    // scan the vocabulary for the best-scoring entry under the threshold
    let ghost vls = vl.deep_view();
    proof {
        assert(vls =~= vocab.map_values(|w: Seq<char>| lower_seq(w)));
    }
    let mut have_best = false;
    let mut best: usize = 0;
    let mut bnum: u128 = 0;
    let mut bden: u128 = 1;
    let mut i: usize = 0;
    while i < vl.len()
        invariant
            vl@.len() == vls.len(),
            cleaned@ == cl,
            1 <= cleaned@.len() <= 50,
            i <= vls.len(),
            forall|m: int| 0 <= m < vls.len() ==> vls[m] == #[trigger] vl@[m]@,
            !have_best ==> best_upto(cl, vls, t, i as int) is None,
            have_best ==> best_upto(cl, vls, t, i as int) == Some(best as int),
            have_best ==> best < i && bnum == cand_num(cl, vls[best as int]) && bden == cand_den(
                cl,
                vls[best as int],
            ),
            have_best ==> bnum <= 550 && bden <= 550,
        decreases vls.len() - i,
    {
        let v = &vl[i];
        let cln = cleaned.len();
        let vn = v.len();
        let considered = if cln >= vn {
            cln - vn <= 5
        } else {
            vn - cln <= 5
        };
        if considered {
            let lev = levenshtein_chars(&cleaned, v);
            proof {
                lemma_edit_dist_le_max(cleaned@, v@);
            }
            let phon = if vn > 0 {
                soundex_chars(&cleaned, v)
            } else {
                false
            };
            assert(phon == phonetic_match(cl, vls[i as int]));
            let num: u128 = (lev as u128) * (if phon {
                3
            } else {
                10
            });
            let den: u128 = 10 * (if cln >= vn {
                cln as u128
            } else {
                vn as u128
            });
            assert(num == cand_num(cl, vls[i as int]));
            assert(den == cand_den(cl, vls[i as int]));
            proof {
                vstd::arithmetic::mul::lemma_mul_upper_bound(
                    num as int,
                    550,
                    t.den as int,
                    0xffff_ffff_ffff_ffff,
                );
                vstd::arithmetic::mul::lemma_mul_upper_bound(
                    t.num as int,
                    0xffff_ffff_ffff_ffff,
                    den as int,
                    550,
                );
            }
            if num * (t.den as u128) < (t.num as u128) * den {
                proof {
                    if have_best {
                        vstd::arithmetic::mul::lemma_mul_upper_bound(
                            num as int,
                            550,
                            bnum as int,
                            550,
                        );
                        vstd::arithmetic::mul::lemma_mul_upper_bound(
                            num as int,
                            550,
                            bden as int,
                            550,
                        );
                        vstd::arithmetic::mul::lemma_mul_upper_bound(
                            bnum as int,
                            550,
                            den as int,
                            550,
                        );
                    }
                }
                if !have_best || num * bden < bnum * den {
                    have_best = true;
                    best = i;
                    bnum = num;
                    bden = den;
                }
            }
        }
        i = i + 1;
    }
    if have_best {
        let corrected = preserve_case_chars(tok, &vo[best]);
        let mut out: Vec<char> = Vec::new();
        let mut m: usize = 0;
        while m < p
            invariant
                m <= p,
                p < n,
                n == tok@.len(),
                out@ == tok@.subrange(0, m as int),
            decreases p - m,
        {
            out.push(tok[m]);
            m = m + 1;
            assert(out@ =~= tok@.subrange(0, m as int));
        }
        extend_chars(&mut out, &corrected);
        proof {
            assert(vls.len() == vo.deep_view().len());
            assert(vocab[best as int] == vo@[best as int]@);
            assert(out@ =~= tok@.subrange(0, p as int) + preserve_case(tok@, vocab[best as int])
                + tok@.subrange(n - q as int, n - q as int));
        }
        let mut m2: usize = n - q;
        while m2 < n
            invariant
                n - q <= m2 <= n,
                q < n == tok@.len(),
                out@ == tok@.subrange(0, p as int) + preserve_case(tok@, vocab[best as int])
                    + tok@.subrange(n - q, m2 as int),
            decreases n - m2,
        {
            out.push(tok[m2]);
            m2 = m2 + 1;
            assert(out@ =~= tok@.subrange(0, p as int) + preserve_case(tok@, vocab[best as int])
                + tok@.subrange(n - q as int, m2 as int));
        }
        proof {
            assert(vocab[best as int] == vo@[best as int]@);
            assert(tok@.take(pre_len(tok@) as int) =~= tok@.subrange(0, p as int));
            assert(tok@.skip(tok@.len() - suf_len(tok@)) =~= tok@.subrange(n - q, n as int));
            assert(out@ =~= token_out(tok@, vocab, t));
        }
        out
    } else {
        copy_chars(tok)
    }
}

/// Preserves the case pattern of the original word when applying a
/// replacement: all-uppercase originals uppercase the whole replacement,
/// originals with an uppercase first character uppercase only the
/// replacement's first character, and any other original leaves the
/// replacement unchanged.
pub fn preserve_case_pattern(original: &str, replacement: &str) -> (r: String)
    ensures
        r@ == preserve_case(original@, replacement@),
{
    let o = str_chars(original);
    let p = str_chars(replacement);
    let out = preserve_case_chars(&o, &p);
    chars_to_string(&out)
}

/// Extracts the leading and trailing runs of non-alphabetic characters of a
/// word; for a word with no alphabetic character at all, both halves are the
/// whole word.
pub fn extract_punctuation(word: &str) -> (r: (&str, &str))
    ensures
        r.0@ == word@.take(pre_len(word@) as int),
        r.1@ == word@.skip(word@.len() - suf_len(word@)),
{
    let n = word.unicode_len();
    let mut p: usize = 0;
    while p < n && !char_is_alphabetic(word.get_char(p))
        invariant
            p <= n,
            n == word@.len(),
            forall|m: int| 0 <= m < p ==> !is_alpha(#[trigger] word@[m]),
        decreases n - p,
    {
        p = p + 1;
    }
    proof {
        lemma_pre_len_is(word@, p as int);
    }
    let mut q: usize = 0;
    while q < n && !char_is_alphabetic(word.get_char(n - 1 - q))
        invariant
            q <= n,
            n == word@.len(),
            forall|m: int| n - q <= m < n ==> !is_alpha(#[trigger] word@[m]),
        decreases n - q,
    {
        q = q + 1;
    }
    proof {
        lemma_suf_len_is(word@, q as int);
    }
    let prefix = word.substring_char(0, p);
    let suffix = word.substring_char(n - q, n);
    proof {
        assert(prefix@ =~= word@.take(pre_len(word@) as int));
        assert(suffix@ =~= word@.skip(word@.len() - suf_len(word@)));
    }
    (prefix, suffix)
}

/// Applies custom word corrections to transcribed text by fuzzy matching:
/// each whitespace token is scored against every vocabulary entry by
/// normalized edit distance, shrunk to three tenths on a Soundex match, and
/// the lowest score strictly below `threshold` wins, first-seen on ties.
/// The winner is recased after the token and re-wrapped in the token's
/// leading and trailing non-alphabetic characters; corrected tokens are
/// rejoined with single spaces. An empty vocabulary returns the text
/// unchanged.
pub fn apply_custom_words(text: &str, custom_words: &Vec<String>, threshold: Threshold) -> (res:
    String)
    ensures
        res@ == spec_apply_custom_words(text@, custom_words.deep_view(), threshold),
{
    let ghost vocab = custom_words.deep_view();
    if custom_words.len() == 0 {
        return text.to_owned();
    }
    let tchars = str_chars(text);
    let toks = split_ws_exec(&tchars);
    let mut vo: Vec<Vec<char>> = Vec::new();
    let mut vl: Vec<Vec<char>> = Vec::new();
    let mut i: usize = 0;
    while i < custom_words.len()
        invariant
            vocab == custom_words.deep_view(),
            vocab.len() == custom_words@.len(),
            i <= vocab.len(),
            vo@.len() == i,
            vl@.len() == i,
            forall|m: int| 0 <= m < i ==> #[trigger] vo@[m]@ == vocab[m],
            forall|m: int| 0 <= m < i ==> #[trigger] vl@[m]@ == lower_seq(vocab[m]),
        decreases vocab.len() - i,
    {
        proof {
            assert(vocab[i as int] == custom_words@[i as int]@);
        }
        let wc = str_chars(custom_words[i].as_str());
        let wl = lower_chars(&wc);
        vo.push(wc);
        vl.push(wl);
        i = i + 1;
    }
    proof {
        assert forall|m: int| 0 <= m < vo.deep_view().len() implies vo.deep_view()[m]
            == vocab[m] by {
            assert(vo@[m].deep_view() =~= vo@[m]@);
        }
        assert(vo.deep_view() =~= vocab);
        assert forall|m: int| 0 <= m < vo.deep_view().len() implies vl.deep_view()[m] == lower_seq(
            #[trigger] vo.deep_view()[m],
        ) by {
            assert(vl@[m].deep_view() =~= vl@[m]@);
            assert(vl.deep_view()[m] == vl@[m]@);
            assert(vo.deep_view()[m] == vo@[m]@);
        }
    }
    let ghost tv = toks.deep_view();
    let mut out_toks: Vec<Vec<char>> = Vec::new();
    let mut ti: usize = 0;
    while ti < toks.len()
        invariant
            vocab.len() > 0,
            tv == toks.deep_view(),
            tv.len() == toks@.len(),
            vl.deep_view().len() == vo.deep_view().len(),
            forall|m: int|
                0 <= m < vo.deep_view().len() ==> vl.deep_view()[m] == lower_seq(
                    #[trigger] vo.deep_view()[m],
                ),
            vo.deep_view() == vocab,
            ti <= tv.len(),
            out_toks.deep_view() =~= tv.take(ti as int).map_values(
                |tok: Seq<char>| token_out(tok, vocab, threshold),
            ),
        decreases tv.len() - ti,
    {
        proof {
            assert(tv[ti as int] == toks@[ti as int]@);
        }
        let out = correct_token(&toks[ti], &vo, &vl, threshold);
        let ghost old_out = out_toks.deep_view();
        let ghost old_vec = out_toks@;
        out_toks.push(out);
        proof {
            assert forall|m: int|
                0 <= m < out_toks.deep_view().len() implies out_toks.deep_view()[m] == (old_out
                + seq![token_out(tv[ti as int], vocab, threshold)])[m] by {
                if m < old_vec.len() {
                    assert(out_toks@[m] == old_vec[m]);
                } else {
                    assert(out_toks@[m]@ == token_out(tv[ti as int], vocab, threshold));
                }
            }
            assert(out_toks.deep_view() =~= old_out + seq![
                token_out(tv[ti as int], vocab, threshold),
            ]);
            assert(out_toks.deep_view() =~= tv.take(ti + 1).map_values(
                |tok: Seq<char>| token_out(tok, vocab, threshold),
            ));
        }
        ti = ti + 1;
    }
    proof {
        assert(tv.take(tv.len() as int) =~= tv);
        assert(tv =~= split_ws(text@));
    }
    let joined = join_sp_exec(&out_toks);
    chars_to_string(&joined)
}

} // verus!
