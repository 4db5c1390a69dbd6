//! Disfluency filtering: filler-word removal, stutter collapsing, and
//! whitespace cleanup, applied in that fixed order.

use vstd::prelude::*;

use crate::chars::ascii_lower;
use crate::chars::ascii_lower_char;
use crate::chars::char_is_alphabetic;
use crate::chars::char_is_alphanumeric;
use crate::chars::char_is_whitespace;
use crate::chars::chars_to_string;
use crate::chars::copy_chars;
use crate::chars::is_alpha;
use crate::chars::is_word_char;
use crate::chars::is_ws;
use crate::chars::lower_chars;
use crate::chars::lower_seq;
use crate::chars::str_chars;
use crate::tokenize::join_sp;
use crate::tokenize::join_sp_exec;
use crate::tokenize::push_tok;
use crate::tokenize::split_ws;
use crate::tokenize::split_ws_exec;

verus! {

/// The fixed filler lexemes, in the order their removal passes run.
pub open spec fn filler(i: int) -> Seq<char> {
    if i == 0 {
        seq!['u', 'h']
    } else if i == 1 {
        seq!['u', 'm']
    } else if i == 2 {
        seq!['u', 'h', 'm']
    } else if i == 3 {
        seq!['u', 'm', 'm']
    } else if i == 4 {
        seq!['u', 'h', 'h']
    } else if i == 5 {
        seq!['u', 'h', 'h', 'h']
    } else if i == 6 {
        seq!['a', 'h']
    } else if i == 7 {
        seq!['e', 'h']
    } else if i == 8 {
        seq!['h', 'm', 'm']
    } else if i == 9 {
        seq!['h', 'm']
    } else if i == 10 {
        seq!['m', 'm', 'm']
    } else if i == 11 {
        seq!['m', 'm']
    } else if i == 12 {
        seq!['m', 'h']
    } else if i == 13 {
        seq!['h', 'a']
    } else if i == 14 {
        seq!['e', 'h', 'h']
    } else {
        Seq::empty()
    }
}

/// How many filler lexemes there are.
pub open spec fn filler_count() -> int {
    15
}

/// A whole-word occurrence of the filler `w` stands at the head of `s`:
/// `w` is nonempty, matches ASCII-case-insensitively, and is followed by a
/// word boundary. The boundary before the occurrence is the caller's to
/// check, through the flag fed to `remove_filler`.
pub open spec fn matches_head(s: Seq<char>, w: Seq<char>) -> bool {
    &&& w.len() > 0
    &&& s.len() >= w.len()
    &&& (forall|k: int| 0 <= k < w.len() ==> ascii_lower(#[trigger] s[k]) == w[k])
    &&& (s.len() == w.len() || !is_word_char(s[w.len() as int]))
}

/// How much a match at the head of `s` consumes: the word itself, plus one
/// directly trailing comma or period.
pub open spec fn match_len(s: Seq<char>, w: Seq<char>) -> nat {
    if s.len() > w.len() && (s[w.len() as int] == ',' || s[w.len() as int] == '.') {
        w.len() + 1
    } else {
        w.len()
    }
}

/// One removal pass for the filler `w`, scanning left to right; `prev_word`
/// says whether the character just before the scan position was a word
/// character, which suppresses the word boundary a match needs.
pub open spec fn remove_filler(s: Seq<char>, w: Seq<char>, prev_word: bool) -> Seq<char>
    decreases s.len(),
    via remove_filler_decreases
{
    if s.len() == 0 {
        Seq::empty()
    } else if !prev_word && matches_head(s, w) {
        remove_filler(
            s.skip(match_len(s, w) as int),
            w,
            is_word_char(s[match_len(s, w) as int - 1]),
        )
    } else {
        seq![s[0]] + remove_filler(s.drop_first(), w, is_word_char(s[0]))
    }
}

#[via_fn]
proof fn remove_filler_decreases(s: Seq<char>, w: Seq<char>, prev_word: bool) {
    if s.len() != 0 && !prev_word && matches_head(s, w) {
        assert(1 <= match_len(s, w) <= s.len());
    }
}

/// The filler passes applied in order, up to lexeme `k`.
pub open spec fn remove_fillers_upto(s: Seq<char>, k: int) -> Seq<char>
    decreases k,
{
    if k <= 0 {
        s
    } else {
        remove_filler(remove_fillers_upto(s, k - 1), filler(k - 1), false)
    }
}

/// All filler passes applied in order.
pub open spec fn remove_all_fillers(s: Seq<char>) -> Seq<char> {
    remove_fillers_upto(s, filler_count())
}

/// A token takes part in stutter collapsing when its lowercased form has at
/// most two characters, all alphabetic.
pub open spec fn stutter_eligible(wl: Seq<char>) -> bool {
    wl.len() <= 2 && (forall|k: int| 0 <= k < wl.len() ==> is_alpha(#[trigger] wl[k]))
}

/// Length of the leading run of tokens whose lowercased form is `wl`.
pub open spec fn run_len(toks: Seq<Seq<char>>, wl: Seq<char>) -> nat
    decreases toks.len(),
{
    if toks.len() > 0 && lower_seq(toks[0]) == wl {
        1 + run_len(toks.drop_first(), wl)
    } else {
        0
    }
}

pub proof fn lemma_run_len_le(toks: Seq<Seq<char>>, wl: Seq<char>)
    ensures
        run_len(toks, wl) <= toks.len(),
    decreases toks.len(),
{
    if toks.len() > 0 && lower_seq(toks[0]) == wl {
        lemma_run_len_le(toks.drop_first(), wl);
    }
}

/// `run_len` is pinned down by where the run of equal tokens ends.
pub proof fn lemma_run_len_is(toks: Seq<Seq<char>>, wl: Seq<char>, c: int)
    requires
        0 <= c <= toks.len(),
        forall|m: int| 0 <= m < c ==> lower_seq(#[trigger] toks[m]) == wl,
        c < toks.len() ==> lower_seq(toks[c]) != wl,
    ensures
        run_len(toks, wl) == c,
    decreases toks.len(),
{
    if toks.len() > 0 && lower_seq(toks[0]) == wl {
        assert(c >= 1);
        let d = toks.drop_first();
        assert forall|m: int| 0 <= m < c - 1 implies lower_seq(#[trigger] d[m]) == wl by {
            assert(d[m] == toks[m + 1]);
        }
        if c - 1 < d.len() {
            assert(d[c - 1] == toks[c]);
        }
        lemma_run_len_is(d, wl, c - 1);
    } else {
        assert(c == 0);
    }
}

/// Stutter collapsing over a token list: a run of three or more consecutive
/// tokens that agree case-insensitively, each eligible (at most two letters),
/// collapses to its first token; runs of one or two stay as they are, as do
/// ineligible tokens.
pub open spec fn collapse(toks: Seq<Seq<char>>) -> Seq<Seq<char>>
    decreases toks.len(),
    via collapse_decreases
{
    if toks.len() == 0 {
        Seq::empty()
    } else {
        let wl = lower_seq(toks[0]);
        if stutter_eligible(wl) && run_len(toks, wl) >= 3 {
            seq![toks[0]] + collapse(toks.skip(run_len(toks, wl) as int))
        } else {
            seq![toks[0]] + collapse(toks.drop_first())
        }
    }
}

#[via_fn]
proof fn collapse_decreases(toks: Seq<Seq<char>>) {
    if toks.len() != 0 {
        lemma_run_len_le(toks, lower_seq(toks[0]));
    }
}

/// Stutter collapsing over text: tokenize, collapse, rejoin with single
/// spaces; text without any token passes through unchanged.
pub open spec fn spec_collapse_stutters(s: Seq<char>) -> Seq<char> {
    let toks = split_ws(s);
    if toks.len() == 0 {
        s
    } else {
        join_sp(collapse(toks))
    }
}

/// Length of the leading run of whitespace characters.
pub open spec fn ws_run(s: Seq<char>) -> nat
    decreases s.len(),
{
    if s.len() > 0 && is_ws(s[0]) {
        1 + ws_run(s.drop_first())
    } else {
        0
    }
}

pub proof fn lemma_ws_run_le(s: Seq<char>)
    ensures
        ws_run(s) <= s.len(),
    decreases s.len(),
{
    if s.len() > 0 && is_ws(s[0]) {
        lemma_ws_run_le(s.drop_first());
    }
}

/// `ws_run` is pinned down by where the whitespace run ends.
pub proof fn lemma_ws_run_is(s: Seq<char>, c: int)
    requires
        0 <= c <= s.len(),
        forall|m: int| 0 <= m < c ==> is_ws(#[trigger] s[m]),
        c < s.len() ==> !is_ws(s[c]),
    ensures
        ws_run(s) == c,
    decreases s.len(),
{
    if s.len() > 0 && is_ws(s[0]) {
        assert(c >= 1);
        let d = s.drop_first();
        assert forall|m: int| 0 <= m < c - 1 implies is_ws(#[trigger] d[m]) by {
            assert(d[m] == s[m + 1]);
        }
        if c - 1 < d.len() {
            assert(d[c - 1] == s[c]);
        }
        lemma_ws_run_is(d, c - 1);
    } else {
        assert(c == 0);
    }
}

/// Whitespace normalization: every run of two or more whitespace characters
/// becomes a single space; a lone whitespace character stays as it is.
pub open spec fn norm_ws(s: Seq<char>) -> Seq<char>
    decreases s.len(),
    via norm_ws_decreases
{
    if s.len() == 0 {
        Seq::empty()
    } else if s.len() >= 2 && is_ws(s[0]) && is_ws(s[1]) {
        seq![' '] + norm_ws(s.skip(ws_run(s) as int))
    } else {
        seq![s[0]] + norm_ws(s.drop_first())
    }
}

#[via_fn]
proof fn norm_ws_decreases(s: Seq<char>) {
    if s.len() >= 2 && is_ws(s[0]) && is_ws(s[1]) {
        lemma_ws_run_le(s);
        assert(ws_run(s) >= 1);
    }
}

/// The sequence without its leading whitespace.
pub open spec fn trim_start(s: Seq<char>) -> Seq<char>
    decreases s.len(),
{
    if s.len() > 0 && is_ws(s[0]) {
        trim_start(s.drop_first())
    } else {
        s
    }
}

/// The sequence without its trailing whitespace.
pub open spec fn trim_end(s: Seq<char>) -> Seq<char>
    decreases s.len(),
{
    if s.len() > 0 && is_ws(s.last()) {
        trim_end(s.drop_last())
    } else {
        s
    }
}

/// The sequence without leading and trailing whitespace.
pub open spec fn spec_trim(s: Seq<char>) -> Seq<char> {
    trim_end(trim_start(s))
}

/// The whole filter: filler passes, stutter collapsing, whitespace
/// normalization, and a final trim, in that order.
pub open spec fn spec_filter(s: Seq<char>) -> Seq<char> {
    spec_trim(norm_ws(spec_collapse_stutters(remove_all_fillers(s))))
}

/// The filler lexeme with index `i`, as characters.
fn filler_word(i: usize) -> (r: Vec<char>)
    requires
        i < filler_count(),
    ensures
        r@ == filler(i as int),
{
    let r: Vec<char> = if i == 0 {
        vec!['u', 'h']
    } else if i == 1 {
        vec!['u', 'm']
    } else if i == 2 {
        vec!['u', 'h', 'm']
    } else if i == 3 {
        vec!['u', 'm', 'm']
    } else if i == 4 {
        vec!['u', 'h', 'h']
    } else if i == 5 {
        vec!['u', 'h', 'h', 'h']
    } else if i == 6 {
        vec!['a', 'h']
    } else if i == 7 {
        vec!['e', 'h']
    } else if i == 8 {
        vec!['h', 'm', 'm']
    } else if i == 9 {
        vec!['h', 'm']
    } else if i == 10 {
        vec!['m', 'm', 'm']
    } else if i == 11 {
        vec!['m', 'm']
    } else if i == 12 {
        vec!['m', 'h']
    } else if i == 13 {
        vec!['h', 'a']
    } else {
        vec!['e', 'h', 'h']
    };
    proof {
        assert(r@ =~= filler(i as int));
    }
    r
}

/// Whether `c` is a word character: alphanumeric or underscore.
fn word_char(c: char) -> (r: bool)
    ensures
        r == is_word_char(c),
{
    char_is_alphanumeric(c) || c == '_'
}

/// Whether a whole-word occurrence of `w` stands at position `i` of `s`.
fn matches_at(s: &Vec<char>, w: &Vec<char>, i: usize) -> (r: bool)
    requires
        i <= s@.len(),
    ensures
        r == matches_head(s@.skip(i as int), w@),
{
    let ghost tail = s@.skip(i as int);
    let n = s.len();
    let wn = w.len();
    if wn == 0 || n - i < wn {
        return false;
    }
    let mut k: usize = 0;
    while k < wn
        invariant
            n == s@.len(),
            wn == w@.len(),
            i + wn <= n,
            tail == s@.skip(i as int),
            k <= wn,
            forall|m: int| 0 <= m < k ==> ascii_lower(#[trigger] tail[m]) == w@[m],
        decreases wn - k,
    {
        proof {
            assert(tail[k as int] == s@[i + k]);
        }
        if ascii_lower_char(s[i + k]) != w[k] {
            return false;
        }
        k = k + 1;
    }
    if i + wn == n {
        true
    } else {
        proof {
            assert(tail[w@.len() as int] == s@[i + w@.len()]);
        }
        !word_char(s[i + wn])
    }
}

/// One removal pass over `s` for the filler `w`.
fn remove_filler_exec(s: &Vec<char>, w: &Vec<char>) -> (r: Vec<char>)
    requires
        w@.len() > 0,
    ensures
        r@ == remove_filler(s@, w@, false),
{
    let n = s.len();
    let mut out: Vec<char> = Vec::new();
    let mut i: usize = 0;
    let mut pw = false;
    proof {
        assert(s@.skip(0) =~= s@);
    }
    while i < n
        invariant
            n == s@.len(),
            i <= n,
            w@.len() > 0,
            out@ + remove_filler(s@.skip(i as int), w@, pw) == remove_filler(s@, w@, false),
        decreases n - i,
    {
        let ghost tail = s@.skip(i as int);
        if !pw && matches_at(s, w, i) {
            let wl = w.len();
            let ml = if i + wl < n && (s[i + wl] == ',' || s[i + wl] == '.') {
                wl + 1
            } else {
                wl
            };
            proof {
                if i + wl < n {
                    assert(tail[wl as int] == s@[i + wl]);
                }
                assert(ml == match_len(tail, w@));
                assert(1 <= ml <= tail.len());
                assert(tail.skip(ml as int) =~= s@.skip(i + ml));
                assert(tail[ml - 1] == s@[i + ml - 1]);
            }
            let npw = word_char(s[i + ml - 1]);
            proof {
                assert(remove_filler(tail, w@, pw) == remove_filler(s@.skip(i + ml), w@, npw));
            }
            i = i + ml;
            pw = npw;
        } else {
            proof {
                assert(tail[0] == s@[i as int]);
                assert(tail.drop_first() =~= s@.skip(i as int + 1));
                assert(remove_filler(tail, w@, pw) == seq![s@[i as int]] + remove_filler(
                    s@.skip(i as int + 1),
                    w@,
                    is_word_char(s@[i as int]),
                ));
            }
            let npw = word_char(s[i]);
            out.push(s[i]);
            i = i + 1;
            pw = npw;
        }
    }
    proof {
        assert(s@.skip(n as int) =~= Seq::<char>::empty());
        assert(out@ + remove_filler(s@.skip(n as int), w@, pw) =~= out@);
    }
    out
}

/// Whether two character vectors hold the same characters.
fn eq_chars(a: &Vec<char>, b: &Vec<char>) -> (r: bool)
    ensures
        r == (a@ == b@),
{
    if a.len() != b.len() {
        return false;
    }
    let mut k: usize = 0;
    while k < a.len()
        invariant
            a@.len() == b@.len(),
            k <= a@.len(),
            forall|m: int| 0 <= m < k ==> a@[m] == b@[m],
        decreases a@.len() - k,
    {
        if a[k] != b[k] {
            return false;
        }
        k = k + 1;
    }
    proof {
        assert(a@ =~= b@);
    }
    true
}

/// Whether the lowercased token takes part in stutter collapsing.
fn eligible_exec(wl: &Vec<char>) -> (r: bool)
    ensures
        r == stutter_eligible(wl@),
{
    if wl.len() > 2 {
        return false;
    }
    let mut k: usize = 0;
    while k < wl.len()
        invariant
            k <= wl@.len(),
            forall|m: int| 0 <= m < k ==> is_alpha(#[trigger] wl@[m]),
        decreases wl@.len() - k,
    {
        if !char_is_alphabetic(wl[k]) {
            return false;
        }
        k = k + 1;
    }
    true
}

/// Collapses stutter runs in a token list.
fn collapse_exec(toks: &Vec<Vec<char>>) -> (r: Vec<Vec<char>>)
    ensures
        r.deep_view() == collapse(toks.deep_view()),
{
    let ghost tv = toks.deep_view();
    let n = toks.len();
    let mut out: Vec<Vec<char>> = Vec::new();
    proof {
        assert(tv.skip(0) =~= tv);
        assert(out.deep_view() =~= Seq::<Seq<char>>::empty());
        assert(out.deep_view() + collapse(tv.skip(0)) =~= collapse(tv));
    }
    let mut i: usize = 0;
    while i < n
        invariant
            n == tv.len(),
            n == toks@.len(),
            tv == toks.deep_view(),
            i <= n,
            out.deep_view() + collapse(tv.skip(i as int)) == collapse(tv),
        decreases n - i,
    {
        let ghost tail = tv.skip(i as int);
        proof {
            assert(tail[0] == tv[i as int]);
            assert(tv[i as int] == toks@[i as int]@);
        }
        let wl = lower_chars(&toks[i]);
        let elig = eligible_exec(&wl);
        let mut advance: usize = 1;
        if elig {
            let mut cnt: usize = 1;
            let mut stop = false;
            while !stop && i + cnt < n
                invariant
                    n == tv.len(),
                    n == toks@.len(),
                    tv == toks.deep_view(),
                    i < n,
                    1 <= cnt,
                    i + cnt <= n,
                    wl@ == lower_seq(tv[i as int]),
                    forall|m: int| i <= m < i + cnt ==> lower_seq(#[trigger] tv[m]) == wl@,
                    stop ==> i + cnt < n && lower_seq(tv[i + cnt]) != wl@,
                decreases 2 * (n - i - cnt) + (if stop {
                    0int
                } else {
                    1
                }),
            {
                proof {
                    assert(tv[i + cnt] == toks@[i + cnt]@);
                }
                let nl = lower_chars(&toks[i + cnt]);
                if eq_chars(&nl, &wl) {
                    cnt = cnt + 1;
                } else {
                    stop = true;
                }
            }
            proof {
                assert forall|m: int| 0 <= m < cnt implies lower_seq(#[trigger] tail[m])
                    == wl@ by {
                    assert(tail[m] == tv[i + m]);
                }
                if cnt < tail.len() {
                    assert(tail[cnt as int] == tv[i + cnt]);
                }
                lemma_run_len_is(tail, wl@, cnt as int);
            }
            if cnt >= 3 {
                advance = cnt;
            }
        }
        proof {
            if stutter_eligible(wl@) && run_len(tail, wl@) >= 3 {
                assert(advance == run_len(tail, wl@));
                assert(collapse(tail) == seq![tail[0]] + collapse(tail.skip(advance as int)));
            } else {
                assert(advance == 1);
                assert(tail.drop_first() =~= tail.skip(1));
                assert(collapse(tail) == seq![tail[0]] + collapse(tail.skip(1)));
            }
            assert(tail.skip(advance as int) =~= tv.skip(i + advance));
        }
        let t = copy_chars(&toks[i]);
        let ghost old_out = out.deep_view();
        push_tok(&mut out, t);
        proof {
            assert(out.deep_view() + collapse(tv.skip(i + advance)) =~= old_out + (seq![
                tail[0],
            ] + collapse(tv.skip(i + advance))));
            assert(out.deep_view() + collapse(tv.skip(i + advance)) =~= collapse(tv));
        }
        i = i + advance;
    }
    proof {
        assert(tv.skip(n as int) =~= Seq::<Seq<char>>::empty());
        assert(out.deep_view() + collapse(tv.skip(n as int)) =~= out.deep_view());
    }
    out
}

/// Collapses stutters in text: repeated 1-2 letter words, three or more in
/// a row case-insensitively, shrink to the first occurrence; shorter runs
/// and longer words stay. Tokens are rejoined with single spaces; text with
/// no token at all passes through unchanged.
pub fn collapse_stutters(text: &str) -> (r: String)
    ensures
        r@ == spec_collapse_stutters(text@),
{
    let cs = str_chars(text);
    let out = collapse_stutters_chars(&cs);
    chars_to_string(&out)
}

/// Stutter collapsing over a character vector.
fn collapse_stutters_chars(s: &Vec<char>) -> (r: Vec<char>)
    ensures
        r@ == spec_collapse_stutters(s@),
{
    let toks = split_ws_exec(s);
    if toks.len() == 0 {
        copy_chars(s)
    } else {
        let c = collapse_exec(&toks);
        join_sp_exec(&c)
    }
}

/// Normalizes whitespace: every run of two or more whitespace characters
/// becomes a single space.
fn norm_ws_exec(s: &Vec<char>) -> (r: Vec<char>)
    ensures
        r@ == norm_ws(s@),
{
    let n = s.len();
    let mut out: Vec<char> = Vec::new();
    proof {
        assert(s@.skip(0) =~= s@);
    }
    let mut i: usize = 0;
    while i < n
        invariant
            n == s@.len(),
            i <= n,
            out@ + norm_ws(s@.skip(i as int)) == norm_ws(s@),
        decreases n - i,
    {
        let ghost tail = s@.skip(i as int);
        proof {
            assert(tail[0] == s@[i as int]);
            if i + 1 < n {
                assert(tail[1] == s@[i as int + 1]);
            }
        }
        if i + 1 < n && char_is_whitespace(s[i]) && char_is_whitespace(s[i + 1]) {
            let mut j: usize = i;
            while j < n && char_is_whitespace(s[j])
                invariant
                    n == s@.len(),
                    i <= j <= n,
                    forall|m: int| i <= m < j ==> is_ws(#[trigger] s@[m]),
                decreases n - j,
            {
                j = j + 1;
            }
            proof {
                assert forall|m: int| 0 <= m < j - i implies is_ws(#[trigger] tail[m]) by {
                    assert(tail[m] == s@[i + m]);
                }
                if j < n {
                    assert(tail[j - i] == s@[j as int]);
                }
                lemma_ws_run_is(tail, j - i);
                assert(tail.skip(j - i) =~= s@.skip(j as int));
                assert(norm_ws(tail) == seq![' '] + norm_ws(s@.skip(j as int)));
            }
            out.push(' ');
            i = j;
        } else {
            proof {
                assert(tail.drop_first() =~= s@.skip(i as int + 1));
                assert(norm_ws(tail) == seq![s@[i as int]] + norm_ws(s@.skip(i as int + 1)));
            }
            out.push(s[i]);
            i = i + 1;
        }
    }
    proof {
        assert(s@.skip(n as int) =~= Seq::<char>::empty());
        assert(out@ + norm_ws(s@.skip(n as int)) =~= out@);
    }
    out
}

/// Removes leading and trailing whitespace.
fn trim_exec(s: &Vec<char>) -> (r: Vec<char>)
    ensures
        r@ == spec_trim(s@),
{
    let n = s.len();
    proof {
        assert(s@.skip(0) =~= s@);
    }
    let mut a: usize = 0;
    while a < n && char_is_whitespace(s[a])
        invariant
            n == s@.len(),
            a <= n,
            trim_start(s@) == trim_start(s@.skip(a as int)),
        decreases n - a,
    {
        proof {
            assert(s@.skip(a as int)[0] == s@[a as int]);
            assert(s@.skip(a as int).drop_first() =~= s@.skip(a as int + 1));
        }
        a = a + 1;
    }
    proof {
        if a < n {
            assert(s@.skip(a as int)[0] == s@[a as int]);
        }
        assert(trim_start(s@) == s@.skip(a as int));
    }
    let mut b: usize = n;
    while b > a && char_is_whitespace(s[b - 1])
        invariant
            n == s@.len(),
            a <= b <= n,
            trim_start(s@) == s@.skip(a as int),
            trim_end(s@.skip(a as int)) == trim_end(s@.subrange(a as int, b as int)),
        decreases b,
    {
        proof {
            let cur = s@.subrange(a as int, b as int);
            assert(cur.last() == s@[b as int - 1]);
            assert(cur.drop_last() =~= s@.subrange(a as int, b as int - 1));
        }
        b = b - 1;
    }
    proof {
        let cur = s@.subrange(a as int, b as int);
        if b > a {
            assert(cur.last() == s@[b as int - 1]);
        }
        assert(trim_end(cur) == cur);
        assert(s@.skip(a as int) =~= s@.subrange(a as int, n as int));
    }
    let mut out: Vec<char> = Vec::new();
    let mut m: usize = a;
    while m < b
        invariant
            a <= m <= b <= n,
            n == s@.len(),
            out@ == s@.subrange(a as int, m as int),
        decreases b - m,
    {
        out.push(s[m]);
        m = m + 1;
        assert(out@ =~= s@.subrange(a as int, m as int));
    }
    out
}

/// Filters transcription output: removes the fixed filler words (each
/// optionally taking one trailing comma or period with it), collapses
/// stutter runs of three or more short repeated words, shrinks whitespace
/// runs to single spaces, and trims the ends.
pub fn filter_transcription_output(text: &str) -> (r: String)
    ensures
        r@ == spec_filter(text@),
{
    let mut cur = str_chars(text);
    let mut k: usize = 0;
    while k < 15
        invariant
            k <= 15,
            cur@ == remove_fillers_upto(text@, k as int),
        decreases 15 - k,
    {
        let w = filler_word(k);
        cur = remove_filler_exec(&cur, &w);
        k = k + 1;
    }
    let collapsed = collapse_stutters_chars(&cur);
    let normed = norm_ws_exec(&collapsed);
    let trimmed = trim_exec(&normed);
    chars_to_string(&trimmed)
}

} // verus!
