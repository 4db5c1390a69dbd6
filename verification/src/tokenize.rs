//! Whitespace tokenization and single-space joining.

use vstd::prelude::*;

use crate::chars::char_is_whitespace;
use crate::chars::extend_chars;
use crate::chars::is_ws;

verus! {

/// Length of the leading run of non-whitespace characters.
pub open spec fn tok_len(s: Seq<char>) -> nat
    decreases s.len(),
{
    if s.len() == 0 || is_ws(s[0]) {
        0
    } else {
        1 + tok_len(s.drop_first())
    }
}

pub proof fn lemma_tok_len(s: Seq<char>)
    ensures
        tok_len(s) <= s.len(),
        forall|k: int| 0 <= k < tok_len(s) ==> !is_ws(#[trigger] s[k]),
        tok_len(s) < s.len() ==> is_ws(s[tok_len(s) as int]),
    decreases s.len(),
{
    if s.len() == 0 || is_ws(s[0]) {
    } else {
        lemma_tok_len(s.drop_first());
        assert forall|k: int| 0 <= k < tok_len(s) implies !is_ws(#[trigger] s[k]) by {
            if k > 0 {
                assert(s.drop_first()[k - 1] == s[k]);
            }
        }
        if tok_len(s) < s.len() {
            assert(s.drop_first()[tok_len(s) as int - 1] == s[tok_len(s) as int]);
        }
    }
}

/// `tok_len` is pinned down by where the first whitespace character stands.
pub proof fn lemma_tok_len_is(s: Seq<char>, k: int)
    requires
        0 <= k <= s.len(),
        forall|m: int| 0 <= m < k ==> !is_ws(#[trigger] s[m]),
        k < s.len() ==> is_ws(s[k]),
    ensures
        tok_len(s) == k,
    decreases s.len(),
{
    if s.len() == 0 || is_ws(s[0]) {
        assert(k == 0);
    } else {
        assert(k >= 1);
        let d = s.drop_first();
        assert forall|m: int| 0 <= m < k - 1 implies !is_ws(#[trigger] d[m]) by {
            assert(d[m] == s[m + 1]);
        }
        if k - 1 < d.len() {
            assert(d[k - 1] == s[k]);
        }
        lemma_tok_len_is(d, k - 1);
    }
}

/// The whitespace-separated tokens of `s`, in order.
pub open spec fn split_ws(s: Seq<char>) -> Seq<Seq<char>>
    decreases s.len(),
    via split_ws_decreases
{
    if s.len() == 0 {
        Seq::empty()
    } else if is_ws(s[0]) {
        split_ws(s.drop_first())
    } else {
        seq![s.take(tok_len(s) as int)] + split_ws(s.skip(tok_len(s) as int))
    }
}

#[via_fn]
proof fn split_ws_decreases(s: Seq<char>) {
    if s.len() != 0 && !is_ws(s[0]) {
        lemma_tok_len(s);
    }
}

/// A token free of whitespace characters.
pub open spec fn ws_free(t: Seq<char>) -> bool {
    forall|k: int| 0 <= k < t.len() ==> !is_ws(#[trigger] t[k])
}

/// Every token of the list is nonempty and free of whitespace.
pub open spec fn good_tokens(toks: Seq<Seq<char>>) -> bool {
    forall|j: int|
        0 <= j < toks.len() ==> (#[trigger] toks[j]).len() > 0 && ws_free(toks[j])
}

pub proof fn lemma_split_ws_good(s: Seq<char>)
    ensures
        good_tokens(split_ws(s)),
    decreases s.len(),
{
    if s.len() == 0 {
    } else if is_ws(s[0]) {
        lemma_split_ws_good(s.drop_first());
    } else {
        lemma_tok_len(s);
        lemma_split_ws_good(s.skip(tok_len(s) as int));
        let t = s.take(tok_len(s) as int);
        assert(t.len() > 0);
        assert(ws_free(t));
    }
}

/// What follows a token in a joined string: a space, the token, the rest.
pub open spec fn join_tail(toks: Seq<Seq<char>>, i: int) -> Seq<char>
    decreases toks.len() - i,
{
    if i < 0 || i >= toks.len() {
        Seq::empty()
    } else {
        seq![' '] + toks[i] + join_tail(toks, i + 1)
    }
}

/// The tokens joined with single spaces.
pub open spec fn join_sp(toks: Seq<Seq<char>>) -> Seq<char> {
    if toks.len() == 0 {
        Seq::empty()
    } else {
        toks[0] + join_tail(toks, 1)
    }
}

/// Appends a token to a token list, tracking the deep view.
pub fn push_tok(out: &mut Vec<Vec<char>>, t: Vec<char>)
    ensures
        final(out).deep_view() == old(out).deep_view() + seq![t@],
{
    let ghost old_dv = out.deep_view();
    let ghost old_vec = out@;
    let ghost tv = t@;
    out.push(t);
    proof {
        assert forall|m: int|
            0 <= m < out.deep_view().len() implies out.deep_view()[m] == (old_dv + seq![tv])[m] by {
            if m < old_vec.len() {
                assert(out@[m] == old_vec[m]);
            } else {
                assert(out@[m]@ == tv);
                assert(out@[m].deep_view() =~= out@[m]@);
            }
        }
        assert(out.deep_view() =~= old_dv + seq![tv]);
    }
}

/// Splits a character sequence on runs of whitespace.
pub fn split_ws_exec(s: &Vec<char>) -> (r: Vec<Vec<char>>)
    ensures
        r.deep_view() == split_ws(s@),
{
    let n = s.len();
    let mut toks: Vec<Vec<char>> = Vec::new();
    proof {
        assert(toks.deep_view() =~= Seq::<Seq<char>>::empty());
        assert(s@.skip(0) =~= s@);
        assert(toks.deep_view() + split_ws(s@.skip(0)) =~= split_ws(s@));
    }
    let mut i: usize = 0;
    while i < n
        invariant
            n == s@.len(),
            i <= n,
            toks.deep_view() + split_ws(s@.skip(i as int)) == split_ws(s@),
        decreases n - i,
    {
        if char_is_whitespace(s[i]) {
            proof {
                assert(s@.skip(i as int).drop_first() =~= s@.skip(i as int + 1));
                assert(toks.deep_view() + split_ws(s@.skip(i as int + 1)) =~= toks.deep_view()
                    + split_ws(s@.skip(i as int)));
            }
            i = i + 1;
        } else {
            let i0 = i;
            let mut j: usize = i;
            while j < n && !char_is_whitespace(s[j])
                invariant
                    n == s@.len(),
                    i0 <= j <= n,
                    forall|m: int| i0 <= m < j ==> !is_ws(#[trigger] s@[m]),
                decreases n - j,
            {
                j = j + 1;
            }
            let mut tok: Vec<char> = Vec::new();
            let mut k: usize = i0;
            while k < j
                invariant
                    i0 <= k <= j <= n,
                    n == s@.len(),
                    tok@ == s@.subrange(i0 as int, k as int),
                decreases j - k,
            {
                tok.push(s[k]);
                k = k + 1;
                assert(tok@ =~= s@.subrange(i0 as int, k as int));
            }
            proof {
                let rest = s@.skip(i0 as int);
                assert forall|m: int| 0 <= m < j - i0 implies !is_ws(#[trigger] rest[m]) by {
                    assert(rest[m] == s@[m + i0]);
                }
                if j < n {
                    assert(rest[j - i0] == s@[j as int]);
                }
                lemma_tok_len_is(rest, j - i0);
                assert(rest.take(tok_len(rest) as int) =~= tok@);
                assert(rest.skip(tok_len(rest) as int) =~= s@.skip(j as int));
                assert(split_ws(rest) == seq![tok@] + split_ws(s@.skip(j as int)));
            }
            let ghost old_toks = toks.deep_view();
            let ghost old_vec = toks@;
            toks.push(tok);
            proof {
                assert(toks@ == old_vec.push(tok));
                assert forall|m: int|
                    0 <= m < toks.deep_view().len() implies toks.deep_view()[m] == (old_toks
                    + seq![tok@])[m] by {
                    if m < old_vec.len() {
                        assert(toks@[m] == old_vec[m]);
                    } else {
                        assert(toks@[m] == tok);
                        assert(toks@[m].deep_view() =~= tok@);
                    }
                }
                assert(toks.deep_view() =~= old_toks + seq![tok@]);
                assert(toks.deep_view() + split_ws(s@.skip(j as int)) =~= old_toks + split_ws(
                    s@.skip(i0 as int),
                ));
            }
            i = j;
        }
    }
    proof {
        assert(s@.skip(n as int) =~= Seq::<char>::empty());
        assert(toks.deep_view() + split_ws(s@.skip(n as int)) =~= toks.deep_view());
    }
    toks
}

/// Joins tokens with single spaces.
pub fn join_sp_exec(toks: &Vec<Vec<char>>) -> (r: Vec<char>)
    ensures
        r@ == join_sp(toks.deep_view()),
{
    let ghost tv = toks.deep_view();
    let n = toks.len();
    let mut out: Vec<char> = Vec::new();
    if n == 0 {
        return out;
    }
    proof {
        assert(tv[0] == toks@[0]@);
    }
    extend_chars(&mut out, &toks[0]);
    let mut i: usize = 1;
    while i < n
        invariant
            n == tv.len(),
            n == toks@.len(),
            tv == toks.deep_view(),
            1 <= i <= n,
            out@ + join_tail(tv, i as int) == join_sp(tv),
        decreases n - i,
    {
        out.push(' ');
        proof {
            assert(tv[i as int] == toks@[i as int]@);
        }
        extend_chars(&mut out, &toks[i]);
        proof {
            assert(out@ + join_tail(tv, i as int + 1) =~= (out@ + join_tail(tv, i as int + 1)));
            assert(join_tail(tv, i as int) == seq![' '] + tv[i as int] + join_tail(
                tv,
                i as int + 1,
            ));
            assert(out@ + join_tail(tv, i as int + 1) =~= join_sp(tv));
        }
        i = i + 1;
    }
    proof {
        assert(out@ + join_tail(tv, n as int) =~= out@);
    }
    out
}

} // verus!
