//! General properties of the two passes, stated and proved over the same
//! spec functions the public contracts use.

use vstd::prelude::*;

use crate::chars::all_ascii;
use crate::chars::ascii_upper;
use crate::chars::is_alpha;
use crate::chars::is_ascii_char;
use crate::chars::is_upper;
use crate::chars::lower_seq;
use crate::chars::upper_first;
use crate::chars::upper_seq;
use crate::correct::all_upper;
use crate::correct::cand_den;
use crate::correct::cand_num;
use crate::correct::phonetic_match;
use crate::correct::preserve_case;
use crate::correct::spec_apply_custom_words;
use crate::correct::token_out;
use crate::correct::trim_non_alpha;
use crate::correct::Threshold;
use crate::distance::edit_dist;
use crate::chars::is_ws;
use crate::filter::collapse;
use crate::filter::norm_ws;
use crate::filter::remove_all_fillers;
use crate::filter::remove_fillers_upto;
use crate::filter::run_len;
use crate::filter::spec_collapse_stutters;
use crate::filter::spec_filter;
use crate::filter::spec_trim;
use crate::filter::stutter_eligible;
use crate::filter::trim_end;
use crate::filter::trim_start;
use crate::filter::ws_run;
use crate::tokenize::good_tokens;
use crate::tokenize::join_sp;
use crate::tokenize::join_tail;
use crate::tokenize::lemma_tok_len_is;
use crate::tokenize::split_ws;
use crate::tokenize::ws_free;

verus! {

/// With an empty vocabulary the corrector returns the text unchanged.
pub proof fn lemma_empty_vocab_identity(text: Seq<char>, t: Threshold)
    ensures
        spec_apply_custom_words(text, Seq::empty(), t) == text,
{
}

/// A token whose cleaned form exceeds fifty characters is never modified by
/// correction.
pub proof fn lemma_long_token_unchanged(tok: Seq<char>, vocab: Seq<Seq<char>>, t: Threshold)
    requires
        lower_seq(trim_non_alpha(tok)).len() > 50,
    ensures
        token_out(tok, vocab, t) == tok,
{
}

/// An ASCII letter.
pub open spec fn ascii_letter(c: char) -> bool {
    is_ascii_char(c) && is_alpha(c)
}

/// Case preservation: recasing after an all-uppercase original uppercases
/// every letter of an ASCII-letter replacement; after an original with an
/// uppercase first character, the replacement keeps its spelling except for
/// an uppercased first letter; after any other original, the replacement is
/// returned exactly as the vocabulary spells it.
pub proof fn lemma_case_preservation(orig: Seq<char>, repl: Seq<char>)
    ensures
        all_upper(orig) && (forall|k: int| 0 <= k < repl.len() ==> ascii_letter(#[trigger] repl[k]))
            ==> all_upper(preserve_case(orig, repl)),
        !all_upper(orig) && orig.len() > 0 && is_upper(orig[0]) && repl.len() > 0 ==> preserve_case(
            orig,
            repl,
        ) == repl.update(0, upper_first(repl[0])),
        !all_upper(orig) && orig.len() > 0 && is_upper(orig[0]) && repl.len() > 0 && ascii_letter(
            repl[0],
        ) ==> is_upper(preserve_case(orig, repl)[0]),
        !all_upper(orig) && (orig.len() == 0 || !is_upper(orig[0])) ==> preserve_case(orig, repl)
            == repl,
{
    if all_upper(orig) && (forall|k: int|
        0 <= k < repl.len() ==> ascii_letter(#[trigger] repl[k])) {
        assert(all_ascii(repl));
        let u = upper_seq(repl);
        assert forall|k: int| 0 <= k < u.len() implies is_upper(#[trigger] u[k]) by {
            assert(u[k] == ascii_upper(repl[k]));
            assert(ascii_letter(repl[k]));
        }
    }
}

/// Phonetic boost: on a Soundex match the combined score is exactly three
/// tenths of the raw normalized edit distance, so it never exceeds it.
/// Cross-multiplied with the longer cleaned length `ml`, the raw score is
/// `edit_dist / ml` and the combined score is `cand_num / cand_den`.
pub proof fn lemma_phonetic_boost(c: Seq<char>, v: Seq<char>)
    requires
        phonetic_match(c, v),
    ensures
        cand_num(c, v) == 3 * edit_dist(c, v),
        cand_den(c, v) == 10 * (if c.len() >= v.len() {
            c.len()
        } else {
            v.len()
        }),
        // combined == (3/10) * raw, as the cross-multiplied equality
        10 * (cand_num(c, v) * (if c.len() >= v.len() {
            c.len()
        } else {
            v.len()
        })) == 3 * (edit_dist(c, v) * cand_den(c, v)),
        // and in particular combined <= raw
        cand_num(c, v) * (if c.len() >= v.len() {
            c.len()
        } else {
            v.len()
        }) <= edit_dist(c, v) * cand_den(c, v),
{
    let ml: nat = if c.len() >= v.len() {
        c.len()
    } else {
        v.len()
    };
    let d = edit_dist(c, v);
    assert(10 * ((3 * d) * ml) == 3 * (d * (10 * ml))) by (nonlinear_arith);
    assert((3 * d) * ml <= d * (10 * ml)) by (nonlinear_arith);
}

/// Stutter preservation: when every eligible token starts a run of at most
/// two case-insensitive repetitions, collapsing changes nothing.
pub proof fn lemma_short_runs_preserved(toks: Seq<Seq<char>>)
    requires
        forall|i: int|
            0 <= i < toks.len() && stutter_eligible(lower_seq(#[trigger] toks[i])) ==> run_len(
                toks.skip(i),
                lower_seq(toks[i]),
            ) <= 2,
    ensures
        collapse(toks) == toks,
    decreases toks.len(),
{
    if toks.len() == 0 {
        assert(collapse(toks) =~= toks);
    } else {
        let wl = lower_seq(toks[0]);
        if stutter_eligible(wl) {
            assert(toks.skip(0) =~= toks);
            assert(run_len(toks, wl) <= 2);
        }
        let d = toks.drop_first();
        assert forall|i: int|
            0 <= i < d.len() && stutter_eligible(lower_seq(#[trigger] d[i])) implies run_len(
            d.skip(i),
            lower_seq(d[i]),
        ) <= 2 by {
            assert(d[i] == toks[i + 1]);
            assert(d.skip(i) =~= toks.skip(i + 1));
        }
        lemma_short_runs_preserved(d);
        assert(collapse(toks) == seq![toks[0]] + collapse(d));
        assert(seq![toks[0]] + d =~= toks);
    }
}

/// Stutter collapsing: a whole run of three or more case-insensitive
/// repetitions of an eligible short token shrinks to its first occurrence.
pub proof fn lemma_run_collapses(toks: Seq<Seq<char>>)
    requires
        toks.len() >= 3,
        stutter_eligible(lower_seq(toks[0])),
        forall|i: int| 0 <= i < toks.len() ==> lower_seq(#[trigger] toks[i]) == lower_seq(toks[0]),
    ensures
        collapse(toks) == seq![toks[0]],
{
    let wl = lower_seq(toks[0]);
    crate::filter::lemma_run_len_is(toks, wl, toks.len() as int);
    assert(run_len(toks, wl) == toks.len());
    assert(toks.skip(toks.len() as int) =~= Seq::<Seq<char>>::empty());
    assert(collapse(toks) == seq![toks[0]] + collapse(Seq::<Seq<char>>::empty()));
    assert(collapse(toks) =~= seq![toks[0]]);
}


/// The first token survives collapsing.
pub proof fn lemma_collapse_first(toks: Seq<Seq<char>>)
    requires
        toks.len() > 0,
    ensures
        collapse(toks).len() > 0,
        collapse(toks)[0] == toks[0],
{
}

/// What `run_len` grants: the run's tokens agree with `wl`, and the token
/// after the run (if any) does not.
pub proof fn lemma_run_len_facts(toks: Seq<Seq<char>>, wl: Seq<char>)
    ensures
        run_len(toks, wl) <= toks.len(),
        forall|m: int| 0 <= m < run_len(toks, wl) ==> lower_seq(#[trigger] toks[m]) == wl,
        run_len(toks, wl) < toks.len() ==> lower_seq(toks[run_len(toks, wl) as int]) != wl,
    decreases toks.len(),
{
    if toks.len() > 0 && lower_seq(toks[0]) == wl {
        let d = toks.drop_first();
        lemma_run_len_facts(d, wl);
        assert forall|m: int| 0 <= m < run_len(toks, wl) implies lower_seq(#[trigger] toks[m])
            == wl by {
            if m > 0 {
                assert(d[m - 1] == toks[m]);
            }
        }
        if run_len(toks, wl) < toks.len() {
            assert(d[run_len(toks, wl) as int - 1] == toks[run_len(toks, wl) as int]);
        }
    }
}

/// Collapsing keeps every token nonempty and whitespace-free.
pub proof fn lemma_collapse_good(toks: Seq<Seq<char>>)
    requires
        good_tokens(toks),
    ensures
        good_tokens(collapse(toks)),
    decreases toks.len(),
{
    if toks.len() == 0 {
    } else {
        let wl = lower_seq(toks[0]);
        let sub = if stutter_eligible(wl) && run_len(toks, wl) >= 3 {
            toks.skip(run_len(toks, wl) as int)
        } else {
            toks.drop_first()
        };
        lemma_run_len_facts(toks, wl);
        assert(good_tokens(sub)) by {
            let off = toks.len() - sub.len();
            assert forall|j: int|
                0 <= j < sub.len() implies (#[trigger] sub[j]).len() > 0 && ws_free(sub[j]) by {
                assert(sub[j] == toks[j + off]);
            }
        }
        lemma_collapse_good(sub);
        let out = collapse(toks);
        assert(out == seq![toks[0]] + collapse(sub));
        assert forall|j: int|
            0 <= j < out.len() implies (#[trigger] out[j]).len() > 0 && ws_free(out[j]) by {
            if j > 0 {
                assert(out[j] == collapse(sub)[j - 1]);
            }
        }
    }
}

/// Collapsing is idempotent: its output holds no collapsible run, so a
/// second pass changes nothing.
pub proof fn lemma_collapse_idempotent(toks: Seq<Seq<char>>)
    ensures
        collapse(collapse(toks)) == collapse(toks),
    decreases toks.len(),
{
    if toks.len() == 0 {
        assert(collapse(collapse(toks)) =~= collapse(toks));
        return;
    }
    let w = toks[0];
    let wl = lower_seq(w);
    lemma_run_len_facts(toks, wl);
    let r = run_len(toks, wl) as int;
    assert(r >= 1);
    if stutter_eligible(wl) && r >= 3 {
        let rest = toks.skip(r);
        let out = collapse(toks);
        assert(out == seq![w] + collapse(rest));
        lemma_collapse_idempotent(rest);
        let od = out.drop_first();
        assert(od =~= collapse(rest));
        if rest.len() == 0 {
            assert(collapse(rest) =~= Seq::<Seq<char>>::empty());
            assert(run_len(od, wl) == 0);
        } else {
            lemma_collapse_first(rest);
            assert(od[0] == rest[0]);
            assert(rest[0] == toks[r]);
            assert(lower_seq(od[0]) != wl);
            assert(run_len(od, wl) == 0);
        }
        assert(out[0] == w);
        assert(run_len(out, wl) == 1);
        assert(collapse(out) == seq![out[0]] + collapse(od));
        assert(collapse(od) == collapse(rest));
        assert(collapse(out) =~= out);
    } else {
        let d = toks.drop_first();
        let out = collapse(toks);
        assert(out == seq![w] + collapse(d));
        lemma_collapse_idempotent(d);
        let od = out.drop_first();
        assert(od =~= collapse(d));
        assert(out[0] == w);
        if !stutter_eligible(wl) {
            assert(collapse(out) == seq![out[0]] + collapse(od));
            assert(collapse(od) == collapse(d));
            assert(collapse(out) =~= out);
        } else {
            assert(r <= 2);
            assert(run_len(d, wl) == r - 1);
            if r == 1 {
                if d.len() == 0 {
                    assert(collapse(d) =~= Seq::<Seq<char>>::empty());
                    assert(run_len(od, wl) == 0);
                } else {
                    lemma_collapse_first(d);
                    assert(od[0] == d[0]);
                    assert(d[0] == toks[1]);
                    assert(lower_seq(toks[1]) != wl);
                    assert(run_len(od, wl) == 0);
                }
                assert(run_len(out, wl) == 1);
            } else {
                // r == 2: the two repetitions stay, and the token after the
                // run (if any) disagrees, so the second pass sees a run of 2
                assert(d.len() > 0);
                assert(d[0] == toks[1]);
                assert(lower_seq(d[0]) == wl);
                lemma_run_len_facts(d, wl);
                let dd = d.drop_first();
                assert(run_len(d, wl) == 1);
                assert(!(stutter_eligible(lower_seq(d[0])) && run_len(d, wl) >= 3));
                assert(collapse(d) == seq![d[0]] + collapse(dd));
                assert(od[0] == d[0]);
                let odd = od.drop_first();
                assert(odd =~= collapse(dd));
                if dd.len() == 0 {
                    assert(collapse(dd) =~= Seq::<Seq<char>>::empty());
                    assert(run_len(odd, wl) == 0);
                } else {
                    lemma_collapse_first(dd);
                    assert(odd[0] == dd[0]);
                    assert(dd[0] == toks[2]);
                    assert(lower_seq(toks[2]) != wl);
                    assert(run_len(odd, wl) == 0);
                }
                assert(run_len(od, wl) == 1);
                assert(run_len(out, wl) == 2);
            }
            assert(collapse(out) == seq![out[0]] + collapse(od));
            assert(collapse(od) == collapse(d));
            assert(collapse(out) =~= out);
        }
    }
}

/// Splitting inverts joining: the whitespace tokens of a single-space join
/// of nonempty whitespace-free tokens are those tokens again.
proof fn lemma_split_join_tail(toks: Seq<Seq<char>>, i: int)
    requires
        good_tokens(toks),
        0 <= i < toks.len(),
    ensures
        split_ws(toks[i] + join_tail(toks, i + 1)) == toks.skip(i),
    decreases toks.len() - i,
{
    let s = toks[i] + join_tail(toks, i + 1);
    let k = toks[i].len() as int;
    assert(toks[i].len() > 0 && ws_free(toks[i]));
    assert forall|m: int| 0 <= m < k implies !is_ws(#[trigger] s[m]) by {
        assert(s[m] == toks[i][m]);
    }
    if i == toks.len() - 1 {
        assert(join_tail(toks, i + 1) =~= Seq::<char>::empty());
        assert(s.len() == k);
        lemma_tok_len_is(s, k);
        assert(!is_ws(s[0]));
        assert(split_ws(s) == seq![s.take(k)] + split_ws(s.skip(k)));
        assert(s.take(k) =~= toks[i]);
        assert(s.skip(k) =~= Seq::<char>::empty());
        assert(split_ws(Seq::<char>::empty()) =~= Seq::<Seq<char>>::empty());
        assert(split_ws(s) =~= seq![toks[i]]);
        assert(toks.skip(i) =~= seq![toks[i]]);
    } else {
        let jt = join_tail(toks, i + 1);
        assert(jt == seq![' '] + toks[i + 1] + join_tail(toks, i + 2));
        assert(s[k] == jt[0]);
        assert(jt[0] == ' ');
        assert(is_ws(' '));
        lemma_tok_len_is(s, k);
        assert(!is_ws(s[0]));
        assert(split_ws(s) == seq![s.take(k)] + split_ws(s.skip(k)));
        assert(s.take(k) =~= toks[i]);
        assert(s.skip(k) =~= jt);
        assert(split_ws(jt) == split_ws(jt.drop_first()));
        assert(jt.drop_first() =~= toks[i + 1] + join_tail(toks, i + 2));
        lemma_split_join_tail(toks, i + 1);
        assert(split_ws(s) =~= seq![toks[i]] + toks.skip(i + 1));
        assert(seq![toks[i]] + toks.skip(i + 1) =~= toks.skip(i));
    }
}

/// Splitting a single-space join of nonempty whitespace-free tokens gives
/// the tokens back.
pub proof fn lemma_split_join(toks: Seq<Seq<char>>)
    requires
        good_tokens(toks),
    ensures
        split_ws(join_sp(toks)) == toks,
{
    if toks.len() == 0 {
        assert(join_sp(toks) =~= Seq::<char>::empty());
        assert(split_ws(join_sp(toks)) =~= toks);
    } else {
        lemma_split_join_tail(toks, 0);
        assert(toks.skip(0) =~= toks);
    }
}

/// A single-space join of nonempty whitespace-free tokens starts and ends
/// with non-whitespace and never holds two adjacent whitespace characters.
proof fn lemma_join_tail_props(toks: Seq<Seq<char>>, i: int)
    requires
        good_tokens(toks),
        0 <= i <= toks.len(),
    ensures
        i == toks.len() ==> join_tail(toks, i).len() == 0,
        i < toks.len() ==> join_tail(toks, i).len() >= 2,
        i < toks.len() ==> join_tail(toks, i)[0] == ' ' && !is_ws(join_tail(toks, i)[1]),
        i < toks.len() ==> !is_ws(join_tail(toks, i).last()),
        forall|m: int|
            0 <= m < join_tail(toks, i).len() - 1 ==> !(is_ws(#[trigger] join_tail(toks, i)[m])
                && is_ws(join_tail(toks, i)[m + 1])),
    decreases toks.len() - i,
{
    if i == toks.len() {
    } else {
        let jt = join_tail(toks, i);
        let t = toks[i];
        let rest = join_tail(toks, i + 1);
        lemma_join_tail_props(toks, i + 1);
        assert(jt == seq![' '] + t + rest);
        assert(t.len() > 0 && ws_free(t));
        assert(jt.len() == 1 + t.len() + rest.len());
        assert(jt[0] == ' ');
        assert(jt[1] == t[0]);
        assert(!is_ws(t[0]));
        if i + 1 == toks.len() {
            assert(rest.len() == 0);
            assert(jt.last() == t.last());
        } else {
            assert(jt.last() == rest.last());
        }
        assert forall|m: int|
            0 <= m < jt.len() - 1 implies !(is_ws(#[trigger] jt[m]) && is_ws(jt[m + 1])) by {
            if m == 0 {
                assert(jt[1] == t[0]);
            } else if m < t.len() {
                assert(jt[m] == t[m - 1]);
            } else if m == t.len() {
                assert(jt[m] == t[m - 1]);
                assert(!is_ws(jt[m]));
            } else {
                assert(jt[m] == rest[m - 1 - t.len() as int]);
                assert(jt[m + 1] == rest[m - t.len() as int]);
            }
        }
    }
}

/// Properties of a full single-space join of good tokens.
pub proof fn lemma_join_props(toks: Seq<Seq<char>>)
    requires
        good_tokens(toks),
        toks.len() > 0,
    ensures
        join_sp(toks).len() > 0,
        !is_ws(join_sp(toks)[0]),
        !is_ws(join_sp(toks).last()),
        forall|m: int|
            0 <= m < join_sp(toks).len() - 1 ==> !(is_ws(#[trigger] join_sp(toks)[m]) && is_ws(
                join_sp(toks)[m + 1],
            )),
{
    let j = join_sp(toks);
    let t = toks[0];
    let rest = join_tail(toks, 1);
    lemma_join_tail_props(toks, 1);
    assert(j == t + rest);
    assert(t.len() > 0 && ws_free(t));
    assert(j[0] == t[0]);
    if toks.len() == 1 {
        assert(rest.len() == 0);
        assert(j.last() == t.last());
    } else {
        assert(j.last() == rest.last());
    }
    assert forall|m: int|
        0 <= m < j.len() - 1 implies !(is_ws(#[trigger] j[m]) && is_ws(j[m + 1])) by {
        if m + 1 < t.len() {
            assert(j[m] == t[m]);
        } else if m + 1 == t.len() {
            assert(j[m] == t[m]);
            assert(!is_ws(j[m]));
        } else {
            assert(j[m] == rest[m - t.len() as int]);
            assert(j[m + 1] == rest[m + 1 - t.len() as int]);
        }
    }
}

/// Whitespace normalization changes nothing when no two whitespace
/// characters stand side by side.
pub proof fn lemma_norm_ws_identity(s: Seq<char>)
    requires
        forall|m: int| 0 <= m < s.len() - 1 ==> !(is_ws(#[trigger] s[m]) && is_ws(s[m + 1])),
    ensures
        norm_ws(s) == s,
    decreases s.len(),
{
    if s.len() == 0 {
        assert(norm_ws(s) =~= s);
    } else {
        assert(!(s.len() >= 2 && is_ws(s[0]) && is_ws(s[1])));
        let d = s.drop_first();
        assert forall|m: int|
            0 <= m < d.len() - 1 implies !(is_ws(#[trigger] d[m]) && is_ws(d[m + 1])) by {
            assert(d[m] == s[m + 1]);
            assert(d[m + 1] == s[m + 2]);
        }
        lemma_norm_ws_identity(d);
        assert(norm_ws(s) == seq![s[0]] + d);
        assert(seq![s[0]] + d =~= s);
    }
}

/// Trimming changes nothing when the ends are not whitespace.
pub proof fn lemma_trim_identity(s: Seq<char>)
    requires
        s.len() == 0 || (!is_ws(s[0]) && !is_ws(s.last())),
    ensures
        spec_trim(s) == s,
{
    assert(trim_start(s) == s);
    assert(trim_end(s) == s);
}

/// Text without any whitespace token is all whitespace.
proof fn lemma_no_tokens_all_ws(s: Seq<char>)
    requires
        split_ws(s).len() == 0,
    ensures
        forall|m: int| 0 <= m < s.len() ==> is_ws(#[trigger] s[m]),
    decreases s.len(),
{
    if s.len() == 0 {
    } else if is_ws(s[0]) {
        lemma_no_tokens_all_ws(s.drop_first());
        assert forall|m: int| 0 <= m < s.len() implies is_ws(#[trigger] s[m]) by {
            if m > 0 {
                assert(s.drop_first()[m - 1] == s[m]);
            }
        }
    } else {
        assert(split_ws(s).len() >= 1);
    }
}

/// Normalizing all-whitespace text yields all-whitespace text.
proof fn lemma_norm_ws_all_ws(s: Seq<char>)
    requires
        forall|m: int| 0 <= m < s.len() ==> is_ws(#[trigger] s[m]),
    ensures
        forall|m: int| 0 <= m < norm_ws(s).len() ==> is_ws(#[trigger] norm_ws(s)[m]),
    decreases s.len(),
{
    if s.len() == 0 {
    } else if s.len() >= 2 && is_ws(s[0]) && is_ws(s[1]) {
        let r = ws_run(s) as int;
        crate::filter::lemma_ws_run_le(s);
        let rest = s.skip(r);
        assert forall|m: int| 0 <= m < rest.len() implies is_ws(#[trigger] rest[m]) by {
            assert(rest[m] == s[m + r]);
        }
        lemma_norm_ws_all_ws(rest);
        assert(norm_ws(s) == seq![' '] + norm_ws(rest));
        assert(is_ws(' '));
        assert forall|m: int| 0 <= m < norm_ws(s).len() implies is_ws(#[trigger] norm_ws(s)[m]) by {
            if m > 0 {
                assert(norm_ws(s)[m] == norm_ws(rest)[m - 1]);
            }
        }
    } else {
        let d = s.drop_first();
        assert forall|m: int| 0 <= m < d.len() implies is_ws(#[trigger] d[m]) by {
            assert(d[m] == s[m + 1]);
        }
        lemma_norm_ws_all_ws(d);
        assert(norm_ws(s) == seq![s[0]] + norm_ws(d));
        assert forall|m: int| 0 <= m < norm_ws(s).len() implies is_ws(#[trigger] norm_ws(s)[m]) by {
            if m > 0 {
                assert(norm_ws(s)[m] == norm_ws(d)[m - 1]);
            }
        }
    }
}

/// Trimming all-whitespace text yields the empty text.
proof fn lemma_trim_all_ws(s: Seq<char>)
    requires
        forall|m: int| 0 <= m < s.len() ==> is_ws(#[trigger] s[m]),
    ensures
        spec_trim(s) == Seq::<char>::empty(),
    decreases s.len(),
{
    if s.len() == 0 {
        assert(trim_start(s) == s);
        assert(trim_end(s) == s);
    } else {
        let d = s.drop_first();
        assert forall|m: int| 0 <= m < d.len() implies is_ws(#[trigger] d[m]) by {
            assert(d[m] == s[m + 1]);
        }
        assert(trim_start(s) == trim_start(d));
        lemma_trim_all_ws(d);
    }
}

/// No filler pass changes empty text.
proof fn lemma_fillers_empty(k: int)
    ensures
        remove_fillers_upto(Seq::<char>::empty(), k) == Seq::<char>::empty(),
    decreases k,
{
    if k > 0 {
        lemma_fillers_empty(k - 1);
    }
}

/// The whole filter maps empty text to empty text.
proof fn lemma_filter_empty()
    ensures
        spec_filter(Seq::<char>::empty()) == Seq::<char>::empty(),
{
    let e = Seq::<char>::empty();
    lemma_fillers_empty(crate::filter::filler_count());
    assert(remove_all_fillers(e) == e);
    assert(split_ws(e).len() == 0);
    assert(spec_collapse_stutters(e) == e);
    assert(norm_ws(e) =~= e);
    assert(trim_start(e) == e);
    assert(trim_end(e) == e);
}

/// Idempotence: filtering a second time changes nothing, provided the first
/// pass did not itself assemble a fresh filler-word occurrence (its output
/// is already free of filler matches).
pub proof fn lemma_filter_idempotent(s: Seq<char>)
    requires
        remove_all_fillers(spec_filter(s)) == spec_filter(s),
    ensures
        spec_filter(spec_filter(s)) == spec_filter(s),
{
    let f = remove_all_fillers(s);
    let toks = split_ws(f);
    if toks.len() == 0 {
        // no token survives: the filtered text is empty
        assert(spec_collapse_stutters(f) == f);
        lemma_no_tokens_all_ws(f);
        lemma_norm_ws_all_ws(f);
        lemma_trim_all_ws(norm_ws(f));
        assert(spec_filter(s) == Seq::<char>::empty());
        lemma_filter_empty();
    } else {
        let c = collapse(toks);
        let y = join_sp(c);
        crate::tokenize::lemma_split_ws_good(f);
        lemma_collapse_good(toks);
        lemma_collapse_first(toks);
        assert(c.len() > 0);
        lemma_join_props(c);
        assert(spec_collapse_stutters(f) == y);
        lemma_norm_ws_identity(y);
        lemma_trim_identity(y);
        assert(spec_filter(s) == y);
        // second pass: fillers leave y alone by assumption, the tokens of y
        // are exactly the collapsed tokens, and collapsing them again
        // changes nothing
        assert(remove_all_fillers(y) == y);
        lemma_split_join(c);
        assert(split_ws(y) == c);
        lemma_collapse_idempotent(toks);
        assert(collapse(c) == c);
        assert(spec_collapse_stutters(y) == join_sp(collapse(split_ws(y))));
        assert(spec_collapse_stutters(y) == y);
        assert(spec_filter(y) == y);
    }
}

} // verus!
