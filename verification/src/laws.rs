use vstd::prelude::*;

use vstd::arithmetic::div_mod::lemma_div_multiples_vanish;

use crate::corpus::{sum_lens, Corpus};
use crate::score::{
    class_score, class_sum, lemma_class_sum_bounds, lemma_tri_sum_bounds, lemma_tri_term_bounds,
    lemma_ws_bonus_bounds, spec_score, token_bonus, tri_sum, tri_term, ws_bonus, ws_bonus_acc,
};
use crate::trigram::win_count;
use crate::{is_alpha, is_control, is_ws, lower_seq};

verus! {

// ---------------------------------------------------------------------------
// Case invariance.
// ---------------------------------------------------------------------------

/// Toggle the case of a letter; anything else is kept.
pub open spec fn flip_case(b: u8) -> u8 {
    if 65 <= b && b <= 90 {
        (b + 32) as u8
    } else if 97 <= b && b <= 122 {
        (b - 32) as u8
    } else {
        b
    }
}

/// `t` is `s` with the case of some letters toggled, and nothing else changed.
pub open spec fn case_variant(t: Seq<u8>, s: Seq<u8>) -> bool {
    &&& t.len() == s.len()
    &&& forall|i: int|
        0 <= i < s.len() ==> t[i] == s[i] || (is_alpha(s[i]) && t[i] == flip_case(#[trigger] s[i]))
}

/// Toggling letter case does not change the lower-cased bytes.
pub proof fn lemma_lower_case_variant(t: Seq<u8>, s: Seq<u8>)
    requires
        case_variant(t, s),
    ensures
        lower_seq(t) == lower_seq(s),
{
    assert(lower_seq(t) =~= lower_seq(s));
}

/// The score ignores letter case: flipping the case of any letters of `s`,
/// independently, leaves the score unchanged.
pub proof fn lemma_score_case_invariant(t: Seq<u8>, s: Seq<u8>, c: Corpus)
    requires
        case_variant(t, s),
    ensures
        spec_score(t, c) == spec_score(s, c),
{
    lemma_lower_case_variant(t, s);
}

// ---------------------------------------------------------------------------
// Dictionary words joined by spaces beat their bare concatenation.
// ---------------------------------------------------------------------------

/// The words of `ws`, joined by single space bytes.
pub open spec fn join_spaces(ws: Seq<Seq<u8>>) -> Seq<u8>
    decreases ws.len(),
{
    if ws.len() == 0 {
        Seq::empty()
    } else if ws.len() == 1 {
        ws[0]
    } else {
        ws[0] + seq![32u8] + join_spaces(ws.skip(1))
    }
}

/// The words of `ws`, concatenated with nothing between them.
pub open spec fn concat_all(ws: Seq<Seq<u8>>) -> Seq<u8>
    decreases ws.len(),
{
    if ws.len() == 0 {
        Seq::empty()
    } else {
        ws[0] + concat_all(ws.skip(1))
    }
}

/// No byte of `w` is ASCII whitespace.
pub open spec fn no_ws(w: Seq<u8>) -> bool {
    forall|i: int| 0 <= i < w.len() ==> !is_ws(#[trigger] w[i])
}

/// No byte of `w` is an upper-case letter.
pub open spec fn no_upper(w: Seq<u8>) -> bool {
    forall|i: int| 0 <= i < w.len() ==> !(65 <= #[trigger] w[i] <= 90)
}

/// The sum of the class scores of the words of `ws`.
pub open spec fn sum_class(ws: Seq<Seq<u8>>) -> int
    decreases ws.len(),
{
    if ws.len() == 0 {
        0
    } else {
        class_sum(ws[0]) + sum_class(ws.skip(1))
    }
}

pub proof fn lemma_class_sum_concat(a: Seq<u8>, b: Seq<u8>)
    ensures
        class_sum(a + b) == class_sum(a) + class_sum(b),
    decreases a.len(),
{
    if a.len() == 0 {
        assert(a + b =~= b);
    } else {
        assert((a + b)[0] == a[0]);
        assert((a + b).skip(1) =~= a.skip(1) + b);
        lemma_class_sum_concat(a.skip(1), b);
    }
}

/// A whitespace-free run at the head of the string extends the current token.
pub proof fn lemma_bonus_run(w: Seq<u8>, rest: Seq<u8>, cur: Seq<u8>, words: Set<Seq<u8>>)
    requires
        no_ws(w),
    ensures
        ws_bonus_acc(w + rest, cur, words) == ws_bonus_acc(rest, cur + w, words),
    decreases w.len(),
{
    if w.len() == 0 {
        assert(w + rest =~= rest);
        assert(cur + w =~= cur);
    } else {
        assert((w + rest)[0] == w[0]);
        assert(!is_ws(w[0]));
        assert((w + rest).skip(1) =~= w.skip(1) + rest);
        assert(no_ws(w.skip(1)));
        lemma_bonus_run(w.skip(1), rest, cur.push(w[0]), words);
        assert(cur.push(w[0]) + w.skip(1) =~= cur + w);
    }
}

/// A space at the head of the string closes the current token.
pub proof fn lemma_bonus_space(rest: Seq<u8>, cur: Seq<u8>, words: Set<Seq<u8>>)
    ensures
        ws_bonus_acc(seq![32u8] + rest, cur, words) == token_bonus(cur, words) + ws_bonus_acc(
            rest,
            Seq::empty(),
            words,
        ),
{
    assert((seq![32u8] + rest)[0] == 32u8);
    assert((seq![32u8] + rest).skip(1) =~= rest);
}

/// When every word of `ws` is in the dictionary and whitespace-free, the
/// space-joined string earns 50 per word byte.
pub proof fn lemma_bonus_join(ws: Seq<Seq<u8>>, words: Set<Seq<u8>>)
    requires
        ws.len() >= 1,
        forall|k: int| 0 <= k < ws.len() ==> no_ws(#[trigger] ws[k]),
        forall|k: int| 0 <= k < ws.len() ==> words.contains(#[trigger] ws[k]),
    ensures
        ws_bonus(join_spaces(ws), words) == 50 * sum_lens(ws),
    decreases ws.len(),
{
    if ws.len() == 1 {
        assert(join_spaces(ws) == ws[0]);
        assert(ws[0] + Seq::<u8>::empty() =~= ws[0]);
        lemma_bonus_run(ws[0], Seq::empty(), Seq::empty(), words);
        assert(Seq::<u8>::empty() + ws[0] =~= ws[0]);
        assert(token_bonus(ws[0], words) == 50 * ws[0].len() as int);
        assert(ws.skip(1) =~= Seq::<Seq<u8>>::empty());
        assert(sum_lens(ws) == ws[0].len() + sum_lens(ws.skip(1)));
    } else {
        let tailj = join_spaces(ws.skip(1));
        assert(join_spaces(ws) == ws[0] + seq![32u8] + tailj);
        assert(ws[0] + seq![32u8] + tailj =~= ws[0] + (seq![32u8] + tailj));
        lemma_bonus_run(ws[0], seq![32u8] + tailj, Seq::empty(), words);
        assert(Seq::<u8>::empty() + ws[0] =~= ws[0]);
        lemma_bonus_space(tailj, ws[0], words);
        assert(forall|k: int| 0 <= k < ws.skip(1).len() ==> no_ws(#[trigger] ws.skip(1)[k]));
        assert(forall|k: int|
            0 <= k < ws.skip(1).len() ==> words.contains(#[trigger] ws.skip(1)[k]));
        lemma_bonus_join(ws.skip(1), words);
        assert(token_bonus(ws[0], words) == 50 * ws[0].len() as int);
        assert(sum_lens(ws) == ws[0].len() + sum_lens(ws.skip(1)));
    }
}

pub proof fn lemma_concat_len_ws(ws: Seq<Seq<u8>>)
    requires
        forall|k: int| 0 <= k < ws.len() ==> no_ws(#[trigger] ws[k]),
    ensures
        concat_all(ws).len() == sum_lens(ws),
        no_ws(concat_all(ws)),
    decreases ws.len(),
{
    if ws.len() > 0 {
        lemma_concat_len_ws(ws.skip(1));
        assert(forall|i: int|
            0 <= i < concat_all(ws).len() ==> !is_ws(#[trigger] concat_all(ws)[i])) by {
            assert(forall|i: int|
                0 <= i < ws[0].len() ==> #[trigger] concat_all(ws)[i] == ws[0][i]);
            assert(forall|i: int|
                ws[0].len() <= i < concat_all(ws).len() ==> #[trigger] concat_all(ws)[i]
                    == concat_all(ws.skip(1))[i - ws[0].len()]);
        }
    }
}

pub proof fn lemma_class_join(ws: Seq<Seq<u8>>)
    requires
        ws.len() >= 1,
    ensures
        class_sum(join_spaces(ws)) == sum_class(ws) + 5 * (ws.len() - 1),
    decreases ws.len(),
{
    if ws.len() == 1 {
        assert(sum_class(ws) == class_sum(ws[0]) + sum_class(ws.skip(1)));
    } else {
        lemma_class_sum_concat(ws[0] + seq![32u8], join_spaces(ws.skip(1)));
        lemma_class_sum_concat(ws[0], seq![32u8]);
        lemma_class_join(ws.skip(1));
        assert(class_sum(seq![32u8]) == class_score(32u8) + class_sum(seq![32u8].skip(1)));
        assert(seq![32u8].skip(1) =~= Seq::<u8>::empty());
        assert(class_score(32u8) == 5);
    }
}

pub proof fn lemma_class_concat(ws: Seq<Seq<u8>>)
    ensures
        class_sum(concat_all(ws)) == sum_class(ws),
    decreases ws.len(),
{
    if ws.len() > 0 {
        lemma_class_sum_concat(ws[0], concat_all(ws.skip(1)));
        lemma_class_concat(ws.skip(1));
    }
}

/// A string with no upper-case letters is fixed by lower-casing.
pub proof fn lemma_lower_fixed(w: Seq<u8>)
    requires
        no_upper(w),
    ensures
        lower_seq(w) == w,
{
    assert(lower_seq(w) =~= w);
}

pub proof fn lemma_no_upper_join(ws: Seq<Seq<u8>>)
    requires
        forall|k: int| 0 <= k < ws.len() ==> no_upper(#[trigger] ws[k]),
    ensures
        no_upper(join_spaces(ws)),
        no_upper(concat_all(ws)),
    decreases ws.len(),
{
    if ws.len() == 0 {
    } else if ws.len() == 1 {
        assert(join_spaces(ws) == ws[0]);
        lemma_no_upper_join(ws.skip(1));
        assert(forall|i: int|
            0 <= i < concat_all(ws).len() ==> !(65 <= #[trigger] concat_all(ws)[i] <= 90)) by {
            assert(forall|i: int|
                0 <= i < ws[0].len() ==> #[trigger] concat_all(ws)[i] == ws[0][i]);
            assert(forall|i: int|
                ws[0].len() <= i < concat_all(ws).len() ==> #[trigger] concat_all(ws)[i]
                    == concat_all(ws.skip(1))[i - ws[0].len()]);
        }
    } else {
        lemma_no_upper_join(ws.skip(1));
        let j = join_spaces(ws);
        let head = ws[0] + seq![32u8];
        assert(j == head + join_spaces(ws.skip(1)));
        assert(forall|i: int| 0 <= i < j.len() ==> !(65 <= #[trigger] j[i] <= 90)) by {
            assert(forall|i: int| 0 <= i < ws[0].len() ==> #[trigger] j[i] == ws[0][i]);
            assert(j[ws[0].len() as int] == 32u8);
            assert(forall|i: int|
                head.len() <= i < j.len() ==> #[trigger] j[i] == join_spaces(ws.skip(1))[i
                    - head.len()]);
        }
        assert(forall|i: int|
            0 <= i < concat_all(ws).len() ==> !(65 <= #[trigger] concat_all(ws)[i] <= 90)) by {
            assert(forall|i: int|
                0 <= i < ws[0].len() ==> #[trigger] concat_all(ws)[i] == ws[0][i]);
            assert(forall|i: int|
                ws[0].len() <= i < concat_all(ws).len() ==> #[trigger] concat_all(ws)[i]
                    == concat_all(ws.skip(1))[i - ws[0].len()]);
        }
    }
}

/// Dictionary words joined by single spaces score strictly higher than the
/// same words run together with the spaces removed, provided the words are
/// lower-case, whitespace-free dictionary entries and their bare
/// concatenation is not itself a dictionary entry.
pub proof fn lemma_words_beat_concat(ws: Seq<Seq<u8>>, c: Corpus)
    requires
        c.wf(),
        ws.len() >= 2,
        forall|k: int| 0 <= k < ws.len() ==> no_ws(#[trigger] ws[k]),
        forall|k: int| 0 <= k < ws.len() ==> no_upper(#[trigger] ws[k]),
        forall|k: int| 0 <= k < ws.len() ==> c.word_set().contains(#[trigger] ws[k]),
        !c.word_set().contains(concat_all(ws)),
    ensures
        spec_score(join_spaces(ws), c) > spec_score(concat_all(ws), c),
{
    let j = join_spaces(ws);
    let cc = concat_all(ws);
    let words = c.word_set();
    lemma_no_upper_join(ws);
    lemma_lower_fixed(j);
    lemma_lower_fixed(cc);
    lemma_class_join(ws);
    lemma_class_concat(ws);
    lemma_bonus_join(ws, words);
    lemma_concat_len_ws(ws);
    // The concatenation is one single token, and it is not a dictionary word.
    assert(cc + Seq::<u8>::empty() =~= cc);
    lemma_bonus_run(cc, Seq::empty(), Seq::empty(), words);
    assert(Seq::<u8>::empty() + cc =~= cc);
    assert(ws_bonus(cc, words) == token_bonus(cc, words));
    assert(token_bonus(cc, words) == 0);
    lemma_tri_sum_bounds(j, c);
    lemma_tri_sum_bounds(cc, c);
    let lsum = sum_lens(ws);
    assert(lsum >= 0) by {
        crate::corpus::lemma_sum_windows_nonneg(ws);
    }
    assert(tri_sum(cc, c) <= 10 * win_count(lsum));
    assert(spec_score(j, c) == class_sum(j) + ws_bonus(j, words) + tri_sum(j, c));
    assert(spec_score(cc, c) == class_sum(cc) + ws_bonus(cc, words) + tri_sum(cc, c));
    assert(spec_score(j, c) >= sum_class(ws) + 5 * (ws.len() - 1) + 50 * lsum);
    assert(spec_score(cc, c) <= sum_class(ws) + 10 * win_count(lsum));
    if lsum >= 3 {
        assert(10 * win_count(lsum) == 10 * lsum - 20);
    } else {
        assert(10 * win_count(lsum) == 0);
    }
}

// ---------------------------------------------------------------------------
// A control byte costs at least 100 points.
// ---------------------------------------------------------------------------

/// `tt` equals `ss` except at positions where `ss` holds a non-whitespace
/// control byte and `tt` holds some non-whitespace byte.
pub open spec fn control_variant(ss: Seq<u8>, tt: Seq<u8>) -> bool {
    &&& ss.len() == tt.len()
    &&& forall|j: int|
        0 <= j < ss.len() ==> tt[j] == ss[j] || (is_control(#[trigger] ss[j]) && !is_ws(ss[j])
            && !is_ws(tt[j]))
}

/// No dictionary word contains a control byte.
pub open spec fn control_free(words: Set<Seq<u8>>) -> bool {
    forall|w: Seq<u8>, k: int|
        #[trigger] words.contains(w) && 0 <= k < w.len() ==> !is_control(#[trigger] w[k])
}

/// Every trigram that contains a control byte has count 0 in the corpus.
pub open spec fn control_trigrams_zero(c: Corpus) -> bool {
    forall|u: Seq<u8>, k: int|
        0 <= k < u.len() && is_control(#[trigger] u[k]) ==> #[trigger] c.freq_of(u) == 0
}

/// Replacing non-whitespace control bytes never lowers the word bonus, when
/// no dictionary word holds a control byte.
pub proof fn lemma_bonus_control(
    ss: Seq<u8>,
    tt: Seq<u8>,
    cs: Seq<u8>,
    ct: Seq<u8>,
    words: Set<Seq<u8>>,
)
    requires
        control_free(words),
        control_variant(ss, tt),
        control_variant(cs, ct),
    ensures
        ws_bonus_acc(tt, ct, words) >= ws_bonus_acc(ss, cs, words),
    decreases ss.len(),
{
    lemma_ws_bonus_bounds(tt, ct, words);
    assert(token_bonus(ct, words) >= token_bonus(cs, words)) by {
        if cs != ct {
            assert(exists|j: int| 0 <= j < cs.len() && cs[j] != ct[j]) by {
                if forall|j: int| 0 <= j < cs.len() ==> cs[j] == #[trigger] ct[j] {
                    assert(cs =~= ct);
                }
            }
            let j = choose|j: int| 0 <= j < cs.len() && cs[j] != ct[j];
            assert(is_control(cs[j]));
            assert(!words.contains(cs));
            assert(token_bonus(ct, words) >= 0);
        }
    }
    if ss.len() == 0 {
    } else {
        assert(ss.skip(1).len() == tt.skip(1).len());
        assert(control_variant(ss.skip(1), tt.skip(1))) by {
            assert(forall|j: int|
                0 <= j < ss.skip(1).len() ==> #[trigger] ss.skip(1)[j] == ss[j + 1]
                    && #[trigger] tt.skip(1)[j] == tt[j + 1]);
        }
        if is_ws(ss[0]) {
            assert(tt[0] == ss[0]);
            lemma_bonus_control(ss.skip(1), tt.skip(1), Seq::empty(), Seq::empty(), words);
        } else {
            assert(!is_ws(tt[0]));
            assert(control_variant(cs.push(ss[0]), ct.push(tt[0]))) by {
                assert(forall|j: int|
                    0 <= j < cs.len() ==> #[trigger] cs.push(ss[0])[j] == cs[j]
                        && #[trigger] ct.push(tt[0])[j] == ct[j]);
                assert(cs.push(ss[0])[cs.len() as int] == ss[0]);
                assert(ct.push(tt[0])[cs.len() as int] == tt[0]);
            }
            lemma_bonus_control(ss.skip(1), tt.skip(1), cs.push(ss[0]), ct.push(tt[0]), words);
        }
    }
}

/// Replacing non-whitespace control bytes never lowers the trigram term,
/// when control-holding trigrams have count 0.
pub proof fn lemma_tri_control(ss: Seq<u8>, tt: Seq<u8>, c: Corpus)
    requires
        c.wf(),
        control_trigrams_zero(c),
        control_variant(ss, tt),
    ensures
        tri_sum(tt, c) >= tri_sum(ss, c),
    decreases ss.len(),
{
    if ss.len() >= 3 {
        assert(control_variant(ss.skip(1), tt.skip(1))) by {
            assert(forall|j: int|
                0 <= j < ss.skip(1).len() ==> #[trigger] ss.skip(1)[j] == ss[j + 1]
                    && #[trigger] tt.skip(1)[j] == tt[j + 1]);
        }
        lemma_tri_control(ss.skip(1), tt.skip(1), c);
        let hs = ss.subrange(0, 3);
        let ht = tt.subrange(0, 3);
        lemma_tri_term_bounds(c, hs);
        lemma_tri_term_bounds(c, ht);
        if hs != ht {
            assert(exists|k: int| 0 <= k < 3 && hs[k] != ht[k]) by {
                if forall|k: int| 0 <= k < 3 ==> hs[k] == #[trigger] ht[k] {
                    assert(hs =~= ht);
                }
            }
            let k = choose|k: int| 0 <= k < 3 && hs[k] != ht[k];
            assert(hs[k] == ss[k] && ht[k] == tt[k]);
            assert(is_control(hs[k]));
            assert(c.freq_of(hs) == 0);
            assert(tri_term(c, hs) == 0) by {
                if c.total_count() > 0 {
                    lemma_div_multiples_vanish(0, c.total_count());
                }
            }
        }
    }
}

/// A non-whitespace control byte costs at least 100 points: replacing it
/// with a letter raises the score by at least that much, provided the
/// dictionary and the trigram table are free of control bytes.
pub proof fn lemma_control_penalty(s: Seq<u8>, t: Seq<u8>, i: int, c: Corpus)
    requires
        c.wf(),
        control_free(c.word_set()),
        control_trigrams_zero(c),
        0 <= i < s.len(),
        t.len() == s.len(),
        forall|j: int| 0 <= j < s.len() && j != i ==> #[trigger] t[j] == s[j],
        is_control(s[i]),
        !is_ws(s[i]),
        is_alpha(t[i]),
    ensures
        spec_score(s, c) + 100 <= spec_score(t, c),
{
    let ls = lower_seq(s);
    let lt = lower_seq(t);
    assert(ls[i] == s[i]);
    assert(is_alpha(lt[i]) && !is_ws(lt[i]) && !is_control(lt[i]));
    assert(control_variant(ls, lt));
    // Class scores: every byte but `i` contributes equally.
    lemma_class_diff(ls, lt, i);
    assert(class_score(ls[i]) == -100);
    assert(class_score(lt[i]) == 10);
    // Word bonus and trigram term never drop.
    lemma_bonus_control(ls, lt, Seq::empty(), Seq::empty(), c.word_set());
    lemma_tri_control(ls, lt, c);
}

/// Two strings that agree everywhere but at `i` have class sums that differ
/// exactly by the class scores at `i`.
pub proof fn lemma_class_diff(ss: Seq<u8>, tt: Seq<u8>, i: int)
    requires
        ss.len() == tt.len(),
        0 <= i < ss.len(),
        forall|j: int| 0 <= j < ss.len() && j != i ==> #[trigger] tt[j] == ss[j],
    ensures
        class_sum(tt) - class_sum(ss) == class_score(tt[i]) - class_score(ss[i]),
    decreases i,
{
    if i == 0 {
        assert(ss.skip(1) =~= tt.skip(1));
    } else {
        assert(forall|j: int|
            0 <= j < ss.skip(1).len() ==> #[trigger] ss.skip(1)[j] == ss[j + 1]
                && #[trigger] tt.skip(1)[j] == tt[j + 1]);
        lemma_class_diff(ss.skip(1), tt.skip(1), i - 1);
        assert(tt[0] == ss[0]);
    }
}

// ---------------------------------------------------------------------------
// A string whose tokens match no dictionary word earns no word bonus.
// ---------------------------------------------------------------------------

/// The whitespace-delimited tokens of `s`, with `cur` the partial token
/// read so far.
pub open spec fn tokens_acc(s: Seq<u8>, cur: Seq<u8>) -> Set<Seq<u8>>
    decreases s.len(),
{
    if s.len() == 0 {
        Set::empty().insert(cur)
    } else if is_ws(s[0]) {
        tokens_acc(s.skip(1), Seq::empty()).insert(cur)
    } else {
        tokens_acc(s.skip(1), cur.push(s[0]))
    }
}

/// The whitespace-delimited tokens of `s`.
pub open spec fn tokens(s: Seq<u8>) -> Set<Seq<u8>> {
    tokens_acc(s, Seq::empty())
}

/// When no token is a dictionary word, the word bonus is zero.
pub proof fn lemma_bonus_unmatched(s: Seq<u8>, cur: Seq<u8>, words: Set<Seq<u8>>)
    requires
        forall|t: Seq<u8>| #[trigger] tokens_acc(s, cur).contains(t) ==> !words.contains(t),
    ensures
        ws_bonus_acc(s, cur, words) == 0,
    decreases s.len(),
{
    if s.len() == 0 {
        assert(tokens_acc(s, cur).contains(cur));
    } else if is_ws(s[0]) {
        assert(tokens_acc(s, cur).contains(cur));
        assert(forall|t: Seq<u8>|
            #[trigger] tokens_acc(s.skip(1), Seq::empty()).contains(t) ==> tokens_acc(
                s,
                cur,
            ).contains(t));
        lemma_bonus_unmatched(s.skip(1), Seq::empty(), words);
    } else {
        assert(tokens_acc(s, cur) == tokens_acc(s.skip(1), cur.push(s[0])));
        lemma_bonus_unmatched(s.skip(1), cur.push(s[0]), words);
    }
}

/// A string none of whose whitespace-delimited tokens (after lower-casing)
/// is a dictionary word earns no word bonus, so its score is at most 10 per
/// byte plus 10 per width-3 window.
pub proof fn lemma_unmatched_score_bound(s: Seq<u8>, c: Corpus)
    requires
        c.wf(),
        forall|t: Seq<u8>|
            #[trigger] tokens(lower_seq(s)).contains(t) ==> !c.word_set().contains(t),
    ensures
        spec_score(s, c) <= 10 * s.len() + 10 * win_count(s.len() as int),
{
    lemma_class_sum_bounds(lower_seq(s));
    assert(tokens(lower_seq(s)) == tokens_acc(lower_seq(s), Seq::empty()));
    lemma_bonus_unmatched(lower_seq(s), Seq::empty(), c.word_set());
    lemma_tri_sum_bounds(lower_seq(s), c);
}

} // verus!
