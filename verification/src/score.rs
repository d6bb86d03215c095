use vstd::prelude::*;

use vstd::arithmetic::div_mod::{lemma_div_is_ordered, lemma_div_multiples_vanish};

use crate::corpus::{lemma_lookup_bounds, Corpus};
use crate::trigram::{win_count, Trigram};
use crate::{is_alnum, is_control, is_ws, lower_byte, lower_seq, to_lower, ws_byte};

verus! {

/// No byte string longer than this is scored; the bound keeps every
/// intermediate sum far inside `i64`.
pub const SCORE_LEN_MAX: u64 = 0x10_0000_0000_0000;

/// The per-byte class score: letters and digits reward, whitespace rewards
/// a little, control bytes penalize heavily, all else is neutral.
pub open spec fn class_score(b: u8) -> int {
    if is_alnum(b) {
        10
    } else if is_ws(b) {
        5
    } else if is_control(b) {
        -100
    } else {
        0
    }
}

/// The sum of the class scores of all bytes of `s`.
pub open spec fn class_sum(s: Seq<u8>) -> int
    decreases s.len(),
{
    if s.len() == 0 {
        0
    } else {
        class_score(s[0]) + class_sum(s.skip(1))
    }
}

/// What one whitespace-delimited token earns: 50 per byte when it is a
/// dictionary word, nothing otherwise.
pub open spec fn token_bonus(tok: Seq<u8>, words: Set<Seq<u8>>) -> int {
    if words.contains(tok) {
        50 * tok.len() as int
    } else {
        0
    }
}

/// The word bonus of `s` continued from a partial token `cur`: tokens are
/// maximal whitespace-free runs, and each earns its `token_bonus`.
pub open spec fn ws_bonus_acc(s: Seq<u8>, cur: Seq<u8>, words: Set<Seq<u8>>) -> int
    decreases s.len(),
{
    if s.len() == 0 {
        token_bonus(cur, words)
    } else if is_ws(s[0]) {
        token_bonus(cur, words) + ws_bonus_acc(s.skip(1), Seq::empty(), words)
    } else {
        ws_bonus_acc(s.skip(1), cur.push(s[0]), words)
    }
}

/// The word bonus of `s`: the sum of the bonuses of its tokens.
pub open spec fn ws_bonus(s: Seq<u8>, words: Set<Seq<u8>>) -> int {
    ws_bonus_acc(s, Seq::empty(), words)
}

/// What one width-3 window earns: its corpus frequency, scaled by 10 and
/// divided by the total count (0 when the corpus has no trigrams).
pub open spec fn tri_term(c: Corpus, t: Seq<u8>) -> int {
    if c.total_count() <= 0 {
        0
    } else {
        c.freq_of(t) * 10 / c.total_count()
    }
}

/// The trigram term of `s`: the sum of `tri_term` over all width-3 windows.
pub open spec fn tri_sum(s: Seq<u8>, c: Corpus) -> int
    decreases s.len(),
{
    if s.len() < 3 {
        0
    } else {
        tri_term(c, s.subrange(0, 3)) + tri_sum(s.skip(1), c)
    }
}

/// The plausibility score of `s` against corpus `c`: the input is
/// lower-cased, then the three terms are summed.
pub open spec fn spec_score(s: Seq<u8>, c: Corpus) -> int {
    class_sum(lower_seq(s)) + ws_bonus(lower_seq(s), c.word_set()) + tri_sum(lower_seq(s), c)
}

pub proof fn lemma_class_sum_bounds(s: Seq<u8>)
    ensures
        -100 * s.len() <= class_sum(s) <= 10 * s.len(),
    decreases s.len(),
{
    if s.len() > 0 {
        lemma_class_sum_bounds(s.skip(1));
    }
}

pub proof fn lemma_ws_bonus_bounds(s: Seq<u8>, cur: Seq<u8>, words: Set<Seq<u8>>)
    ensures
        0 <= ws_bonus_acc(s, cur, words) <= 50 * (s.len() + cur.len()),
    decreases s.len(),
{
    if s.len() == 0 {
    } else if is_ws(s[0]) {
        lemma_ws_bonus_bounds(s.skip(1), Seq::empty(), words);
    } else {
        lemma_ws_bonus_bounds(s.skip(1), cur.push(s[0]), words);
    }
}

/// Each window's term lies between 0 and 10.
pub proof fn lemma_tri_term_bounds(c: Corpus, t: Seq<u8>)
    requires
        c.wf(),
    ensures
        0 <= tri_term(c, t) <= 10,
{
    lemma_lookup_bounds(c.trigrams.freqs@, t);
    if c.total_count() > 0 {
        let f = c.freq_of(t);
        let n = c.total_count();
        lemma_div_is_ordered(f * 10, n * 10, n);
        lemma_div_multiples_vanish(10, n);
        assert(f * 10 / n >= 0) by (nonlinear_arith)
            requires
                f >= 0,
                n > 0,
        ;
    }
}

pub proof fn lemma_tri_sum_bounds(s: Seq<u8>, c: Corpus)
    requires
        c.wf(),
    ensures
        0 <= tri_sum(s, c) <= 10 * win_count(s.len() as int),
    decreases s.len(),
{
    if s.len() >= 3 {
        lemma_tri_term_bounds(c, s.subrange(0, 3));
        lemma_tri_sum_bounds(s.skip(1), c);
    }
}

/// The class score of one byte.
fn class_byte(b: u8) -> (r: i64)
    ensures
        r as int == class_score(b),
{
    if (48 <= b && b <= 57) || (65 <= b && b <= 90) || (97 <= b && b <= 122) {
        10
    } else if b == 9 || b == 10 || b == 12 || b == 13 || b == 32 {
        5
    } else if b <= 31 || b == 127 {
        -100
    } else {
        0
    }
}

/// One window's term, computed from the stored frequency and total.
fn tri_term_exec(corpus: &Corpus, t: &Trigram) -> (r: i64)
    requires
        corpus.wf(),
    ensures
        r as int == tri_term(*corpus, t@),
        0 <= r <= 10,
{
    proof {
        lemma_tri_term_bounds(*corpus, t@);
        lemma_lookup_bounds(corpus.trigrams.freqs@, t@);
    }
    let total = corpus.trigrams.total;
    if total == 0 {
        return 0;
    }
    let f = corpus.freq(t);
    let term: u128 = (f as u128) * 10 / (total as u128);
    proof {
        assert(term == corpus.freq_of(t@) * 10 / corpus.total_count());
    }
    term as i64
}

/// Score a byte string against the corpus: the string is lower-cased, each
/// byte earns its class score, each whitespace-delimited token found in the
/// dictionary earns 50 per byte, and each width-3 window earns its scaled
/// corpus frequency. The result is exactly `spec_score`, a pure function of
/// the bytes and the corpus.
pub fn score(guess: &[u8], corpus: &Corpus) -> (r: i64)
    requires
        corpus.wf(),
        guess@.len() <= SCORE_LEN_MAX,
    ensures
        r as int == spec_score(guess@, *corpus),
{
    let ghost lg = lower_seq(guess@);
    let ghost words = corpus.word_set();
    let n = guess.len();

    let mut low: Vec<u8> = Vec::with_capacity(n);
    for i in 0..n
        invariant
            n == guess@.len(),
            low@.len() == i,
            forall|j: int| 0 <= j < i ==> low@[j] == to_lower(guess@[j]),
    {
        low.push(lower_byte(guess[i]));
    }
    proof {
        assert(low@ =~= lg);
    }

    // Per-byte class scores.
    let mut acc1: i64 = 0;
    proof {
        assert(lg.skip(0) =~= lg);
    }
    for i in 0..n
        invariant
            n == lg.len(),
            low@ == lg,
            n <= SCORE_LEN_MAX,
            class_sum(lg) == acc1 + class_sum(lg.skip(i as int)),
            -100 * i <= acc1 <= 10 * i,
    {
        proof {
            assert(lg.skip(i as int)[0] == lg[i as int]);
            assert(lg.skip(i as int).skip(1) =~= lg.skip(i + 1));
        }
        acc1 = acc1 + class_byte(low[i]);
    }
    proof {
        assert(lg.skip(n as int) =~= Seq::<u8>::empty());
    }

    // Dictionary-word bonuses for whitespace-delimited tokens.
    let mut acc2: i64 = 0;
    let mut start: usize = 0;
    proof {
        assert(lg.skip(0) =~= lg);
        assert(lg.subrange(0, 0) =~= Seq::<u8>::empty());
    }
    for i in 0..n
        invariant
            n == lg.len(),
            n <= SCORE_LEN_MAX,
            n == low@.len(),
            low@ == lg,
            corpus.wf(),
            words == corpus.word_set(),
            start <= i <= n,
            ws_bonus(lg, words) == acc2 + ws_bonus_acc(lg.skip(i as int), lg.subrange(start as int, i as int), words),
            0 <= acc2 <= 50 * start,
    {
        proof {
            assert(lg.skip(i as int)[0] == lg[i as int]);
            assert(lg.skip(i as int).skip(1) =~= lg.skip(i + 1));
        }
        let b = low[i];
        if ws_byte(b) {
            let tok = &low[start..i];
            proof {
                assert(tok@ == lg.subrange(start as int, i as int));
            }
            if corpus.contains_word(tok) {
                acc2 = acc2 + 50 * ((i - start) as i64);
            }
            start = i + 1;
            proof {
                assert(lg.subrange(start as int, i + 1) =~= Seq::<u8>::empty());
            }
        } else {
            proof {
                assert(lg.subrange(start as int, i as int).push(lg[i as int]) =~= lg.subrange(
                    start as int,
                    i + 1,
                ));
            }
        }
    }
    proof {
        assert(lg.skip(n as int) =~= Seq::<u8>::empty());
    }
    let tok = &low[start..n];
    proof {
        assert(tok@ == lg.subrange(start as int, n as int));
    }
    if corpus.contains_word(tok) {
        acc2 = acc2 + 50 * ((n - start) as i64);
    }

    // Trigram terms.
    let mut acc3: i64 = 0;
    if n >= 3 {
        let m = n - 2;
        proof {
            assert(lg.skip(0) =~= lg);
        }
        for i in 0..m
            invariant
                n == lg.len(),
                n == low@.len(),
                low@ == lg,
                corpus.wf(),
                m == n - 2,
                n >= 3,
                n <= SCORE_LEN_MAX,
                tri_sum(lg, *corpus) == acc3 + tri_sum(lg.skip(i as int), *corpus),
                0 <= acc3 <= 10 * i,
        {
            let t = Trigram([low[i], low[i + 1], low[i + 2]]);
            proof {
                assert(t@ =~= lg.subrange(i as int, i + 3));
                assert(lg.skip(i as int).subrange(0, 3) =~= lg.subrange(i as int, i + 3));
                assert(lg.skip(i as int).skip(1) =~= lg.skip(i + 1));
            }
            let term = tri_term_exec(corpus, &t);
            acc3 = acc3 + term;
        }
        proof {
            assert(tri_sum(lg.skip(m as int), *corpus) == 0);
        }
    }

    acc1 + acc2 + acc3
}

} // verus!
