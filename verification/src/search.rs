use vstd::prelude::*;

use vstd::arithmetic::div_mod::{
    lemma_div_is_ordered, lemma_div_multiples_vanish, lemma_mod_self_0, lemma_small_mod,
};

use crate::codec::{b64_decode, decode_guess, DecodeErrorKind, DecodeOutcome};
use crate::corpus::Corpus;
use crate::laws::flip_case;
use crate::rng::{rand_below, rand_u32};
use crate::score::{score, spec_score, SCORE_LEN_MAX};
use crate::{alpha_byte, is_alpha};

verus! {

/// The initial case-flip probability, as a fraction of 2^32 (about one half).
pub const P_FLIP_INIT: u32 = 0x8000_0000;

/// The floor the flip probability decays toward (about one percent), so that
/// exploration never fully stops.
pub const P_FLIP_FLOOR: u32 = 0x028F_5C29;

/// The default per-byte inheritance probability (about one percent).
pub const P_INHERIT_DEFAULT: u32 = 0x028F_5C29;

/// The numerator of the per-step decay of the flip probability; the
/// denominator is 65536. The fraction approximates the fourth root of 0.999,
/// so that the aggregate cooling across a four-head population matches a
/// single head cooled by 0.999 per step.
pub const DECAY_NUM: u64 = 65519;

/// One head of the search: a candidate haystack, its decoded guess, and the
/// guess's score.
pub struct Search {
    pub haystack: Vec<u8>,
    pub guess: Vec<u8>,
    pub score: i64,
}

impl Search {
    /// The state is coherent: the guess is the successful decode of the
    /// haystack and the score is the guess's score against `c`.
    pub open spec fn consistent(self, c: Corpus) -> bool {
        &&& b64_decode(self.haystack@) matches Ok(d) && d == self.guess@
        &&& self.guess@.len() <= SCORE_LEN_MAX
        &&& self.score as int == spec_score(self.guess@, c)
    }

    /// Empty both buffers and drop the score to the least value, so that any
    /// scored state compares above this one.
    pub fn clear(&mut self)
        ensures
            final(self).haystack@.len() == 0,
            final(self).guess@.len() == 0,
            final(self).score == i64::MIN,
    {
        self.haystack.clear();
        self.guess.clear();
        self.score = i64::MIN;
    }

    /// Overwrite this state with a copy of `other`, reusing the buffers.
    pub fn copy_from(&mut self, other: &Search)
        ensures
            final(self).haystack@ == other.haystack@,
            final(self).guess@ == other.guess@,
            final(self).score == other.score,
    {
        self.clear();
        self.haystack.extend_from_slice(other.haystack.as_slice());
        self.guess.extend_from_slice(other.guess.as_slice());
        self.score = other.score;
        proof {
            assert(self.haystack@ =~= other.haystack@);
            assert(self.guess@ =~= other.guess@);
        }
    }
}

/// A fresh state holding the same haystack, guess and score as `s`.
fn copy_of(s: &Search) -> (r: Search)
    ensures
        r.haystack@ == s.haystack@,
        r.guess@ == s.guess@,
        r.score == s.score,
{
    let mut r = Search { haystack: Vec::new(), guess: Vec::new(), score: s.score };
    r.haystack.extend_from_slice(s.haystack.as_slice());
    r.guess.extend_from_slice(s.guess.as_slice());
    proof {
        assert(r.haystack@ =~= s.haystack@);
        assert(r.guess@ =~= s.guess@);
    }
    r
}

/// Toggle the case of an ASCII letter; anything else is kept.
pub fn flip_byte(b: u8) -> (r: u8)
    ensures
        r == flip_case(b),
{
    if 65 <= b && b <= 90 {
        b + 32
    } else if 97 <= b && b <= 122 {
        b - 32
    } else {
        b
    }
}

/// `nb` is `c` itself, or `c` with its letter case toggled.
pub open spec fn byte_or_flip(nb: u8, c: u8) -> bool {
    nb == c || (is_alpha(c) && nb == flip_case(c))
}

/// What one mutated byte may be: the source byte, or the byte at the same
/// position of some head in the pool, either possibly case-flipped.
pub open spec fn mutated_byte_ok(nb: u8, orig: u8, pool: Seq<Seq<u8>>, i: int) -> bool {
    byte_or_flip(nb, orig) || exists|h: int|
        0 <= h < pool.len() && i < pool[h].len() && byte_or_flip(nb, #[trigger] pool[h][i])
}

/// `nb` is `c` itself, or the byte at position `i` of some head in the pool.
pub open spec fn inherited_byte(nb: u8, orig: u8, pool: Seq<Seq<u8>>, i: int) -> bool {
    nb == orig || exists|h: int|
        0 <= h < pool.len() && i < pool[h].len() && nb == #[trigger] pool[h][i]
}

/// `m` is a possible output of one mutation pass over `src` with `pool`.
pub open spec fn mutation_of(m: Seq<u8>, src: Seq<u8>, pool: Seq<Seq<u8>>) -> bool {
    m.len() == src.len() && forall|i: int|
        0 <= i < src.len() ==> mutated_byte_ok(#[trigger] m[i], src[i], pool, i)
}

/// The haystacks of a head population.
pub open spec fn pool_of(heads: Seq<Search>) -> Seq<Seq<u8>> {
    heads.map_values(|h: Search| h.haystack@)
}

/// One mutation pass over `buf`: each byte is first, with probability
/// `p_inherit` (out of 2^32), replaced by the byte at the same position of a
/// uniformly chosen head, and then, if it is an ASCII letter, has its case
/// toggled with probability `p_flip`. With both probabilities zero the
/// buffer is left byte-identical.
pub fn mutate(buf: &mut Vec<u8>, heads: &Vec<Search>, p_inherit: u32, p_flip: u32)
    requires
        heads@.len() > 0,
        forall|h: int|
            0 <= h < heads@.len() ==> (#[trigger] heads@[h]).haystack@.len() >= old(buf)@.len(),
    ensures
        final(buf)@.len() == old(buf)@.len(),
        mutation_of(final(buf)@, old(buf)@, pool_of(heads@)),
        p_inherit == 0 ==> forall|i: int|
            0 <= i < old(buf)@.len() ==> byte_or_flip(#[trigger] final(buf)@[i], old(buf)@[i]),
        p_flip == 0 ==> forall|i: int|
            0 <= i < old(buf)@.len() ==> inherited_byte(
                #[trigger] final(buf)@[i],
                old(buf)@[i],
                pool_of(heads@),
                i,
            ),
        p_inherit == 0 && p_flip == 0 ==> final(buf)@ == old(buf)@,
{
    let n = buf.len();
    let ghost pool = pool_of(heads@);
    for i in 0..n
        invariant
            n == old(buf)@.len(),
            buf@.len() == n,
            pool == pool_of(heads@),
            heads@.len() > 0,
            forall|h: int|
                0 <= h < heads@.len() ==> (#[trigger] heads@[h]).haystack@.len() >= n,
            forall|j: int| i <= j < n ==> #[trigger] buf@[j] == old(buf)@[j],
            forall|j: int| 0 <= j < i ==> mutated_byte_ok(#[trigger] buf@[j], old(buf)@[j], pool, j),
            p_inherit == 0 ==> forall|j: int|
                0 <= j < i ==> byte_or_flip(#[trigger] buf@[j], old(buf)@[j]),
            p_flip == 0 ==> forall|j: int|
                0 <= j < i ==> inherited_byte(#[trigger] buf@[j], old(buf)@[j], pool, j),
            p_inherit == 0 && p_flip == 0 ==> forall|j: int|
                0 <= j < n ==> #[trigger] buf@[j] == old(buf)@[j],
    {
        let orig = buf[i];
        let mut b = orig;
        let ghost mut from_head: Option<int> = None;
        if rand_u32() < p_inherit {
            let h = rand_below(heads.len());
            b = heads[h].haystack[i];
            proof {
                from_head = Some(h as int);
                assert(pool[h as int] == heads@[h as int].haystack@);
            }
        }
        let mut nb = b;
        if alpha_byte(b) && rand_u32() < p_flip {
            nb = flip_byte(b);
        }
        buf[i] = nb;
        proof {
            assert(byte_or_flip(nb, b));
            match from_head {
                None => {
                    assert(b == orig);
                },
                Some(h) => {
                    assert(0 <= h < pool.len() && i < pool[h].len() && byte_or_flip(nb, pool[h][i as int]));
                },
            }
            assert(mutated_byte_ok(buf@[i as int], old(buf)@[i as int], pool, i as int));
            if p_inherit == 0 {
                assert(b == orig);
                assert(byte_or_flip(buf@[i as int], old(buf)@[i as int]));
            }
            if p_flip == 0 {
                assert(nb == b);
                assert(inherited_byte(buf@[i as int], old(buf)@[i as int], pool, i as int));
            }
        }
    }
    proof {
        if p_inherit == 0 && p_flip == 0 {
            assert(buf@ =~= old(buf)@);
        }
    }
}

/// One decay step of the flip probability: multiply by `DECAY_NUM` / 65536,
/// never dropping below the floor.
pub open spec fn decayed(p: u32) -> int {
    let d = p * DECAY_NUM / 65536;
    if d >= P_FLIP_FLOOR {
        d
    } else {
        P_FLIP_FLOOR as int
    }
}

/// Apply one decay step to the flip probability.
pub fn decay_p_flip(p: u32) -> (r: u32)
    ensures
        r as int == decayed(p),
        P_FLIP_FLOOR <= r,
        r as int <= if p >= P_FLIP_FLOOR {
            p as int
        } else {
            P_FLIP_FLOOR as int
        },
{
    let d64: u64 = (p as u64) * DECAY_NUM / 65536;
    proof {
        lemma_div_is_ordered((p as int) * (DECAY_NUM as int), (p as int) * 65536, 65536);
        lemma_div_multiples_vanish(p as int, 65536);
        assert((p as int) * (DECAY_NUM as int) <= (p as int) * 65536);
        assert(d64 as int <= p as int);
    }
    let d = d64 as u32;
    if d >= P_FLIP_FLOOR {
        d
    } else {
        P_FLIP_FLOOR
    }
}

/// Why a search step or its setup failed.
#[derive(Debug)]
pub enum SearchError {
    /// Decoding failed in a way the search treats as fatal, with the bytes
    /// that would not decode; for a step this can only be the
    /// non-recoverable kind.
    Decode(DecodeErrorKind, Vec<u8>),
    /// The decoded guess is too long to score.
    OversizedGuess,
}

/// What one iteration reports for the progress line: the trial state, and
/// how it compared.
pub struct StepReport {
    /// The trial beat the global best and replaced it.
    pub improved: bool,
    /// The trial's haystack had an invalid tail and was discarded unscored.
    pub skipped: bool,
    /// The trial state of this iteration; when `skipped`, its guess is empty
    /// and its score is the least value.
    pub trial: Search,
}

/// The multi-head stochastic search: a population of heads, the global best,
/// the annealed flip probability and the round-robin position.
pub struct Driver {
    pub best: Search,
    pub heads: Vec<Search>,
    pub p_flip: u32,
    pub p_inherit: u32,
    pub next_head: usize,
}

impl Driver {
    /// The driver invariant: every state is coherent with the corpus, all
    /// haystacks have the initial length, the global best is at least every
    /// head, and the flip probability never falls below its floor.
    pub open spec fn wf(self, c: Corpus) -> bool {
        &&& self.heads@.len() > 0
        &&& self.next_head < self.heads@.len()
        &&& self.best.consistent(c)
        &&& forall|h: int| 0 <= h < self.heads@.len() ==> (#[trigger] self.heads@[h]).consistent(c)
        &&& forall|h: int|
            0 <= h < self.heads@.len() ==> (#[trigger] self.heads@[h]).haystack@.len()
                == self.best.haystack@.len()
        &&& forall|h: int|
            0 <= h < self.heads@.len() ==> (#[trigger] self.heads@[h]).score <= self.best.score
        &&& self.p_flip >= P_FLIP_FLOOR
    }

    /// Set up a search over `haystack`: decode and score it, and fill a
    /// population of `n_heads` copies. Fails exactly when the initial
    /// haystack does not decode, or its guess is too long to score.
    pub fn new(haystack: Vec<u8>, corpus: &Corpus, n_heads: usize, p_inherit: u32) -> (r: Result<
        Driver,
        SearchError,
    >)
        requires
            corpus.wf(),
            n_heads > 0,
        ensures
            match r {
                Ok(d) => {
                    &&& d.wf(*corpus)
                    &&& d.best.haystack@ == haystack@
                    &&& (b64_decode(haystack@) matches Ok(g) && d.best.guess@ == g)
                    &&& d.best.score as int == spec_score(d.best.guess@, *corpus)
                    &&& d.heads@.len() == n_heads
                    &&& forall|h: int|
                        0 <= h < n_heads ==> (#[trigger] d.heads@[h]).score == d.best.score
                    &&& forall|h: int|
                        0 <= h < n_heads ==> (#[trigger] d.heads@[h]).haystack@
                            == d.best.haystack@ && d.heads@[h].guess@ == d.best.guess@
                    &&& d.p_flip == P_FLIP_INIT
                    &&& d.p_inherit == p_inherit
                },
                Err(SearchError::Decode(k, hay)) => b64_decode(haystack@) == Err::<
                    Seq<u8>,
                    DecodeErrorKind,
                >(k) && hay@ == haystack@,
                Err(SearchError::OversizedGuess) => b64_decode(haystack@) matches Ok(g) && g.len()
                    > SCORE_LEN_MAX,
            },
    {
        let guess = match decode_guess(&haystack) {
            DecodeOutcome::Decoded(v) => v,
            DecodeOutcome::InvalidTail => {
                return Err(SearchError::Decode(DecodeErrorKind::InvalidLastSymbol, haystack));
            },
            DecodeOutcome::Fatal => {
                return Err(SearchError::Decode(DecodeErrorKind::Other, haystack));
            },
        };
        if (guess.len() as u64) > SCORE_LEN_MAX {
            return Err(SearchError::OversizedGuess);
        }
        let s = score(guess.as_slice(), corpus);
        let best = Search { haystack, guess, score: s };
        let mut heads: Vec<Search> = Vec::new();
        for k in 0..n_heads
            invariant
                heads@.len() == k,
                forall|h: int| 0 <= h < k ==> (#[trigger] heads@[h]).haystack@ == best.haystack@,
                forall|h: int| 0 <= h < k ==> (#[trigger] heads@[h]).guess@ == best.guess@,
                forall|h: int| 0 <= h < k ==> (#[trigger] heads@[h]).score == best.score,
        {
            heads.push(copy_of(&best));
        }
        Ok(Driver { best, heads, p_flip: P_FLIP_INIT, p_inherit, next_head: 0 })
    }

    /// One search iteration over the head at the round-robin position:
    /// mutate a copy of its haystack, decode and score it, and keep it
    /// wherever it beats a retained state. The global best and every head
    /// never lose score; an invalid tail only discards the trial; any other
    /// decode failure stops the search with the state unchanged.
    pub fn step(&mut self, corpus: &Corpus) -> (r: Result<StepReport, SearchError>)
        requires
            corpus.wf(),
            old(self).wf(*corpus),
        ensures
            final(self).heads@.len() == old(self).heads@.len(),
            final(self).p_inherit == old(self).p_inherit,
            match r {
                Ok(rep) => {
                    &&& final(self).wf(*corpus)
                    &&& final(self).best.score >= old(self).best.score
                    &&& forall|h: int|
                        0 <= h < old(self).heads@.len() ==> (#[trigger] final(self).heads@[h]).score
                            >= old(self).heads@[h].score
                    &&& final(self).next_head == (old(self).next_head + 1) % (
                    old(self).heads@.len() as int)
                    &&& final(self).p_flip as int == decayed(old(self).p_flip)
                    &&& mutation_of(
                        rep.trial.haystack@,
                        old(self).heads@[old(self).next_head as int].haystack@,
                        pool_of(old(self).heads@),
                    )
                    &&& !rep.skipped ==> rep.trial.consistent(*corpus)
                    &&& !rep.skipped ==> (rep.improved <==> rep.trial.score > old(self).best.score)
                    &&& rep.improved ==> final(self).best.score == rep.trial.score
                        && final(self).best.haystack@ == rep.trial.haystack@
                        && final(self).best.guess@ == rep.trial.guess@
                    &&& !rep.improved ==> final(self).best == old(self).best
                    &&& forall|h: int|
                        0 <= h < old(self).heads@.len() && h != old(self).next_head ==> (
                        #[trigger] final(self).heads@[h]) == old(self).heads@[h]
                    &&& !rep.skipped && rep.trial.score > old(self).heads@[old(self).next_head as int].score
                        ==> final(self).heads@[old(self).next_head as int].score == rep.trial.score
                    &&& !rep.skipped && rep.trial.score <= old(self).heads@[old(self).next_head as int].score
                        ==> final(self).heads@[old(self).next_head as int] == old(self).heads@[old(self).next_head as int]
                    &&& rep.skipped ==> !rep.improved && b64_decode(rep.trial.haystack@) == Err::<
                        Seq<u8>,
                        DecodeErrorKind,
                    >(DecodeErrorKind::InvalidLastSymbol) && final(self).heads@ == old(
                        self,
                    ).heads@ && final(self).best == old(self).best && rep.trial.guess@.len() == 0
                        && rep.trial.score == i64::MIN
                },
                Err(e) => {
                    &&& final(self).best == old(self).best
                    &&& final(self).heads@ == old(self).heads@
                    &&& match e {
                        SearchError::Decode(k, hay) => k == DecodeErrorKind::Other
                            && final(self).p_flip == old(self).p_flip
                            && final(self).next_head == old(self).next_head
                            && mutation_of(
                            hay@,
                            old(self).heads@[old(self).next_head as int].haystack@,
                            pool_of(old(self).heads@),
                        ) && b64_decode(hay@) == Err::<Seq<u8>, DecodeErrorKind>(
                            DecodeErrorKind::Other,
                        ),
                        SearchError::OversizedGuess => final(self).p_flip as int == decayed(
                            old(self).p_flip,
                        ) && final(self).next_head == (old(self).next_head + 1) % (
                        old(self).heads@.len() as int) && exists|m: Seq<u8>|
                            mutation_of(
                                m,
                                old(self).heads@[old(self).next_head as int].haystack@,
                                pool_of(old(self).heads@),
                            ) && (b64_decode(m) matches Ok(g) && g.len() > SCORE_LEN_MAX as int),
                    }
                },
            },
    {
        let hi = self.next_head;
        let n = self.heads.len();
        let ghost pool = pool_of(self.heads@);
        let ghost src = self.heads@[hi as int].haystack@;

        let mut trial_hay: Vec<u8> = Vec::new();
        trial_hay.extend_from_slice(self.heads[hi].haystack.as_slice());
        proof {
            assert(trial_hay@ =~= src);
        }
        mutate(&mut trial_hay, &self.heads, self.p_inherit, self.p_flip);

        match decode_guess(&trial_hay) {
            DecodeOutcome::Fatal => {
                return Err(SearchError::Decode(DecodeErrorKind::Other, trial_hay));
            },
            DecodeOutcome::InvalidTail => {
                self.p_flip = decay_p_flip(self.p_flip);
                self.next_head = if hi + 1 < n {
                    hi + 1
                } else {
                    0
                };
                let trial = Search { haystack: trial_hay, guess: Vec::new(), score: i64::MIN };
                proof {
                    if hi + 1 < n {
                        lemma_small_mod((hi + 1) as nat, n as nat);
                    } else {
                        lemma_mod_self_0(n as int);
                    }
                }
                return Ok(StepReport { improved: false, skipped: true, trial });
            },
            DecodeOutcome::Decoded(g) => {
                self.p_flip = decay_p_flip(self.p_flip);
                self.next_head = if hi + 1 < n {
                    hi + 1
                } else {
                    0
                };
                proof {
                    if hi + 1 < n {
                        lemma_small_mod((hi + 1) as nat, n as nat);
                    } else {
                        lemma_mod_self_0(n as int);
                    }
                }
                if (g.len() as u64) > SCORE_LEN_MAX {
                    proof {
                        assert(mutation_of(trial_hay@, src, pool) && (b64_decode(trial_hay@)
                            matches Ok(d) && d.len() > SCORE_LEN_MAX as int));
                    }
                    return Err(SearchError::OversizedGuess);
                }
                let s = score(g.as_slice(), corpus);
                let trial = Search { haystack: trial_hay, guess: g, score: s };
                proof {
                    assert(trial.consistent(*corpus));
                }
                let improved = s > self.best.score;
                if improved {
                    self.best.copy_from(&trial);
                }
                if s > self.heads[hi].score {
                    let replacement = copy_of(&trial);
                    self.heads[hi] = replacement;
                }
                proof {
                    assert(self.best.consistent(*corpus));
                    assert(forall|h: int|
                        0 <= h < self.heads@.len() ==> (#[trigger] self.heads@[h]).consistent(
                            *corpus,
                        ));
                    assert(forall|h: int|
                        0 <= h < self.heads@.len() ==> (#[trigger] self.heads@[h]).haystack@.len()
                            == self.best.haystack@.len());
                    assert(forall|h: int|
                        0 <= h < self.heads@.len() ==> (#[trigger] self.heads@[h]).score
                            <= self.best.score);
                }
                return Ok(StepReport { improved, skipped: false, trial });
            },
        }
    }
}

} // verus!
