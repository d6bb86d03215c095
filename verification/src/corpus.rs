use vstd::prelude::*;

use crate::trigram::{win_count, Trigram};
use crate::{lower_byte, lower_seq, to_lower};

verus! {

// ---------------------------------------------------------------------------
// The frequency table: an association list from trigrams to counts.
// ---------------------------------------------------------------------------

/// No two entries of the table carry the same trigram.
pub open spec fn unique_keys(fs: Seq<(Trigram, u64)>) -> bool {
    forall|i: int, j: int|
        0 <= i < j < fs.len() ==> (#[trigger] fs[i]).0@ != (#[trigger] fs[j]).0@
}

/// Whether some entry of the table carries the trigram `t`.
pub open spec fn has_key(fs: Seq<(Trigram, u64)>, t: Seq<u8>) -> bool {
    exists|i: int| 0 <= i < fs.len() && (#[trigger] fs[i]).0@ == t
}

/// The count stored for `t`, or 0 when no entry carries it.
pub open spec fn lookup_freq(fs: Seq<(Trigram, u64)>, t: Seq<u8>) -> int
    decreases fs.len(),
{
    if fs.len() == 0 {
        0
    } else if fs[0].0@ == t {
        fs[0].1 as int
    } else {
        lookup_freq(fs.skip(1), t)
    }
}

/// The sum of all counts in the table.
pub open spec fn sum_values(fs: Seq<(Trigram, u64)>) -> int
    decreases fs.len(),
{
    if fs.len() == 0 {
        0
    } else {
        fs[0].1 + sum_values(fs.skip(1))
    }
}

/// Every lookup lies between 0 and the sum of all counts.
pub proof fn lemma_lookup_bounds(fs: Seq<(Trigram, u64)>, t: Seq<u8>)
    ensures
        0 <= lookup_freq(fs, t) <= sum_values(fs),
    decreases fs.len(),
{
    if fs.len() > 0 {
        lemma_lookup_bounds(fs.skip(1), t);
    }
}

/// A trigram that no entry carries looks up to 0.
pub proof fn lemma_lookup_absent(fs: Seq<(Trigram, u64)>, t: Seq<u8>)
    requires
        !has_key(fs, t),
    ensures
        lookup_freq(fs, t) == 0,
    decreases fs.len(),
{
    if fs.len() > 0 {
        assert(fs[0].0@ != t);
        assert(!has_key(fs.skip(1), t)) by {
            if has_key(fs.skip(1), t) {
                let i = choose|i: int| 0 <= i < fs.skip(1).len() && fs.skip(1)[i].0@ == t;
                assert(fs[i + 1].0@ == t);
            }
        }
        lemma_lookup_absent(fs.skip(1), t);
    }
}

/// Skipping entries that do not carry `t` leaves the lookup unchanged.
pub proof fn lemma_lookup_skip(fs: Seq<(Trigram, u64)>, n: int, t: Seq<u8>)
    requires
        0 <= n <= fs.len(),
        forall|j: int| 0 <= j < n ==> (#[trigger] fs[j]).0@ != t,
    ensures
        lookup_freq(fs, t) == lookup_freq(fs.skip(n), t),
    decreases n,
{
    if n > 0 {
        assert(fs.skip(1).skip(n - 1) =~= fs.skip(n));
        lemma_lookup_skip(fs.skip(1), n - 1, t);
    } else {
        assert(fs.skip(0) =~= fs);
    }
}

/// Every entry of the table carries a count of at least one.
pub open spec fn positive_counts(fs: Seq<(Trigram, u64)>) -> bool {
    forall|i: int| 0 <= i < fs.len() ==> (#[trigger] fs[i]).1 >= 1
}

/// In a table without zero-count entries, a trigram has an entry exactly
/// when its lookup is at least one.
pub proof fn lemma_has_key_positive(fs: Seq<(Trigram, u64)>, t: Seq<u8>)
    requires
        positive_counts(fs),
    ensures
        has_key(fs, t) <==> lookup_freq(fs, t) >= 1,
    decreases fs.len(),
{
    if fs.len() == 0 {
        if has_key(fs, t) {
            let i = choose|i: int| 0 <= i < fs.len() && (#[trigger] fs[i]).0@ == t;
        }
    } else if fs[0].0@ == t {
        assert(has_key(fs, t));
        assert(fs[0].1 >= 1);
    } else {
        assert(positive_counts(fs.skip(1))) by {
            assert(forall|q: int|
                0 <= q < fs.skip(1).len() ==> (#[trigger] fs.skip(1)[q]) == fs[q + 1]);
        }
        lemma_has_key_positive(fs.skip(1), t);
        assert(has_key(fs, t) <==> has_key(fs.skip(1), t)) by {
            if has_key(fs, t) {
                let i = choose|i: int| 0 <= i < fs.len() && (#[trigger] fs[i]).0@ == t;
                assert(fs.skip(1)[i - 1].0@ == t);
            }
            if has_key(fs.skip(1), t) {
                let i = choose|i: int|
                    0 <= i < fs.skip(1).len() && (#[trigger] fs.skip(1)[i]).0@ == t;
                assert(fs[i + 1].0@ == t);
            }
        }
    }
}

/// Replacing the count at index `i` changes exactly that trigram's lookup,
/// and moves the sum by the difference.
pub proof fn lemma_table_update(fs: Seq<(Trigram, u64)>, i: int, v: u64)
    requires
        unique_keys(fs),
        0 <= i < fs.len(),
    ensures
        unique_keys(fs.update(i, (fs[i].0, v))),
        sum_values(fs.update(i, (fs[i].0, v))) == sum_values(fs) - fs[i].1 + v,
        forall|s: Seq<u8>|
            #[trigger] lookup_freq(fs.update(i, (fs[i].0, v)), s) == if s == fs[i].0@ {
                v as int
            } else {
                lookup_freq(fs, s)
            },
    decreases i,
{
    let p = (fs[i].0, v);
    let upd = fs.update(i, p);
    assert(forall|j: int| 0 <= j < fs.len() ==> (#[trigger] upd[j]).0 == fs[j].0);
    assert(unique_keys(upd)) by {
        assert forall|a: int, b: int| 0 <= a < b < upd.len() implies (#[trigger] upd[a]).0@
            != (#[trigger] upd[b]).0@ by {
            assert(upd[a].0 == fs[a].0 && upd[b].0 == fs[b].0);
        }
    }
    if i == 0 {
        assert(upd[0] == p);
        assert(upd.skip(1) =~= fs.skip(1));
        assert(sum_values(upd) == p.1 + sum_values(fs.skip(1)));
        assert(sum_values(fs) == fs[0].1 + sum_values(fs.skip(1)));
        assert forall|s: Seq<u8>|
            #[trigger] lookup_freq(upd, s) == if s == fs[0].0@ {
                v as int
            } else {
                lookup_freq(fs, s)
            } by {
            if s == fs[0].0@ {
                assert(lookup_freq(upd, s) == v as int);
            } else {
                assert(lookup_freq(upd, s) == lookup_freq(upd.skip(1), s));
                assert(lookup_freq(fs, s) == lookup_freq(fs.skip(1), s));
            }
        }
    } else {
        let tail = fs.skip(1);
        assert(tail[i - 1] == fs[i]);
        assert(unique_keys(tail)) by {
            assert(forall|q: int| 0 <= q < tail.len() ==> (#[trigger] tail[q]).0 == fs[q + 1].0);
        }
        lemma_table_update(tail, i - 1, v);
        let upd2 = tail.update(i - 1, (tail[i - 1].0, v));
        assert(upd.skip(1) =~= upd2);
        assert(upd[0] == fs[0]);
        assert(sum_values(upd) == fs[0].1 + sum_values(upd2));
        assert(sum_values(fs) == fs[0].1 + sum_values(tail));
        assert(fs[0].0@ != fs[i].0@);
        assert forall|s: Seq<u8>|
            #[trigger] lookup_freq(upd, s) == if s == fs[i].0@ {
                v as int
            } else {
                lookup_freq(fs, s)
            } by {
            if s == fs[0].0@ {
                assert(lookup_freq(upd, s) == fs[0].1 as int);
                assert(lookup_freq(fs, s) == fs[0].1 as int);
            } else {
                assert(lookup_freq(upd, s) == lookup_freq(upd2, s));
                assert(lookup_freq(fs, s) == lookup_freq(tail, s));
            }
        }
    }
}

/// Appending an entry for a trigram the table does not yet carry gives it
/// that count, keeps every other lookup, and grows the sum by the count.
pub proof fn lemma_table_push(fs: Seq<(Trigram, u64)>, t: Trigram, v: u64)
    requires
        !has_key(fs, t@),
    ensures
        unique_keys(fs) ==> unique_keys(fs.push((t, v))),
        sum_values(fs.push((t, v))) == sum_values(fs) + v,
        forall|s: Seq<u8>|
            #[trigger] lookup_freq(fs.push((t, v)), s) == if s == t@ {
                v as int
            } else {
                lookup_freq(fs, s)
            },
    decreases fs.len(),
{
    let ext = fs.push((t, v));
    assert(forall|j: int| 0 <= j < fs.len() ==> (#[trigger] ext[j]) == fs[j]);
    assert(ext[fs.len() as int] == (t, v));
    if unique_keys(fs) {
        assert forall|a: int, b: int| 0 <= a < b < ext.len() implies (#[trigger] ext[a]).0@
            != (#[trigger] ext[b]).0@ by {
            if b < fs.len() {
                assert(ext[a].0 == fs[a].0 && ext[b].0 == fs[b].0);
            } else {
                assert(ext[b] == (t, v));
                assert(fs[a].0@ != t@);
            }
        }
    }
    if fs.len() == 0 {
        assert(ext.skip(1) =~= Seq::<(Trigram, u64)>::empty());
        assert(sum_values(ext) == v + sum_values(ext.skip(1)));
        assert forall|s: Seq<u8>|
            #[trigger] lookup_freq(ext, s) == if s == t@ {
                v as int
            } else {
                lookup_freq(fs, s)
            } by {
            if s != t@ {
                assert(lookup_freq(ext, s) == lookup_freq(ext.skip(1), s));
            }
        }
    } else {
        let tail = fs.skip(1);
        assert(ext.skip(1) =~= tail.push((t, v)));
        assert(!has_key(tail, t@)) by {
            if has_key(tail, t@) {
                let i = choose|i: int| 0 <= i < tail.len() && tail[i].0@ == t@;
                assert(fs[i + 1].0@ == t@);
            }
        }
        lemma_table_push(tail, t, v);
        assert(ext[0] == fs[0]);
        assert(sum_values(ext) == fs[0].1 + sum_values(tail.push((t, v))));
        assert(sum_values(fs) == fs[0].1 + sum_values(tail));
        assert(fs[0].0@ != t@);
        assert forall|s: Seq<u8>|
            #[trigger] lookup_freq(ext, s) == if s == t@ {
                v as int
            } else {
                lookup_freq(fs, s)
            } by {
            if s == fs[0].0@ {
                assert(lookup_freq(ext, s) == fs[0].1 as int);
                assert(lookup_freq(fs, s) == fs[0].1 as int);
            } else {
                assert(lookup_freq(ext, s) == lookup_freq(tail.push((t, v)), s));
                assert(lookup_freq(fs, s) == lookup_freq(tail, s));
            }
        }
    }
}

// ---------------------------------------------------------------------------
// Occurrence counts: what the table is meant to hold.
// ---------------------------------------------------------------------------

/// How many of the first `n` width-3 windows of `w` equal `t`.
pub open spec fn occ_upto(w: Seq<u8>, n: int, t: Seq<u8>) -> int
    decreases n,
{
    if n <= 0 {
        0
    } else {
        occ_upto(w, n - 1, t) + if w.subrange(n - 1, n + 2) == t {
            1int
        } else {
            0int
        }
    }
}

/// How many width-3 windows of `w` equal `t`.
pub open spec fn occ_in(w: Seq<u8>, t: Seq<u8>) -> int {
    occ_upto(w, win_count(w.len() as int), t)
}

/// How many width-3 windows across all of `ws` equal `t`.
pub open spec fn total_occ(ws: Seq<Seq<u8>>, t: Seq<u8>) -> int
    decreases ws.len(),
{
    if ws.len() == 0 {
        0
    } else {
        occ_in(ws[0], t) + total_occ(ws.skip(1), t)
    }
}

/// The number of width-3 windows across all of `ws`.
pub open spec fn sum_windows(ws: Seq<Seq<u8>>) -> int
    decreases ws.len(),
{
    if ws.len() == 0 {
        0
    } else {
        win_count(ws[0].len() as int) + sum_windows(ws.skip(1))
    }
}

/// The number of bytes across all of `ws`.
pub open spec fn sum_lens(ws: Seq<Seq<u8>>) -> int
    decreases ws.len(),
{
    if ws.len() == 0 {
        0
    } else {
        ws[0].len() + sum_lens(ws.skip(1))
    }
}

pub proof fn lemma_total_occ_push(ws: Seq<Seq<u8>>, w: Seq<u8>, t: Seq<u8>)
    ensures
        total_occ(ws.push(w), t) == total_occ(ws, t) + occ_in(w, t),
        sum_windows(ws.push(w)) == sum_windows(ws) + win_count(w.len() as int),
        sum_lens(ws.push(w)) == sum_lens(ws) + w.len(),
    decreases ws.len(),
{
    let ext = ws.push(w);
    if ws.len() == 0 {
        assert(ext[0] == w);
        assert(ext.skip(1) =~= Seq::<Seq<u8>>::empty());
        assert(total_occ(ext, t) == occ_in(w, t) + total_occ(ext.skip(1), t));
        assert(sum_windows(ext) == win_count(w.len() as int) + sum_windows(ext.skip(1)));
        assert(sum_lens(ext) == w.len() + sum_lens(ext.skip(1)));
    } else {
        assert(ext[0] == ws[0]);
        assert(ext.skip(1) =~= ws.skip(1).push(w));
        lemma_total_occ_push(ws.skip(1), w, t);
        assert(total_occ(ext, t) == occ_in(ws[0], t) + total_occ(ws.skip(1).push(w), t));
        assert(total_occ(ws, t) == occ_in(ws[0], t) + total_occ(ws.skip(1), t));
        assert(sum_windows(ext) == win_count(ws[0].len() as int) + sum_windows(
            ws.skip(1).push(w),
        ));
        assert(sum_windows(ws) == win_count(ws[0].len() as int) + sum_windows(ws.skip(1)));
        assert(sum_lens(ext) == ws[0].len() + sum_lens(ws.skip(1).push(w)));
        assert(sum_lens(ws) == ws[0].len() + sum_lens(ws.skip(1)));
    }
}

pub proof fn lemma_sum_windows_nonneg(ws: Seq<Seq<u8>>)
    ensures
        0 <= sum_windows(ws),
        sum_windows(ws) <= sum_lens(ws),
    decreases ws.len(),
{
    if ws.len() > 0 {
        lemma_sum_windows_nonneg(ws.skip(1));
    }
}

/// The windows of a prefix of the word list are among the windows of the whole.
pub proof fn lemma_sum_windows_take(ws: Seq<Seq<u8>>, k: int)
    requires
        0 <= k <= ws.len(),
    ensures
        sum_windows(ws.take(k)) + sum_windows(ws.skip(k)) == sum_windows(ws),
    decreases k,
{
    if k == 0 {
        assert(ws.take(0) =~= Seq::<Seq<u8>>::empty());
        assert(ws.skip(0) =~= ws);
    } else {
        assert(ws.take(k) =~= ws.take(k - 1).push(ws[k - 1]));
        lemma_sum_windows_take(ws, k - 1);
        lemma_total_occ_push(ws.take(k - 1), ws[k - 1], Seq::<u8>::empty());
        assert(ws.skip(k - 1) =~= seq![ws[k - 1]] + ws.skip(k));
        assert((seq![ws[k - 1]] + ws.skip(k)).skip(1) =~= ws.skip(k));
    }
}

/// For a corpus built over a word list, the total count equals the sum of
/// all stored per-trigram counts, and equals the number of width-3 windows
/// across the words: for each word, its length less two, at least zero.
pub proof fn lemma_total_counts(c: Corpus, ws: Seq<Seq<u8>>)
    requires
        c.models(ws),
    ensures
        c.total_count() == sum_values(c.trigrams.freqs@),
        c.total_count() == sum_windows(ws),
{
}

// ---------------------------------------------------------------------------
// The corpus itself.
// ---------------------------------------------------------------------------

/// The trigram statistics of a word list: per-trigram counts and their sum.
pub struct Trigrams {
    pub freqs: Vec<(Trigram, u64)>,
    pub total: u64,
}

/// A dictionary of lower-cased words together with their trigram statistics.
pub struct Corpus {
    /// The word list as loaded; a repeated line is kept (and its trigrams
    /// counted) once per occurrence. The dictionary itself is `word_set()`,
    /// where repeats collapse.
    pub words: Vec<Vec<u8>>,
    pub trigrams: Trigrams,
}

impl Corpus {
    /// The table's counts are mutually distinct keys whose sum is `total`.
    pub open spec fn wf(self) -> bool {
        unique_keys(self.trigrams.freqs@)
            && self.trigrams.total as int == sum_values(self.trigrams.freqs@)
    }

    /// The stored words, as mathematical byte strings.
    pub open spec fn word_seqs(self) -> Seq<Seq<u8>> {
        self.words@.map_values(|w: Vec<u8>| w@)
    }

    /// The set of dictionary words.
    pub open spec fn word_set(self) -> Set<Seq<u8>> {
        self.word_seqs().to_set()
    }

    /// The stored count of trigram `t`.
    pub open spec fn freq_of(self, t: Seq<u8>) -> int {
        lookup_freq(self.trigrams.freqs@, t)
    }

    /// The total occurrence count across all words.
    pub open spec fn total_count(self) -> int {
        self.trigrams.total as int
    }

    /// The corpus is exactly the dictionary and trigram statistics of `ws`:
    /// each trigram's count is its number of occurrences across `ws`, the
    /// total is the number of windows of `ws`, and the table holds an entry
    /// exactly for the trigrams that occur at least once, never with a
    /// count of zero.
    pub open spec fn models(self, ws: Seq<Seq<u8>>) -> bool {
        &&& self.wf()
        &&& self.word_seqs() == ws
        &&& self.total_count() == sum_windows(ws)
        &&& forall|t: Seq<u8>| #[trigger] self.freq_of(t) == total_occ(ws, t)
        &&& positive_counts(self.trigrams.freqs@)
        &&& forall|t: Seq<u8>| #[trigger] has_key(self.trigrams.freqs@, t) <==> total_occ(ws, t) >= 1
    }

    /// Count the words' trigrams. Every width-3 window of every word is
    /// counted exactly once; the total is the sum of all counts.
    pub fn from_words(words: Vec<Vec<u8>>) -> (c: Corpus)
        requires
            sum_windows(words@.map_values(|w: Vec<u8>| w@)) <= u64::MAX,
        ensures
            c.models(words@.map_values(|w: Vec<u8>| w@)),
            c.words == words,
    {
        let ghost ws = words@.map_values(|w: Vec<u8>| w@);
        let mut freqs: Vec<(Trigram, u64)> = Vec::new();
        let mut total: u64 = 0;
        let n = words.len();
        proof {
            assert(ws.take(0) =~= Seq::<Seq<u8>>::empty());
        }
        for wi in 0..n
            invariant
                n == words.len(),
                ws == words@.map_values(|w: Vec<u8>| w@),
                sum_windows(ws) <= u64::MAX,
                unique_keys(freqs@),
                positive_counts(freqs@),
                total as int == sum_values(freqs@),
                total as int == sum_windows(ws.take(wi as int)),
                forall|t: Seq<u8>|
                    #[trigger] lookup_freq(freqs@, t) == total_occ(ws.take(wi as int), t),
        {
            let ghost done = ws.take(wi as int);
            let w = &words[wi];
            proof {
                assert(ws[wi as int] == w@);
            }
            let ts = Trigram::trigrams(w.as_slice());
            let m = ts.len();
            let mut j: usize = 0;
            while j < m
                invariant
                    0 <= j <= m,
                    m == ts.len(),
                    ts@.len() == win_count(w@.len() as int),
                    forall|k: int| 0 <= k < m ==> #[trigger] ts@[k]@ == w@.subrange(k, k + 3),
                    sum_windows(ws) <= u64::MAX,
                    done == ws.take(wi as int),
                    0 <= wi < ws.len(),
                    ws[wi as int] == w@,
                    unique_keys(freqs@),
                    positive_counts(freqs@),
                    total as int == sum_values(freqs@),
                    total as int == sum_windows(done) + j,
                    forall|t: Seq<u8>|
                        #[trigger] lookup_freq(freqs@, t) == total_occ(done, t) + occ_upto(
                            w@,
                            j as int,
                            t,
                        ),
                decreases m - j,
            {
                proof {
                    lemma_sum_windows_take(ws, wi + 1);
                    lemma_sum_windows_nonneg(ws.skip(wi + 1));
                    assert(ws.take(wi + 1) =~= done.push(w@));
                    lemma_total_occ_push(done, w@, Seq::<u8>::empty());
                    assert(sum_values(freqs@) < u64::MAX);
                }
                let t = ts[j];
                bump(&mut freqs, t);
                total = total + 1;
                j = j + 1;
                proof {
                    assert(w@.subrange(j - 1, j + 2) == t@);
                }
            }
            proof {
                assert(ws.take(wi + 1) =~= done.push(w@));
                assert(forall|t: Seq<u8>|
                    #[trigger] total_occ(ws.take(wi + 1), t) == total_occ(done, t) + occ_in(
                        w@,
                        t,
                    )) by {
                    assert forall|t: Seq<u8>|
                        #[trigger] total_occ(ws.take(wi + 1), t) == total_occ(done, t) + occ_in(
                            w@,
                            t,
                        ) by {
                        lemma_total_occ_push(done, w@, t);
                    }
                }
                lemma_total_occ_push(done, w@, Seq::<u8>::empty());
            }
        }
        proof {
            assert(ws.take(n as int) =~= ws);
            assert forall|t: Seq<u8>| #[trigger] has_key(freqs@, t) <==> total_occ(ws, t)
                >= 1 by {
                lemma_has_key_positive(freqs@, t);
            }
        }
        Corpus { words, trigrams: Trigrams { freqs, total } }
    }

    /// Whether `w` is a dictionary word.
    pub fn contains_word(&self, w: &[u8]) -> (r: bool)
        ensures
            r == self.word_set().contains(w@),
    {
        let n = self.words.len();
        for i in 0..n
            invariant
                n == self.words.len(),
                forall|j: int| 0 <= j < i ==> (#[trigger] self.words@[j])@ != w@,
        {
            if bytes_eq(self.words[i].as_slice(), w) {
                proof {
                    assert(self.word_seqs()[i as int] == w@);
                    assert(self.word_seqs().contains(w@));
                }
                return true;
            }
        }
        proof {
            if self.word_set().contains(w@) {
                let i = choose|i: int|
                    0 <= i < self.word_seqs().len() && self.word_seqs()[i] == w@;
                assert((self.words@[i])@ == w@);
            }
        }
        false
    }

    /// The stored count of trigram `t`, 0 when `t` was never seen.
    pub fn freq(&self, t: &Trigram) -> (r: u64)
        ensures
            r as int == self.freq_of(t@),
    {
        let fs = &self.trigrams.freqs;
        let n = fs.len();
        for i in 0..n
            invariant
                n == fs.len(),
                fs == self.trigrams.freqs,
                forall|j: int| 0 <= j < i ==> (#[trigger] fs@[j]).0@ != t@,
        {
            let k = fs[i].0;
            if k.0[0] == t.0[0] && k.0[1] == t.0[1] && k.0[2] == t.0[2] {
                proof {
                    assert(k@ =~= t@);
                    lemma_lookup_skip(fs@, i as int, t@);
                }
                return fs[i].1;
            }
            proof {
                assert(k@ != t@) by {
                    if k@ == t@ {
                        assert(k@[0] == t@[0] && k@[1] == t@[1] && k@[2] == t@[2]);
                    }
                }
            }
        }
        proof {
            lemma_lookup_skip(fs@, n as int, t@);
            assert(fs@.skip(n as int) =~= Seq::<(Trigram, u64)>::empty());
        }
        0
    }

    /// Lower-case the raw word-list bytes, split them on the newline byte,
    /// discard empty segments, and count the remaining words' trigrams.
    pub fn build(bytes: &Vec<u8>) -> (c: Corpus)
        ensures
            c.models(split_lines(lower_seq(bytes@))),
    {
        let ghost lseq = lower_seq(bytes@);
        let mut segs: Vec<Vec<u8>> = Vec::new();
        let mut cur: Vec<u8> = Vec::new();
        let n = bytes.len();
        proof {
            assert(lseq.skip(0) =~= lseq);
            assert(segs@.map_values(|w: Vec<u8>| w@) =~= Seq::<Seq<u8>>::empty());
        }
        for i in 0..n
            invariant
                n == bytes.len(),
                lseq == lower_seq(bytes@),
                split_lines(lseq) == segs@.map_values(|w: Vec<u8>| w@) + split_acc(
                    lseq.skip(i as int),
                    cur@,
                ),
                sum_lens(segs@.map_values(|w: Vec<u8>| w@)) + cur@.len() <= i,
        {
            let ghost pre = segs@.map_values(|w: Vec<u8>| w@);
            let b = lower_byte(bytes[i]);
            proof {
                assert(lseq[i as int] == to_lower(bytes@[i as int]));
                assert(lseq.skip(i as int)[0] == lseq[i as int]);
                assert(lseq.skip(i as int).skip(1) =~= lseq.skip(i + 1));
            }
            if b == 10 {
                if cur.len() > 0 {
                    let ghost cv = cur@;
                    segs.push(cur);
                    cur = Vec::new();
                    proof {
                        assert(cur@ =~= Seq::<u8>::empty());
                        assert(segs@.map_values(|w: Vec<u8>| w@) =~= pre.push(cv));
                        assert(pre + (seq![cv] + split_acc(lseq.skip(i + 1), Seq::<u8>::empty()))
                            =~= pre.push(cv) + split_acc(lseq.skip(i + 1), Seq::<u8>::empty()));
                        lemma_total_occ_push(pre, cv, Seq::<u8>::empty());
                        assert(split_lines(lseq) == segs@.map_values(|w: Vec<u8>| w@)
                            + split_acc(lseq.skip(i + 1), cur@));
                    }
                } else {
                    proof {
                        assert(cur@ =~= Seq::<u8>::empty());
                        assert(Seq::<Seq<u8>>::empty() + split_acc(lseq.skip(i + 1), Seq::<u8>::empty())
                            =~= split_acc(lseq.skip(i + 1), Seq::<u8>::empty()));
                        assert(split_lines(lseq) == segs@.map_values(|w: Vec<u8>| w@)
                            + split_acc(lseq.skip(i + 1), cur@));
                    }
                }
            } else {
                let ghost c0 = cur@;
                cur.push(b);
                proof {
                    assert(lseq.skip(i as int)[0] != 10);
                    assert(split_acc(lseq.skip(i as int), c0) == split_acc(
                        lseq.skip(i as int).skip(1),
                        c0.push(lseq.skip(i as int)[0]),
                    ));
                    assert(cur@ == c0.push(lseq.skip(i as int)[0]));
                    assert(split_lines(lseq) == segs@.map_values(|w: Vec<u8>| w@)
                        + split_acc(lseq.skip(i + 1), cur@));
                }
            }
        }
        proof {
            assert(lseq.skip(n as int) =~= Seq::<u8>::empty());
        }
        let ghost pre = segs@.map_values(|w: Vec<u8>| w@);
        if cur.len() > 0 {
            let ghost cv = cur@;
            segs.push(cur);
            proof {
                assert(segs@.map_values(|w: Vec<u8>| w@) =~= pre.push(cv));
                assert(pre + seq![cv] =~= pre.push(cv));
                lemma_total_occ_push(pre, cv, Seq::<u8>::empty());
            }
        } else {
            proof {
                assert(pre + Seq::<Seq<u8>>::empty() =~= pre);
            }
        }
        proof {
            lemma_sum_windows_nonneg(segs@.map_values(|w: Vec<u8>| w@));
        }
        Corpus::from_words(segs)
    }
}

/// Split a byte string on the newline byte, dropping empty segments;
/// `cur` is the partial segment read so far.
pub open spec fn split_acc(s: Seq<u8>, cur: Seq<u8>) -> Seq<Seq<u8>>
    decreases s.len(),
{
    if s.len() == 0 {
        if cur.len() == 0 {
            Seq::empty()
        } else {
            seq![cur]
        }
    } else if s[0] == 10 {
        (if cur.len() == 0 {
            Seq::<Seq<u8>>::empty()
        } else {
            seq![cur]
        }) + split_acc(s.skip(1), Seq::empty())
    } else {
        split_acc(s.skip(1), cur.push(s[0]))
    }
}

/// The non-empty segments of `s`, split on the newline byte.
pub open spec fn split_lines(s: Seq<u8>) -> Seq<Seq<u8>> {
    split_acc(s, Seq::empty())
}

/// Whether two byte slices hold the same bytes.
pub fn bytes_eq(a: &[u8], b: &[u8]) -> (r: bool)
    ensures
        r == (a@ == b@),
{
    if a.len() != b.len() {
        return false;
    }
    let n = a.len();
    for i in 0..n
        invariant
            n == a.len() == b.len(),
            forall|j: int| 0 <= j < i ==> a@[j] == b@[j],
    {
        if a[i] != b[i] {
            return false;
        }
    }
    proof {
        assert(a@ =~= b@);
    }
    true
}

/// Add one to the count of `t`, leaving every other count unchanged.
fn bump(fs: &mut Vec<(Trigram, u64)>, t: Trigram)
    requires
        unique_keys(old(fs)@),
        sum_values(old(fs)@) < u64::MAX,
    ensures
        unique_keys(final(fs)@),
        positive_counts(old(fs)@) ==> positive_counts(final(fs)@),
        sum_values(final(fs)@) == sum_values(old(fs)@) + 1,
        forall|s: Seq<u8>|
            #[trigger] lookup_freq(final(fs)@, s) == lookup_freq(old(fs)@, s) + if s == t@ {
                1int
            } else {
                0int
            },
{
    match find_key(fs, &t) {
        Some(i) => {
            proof {
                lemma_lookup_skip(old(fs)@, i as int, t@);
                lemma_lookup_bounds(old(fs)@, t@);
                assert(old(fs)@.skip(i as int)[0] == old(fs)@[i as int]);
                assert(lookup_freq(old(fs)@, t@) == old(fs)@[i as int].1 as int);
                lemma_table_update(old(fs)@, i as int, (old(fs)@[i as int].1 + 1) as u64);
            }
            let k = fs[i].0;
            let c = fs[i].1;
            proof {
                assert(k == old(fs)@[i as int].0);
                assert(c < u64::MAX);
            }
            fs[i] = (k, c + 1);
            proof {
                assert(fs@ == old(fs)@.update(i as int, (old(fs)@[i as int].0, (c + 1) as u64)));
                if positive_counts(old(fs)@) {
                    assert(forall|j: int|
                        0 <= j < fs@.len() ==> (#[trigger] fs@[j]).1 >= 1) by {
                        assert(forall|j: int|
                            0 <= j < fs@.len() && j != i ==> (#[trigger] fs@[j]) == old(fs)@[j]);
                    }
                }
            }
        },
        None => {
            proof {
                lemma_table_push(old(fs)@, t, 1);
                lemma_lookup_absent(old(fs)@, t@);
            }
            fs.push((t, 1));
            proof {
                if positive_counts(old(fs)@) {
                    assert(forall|j: int|
                        0 <= j < fs@.len() ==> (#[trigger] fs@[j]).1 >= 1) by {
                        assert(forall|j: int|
                            0 <= j < old(fs)@.len() ==> (#[trigger] fs@[j]) == old(fs)@[j]);
                        assert(fs@[fs@.len() - 1].1 == 1);
                    }
                }
            }
        },
    }
}

/// The index of the entry that carries `t`, when the table has one.
fn find_key(fs: &Vec<(Trigram, u64)>, t: &Trigram) -> (r: Option<usize>)
    ensures
        match r {
            Some(i) => 0 <= i < fs@.len() && fs@[i as int].0@ == t@ && forall|j: int|
                0 <= j < i ==> (#[trigger] fs@[j]).0@ != t@,
            None => !has_key(fs@, t@),
        },
{
    let n = fs.len();
    for i in 0..n
        invariant
            n == fs.len(),
            forall|j: int| 0 <= j < i ==> (#[trigger] fs@[j]).0@ != t@,
    {
        let k = fs[i].0;
        if k.0[0] == t.0[0] && k.0[1] == t.0[1] && k.0[2] == t.0[2] {
            proof {
                assert(k@ =~= t@);
            }
            return Some(i);
        }
        proof {
            assert(k@ != t@) by {
                if k@ == t@ {
                    assert(k@[0] == t@[0] && k@[1] == t@[1] && k@[2] == t@[2]);
                }
            }
        }
    }
    proof {
        if has_key(fs@, t@) {
            let i = choose|i: int| 0 <= i < fs@.len() && (#[trigger] fs@[i]).0@ == t@;
        }
    }
    None
}

} // verus!
