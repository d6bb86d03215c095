use vstd::prelude::*;

verus! {

/// An ordered triple of bytes taken from a sliding window over a byte string.
#[derive(Clone, Copy, Debug, Eq, Hash, PartialEq)]
pub struct Trigram(pub [u8; 3]);

impl View for Trigram {
    type V = Seq<u8>;

    open spec fn view(&self) -> Seq<u8> {
        self.0@
    }
}

/// How many width-3 windows a string of `n` bytes has.
pub open spec fn win_count(n: int) -> int {
    if n < 3 {
        0
    } else {
        n - 2
    }
}

impl Trigram {
    /// Build a trigram from a byte slice, when it has exactly three bytes.
    pub fn try_from(x: &[u8]) -> (r: Option<Trigram>)
        ensures
            x@.len() == 3 ==> (r matches Some(t) && t@ == x@),
            x@.len() != 3 ==> r is None,
    {
        if x.len() == 3 {
            let t = Trigram([x[0], x[1], x[2]]);
            proof {
                assert(t@ =~= x@);
            }
            Some(t)
        } else {
            None
        }
    }

    /// Every width-3 window of `word`, in order of its starting position.
    pub fn trigrams(word: &[u8]) -> (r: Vec<Trigram>)
        ensures
            r@.len() == win_count(word@.len() as int),
            forall|k: int|
                0 <= k < r@.len() ==> #[trigger] r@[k]@ == word@.subrange(k, k + 3),
    {
        let mut r: Vec<Trigram> = Vec::new();
        if word.len() < 3 {
            return r;
        }
        let n = word.len() - 2;
        for i in 0..n
            invariant
                n == word@.len() - 2,
                r@.len() == i,
                forall|k: int|
                    0 <= k < i ==> #[trigger] r@[k]@ == word@.subrange(k, k + 3),
        {
            let t = Trigram([word[i], word[i + 1], word[i + 2]]);
            proof {
                assert(t@ =~= word@.subrange(i as int, i + 3));
            }
            r.push(t);
        }
        r
    }
}

} // verus!
