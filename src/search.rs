use vstd::prelude::*;
use crate::rotate::DecaesarError;
use crate::score::ScoreFunction;

verus! {

/// The outcome for one candidate shift.
#[derive(Debug, Clone, Copy, Default, PartialEq, Eq, Structural)]
pub struct DecipherResult {
    pub shift: u8,
    /// In hundredths of a point.
    pub score: u128,
}

/// The outcome of a search over all 26 shifts: each shift's result at its own
/// index, and the best of them.
#[derive(Debug, Clone, Copy, Default)]
pub struct DecaesarResult {
    pub best: DecipherResult,
    pub results: [DecipherResult; 26],
}

/// `best` is the entry of `results` with the highest score, the one of
/// lowest shift among equals.
pub open spec fn is_best_of(best: DecipherResult, results: Seq<DecipherResult>) -> bool {
    &&& best.shift < results.len()
    &&& results[best.shift as int] == best
    &&& forall|i: int| 0 <= i < results.len() ==> #[trigger] results[i].score <= best.score
    &&& forall|i: int| 0 <= i < best.shift ==> #[trigger] results[i].score < best.score
}

/// Where `x` goes among `s` in a ranking: before the first entry that it
/// outscores, or at the end.
pub open spec fn insert_pos(s: Seq<DecipherResult>, x: DecipherResult) -> int
    decreases s.len(),
{
    if s.len() == 0 {
        0
    } else if x.score > s[0].score {
        0
    } else {
        1 + insert_pos(s.drop_first(), x)
    }
}

/// The entries of `s` by descending score; entries of equal score keep the
/// order they have in `s`.
pub open spec fn ranked(s: Seq<DecipherResult>) -> Seq<DecipherResult>
    decreases s.len(),
{
    if s.len() == 0 {
        Seq::empty()
    } else {
        let r = ranked(s.drop_last());
        r.insert(insert_pos(r, s.last()), s.last())
    }
}

pub open spec fn descending(s: Seq<DecipherResult>) -> bool {
    forall|i: int, j: int| 0 <= i < j < s.len() ==> s[i].score >= s[j].score
}

proof fn lemma_insert_pos_bounds(s: Seq<DecipherResult>, x: DecipherResult)
    ensures
        0 <= insert_pos(s, x) <= s.len(),
        forall|j: int| 0 <= j < insert_pos(s, x) ==> s[j].score >= x.score,
        insert_pos(s, x) < s.len() ==> x.score > s[insert_pos(s, x)].score,
    decreases s.len(),
{
    if s.len() > 0 && x.score <= s[0].score {
        lemma_insert_pos_bounds(s.drop_first(), x);
        assert forall|j: int| 0 <= j < insert_pos(s, x) implies s[j].score >= x.score by {
            if j > 0 {
                assert(s[j] == s.drop_first()[j - 1]);
            }
        }
    }
}

proof fn lemma_insert_pos_unique(s: Seq<DecipherResult>, x: DecipherResult, p: int)
    requires
        0 <= p <= s.len(),
        forall|j: int| 0 <= j < p ==> !(x.score > #[trigger] s[j].score),
        p < s.len() ==> x.score > s[p].score,
    ensures
        insert_pos(s, x) == p,
    decreases s.len(),
{
    if s.len() > 0 && p > 0 {
        assert(!(x.score > s[0].score));
        assert forall|j: int| 0 <= j < p - 1 implies !(x.score > #[trigger] s.drop_first()[j].score) by {
            assert(s.drop_first()[j] == s[j + 1]);
        }
        lemma_insert_pos_unique(s.drop_first(), x, p - 1);
    }
}

/// A ranking is as long as what it ranks.
pub proof fn lemma_ranked_len(s: Seq<DecipherResult>)
    ensures
        ranked(s).len() == s.len(),
    decreases s.len(),
{
    if s.len() > 0 {
        lemma_ranked_len(s.drop_last());
        lemma_insert_pos_bounds(ranked(s.drop_last()), s.last());
    }
}

/// A ranking orders its entries by descending score.
pub proof fn lemma_ranked_descending(s: Seq<DecipherResult>)
    ensures
        descending(ranked(s)),
    decreases s.len(),
{
    if s.len() > 0 {
        let r = ranked(s.drop_last());
        let x = s.last();
        lemma_ranked_descending(s.drop_last());
        lemma_insert_pos_bounds(r, x);
        let p = insert_pos(r, x);
        let t = r.insert(p, x);
        assert forall|i: int, j: int| 0 <= i < j < t.len() implies t[i].score >= t[j].score by {
            if j < p {
                assert(t[i] == r[i] && t[j] == r[j]);
            } else if j == p {
                assert(t[i] == r[i]);
            } else if i < p {
                assert(t[i] == r[i] && t[j] == r[j - 1]);
            } else if i == p {
                assert(t[j] == r[j - 1]);
                assert(r[p].score >= r[j - 1].score);
            } else {
                assert(t[i] == r[i - 1] && t[j] == r[j - 1]);
            }
        }
    }
}

/// A ranking holds exactly the entries that it ranks.
pub proof fn lemma_ranked_permutation(s: Seq<DecipherResult>)
    ensures
        ranked(s).to_multiset() == s.to_multiset(),
    decreases s.len(),
{
    broadcast use vstd::seq_lib::group_to_multiset_ensures;

    if s.len() > 0 {
        let r = ranked(s.drop_last());
        lemma_ranked_permutation(s.drop_last());
        lemma_insert_pos_bounds(r, s.last());
        assert(s.drop_last().push(s.last()) =~= s);
    }
}

impl DecaesarResult {
    /// Each result stands at the index of its shift, and `best` is the best.
    pub open spec fn wf(&self) -> bool {
        &&& forall|i: int| 0 <= i < 26 ==> (#[trigger] self.results@[i]).shift == i
        &&& is_best_of(self.best, self.results@)
    }

    /// The best result, as the search found it.
    pub fn best(&self) -> (r: DecipherResult)
        ensures
            r == self.best,
    {
        self.best
    }

    /// Writes the first `min(n, output.len(), 26)` entries of the ranking of
    /// all results into the front of `output`; the rest of `output` stays.
    pub fn best_n(&self, output: &mut [DecipherResult], n: usize)
        ensures
            final(output)@.len() == old(output)@.len(),
            forall|i: int|
                0 <= i < n && i < old(output)@.len() && i < 26 ==> #[trigger] final(output)@[i]
                    == ranked(self.results@)[i],
            forall|i: int|
                0 <= i < old(output)@.len() && !(i < n && i < 26) ==> #[trigger] final(output)@[i]
                    == old(output)@[i],
    {
        let mut sorted: Vec<DecipherResult> = Vec::new();
        let mut i: usize = 0;
        while i < 26
            invariant
                i <= 26,
                self.results@.len() == 26,
                sorted@ == ranked(self.results@.subrange(0, i as int)),
            decreases 26 - i,
        {
            let x = self.results[i];
            proof {
                lemma_ranked_len(self.results@.subrange(0, i as int));
            }
            let mut p: usize = 0;
            while p < sorted.len() && !(x.score > sorted[p].score)
                invariant
                    p <= sorted@.len(),
                    forall|j: int| 0 <= j < p ==> !(x.score > #[trigger] sorted@[j].score),
                decreases sorted@.len() - p,
            {
                p += 1;
            }
            proof {
                lemma_insert_pos_unique(sorted@, x, p as int);
                let t = self.results@.subrange(0, i + 1);
                assert(t.drop_last() =~= self.results@.subrange(0, i as int));
                assert(t.last() == x);
            }
            sorted.insert(p, x);
            i += 1;
        }
        proof {
            assert(self.results@.subrange(0, 26) =~= self.results@);
            lemma_ranked_len(self.results@);
        }
        let k: usize = if n < output.len() {
            if n < 26 { n } else { 26 }
        } else {
            if output.len() < 26 { output.len() } else { 26 }
        };
        let ghost before = output@;
        let mut j: usize = 0;
        while j < k
            invariant
                j <= k <= 26,
                k <= output@.len(),
                k == n || k == 26 || k == output@.len(),
                k <= n,
                sorted@ == ranked(self.results@),
                sorted@.len() == 26,
                output@.len() == before.len(),
                forall|m: int| 0 <= m < j ==> #[trigger] output@[m] == sorted@[m],
                forall|m: int| j <= m < output@.len() ==> #[trigger] output@[m] == before[m],
            decreases k - j,
        {
            output[j] = sorted[j];
            j += 1;
        }
    }
}

/// A shift search driven by a scorer.
pub struct Decaesar<S> {
    scorer: S,
}

impl<S: ScoreFunction> Decaesar<S> {
    pub closed spec fn scorer(&self) -> S {
        self.scorer
    }

    pub fn new(scorer: S) -> (r: Self)
        ensures
            r.scorer() == scorer,
    {
        Self { scorer }
    }

    /// Scores `input` under every shift from 0 to 25. An empty input is
    /// refused before any scoring.
    pub fn break_caesar(&self, input: &[u8]) -> (r: Result<DecaesarResult, DecaesarError>)
        ensures
            input@.len() == 0 <==> r == Err::<DecaesarResult, DecaesarError>(
                DecaesarError::EmptyInput,
            ),
            input@.len() > 0 ==> r is Ok,
            r matches Ok(res) ==> {
                &&& res.wf()
                &&& forall|i: int|
                    0 <= i < 26 ==> (#[trigger] res.results@[i]).score == self.scorer().score_of(
                        input@,
                        i as u8,
                    )
            },
    {
        if input.len() == 0 {
            return Err(DecaesarError::EmptyInput);
        }
        let mut results: [DecipherResult; 26] = [DecipherResult { shift: 0, score: 0 }; 26];
        let first = DecipherResult { shift: 0, score: self.scorer.score(input, 0) };
        results[0] = first;
        let mut best = first;
        let mut shift: u8 = 1;
        while shift < 26
            invariant
                1 <= shift <= 26,
                results@.len() == 26,
                forall|i: int|
                    0 <= i < shift ==> (#[trigger] results@[i]).shift == i && results@[i].score
                        == self.scorer().score_of(input@, i as u8),
                is_best_of(best, results@.subrange(0, shift as int)),
            decreases 26 - shift,
        {
            let ghost prefix = results@.subrange(0, shift as int);
            let ghost old_best = best;
            let r = DecipherResult { shift, score: self.scorer.score(input, shift) };
            results[shift as usize] = r;
            if r.score > best.score {
                best = r;
            }
            assert(results@.subrange(0, shift + 1) =~= prefix.push(r));
            assert(forall|i: int| 0 <= i < shift ==> prefix.push(r)[i] == prefix[i]);
            assert(is_best_of(best, prefix.push(r))) by {
                assert(prefix[old_best.shift as int] == old_best);
                assert(forall|i: int| 0 <= i < shift ==> #[trigger] prefix[i].score <= old_best.score);
            }
            shift += 1;
        }
        assert(results@.subrange(0, 26) =~= results@);
        Ok(DecaesarResult { best, results })
    }
}

} // verus!
