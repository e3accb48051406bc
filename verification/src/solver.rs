//! The information-gain solver: keeps the candidate set consistent with
//! all feedback seen so far, scores every candidate guess by the
//! probability mass expected to survive it, and plays the best one.
//!
//! The score of a guess is the expected remaining probability mass of
//! the candidate set after the feedback for that guess arrives: the sum,
//! over all candidates taken as the answer, of the candidate's weight
//! times the mass of the feedback bucket it falls into. Lower is better:
//! a guess that splits the candidates into many small buckets reveals
//! the most. Integer arithmetic keeps the score exact and reproducible;
//! ties go to the better dictionary rank, which rewards the prior.

use vstd::prelude::*;
use rayon::iter::IndexedParallelIterator;
use rayon::iter::IntoParallelIterator;
use rayon::iter::ParallelIterator;
use crate::word::Word;
use crate::feedback::{Correctness, mask_spec, pack_spec, pack_mask};
use crate::record::{Guess, matches_spec};
use crate::dict::entry_views;
use crate::game::{Guesser, Wordle};

verus! {

/// The largest candidate list the solver accepts.
pub const CANDIDATE_CAP: usize = 0x4000_0000;

/// The largest prior weight the solver keeps; larger weights are
/// clamped when the solver is built.
pub const WEIGHT_CAP: u64 = 0x1_0000_0000;

/// The prior mass of the first `n` candidates.
pub open spec fn total_weight(s: Seq<(Seq<u8>, u64)>, n: int) -> int
    decreases n,
{
    if n <= 0 {
        0
    } else {
        total_weight(s, n - 1) + s[n - 1].1
    }
}

/// The prior mass of the whole candidate list.
pub open spec fn total_mass(s: Seq<(Seq<u8>, u64)>) -> int {
    total_weight(s, s.len() as int)
}

/// The mass of feedback bucket `m` for guess `g`, over the first `n`
/// candidates taken as answers.
pub open spec fn bucket_weight(s: Seq<(Seq<u8>, u64)>, g: Seq<u8>, m: int, n: int) -> int
    decreases n,
{
    if n <= 0 {
        0
    } else {
        bucket_weight(s, g, m, n - 1) + if pack_spec(mask_spec(s[n - 1].0, g)) == m {
            s[n - 1].1 as int
        } else {
            0int
        }
    }
}

/// The expected surviving mass over the first `n` candidates: each
/// candidate contributes its weight times the mass of the bucket its
/// feedback would select.
pub open spec fn expected_mass(s: Seq<(Seq<u8>, u64)>, g: Seq<u8>, n: int) -> int
    decreases n,
{
    if n <= 0 {
        0
    } else {
        expected_mass(s, g, n - 1) + s[n - 1].1 * bucket_weight(
            s,
            g,
            pack_spec(mask_spec(s[n - 1].0, g)),
            s.len() as int,
        )
    }
}

/// The score of guessing `g` against candidate list `s`: the expected
/// surviving prior mass, scaled by the total mass. Lower is better.
pub open spec fn score_spec(s: Seq<(Seq<u8>, u64)>, g: Seq<u8>) -> int {
    expected_mass(s, g, s.len() as int)
}

proof fn lemma_total_nonneg(s: Seq<(Seq<u8>, u64)>, n: int)
    ensures
        total_weight(s, n) >= 0,
    decreases n,
{
    if n > 0 {
        lemma_total_nonneg(s, n - 1);
    }
}

proof fn lemma_total_mono(s: Seq<(Seq<u8>, u64)>, n1: int, n2: int)
    requires
        n1 <= n2,
    ensures
        total_weight(s, n1) <= total_weight(s, n2),
    decreases n2 - n1,
{
    if n1 < n2 {
        lemma_total_mono(s, n1, n2 - 1);
    }
}

proof fn lemma_bucket_le_total(s: Seq<(Seq<u8>, u64)>, g: Seq<u8>, m: int, n: int)
    ensures
        0 <= bucket_weight(s, g, m, n) <= total_weight(s, n),
    decreases n,
{
    if n > 0 {
        lemma_bucket_le_total(s, g, m, n - 1);
    }
}

proof fn lemma_total_capped(s: Seq<(Seq<u8>, u64)>, n: int)
    requires
        0 <= n <= s.len(),
        forall|i: int| 0 <= i < s.len() ==> (#[trigger] s[i].1) <= WEIGHT_CAP,
    ensures
        total_weight(s, n) <= n * 0x1_0000_0000,
    decreases n,
{
    if n > 0 {
        lemma_total_capped(s, n - 1);
    }
}

/// The candidates of `s` that, taken as the answer, would have produced
/// mask `m` for guess word `w`: the candidate set after that record.
pub open spec fn matching(s: Seq<(Seq<u8>, u64)>, w: Seq<u8>, m: Seq<Correctness>) -> Seq<
    (Seq<u8>, u64),
> {
    s.filter(|e: (Seq<u8>, u64)| matches_spec(w, m, e.0))
}

/// Filtering by a record never grows the candidate set, and every
/// surviving candidate was already there.
pub proof fn lemma_filter_shrinks(s: Seq<(Seq<u8>, u64)>, w: Seq<u8>, m: Seq<Correctness>)
    ensures
        matching(s, w, m).len() <= s.len(),
        forall|i: int| 0 <= i < matching(s, w, m).len() ==> s.contains(
            #[trigger] matching(s, w, m)[i],
        ),
    decreases s.len(),
{
    reveal(Seq::filter);
    let pred = |e: (Seq<u8>, u64)| matches_spec(w, m, e.0);
    if s.len() > 0 {
        lemma_filter_shrinks(s.drop_last(), w, m);
        let d = s.drop_last();
        let fd = matching(d, w, m);
        let f = matching(s, w, m);
        assert forall|i: int| 0 <= i < f.len() implies s.contains(#[trigger] f[i]) by {
            if i < fd.len() {
                assert(d.contains(fd[i]));
                let k = choose|k: int| 0 <= k < d.len() && d[k] == fd[i];
                assert(s[k] == f[i]);
            } else {
                assert(f[i] == s[s.len() - 1]);
            }
        }
    }
}

/// A candidate that fits the record survives the filter; in particular
/// the true answer survives a correctly computed mask.
pub proof fn lemma_filter_keeps_fitting(
    s: Seq<(Seq<u8>, u64)>,
    w: Seq<u8>,
    m: Seq<Correctness>,
    e: (Seq<u8>, u64),
)
    requires
        s.contains(e),
        matches_spec(w, m, e.0),
    ensures
        matching(s, w, m).contains(e),
{
    let pred = |x: (Seq<u8>, u64)| matches_spec(w, m, x.0);
    let i = choose|i: int| 0 <= i < s.len() && s[i] == e;
    s.lemma_filter_contains(pred, i);
}

/// The candidate set after a record computed from the true answer still
/// holds that answer: a correct mask never filters the answer out.
pub proof fn lemma_filter_keeps_answer(
    s: Seq<(Seq<u8>, u64)>,
    w: Seq<u8>,
    e: (Seq<u8>, u64),
)
    requires
        s.contains(e),
    ensures
        matching(s, w, mask_spec(e.0, w)).contains(e),
{
    crate::record::lemma_record_matches_answer(e.0, w);
    lemma_filter_keeps_fitting(s, w, mask_spec(e.0, w), e);
}

/// The candidate set after filtering by the first `n` records of a
/// history, oldest first; a record whose mask does not have exactly
/// five slots cannot come from the game loop and is ignored.
pub open spec fn apply_records(
    s: Seq<(Seq<u8>, u64)>,
    hist: Seq<Guess>,
    n: int,
) -> Seq<(Seq<u8>, u64)>
    decreases n,
{
    if n <= 0 {
        s
    } else {
        let prev = apply_records(s, hist, n - 1);
        if hist[n - 1].mask@.len() == 5 {
            matching(prev, hist[n - 1].word@, hist[n - 1].mask@)
        } else {
            prev
        }
    }
}

/// Keeps the candidates consistent with one guess record.
pub fn filter_candidates(cands: &Vec<(Word, u64)>, rec: &Guess) -> (r: Vec<(Word, u64)>)
    requires
        rec.mask@.len() == 5,
    ensures
        entry_views(r@) == matching(entry_views(cands@), rec.word@, rec.mask@),
        r@.len() <= cands@.len(),
{
    let ghost s = entry_views(cands@);
    let ghost pred = |e: (Seq<u8>, u64)| matches_spec(rec.word@, rec.mask@, e.0);
    let mut r: Vec<(Word, u64)> = Vec::new();
    let mut i: usize = 0;
    while i < cands.len()
        invariant
            i <= cands@.len(),
            s == entry_views(cands@),
            s.len() == cands@.len(),
            rec.mask@.len() == 5,
            pred == (|e: (Seq<u8>, u64)| matches_spec(rec.word@, rec.mask@, e.0)),
            entry_views(r@) == s.subrange(0, i as int).filter(pred),
            r@.len() <= i,
        decreases cands@.len() - i,
    {
        let ghost prefix = s.subrange(0, i as int);
        proof {
            assert(s.subrange(0, i + 1).drop_last() =~= prefix);
            assert(s.subrange(0, i + 1).last() == s[i as int]);
            assert(s[i as int] == (cands@[i as int].0@, cands@[i as int].1));
            reveal(Seq::filter);
        }
        if rec.matches(&cands[i].0) {
            let w = cands[i].0.clone();
            let wt = cands[i].1;
            let ghost before = r@;
            r.push((w, wt));
            proof {
                assert(entry_views(r@) =~= entry_views(before).push(s[i as int]));
            }
        }
        i = i + 1;
    }
    proof {
        assert(s.subrange(0, cands@.len() as int) =~= s);
    }
    r
}

/// The score of guessing `g` against the candidate list: the expected
/// prior mass that would survive the feedback, scaled by the total
/// mass. Lower is better.
pub fn score_of(cands: &Vec<(Word, u64)>, g: &Word) -> (r: u128)
    requires
        total_mass(entry_views(cands@)) < 0x8000_0000_0000_0000,
    ensures
        r == score_spec(entry_views(cands@), g@),
{
    let ghost s = entry_views(cands@);
    let ghost t = total_mass(s);
    let n = cands.len();
    proof {
        lemma_total_nonneg(s, n as int);
    }
    let mut hist: Vec<u64> = Vec::new();
    let mut k: usize = 0;
    while k < 243
        invariant
            k <= 243,
            hist@.len() == k,
            forall|m: int| 0 <= m < k ==> hist@[m] == 0,
        decreases 243 - k,
    {
        hist.push(0);
        k = k + 1;
    }
    let mut j: usize = 0;
    while j < n
        invariant
            j <= n,
            n == cands@.len(),
            n == s.len(),
            s == entry_views(cands@),
            t == total_mass(s),
            t < 0x8000_0000_0000_0000,
            hist@.len() == 243,
            forall|m: int| 0 <= m < 243 ==> #[trigger] hist@[m] == bucket_weight(s, g@, m, j as int),
        decreases n - j,
    {
        let mask = Correctness::compute(&cands[j].0, g);
        let p = pack_mask(&mask) as usize;
        let w = cands[j].1;
        proof {
            assert(s[j as int] == (cands@[j as int].0@, cands@[j as int].1));
            lemma_bucket_le_total(s, g@, p as int, j as int);
            lemma_total_mono(s, j + 1, n as int);
            assert(total_weight(s, j + 1) == total_weight(s, j as int) + w);
            lemma_bucket_le_total(s, g@, p as int, j + 1);
        }
        let cur = hist[p];
        hist.set(p, cur + w);
        j = j + 1;
    }
    let mut acc: u128 = 0;
    let mut j: usize = 0;
    while j < n
        invariant
            j <= n,
            n == cands@.len(),
            n == s.len(),
            s == entry_views(cands@),
            t == total_mass(s),
            t < 0x8000_0000_0000_0000,
            hist@.len() == 243,
            forall|m: int| 0 <= m < 243 ==> #[trigger] hist@[m] == bucket_weight(s, g@, m, n as int),
            acc == expected_mass(s, g@, j as int),
            acc <= total_weight(s, j as int) * t,
        decreases n - j,
    {
        let mask = Correctness::compute(&cands[j].0, g);
        let p = pack_mask(&mask) as usize;
        let w = cands[j].1;
        let b = hist[p];
        proof {
            assert(s[j as int] == (cands@[j as int].0@, cands@[j as int].1));
            lemma_bucket_le_total(s, g@, p as int, n as int);
            lemma_total_nonneg(s, j as int);
            let tj = total_weight(s, j as int);
            assert(total_weight(s, j + 1) == tj + w);
            lemma_total_mono(s, j + 1, n as int);
            assert(tj + w <= t);
            assert(w * b <= w * t) by (nonlinear_arith)
                requires
                    0 <= b <= t,
                    w >= 0,
            {}
            assert(tj * t + w * t == (tj + w) * t) by (nonlinear_arith)
            {}
            assert((tj + w) * t <= t * t) by (nonlinear_arith)
                requires
                    0 <= tj + w <= t,
                    t >= 0,
            {}
            assert(t * t < 0x8000_0000_0000_0000 * 0x8000_0000_0000_0000) by (nonlinear_arith)
                requires
                    0 <= t < 0x8000_0000_0000_0000,
            {}
        }
        acc = acc + (w as u128) * (b as u128);
        j = j + 1;
    }
    proof {
        assert(expected_mass(s, g@, n as int) == score_spec(s, g@));
    }
    acc
}

/// Relies on rayon's parallel iterator over an index range: `map` runs
/// `score_of` for each index on worker threads, and `collect` on the
/// indexed iterator returns the results in index order.
#[verifier::external_body]
fn parallel_scores(cands: &Vec<(Word, u64)>) -> (r: Vec<u128>)
    requires
        total_mass(entry_views(cands@)) < 0x8000_0000_0000_0000,
    ensures
        r@.len() == cands@.len(),
        forall|i: int| 0 <= i < cands@.len() ==> r@[i] == score_spec(
            entry_views(cands@),
            cands@[i].0@,
        ),
{
    (0..cands.len()).into_par_iter().map(|i: usize| score_of(cands, &cands[i].0)).collect()
}

/// The index of the smallest score; ties go to the smallest index,
/// which is the best dictionary rank.
pub fn argmin_index(scores: &Vec<u128>) -> (r: usize)
    requires
        scores@.len() > 0,
    ensures
        r < scores@.len(),
        forall|k: int| 0 <= k < scores@.len() ==> scores@[r as int] <= #[trigger] scores@[k],
        forall|k: int| 0 <= k < r ==> scores@[r as int] < #[trigger] scores@[k],
{
    let mut best: usize = 0;
    let mut i: usize = 1;
    while i < scores.len()
        invariant
            best < i <= scores@.len(),
            forall|k: int| 0 <= k < i ==> scores@[best as int] <= #[trigger] scores@[k],
            forall|k: int| 0 <= k < best ==> scores@[best as int] < #[trigger] scores@[k],
        decreases scores@.len() - i,
    {
        if scores[i] < scores[best] {
            best = i;
        }
        i = i + 1;
    }
    best
}

/// The information-gain strategy: keeps the candidate set of one
/// playthrough and plays the guess with the best expected information,
/// preferring the better rank on ties.
pub struct EntropySolver {
    remaining: Vec<(Word, u64)>,
    fallback: Word,
}

impl EntropySolver {
    #[verifier::type_invariant]
    spec fn inv(self) -> bool {
        self.remaining@.len() <= CANDIDATE_CAP && forall|i: int|
            0 <= i < self.remaining@.len() ==> (#[trigger] self.remaining@[i].1) <= WEIGHT_CAP
    }

    /// The current candidate list: letters and weight of each, in rank
    /// order.
    pub closed spec fn candidates(&self) -> Seq<(Seq<u8>, u64)> {
        entry_views(self.remaining@)
    }

    /// The letters of the word played when no candidate is left: the
    /// best-ranked word of the dictionary the solver was built over.
    pub closed spec fn fallback_word(&self) -> Seq<u8> {
        self.fallback@
    }

    /// Builds a solver over the full ranked dictionary, clamping
    /// outsized weights; refuses an empty or oversized dictionary.
    pub fn new(dict: &Wordle) -> (r: Option<EntropySolver>)
        ensures
            (r is Some) <==> (0 < dict@.len() <= CANDIDATE_CAP),
            r matches Some(s) ==> s.candidates().len() == dict@.len() && forall|i: int|
                0 <= i < dict@.len() ==> (#[trigger] s.candidates()[i]).0 == dict@[i].0@
                    && s.candidates()[i].1 == (if dict@[i].1 > WEIGHT_CAP {
                    WEIGHT_CAP
                } else {
                    dict@[i].1
                }),
    {
        let ranked = dict.ranked_candidates();
        if ranked.len() == 0 || ranked.len() > CANDIDATE_CAP {
            return None;
        }
        let fallback = ranked[0].0.clone();
        let mut remaining: Vec<(Word, u64)> = Vec::new();
        let mut i: usize = 0;
        while i < ranked.len()
            invariant
                i <= ranked@.len(),
                ranked@.len() == dict@.len(),
                forall|j: int| 0 <= j < ranked@.len() ==> #[trigger] ranked@[j].0@ == dict@[j].0@
                    && ranked@[j].1 == dict@[j].1,
                remaining@.len() == i,
                forall|j: int| 0 <= j < i ==> (#[trigger] remaining@[j]).0@ == dict@[j].0@
                    && remaining@[j].1 == (if dict@[j].1 > WEIGHT_CAP {
                    WEIGHT_CAP
                } else {
                    dict@[j].1
                }),
            decreases ranked@.len() - i,
        {
            let w = ranked[i].0.clone();
            let wt = ranked[i].1;
            let clamped = if wt > WEIGHT_CAP {
                WEIGHT_CAP
            } else {
                wt
            };
            remaining.push((w, clamped));
            i = i + 1;
        }
        let s = EntropySolver { remaining, fallback };
        proof {
            assert(forall|i: int| 0 <= i < s.candidates().len() ==> (#[trigger] s.candidates()[i])
                == (s.remaining@[i].0@, s.remaining@[i].1));
        }
        Some(s)
    }

    /// The size of the current candidate set.
    pub fn candidate_count(&self) -> (n: usize)
        ensures
            n == self.candidates().len(),
    {
        self.remaining.len()
    }

    /// The best guess over the current candidates: the one whose score
    /// no other candidate beats, and that no earlier rank ties.
    fn best_candidate(&self) -> (r: Word)
        requires
            self.candidates().len() >= 1,
        ensures
            ({
                let c = self.candidates();
                exists|i: int|
                    #![auto]
                    0 <= i < c.len() && r@ == c[i].0 && (forall|k: int|
                        0 <= k < c.len() ==> score_spec(c, c[i].0) <= score_spec(c, c[k].0))
                        && (forall|k: int|
                        0 <= k < i ==> score_spec(c, c[i].0) < score_spec(c, c[k].0))
            }),
    {
        proof {
            use_type_invariant(self);
            lemma_total_capped(self.candidates(), self.candidates().len() as int);
        }
        let scores = parallel_scores(&self.remaining);
        let best = argmin_index(&scores);
        let w = self.remaining[best].0.clone();
        proof {
            let c = self.candidates();
            assert(forall|k: int| 0 <= k < c.len() ==> #[trigger] c[k] == (
                self.remaining@[k].0@,
                self.remaining@[k].1,
            ));
            assert(forall|k: int| 0 <= k < c.len() ==> #[trigger] scores@[k] == score_spec(
                c,
                c[k].0,
            ));
            let b = best as int;
            assert(w@ == c[b].0);
            assert forall|k: int| 0 <= k < c.len() implies score_spec(c, c[b].0) <= score_spec(
                c,
                c[k].0,
            ) by {
                assert(scores@[k] == score_spec(c, c[k].0));
                assert(scores@[b] == score_spec(c, c[b].0));
                assert(scores@[b] <= scores@[k]);
            }
            assert forall|k: int| 0 <= k < b implies score_spec(c, c[b].0) < score_spec(
                c,
                c[k].0,
            ) by {
                assert(scores@[k] == score_spec(c, c[k].0));
                assert(scores@[b] == score_spec(c, c[b].0));
                assert(scores@[b] < scores@[k]);
            }
            assert(0 <= b < c.len() && w@ == c[b].0 && (forall|k: int|
                0 <= k < c.len() ==> score_spec(c, c[b].0) <= score_spec(c, c[k].0)) && (forall|
                k: int,
            |
                0 <= k < b ==> score_spec(c, c[b].0) < score_spec(c, c[k].0)));
        }
        w
    }
}

impl Guesser for EntropySolver {
    /// Narrows the candidate set by every record in the history, then
    /// plays the single survivor if one is left, and the best-scoring
    /// candidate otherwise; the fallback word is played only when no
    /// candidate survives. A malformed record (a mask without exactly
    /// five slots) cannot arise from the game loop and is ignored.
    fn guess(&mut self, history: &Vec<Guess>) -> (r: Word)
        ensures
            final(self).candidates() == apply_records(
                old(self).candidates(),
                history@,
                history@.len() as int,
            ),
            final(self).fallback_word() == old(self).fallback_word(),
            ({
                let c = final(self).candidates();
                if c.len() == 0 {
                    r@ == old(self).fallback_word()
                } else if c.len() == 1 {
                    r@ == c[0].0
                } else {
                    exists|i: int|
                        #![auto]
                        0 <= i < c.len() && r@ == c[i].0 && (forall|k: int|
                            0 <= k < c.len() ==> score_spec(c, c[i].0) <= score_spec(c, c[k].0))
                            && (forall|k: int|
                            0 <= k < i ==> score_spec(c, c[i].0) < score_spec(c, c[k].0))
                }
            }),
    {
        let ghost c0 = self.candidates();
        let ghost f0 = self.fallback_word();
        let mut idx: usize = 0;
        while idx < history.len()
            invariant
                idx <= history@.len(),
                self.candidates() == apply_records(c0, history@, idx as int),
                self.fallback_word() == f0,
            decreases history@.len() - idx,
        {
            let keep_fallback = self.fallback.clone();
            if history[idx].mask.len() == 5 {
                proof {
                    use_type_invariant(&*self);
                    lemma_filter_shrinks(
                        entry_views(self.remaining@),
                        history@[idx as int].word@,
                        history@[idx as int].mask@,
                    );
                }
                let filtered = filter_candidates(&self.remaining, &history[idx]);
                proof {
                    let s = entry_views(self.remaining@);
                    let w = history@[idx as int].word@;
                    let m = history@[idx as int].mask@;
                    let f = entry_views(filtered@);
                    assert forall|j: int| 0 <= j < filtered@.len() implies (
                    #[trigger] filtered@[j]).1 <= WEIGHT_CAP by {
                        assert(f[j] == (filtered@[j].0@, filtered@[j].1));
                        assert(matching(s, w, m)[j] == f[j]);
                        assert(s.contains(f[j]));
                        let k = choose|k: int| 0 <= k < s.len() && s[k] == f[j];
                        assert(s[k] == (self.remaining@[k].0@, self.remaining@[k].1));
                        assert(self.remaining@[k].1 <= WEIGHT_CAP);
                    }
                }
                *self = EntropySolver { remaining: filtered, fallback: keep_fallback };
                proof {
                    assert(apply_records(c0, history@, idx + 1) == matching(
                        apply_records(c0, history@, idx as int),
                        history@[idx as int].word@,
                        history@[idx as int].mask@,
                    ));
                }
            } else {
                proof {
                    assert(apply_records(c0, history@, idx + 1) == apply_records(
                        c0,
                        history@,
                        idx as int,
                    ));
                }
            }
            idx = idx + 1;
        }
        proof {
            use_type_invariant(&*self);
        }
        if self.remaining.len() == 0 {
            return self.fallback.clone();
        }
        if self.remaining.len() == 1 {
            proof {
                assert(self.candidates()[0] == (self.remaining@[0].0@, self.remaining@[0].1));
            }
            return self.remaining[0].0.clone();
        }
        self.best_candidate()
    }

    fn finish(&self, _guesses: usize) {
    }
}

} // verus!
