//! The record of one played guess: the word and the feedback mask it
//! earned, with the predicate that filters answer candidates.

use vstd::prelude::*;
use crate::word::{Word, wf_word};
use crate::feedback::{Correctness, mask_spec};

verus! {

/// Whether `candidate`, played as the answer, would have produced
/// exactly mask `m` when word `w` was guessed.
pub open spec fn matches_spec(w: Seq<u8>, m: Seq<Correctness>, candidate: Seq<u8>) -> bool {
    mask_spec(candidate, w) == m
}

/// One played guess and the feedback mask it earned, immutable for the
/// rest of the playthrough.
pub struct Guess {
    pub word: Word,
    pub mask: Vec<Correctness>,
}

impl Guess {
    /// Whether `word`, as the answer, could have produced this record:
    /// the encoder run on (`word`, this guess) yields exactly this mask.
    pub fn matches(&self, word: &Word) -> (r: bool)
        requires
            self.mask@.len() == 5,
        ensures
            r == matches_spec(self.word@, self.mask@, word@),
    {
        let m = Correctness::compute(word, &self.word);
        let mut i: usize = 0;
        while i < 5
            invariant
                i <= 5,
                m@ == mask_spec(word@, self.word@),
                m@.len() == 5,
                self.mask@.len() == 5,
                forall|j: int| 0 <= j < i ==> m@[j] == self.mask@[j],
            decreases 5 - i,
        {
            if m[i] != self.mask[i] {
                return false;
            }
            i = i + 1;
        }
        proof {
            assert(m@ =~= self.mask@);
        }
        true
    }
}

impl Clone for Guess {
    /// A clone carries the same word and mask.
    fn clone(&self) -> (r: Guess)
        ensures
            r.word@ == self.word@,
            r.mask@ == self.mask@,
    {
        let mut mask: Vec<Correctness> = Vec::new();
        let mut i: usize = 0;
        while i < self.mask.len()
            invariant
                i <= self.mask@.len(),
                mask@ == self.mask@.subrange(0, i as int),
            decreases self.mask@.len() - i,
        {
            mask.push(self.mask[i]);
            proof {
                assert(mask@ =~= self.mask@.subrange(0, i + 1));
            }
            i = i + 1;
        }
        proof {
            assert(mask@ =~= self.mask@);
        }
        Guess { word: self.word.clone(), mask }
    }
}

/// The encoder and the match predicate agree: the mask computed for an
/// (answer, guess) pair always lets that answer through the record's
/// own filter.
pub proof fn lemma_record_matches_answer(answer: Seq<u8>, guess: Seq<u8>)
    ensures
        matches_spec(guess, mask_spec(answer, guess), answer),
{
}

/// A wrong guess never survives its own record: the mask it earned from
/// an answer other than itself rules the guess word out as a candidate.
/// A strategy guessing only candidates therefore shrinks the candidate
/// set every losing round.
pub proof fn lemma_wrong_guess_eliminated(answer: Seq<u8>, guess: Seq<u8>)
    requires
        wf_word(answer),
        wf_word(guess),
        answer != guess,
    ensures
        !matches_spec(guess, mask_spec(answer, guess), guess),
{
    assert(exists|i: int| 0 <= i < 5 && answer[i] != guess[i]) by {
        if forall|i: int| 0 <= i < 5 ==> answer[i] == #[trigger] guess[i] {
            assert(answer =~= guess);
        }
    }
    let i = choose|i: int| 0 <= i < 5 && answer[i] != guess[i];
    assert(mask_spec(guess, guess)[i] == Correctness::Correct);
    assert(mask_spec(answer, guess)[i] != Correctness::Correct);
}

} // verus!
