//! The game: the dictionary of legal guesses with frequency priors, the
//! pluggable guessing strategy, and the loop that drives one playthrough.

use vstd::prelude::*;
use crate::word::Word;
use crate::feedback::{Correctness, mask_spec};
use crate::record::Guess;
use crate::dict::{DictError, dedup_entries, dict_spec, entry_views, holds_word, parse_text};

verus! {

/// A guessing strategy: produces the next word to guess from the
/// history of this playthrough. Legality of the produced word is
/// enforced by the game loop, not here.
pub trait Guesser {
    /// The next word to guess, given the guesses played so far and the
    /// feedback each earned.
    fn guess(&mut self, history: &Vec<Guess>) -> Word;

    /// Invoked once when the answer has been found, with the number of
    /// rounds used; a metrics hook with no effect on play.
    fn finish(&self, guesses: usize) {
    }
}

/// Why a playthrough was aborted.
#[derive(Debug)]
pub enum PlayError {
    /// The strategy produced a word outside the dictionary; the word is
    /// carried for the report. A broken strategy contract, not a normal
    /// game outcome.
    IllegalGuess(Word),
}

/// The hard cap on rounds in one playthrough, deliberately wider than
/// the human-facing six to let solver quality be measured in full.
pub const ROUND_CAP: usize = 32;

/// Whether some entry of the list carries the word.
fn holds_entry_word(v: &Vec<(Word, u64)>, w: &Word) -> (r: bool)
    ensures
        r == holds_word(entry_views(v@), w@),
{
    let mut i: usize = 0;
    while i < v.len()
        invariant
            i <= v@.len(),
            forall|j: int| 0 <= j < i ==> (#[trigger] entry_views(v@)[j]).0 != w@,
        decreases v@.len() - i,
    {
        proof {
            assert(entry_views(v@)[i as int] == (v@[i as int].0@, v@[i as int].1));
        }
        if v[i].0.same(w) {
            return true;
        }
        i = i + 1;
    }
    false
}

/// The fixed universe of legal guesses, ranked by frequency: most
/// frequent first, each with its prior weight.
#[derive(Debug)]
pub struct Wordle {
    entries: Vec<(Word, u64)>,
}

impl View for Wordle {
    type V = Seq<(Word, u64)>;

    closed spec fn view(&self) -> Seq<(Word, u64)> {
        self.entries@
    }
}

impl Wordle {
    /// The word written at rank `i`.
    pub open spec fn word_at(&self, i: int) -> Seq<u8> {
        self@[i].0@
    }

    /// Whether the letters `s` spell a legal dictionary word.
    pub open spec fn has_word(&self, s: Seq<u8>) -> bool {
        exists|i: int| 0 <= i < self@.len() && self.word_at(i) == s
    }

    /// Builds the dictionary from the resource text: one ranked entry
    /// per parsed line. The dictionary is a set, so a word repeated in
    /// the resource keeps only its first, best-ranked line.
    pub fn new(text: &[u8]) -> (r: Result<Wordle, DictError>)
        ensures
            match r {
                Ok(w) => match dict_spec(text@) {
                    Ok(es) => entry_views(w@) == dedup_entries(es),
                    Err(_) => false,
                },
                Err(e) => dict_spec(text@) == Err::<Seq<(Seq<u8>, u64)>, DictError>(e),
            },
    {
        let entries = match parse_text(text) {
            Ok(v) => v,
            Err(e) => {
                return Err(e);
            },
        };
        let ghost ev = entry_views(entries@);
        let mut kept: Vec<(Word, u64)> = Vec::new();
        let mut i: usize = 0;
        while i < entries.len()
            invariant
                i <= entries@.len(),
                ev == entry_views(entries@),
                ev.len() == entries@.len(),
                entry_views(kept@) == dedup_entries(ev.subrange(0, i as int)),
            decreases entries@.len() - i,
        {
            proof {
                assert(ev.subrange(0, i + 1).drop_last() =~= ev.subrange(0, i as int));
                assert(ev.subrange(0, i + 1).last() == ev[i as int]);
                assert(ev[i as int] == (entries@[i as int].0@, entries@[i as int].1));
            }
            if !holds_entry_word(&kept, &entries[i].0) {
                let w = entries[i].0.clone();
                let wt = entries[i].1;
                let ghost before = kept@;
                kept.push((w, wt));
                proof {
                    assert(entry_views(kept@) =~= entry_views(before).push(ev[i as int]));
                }
            }
            i = i + 1;
        }
        proof {
            assert(ev.subrange(0, entries@.len() as int) =~= ev);
        }
        Ok(Wordle { entries: kept })
    }

    /// The number of ranked entries.
    pub fn len(&self) -> (n: usize)
        ensures
            n == self@.len(),
    {
        self.entries.len()
    }

    /// The ranked list of (word, weight) pairs, most frequent first.
    pub fn ranked_candidates(&self) -> (r: Vec<(Word, u64)>)
        ensures
            r@.len() == self@.len(),
            forall|i: int| 0 <= i < r@.len() ==> #[trigger] r@[i].0@ == self@[i].0@ && r@[i].1
                == self@[i].1,
    {
        let mut r: Vec<(Word, u64)> = Vec::new();
        let mut i: usize = 0;
        while i < self.entries.len()
            invariant
                i <= self@.len(),
                r@.len() == i,
                forall|j: int| 0 <= j < i ==> #[trigger] r@[j].0@ == self@[j].0@ && r@[j].1
                    == self@[j].1,
            decreases self@.len() - i,
        {
            let w = self.entries[i].0.clone();
            let wt = self.entries[i].1;
            r.push((w, wt));
            i = i + 1;
        }
        r
    }

    /// Membership check for a submitted guess.
    pub fn contains(&self, w: &Word) -> (r: bool)
        ensures
            r == self.has_word(w@),
    {
        let mut i: usize = 0;
        while i < self.entries.len()
            invariant
                i <= self@.len(),
                forall|j: int| 0 <= j < i ==> self.word_at(j) != w@,
            decreases self@.len() - i,
        {
            if self.entries[i].0.same(w) {
                proof {
                    assert(self.word_at(i as int) == w@);
                }
                return true;
            }
            i = i + 1;
        }
        false
    }

    /// One playthrough. Asks the strategy for a guess each round and
    /// returns the outcome, the history of completed rounds, and a
    /// ghost transcript of every word the strategy returned, in order.
    /// Each completed round's record carries a legal, non-winning word
    /// with its true feedback mask, and the strategy received exactly
    /// the earlier records as its history. A win on the strategy's k-th
    /// word ends the playthrough there (no record for the winning
    /// word); an exhausted round cap reports no win after exactly
    /// `ROUND_CAP` completed rounds; and the first word that is neither
    /// the answer nor a dictionary word aborts the playthrough at once,
    /// carried in the error.
    pub fn play<G: Guesser>(&self, answer: &Word, guesser: &mut G) -> (r: (
        Result<Option<usize>, PlayError>,
        Vec<Guess>,
        Ghost<Seq<Seq<u8>>>,
    ))
        ensures
            forall|j: int| 0 <= j < r.1@.len() ==> (#[trigger] r.1@[j]).word@ == r.2@[j]
                && r.1@[j].mask@ == mask_spec(answer@, r.1@[j].word@) && self.has_word(
                r.1@[j].word@,
            ) && r.1@[j].word@ != answer@,
            match r.0 {
                Ok(won) => match won {
                    Some(k) => 1 <= k <= ROUND_CAP && r.1@.len() == k - 1 && r.2@.len() == k
                        && r.2@[k - 1] == answer@,
                    None => r.1@.len() == ROUND_CAP && r.2@.len() == ROUND_CAP,
                },
                Err(e) => match e {
                    PlayError::IllegalGuess(w) => r.1@.len() < ROUND_CAP && r.2@.len() == r.1@.len()
                        + 1 && r.2@[r.1@.len() as int] == w@ && !self.has_word(w@) && w@
                        != answer@,
                },
            },
    {
        let ghost mut t: Seq<Seq<u8>> = Seq::empty();
        let mut history: Vec<Guess> = Vec::new();
        let mut round: usize = 1;
        while round <= ROUND_CAP
            invariant
                1 <= round <= ROUND_CAP + 1,
                history@.len() == round - 1,
                t.len() == round - 1,
                forall|j: int| 0 <= j < history@.len() ==> (#[trigger] history@[j]).word@ == t[j]
                    && history@[j].mask@ == mask_spec(answer@, history@[j].word@) && self.has_word(
                    history@[j].word@,
                ) && history@[j].word@ != answer@,
            decreases ROUND_CAP + 1 - round,
        {
            let guess: Word = guesser.guess(&history);
            proof {
                t = t.push(guess@);
            }
            if guess.same(answer) {
                guesser.finish(round);
                return (Ok(Some(round)), history, Ghost(t));
            }
            if !self.contains(&guess) {
                return (Err(PlayError::IllegalGuess(guess)), history, Ghost(t));
            }
            let mask = Correctness::compute(answer, &guess);
            history.push(Guess { word: guess, mask });
            round = round + 1;
        }
        (Ok(None), history, Ghost(t))
    }
}

/// A fixed strategy for deterministic play: guesses a predetermined
/// list of words in order, and repeats the last one when the list runs
/// out.
pub struct ScriptedGuesser {
    words: Vec<Word>,
    next: usize,
}

impl ScriptedGuesser {
    #[verifier::type_invariant]
    spec fn inv(self) -> bool {
        self.words@.len() > 0
    }

    /// The scripted words, in play order.
    pub closed spec fn script(&self) -> Seq<Word> {
        self.words@
    }

    /// How many guesses have been handed out.
    pub closed spec fn played(&self) -> int {
        self.next as int
    }

    /// Builds the strategy from a non-empty script.
    pub fn new(words: Vec<Word>) -> (r: Option<ScriptedGuesser>)
        ensures
            (r is Some) <==> words@.len() > 0,
            r matches Some(g) ==> g.script() == words@ && g.played() == 0,
    {
        if words.len() == 0 {
            return None;
        }
        Some(ScriptedGuesser { words, next: 0 })
    }
}

impl Guesser for ScriptedGuesser {
    /// The next scripted word, whatever the history says: the word at
    /// the play index, which advances until the script runs out, after
    /// which the last word repeats.
    fn guess(&mut self, _history: &Vec<Guess>) -> (r: Word)
        ensures
            final(self).script() == old(self).script(),
            final(self).played() == (if old(self).played() < old(self).script().len() {
                old(self).played() + 1
            } else {
                old(self).played()
            }),
            r@ == old(self).script()[
                if old(self).played() < old(self).script().len() {
                    old(self).played()
                } else {
                    old(self).script().len() - 1
                }
            ]@,
    {
        proof {
            use_type_invariant(&*self);
        }
        let i = if self.next < self.words.len() {
            self.next
        } else {
            self.words.len() - 1
        };
        if self.next < self.words.len() {
            self.next = self.next + 1;
        }
        self.words[i].clone()
    }

    fn finish(&self, _guesses: usize) {
    }
}

} // verus!
