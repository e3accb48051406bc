use wordle_core::Correctness;
use wordle_core::DictError;
use wordle_core::Guess;
use wordle_core::PlayError;
use wordle_core::Word;
use wordle_core::WordError;
use wordle_core::Wordle;
use wordle_core::game::ScriptedGuesser;
use wordle_core::solver::EntropySolver;
use wordle_core::solver::filter_candidates;
use wordle_core::solver::score_of;

fn w(s: &str) -> Word {
    Word::new(s).unwrap()
}

#[test]
fn dictionary_parses_ranked_entries() {
    let dict = Wordle::new(b"hello 10\nworld\n\ncigar 3").unwrap();
    assert_eq!(dict.len(), 3);
    assert!(dict.contains(&w("hello")));
    assert!(dict.contains(&w("world")));
    assert!(dict.contains(&w("cigar")));
    assert!(!dict.contains(&w("crane")));
    let ranked = dict.ranked_candidates();
    assert_eq!(ranked[0].0.to_bytes(), b"hello".to_vec());
    assert_eq!(ranked[0].1, 10);
    assert_eq!(ranked[1].1, 1);
    assert_eq!(ranked[2].1, 3);
}

#[test]
fn dictionary_collapses_repeated_words() {
    let dict = Wordle::new(b"hello 5\nworld 2\nhello 9\nworld 1\nhello 1").unwrap();
    assert_eq!(dict.len(), 2);
    assert!(dict.contains(&w("hello")));
    assert!(dict.contains(&w("world")));
    let ranked = dict.ranked_candidates();
    // The first, best-ranked line of a repeated word is the one kept.
    assert_eq!(ranked[0].0.to_bytes(), b"hello".to_vec());
    assert_eq!(ranked[0].1, 5);
    assert_eq!(ranked[1].0.to_bytes(), b"world".to_vec());
    assert_eq!(ranked[1].1, 2);
}

#[test]
fn dictionary_rejects_bad_lines() {
    assert_eq!(Wordle::new(b"hi").unwrap_err(), DictError::BadWord(WordError::Length));
    assert_eq!(Wordle::new(b"abcDe 4").unwrap_err(), DictError::BadWord(WordError::Charset));
    assert_eq!(Wordle::new(b"abcde x").unwrap_err(), DictError::BadWeight);
    assert_eq!(Wordle::new(b"abcde ").unwrap_err(), DictError::BadWeight);
    assert_eq!(
        Wordle::new(b"abcde 99999999999999999999").unwrap_err(),
        DictError::BadWeight
    );
}

#[test]
fn scripted_play_wins_in_two() {
    let dict = Wordle::new(b"crane 5\nslate 4\ncigar 3").unwrap();
    let mut g = ScriptedGuesser::new(vec![w("crane"), w("cigar")]).unwrap();
    let (outcome, history, _) = dict.play(&w("cigar"), &mut g);
    assert_eq!(outcome.unwrap(), Some(2));
    // One completed round before the win, with the true feedback mask;
    // no record for the winning word.
    assert_eq!(history.len(), 1);
    assert_eq!(history[0].word.to_bytes(), b"crane".to_vec());
    assert_eq!(history[0].mask, Correctness::compute(&w("cigar"), &w("crane")));
}

#[test]
fn scripted_play_exhausts_rounds() {
    let dict = Wordle::new(b"crane 5\nslate 4\ncigar 3").unwrap();
    let mut g = ScriptedGuesser::new(vec![w("crane")]).unwrap();
    let (outcome, history, _) = dict.play(&w("cigar"), &mut g);
    assert_eq!(outcome.unwrap(), None);
    // Exactly one record per round up to the cap, all the repeated word.
    assert_eq!(history.len(), 32);
    for rec in history.iter() {
        assert_eq!(rec.word.to_bytes(), b"crane".to_vec());
    }
}

#[test]
fn illegal_guess_aborts_play() {
    let dict = Wordle::new(b"crane 5\nslate 4\ncigar 3").unwrap();
    let mut g = ScriptedGuesser::new(vec![w("crane"), w("queue"), w("slate")]).unwrap();
    let (outcome, history, _) = dict.play(&w("cigar"), &mut g);
    match outcome {
        Err(PlayError::IllegalGuess(word)) => assert_eq!(word.to_bytes(), b"queue".to_vec()),
        other => panic!("expected an illegal-guess report, got {:?}", other),
    }
    // The playthrough stopped at the illegal word: only the legal round
    // before it is on record, and the later scripted word never ran.
    assert_eq!(history.len(), 1);
    assert_eq!(history[0].word.to_bytes(), b"crane".to_vec());
}

#[test]
fn candidate_filter_shrinks_and_keeps_answer() {
    let dict = Wordle::new(b"cigar 9\ncrane 7\nslate 5\nzzzzz 1").unwrap();
    let cands = dict.ranked_candidates();
    let answer = w("slate");
    let guess = w("crane");
    let rec = Guess {
        word: guess,
        mask: Correctness::compute(&answer, &w("crane")),
    };
    let filtered = filter_candidates(&cands, &rec);
    assert!(filtered.len() <= cands.len());
    assert!(filtered.iter().any(|e| e.0.to_bytes() == b"slate".to_vec()));
    // Appending a second record keeps shrinking and keeps the answer.
    let rec2 = Guess {
        word: w("cigar"),
        mask: Correctness::compute(&answer, &w("cigar")),
    };
    let filtered2 = filter_candidates(&filtered, &rec2);
    assert!(filtered2.len() <= filtered.len());
    assert!(filtered2.iter().any(|e| e.0.to_bytes() == b"slate".to_vec()));
    for e in filtered2.iter() {
        assert!(filtered.iter().any(|f| f.0.to_bytes() == e.0.to_bytes()));
    }
}

#[test]
fn score_has_exact_expected_value() {
    // Candidates: aaaaa (1), bbbbb (1), aabbb (2); guessing aaaaa buckets
    // them as {all-correct: 1}, {all-wrong: 1}, {c c w w w: 2}, so the
    // expected surviving mass, scaled by the total, is 1*1 + 1*1 + 2*2 = 6.
    let cands = vec![(w("aaaaa"), 1u64), (w("bbbbb"), 1u64), (w("aabbb"), 2u64)];
    assert_eq!(score_of(&cands, &w("aaaaa")), 6);
}

#[test]
fn solver_prefers_discriminating_guess() {
    // Guessing bbbbb splits the three candidates into three distinct
    // buckets (score 3); guessing aaaaa leaves bbbbb and bbbbc together
    // (score 5). The solver must pick bbbbb although aaaaa ranks first.
    let dict = Wordle::new(b"aaaaa\nbbbbb\nbbbbc").unwrap();
    let mut solver = EntropySolver::new(&dict).unwrap();
    let g = wordle_core::Guesser::guess(&mut solver, &Vec::new());
    assert_eq!(g.to_bytes(), b"bbbbb".to_vec());
}

#[test]
fn solver_refuses_empty_dictionary() {
    let dict = Wordle::new(b"").unwrap();
    assert_eq!(dict.len(), 0);
    assert!(EntropySolver::new(&dict).is_none());
}

#[test]
fn solver_wins_for_every_answer() {
    let text = b"cigar 20\nrebut 18\nsissy 16\nhumph 14\nawake 12\nblush 10\nfocal 8\nevade 6";
    let dict = Wordle::new(text).unwrap();
    for (answer, _) in dict.ranked_candidates() {
        let mut solver = EntropySolver::new(&dict).unwrap();
        let (outcome, history, _) = dict.play(&answer, &mut solver);
        match outcome.unwrap() {
            Some(n) => {
                assert!(n <= 32);
                assert_eq!(history.len(), n - 1);
            },
            None => panic!("solver failed to find {:?}", answer.to_bytes()),
        }
    }
}

#[test]
fn solver_weight_clamp_keeps_order() {
    let dict = Wordle::new(b"aaaaa 18446744073709551615\nbbbbb 2").unwrap();
    let mut solver = EntropySolver::new(&dict).unwrap();
    assert_eq!(solver.candidate_count(), 2);
    let g = wordle_core::Guesser::guess(&mut solver, &Vec::new());
    assert_eq!(g.to_bytes().len(), 5);
}
