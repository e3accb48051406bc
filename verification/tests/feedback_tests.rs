use wordle_core::Correctness;
use wordle_core::Guess;
use wordle_core::Word;
use wordle_core::WordError;
use wordle_core::feedback::pack_mask;
use wordle_core::feedback::unpack_mask;

fn w(s: &str) -> Word {
    Word::new(s).unwrap()
}

const C: Correctness = Correctness::Correct;
const M: Correctness = Correctness::Misplaced;
const W: Correctness = Correctness::Wrong;

#[test]
fn from_jon() {
    // "abcde" + [C C C C C] allows "abcde"
    let g = Guess { word: w("abcde"), mask: vec![C, C, C, C, C] };
    assert!(g.matches(&w("abcde")));
    assert_eq!(Correctness::compute(&w("abcde"), &w("abcde")), vec![C, C, C, C, C]);

    // "abcdf" + [C C C C C] disallows "abcde"
    let g = Guess { word: w("abcdf"), mask: vec![C, C, C, C, C] };
    assert!(!g.matches(&w("abcde")));
    assert_ne!(Correctness::compute(&w("abcde"), &w("abcdf")), vec![C, C, C, C, C]);

    // "abcde" + [W W W W W] allows "fghij"
    let g = Guess { word: w("abcde"), mask: vec![W, W, W, W, W] };
    assert!(g.matches(&w("fghij")));
    assert_eq!(Correctness::compute(&w("fghij"), &w("abcde")), vec![W, W, W, W, W]);

    // "abcde" + [M M M M M] allows "eabcd"
    let g = Guess { word: w("abcde"), mask: vec![M, M, M, M, M] };
    assert!(g.matches(&w("eabcd")));
    assert_eq!(Correctness::compute(&w("eabcd"), &w("abcde")), vec![M, M, M, M, M]);

    // "baaa" is four letters: it must be refused outright, so the last
    // two checks of this suite fail fast at word construction.
    assert_eq!(Word::new("baaa").unwrap_err(), WordError::Length);
    assert!(Word::new("aaccc").is_ok());
    assert!(Word::new("caacc").is_ok());
}

#[test]
fn self_guess_is_all_correct() {
    for s in ["abcde", "zzzzz", "boost", "cigar"] {
        let word = w(s);
        assert_eq!(Correctness::compute(&word, &word), vec![C, C, C, C, C]);
    }
}

#[test]
fn disjoint_words_are_all_wrong() {
    assert_eq!(Correctness::compute(&w("abcde"), &w("fghij")), vec![W, W, W, W, W]);
    assert_eq!(Correctness::compute(&w("mnopq"), &w("rstuv")), vec![W, W, W, W, W]);
}

#[test]
fn duplicate_letters_not_over_credited() {
    // "boost" holds two o; guessing "books" may credit only the matched one
    // plus the one s, never a third o.
    assert_eq!(Correctness::compute(&w("boost"), &w("books")), vec![C, C, C, W, M]);
    // Concrete case: one letter off at the end.
    assert_eq!(Correctness::compute(&w("abcde"), &w("abcdf")), vec![C, C, C, C, W]);
    // Three a in the guess, two in the answer: only two get credit.
    assert_eq!(Correctness::compute(&w("aabbb"), &w("aaabb")), vec![C, C, W, C, C]);
}

#[test]
fn cyclic_rotation_is_all_misplaced() {
    assert_eq!(Correctness::compute(&w("eabcd"), &w("abcde")), vec![M, M, M, M, M]);
}

#[test]
fn short_probe_fails_fast() {
    assert_eq!(Word::new("baaa").unwrap_err(), WordError::Length);
    assert_eq!(Word::new("").unwrap_err(), WordError::Length);
    assert_eq!(Word::new("abcdef").unwrap_err(), WordError::Length);
    assert_eq!(Word::new("abcd1").unwrap_err(), WordError::Charset);
    assert_eq!(Word::new("ABCDE").unwrap_err(), WordError::Charset);
}

#[test]
fn pack_unpack_round_trip_all_codes() {
    for p in 0u8..243 {
        let mask = unpack_mask(p);
        assert_eq!(mask.len(), 5);
        assert_eq!(pack_mask(&mask), p);
    }
}

#[test]
fn pack_known_values() {
    assert_eq!(pack_mask(&vec![C, C, C, C, C]), 0);
    assert_eq!(pack_mask(&vec![C, C, C, C, W]), 2);
    assert_eq!(pack_mask(&vec![M, C, C, C, C]), 81);
    assert_eq!(pack_mask(&vec![W, W, W, W, W]), 242);
    assert_eq!(unpack_mask(0), vec![C, C, C, C, C]);
    assert_eq!(unpack_mask(242), vec![W, W, W, W, W]);
}

#[test]
fn encoder_mask_always_matches_its_answer() {
    let pairs = [("cigar", "crane"), ("boost", "books"), ("aabbb", "bbbaa"), ("zzzzz", "azzza")];
    for (answer, guess) in pairs {
        let rec = Guess {
            word: w(guess),
            mask: Correctness::compute(&w(answer), &w(guess)),
        };
        assert!(rec.matches(&w(answer)));
    }
}
