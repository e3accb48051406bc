//! Feedback scoring: the per-position Correct / Misplaced / Wrong mask
//! for an (answer, guess) pair, with exact duplicate-letter accounting,
//! and the dense radix-3 packed form used as a table index.

use vstd::prelude::*;
use crate::word::{Word, is_lower_byte, wf_word};

verus! {

/// The feedback tag for one guess position.
#[derive(Clone, Copy, Debug, PartialEq, Eq, Hash, PartialOrd, Ord, Structural)]
pub enum Correctness {
    /// Green: the letter stands in the right position.
    Correct,
    /// Yellow: the letter occurs elsewhere in the answer.
    Misplaced,
    /// Gray: the letter has no unmatched occurrence left in the answer.
    Wrong,
}

/// How many of the first `n` answer positions hold letter `c` without the
/// guess matching there: the occurrences of `c` still available for
/// misplaced credit.
pub open spec fn spare_count(a: Seq<u8>, g: Seq<u8>, c: u8, n: int) -> int
    decreases n,
{
    if n <= 0 {
        0
    } else {
        spare_count(a, g, c, n - 1) + if a[n - 1] == c && g[n - 1] != c {
            1int
        } else {
            0int
        }
    }
}

/// How many of the first `n` guess positions hold letter `c` without
/// matching the answer there: the occurrences of `c` that ask for
/// misplaced credit.
pub open spec fn claim_count(a: Seq<u8>, g: Seq<u8>, c: u8, n: int) -> int
    decreases n,
{
    if n <= 0 {
        0
    } else {
        claim_count(a, g, c, n - 1) + if g[n - 1] == c && a[n - 1] != c {
            1int
        } else {
            0int
        }
    }
}

/// The feedback tag at position `i`: Correct on an exact match; else
/// Misplaced while the claims on that letter up to and including `i` do
/// not exceed its spare occurrences in the answer; else Wrong.
pub open spec fn mask_at(a: Seq<u8>, g: Seq<u8>, i: int) -> Correctness {
    if g[i] == a[i] {
        Correctness::Correct
    } else if claim_count(a, g, g[i], i + 1) <= spare_count(a, g, g[i], 5) {
        Correctness::Misplaced
    } else {
        Correctness::Wrong
    }
}

/// The full five-slot feedback mask for an (answer, guess) pair.
pub open spec fn mask_spec(a: Seq<u8>, g: Seq<u8>) -> Seq<Correctness> {
    Seq::new(5, |i: int| mask_at(a, g, i))
}

proof fn lemma_spare_le_n(a: Seq<u8>, g: Seq<u8>, c: u8, n: int)
    ensures
        0 <= spare_count(a, g, c, n) <= if n <= 0 { 0int } else { n },
    decreases n,
{
    if n > 0 {
        lemma_spare_le_n(a, g, c, n - 1);
    }
}

proof fn lemma_claim_le_n(a: Seq<u8>, g: Seq<u8>, c: u8, n: int)
    ensures
        0 <= claim_count(a, g, c, n) <= if n <= 0 { 0int } else { n },
    decreases n,
{
    if n > 0 {
        lemma_claim_le_n(a, g, c, n - 1);
    }
}

impl Correctness {
    /// The five-slot feedback mask for guessing `guess` against `answer`,
    /// with standard duplicate-letter semantics: exact matches first, then
    /// misplaced credit while unmatched occurrences remain.
    pub fn compute(answer: &Word, guess: &Word) -> (m: Vec<Correctness>)
        ensures
            m@ == mask_spec(answer@, guess@),
            m@.len() == 5,
    {
        proof {
            use_type_invariant(answer);
            use_type_invariant(guess);
        }
        let mut counters: Vec<u8> = Vec::new();
        let mut k: usize = 0;
        while k < 26
            invariant
                k <= 26,
                counters@.len() == k,
                forall|c: int| 0 <= c < k ==> counters@[c] == 0,
            decreases 26 - k,
        {
            counters.push(0);
            k = k + 1;
        }
        let ghost a = answer@;
        let ghost g = guess@;
        // First pass: mark exact matches, count unmatched answer letters.
        let mut m: Vec<Correctness> = Vec::new();
        let mut i: usize = 0;
        while i < 5
            invariant
                i <= 5,
                wf_word(a),
                wf_word(g),
                a == answer@,
                g == guess@,
                m@.len() == i,
                counters@.len() == 26,
                forall|j: int| 0 <= j < i ==> m@[j] == (if g[j] == a[j] {
                    Correctness::Correct
                } else {
                    Correctness::Wrong
                }),
                forall|c: int| 0 <= c < 26 ==> counters@[c] == spare_count(a, g, (c + 97) as u8, i as int),
            decreases 5 - i,
        {
            let ab = answer.letter(i);
            let gb = guess.letter(i);
            if ab == gb {
                m.push(Correctness::Correct);
            } else {
                m.push(Correctness::Wrong);
                let idx = (ab - 97) as usize;
                proof {
                    lemma_spare_le_n(a, g, ab, i as int);
                }
                let cur = counters[idx];
                counters.set(idx, cur + 1);
            }
            i = i + 1;
        }
        // Second pass: hand out misplaced credit while spares remain.
        let mut i: usize = 0;
        while i < 5
            invariant
                i <= 5,
                wf_word(a),
                wf_word(g),
                a == answer@,
                g == guess@,
                m@.len() == 5,
                counters@.len() == 26,
                forall|j: int| 0 <= j < i ==> m@[j] == mask_at(a, g, j),
                forall|j: int| i <= j < 5 ==> m@[j] == (if g[j] == a[j] {
                    Correctness::Correct
                } else {
                    Correctness::Wrong
                }),
                forall|c: int| 0 <= c < 26 ==> counters@[c] == spare_count(a, g, (c + 97) as u8, 5)
                    - vstd::math::min(
                        claim_count(a, g, (c + 97) as u8, i as int),
                        spare_count(a, g, (c + 97) as u8, 5),
                    ),
            decreases 5 - i,
        {
            let ab = answer.letter(i);
            let gb = guess.letter(i);
            if ab != gb {
                let idx = (gb - 97) as usize;
                if counters[idx] > 0 {
                    m.set(i, Correctness::Misplaced);
                    let cur = counters[idx];
                    counters.set(idx, cur - 1);
                }
            }
            proof {
                let ci = i as int;
                assert(forall|c: int| 0 <= c < 26 ==> #[trigger] claim_count(a, g, (c + 97) as u8, ci + 1)
                    == claim_count(a, g, (c + 97) as u8, ci) + (if g[ci] == (c + 97) as u8 && a[ci] != (c + 97) as u8 {
                        1int
                    } else {
                        0int
                    }));
            }
            i = i + 1;
        }
        proof {
            assert(m@ =~= mask_spec(a, g));
        }
        m
    }
}

/// The radix-3 digit of one feedback tag: Correct is 0, Misplaced is 1,
/// Wrong is 2.
pub open spec fn corr_digit(c: Correctness) -> int {
    match c {
        Correctness::Correct => 0,
        Correctness::Misplaced => 1,
        Correctness::Wrong => 2,
    }
}

/// The feedback tag of one radix-3 digit, inverse to `corr_digit`.
pub open spec fn digit_corr(d: int) -> Correctness {
    if d == 0 {
        Correctness::Correct
    } else if d == 1 {
        Correctness::Misplaced
    } else {
        Correctness::Wrong
    }
}

pub open spec fn pow3(n: int) -> int
    decreases n,
{
    if n <= 0 {
        1
    } else {
        3 * pow3(n - 1)
    }
}

/// The packed code of the first `n` slots of a mask, most significant
/// slot first.
pub open spec fn pack_prefix(m: Seq<Correctness>, n: int) -> int
    decreases n,
{
    if n <= 0 {
        0
    } else {
        pack_prefix(m, n - 1) * 3 + corr_digit(m[n - 1])
    }
}

/// The dense packed code of a five-slot mask: a value in 0..243.
pub open spec fn pack_spec(m: Seq<Correctness>) -> int {
    pack_prefix(m, m.len() as int)
}

pub open spec fn unpack_rec(p: int, n: int) -> Seq<Correctness>
    decreases n,
{
    if n <= 0 {
        Seq::empty()
    } else {
        unpack_rec(p / 3, n - 1).push(digit_corr(p % 3))
    }
}

/// The five-slot mask encoded by a packed code in 0..243.
pub open spec fn unpack_spec(p: int) -> Seq<Correctness> {
    unpack_rec(p, 5)
}

proof fn lemma_pack_prefix_bound(m: Seq<Correctness>, n: int)
    ensures
        0 <= pack_prefix(m, n) < pow3(n),
    decreases n,
{
    if n > 0 {
        lemma_pack_prefix_bound(m, n - 1);
    }
}

proof fn lemma_pack_prefix_congruent(m1: Seq<Correctness>, m2: Seq<Correctness>, n: int)
    requires
        forall|j: int| 0 <= j < n ==> m1[j] == m2[j],
    ensures
        pack_prefix(m1, n) == pack_prefix(m2, n),
    decreases n,
{
    if n > 0 {
        lemma_pack_prefix_congruent(m1, m2, n - 1);
    }
}

/// Packing then unpacking gives every five-slot mask back: the helper
/// works slot count by slot count.
proof fn lemma_unpack_of_pack(m: Seq<Correctness>, n: int)
    requires
        0 <= n <= m.len(),
    ensures
        unpack_rec(pack_prefix(m, n), n) =~= m.subrange(0, n),
    decreases n,
{
    if n > 0 {
        lemma_unpack_of_pack(m, n - 1);
        let p = pack_prefix(m, n);
        let q = pack_prefix(m, n - 1);
        let d = corr_digit(m[n - 1]);
        lemma_pack_prefix_bound(m, n - 1);
        assert(p == q * 3 + d);
        assert(p / 3 == q && p % 3 == d) by (nonlinear_arith)
            requires
                p == q * 3 + d,
                0 <= d < 3,
                q >= 0,
        {}
        assert(digit_corr(d) == m[n - 1]);
        assert(unpack_rec(p, n) =~= m.subrange(0, n));
    }
}

/// Round trip, one direction: `unpack(pack(mask))` is `mask` for every
/// five-slot mask.
pub proof fn lemma_unpack_pack(m: Seq<Correctness>)
    requires
        m.len() == 5,
    ensures
        unpack_spec(pack_spec(m)) == m,
{
    lemma_unpack_of_pack(m, 5);
    assert(m.subrange(0, 5) =~= m);
}

proof fn lemma_pack_of_unpack(p: int, n: int)
    requires
        0 <= n,
        0 <= p < pow3(n),
    ensures
        unpack_rec(p, n).len() == n,
        pack_prefix(unpack_rec(p, n), n) == p,
    decreases n,
{
    if n <= 0 {
        assert(pow3(0) == 1);
    } else {
        assert(0 <= p % 3 < 3 && p / 3 >= 0 && p == (p / 3) * 3 + p % 3) by (nonlinear_arith)
            requires
                p >= 0,
        {}
        assert(p / 3 < pow3(n - 1)) by (nonlinear_arith)
            requires
                0 <= p < 3 * pow3(n - 1),
        {}
        lemma_pack_of_unpack(p / 3, n - 1);
        let u = unpack_rec(p, n);
        let v = unpack_rec(p / 3, n - 1);
        lemma_pack_prefix_congruent(u, v, n - 1);
        assert(corr_digit(digit_corr(p % 3)) == p % 3);
    }
}

/// Round trip, the other direction: `pack(unpack(code))` is `code` for
/// every packed code in 0..243, so the two maps are a bijection on the
/// 243 valid codes.
pub proof fn lemma_pack_unpack(p: int)
    requires
        0 <= p < 243,
    ensures
        pack_spec(unpack_spec(p)) == p,
        unpack_spec(p).len() == 5,
{
    reveal_with_fuel(pow3, 6);
    lemma_pack_of_unpack(p, 5);
}

/// Packed codes stay below 243 for five-slot masks.
pub proof fn lemma_pack_bound(m: Seq<Correctness>)
    requires
        m.len() == 5,
    ensures
        0 <= pack_spec(m) < 243,
{
    reveal_with_fuel(pow3, 6);
    lemma_pack_prefix_bound(m, 5);
}

/// Packs a five-slot mask into its dense radix-3 code.
pub fn pack_mask(m: &Vec<Correctness>) -> (p: u8)
    requires
        m@.len() == 5,
    ensures
        p == pack_spec(m@),
        p < 243,
{
    proof {
        reveal_with_fuel(pow3, 6);
    }
    let mut acc: u8 = 0;
    let mut i: usize = 0;
    while i < 5
        invariant
            i <= 5,
            m@.len() == 5,
            acc == pack_prefix(m@, i as int),
            acc < pow3(i as int),
            pow3(5) == 243,
        decreases 5 - i,
    {
        proof {
            lemma_pack_prefix_bound(m@, i as int);
            lemma_pack_prefix_bound(m@, i + 1);
            assert(pow3(i + 1) <= pow3(5)) by {
                reveal_with_fuel(pow3, 6);
            }
        }
        let d: u8 = match m[i] {
            Correctness::Correct => 0,
            Correctness::Misplaced => 1,
            Correctness::Wrong => 2,
        };
        acc = acc * 3 + d;
        i = i + 1;
    }
    acc
}

/// Unpacks a dense radix-3 code in 0..243 back into its five-slot mask.
pub fn unpack_mask(p: u8) -> (m: Vec<Correctness>)
    requires
        p < 243,
    ensures
        m@ == unpack_spec(p as int),
        m@.len() == 5,
{
    let ghost p0 = p as int;
    let mut m: Vec<Correctness> = Vec::new();
    let mut cur: u8 = p;
    let mut i: usize = 0;
    while i < 5
        invariant
            i <= 5,
            m@.len() == i,
            cur as int >= 0,
            unpack_rec(p0, 5) =~= unpack_rec(cur as int, 5 - i as int) + m@,
        decreases 5 - i,
    {
        let d = cur % 3;
        let tag = if d == 0 {
            Correctness::Correct
        } else if d == 1 {
            Correctness::Misplaced
        } else {
            Correctness::Wrong
        };
        let ghost before = m@;
        m.insert(0, tag);
        proof {
            let c = cur as int;
            assert(unpack_rec(c, 5 - i as int) == unpack_rec(c / 3, 4 - i as int).push(digit_corr(c % 3)));
            assert(tag == digit_corr(c % 3));
            assert(m@ =~= seq![tag] + before);
            assert(unpack_rec(c / 3, 4 - i as int).push(tag) + before =~= unpack_rec(c / 3, 4 - i as int) + m@);
        }
        cur = cur / 3;
        i = i + 1;
    }
    proof {
        assert(unpack_rec(cur as int, 0) + m@ =~= m@);
    }
    m
}

/// Guessing the answer itself earns Correct in every slot.
pub proof fn lemma_self_guess_all_correct(a: Seq<u8>)
    requires
        wf_word(a),
    ensures
        forall|i: int| 0 <= i < 5 ==> mask_spec(a, a)[i] == Correctness::Correct,
{
}

proof fn lemma_spare_zero(a: Seq<u8>, g: Seq<u8>, c: u8, n: int)
    requires
        forall|j: int| 0 <= j < n ==> a[j] != c,
    ensures
        spare_count(a, g, c, n) == 0,
    decreases n,
{
    if n > 0 {
        lemma_spare_zero(a, g, c, n - 1);
    }
}

proof fn lemma_claim_pos(a: Seq<u8>, g: Seq<u8>, i: int)
    requires
        0 <= i,
        g[i] != a[i],
    ensures
        claim_count(a, g, g[i], i + 1) >= 1,
    decreases i,
{
    lemma_claim_le_n(a, g, g[i], i);
}

/// How often letter `c` occurs among the first `n` answer slots.
pub open spec fn letter_count(a: Seq<u8>, c: u8, n: int) -> int
    decreases n,
{
    if n <= 0 {
        0
    } else {
        letter_count(a, c, n - 1) + if a[n - 1] == c {
            1int
        } else {
            0int
        }
    }
}

/// How often letter `c` earns credit (Correct or Misplaced) among the
/// first `n` guess slots.
pub open spec fn credit_count(a: Seq<u8>, g: Seq<u8>, c: u8, n: int) -> int
    decreases n,
{
    if n <= 0 {
        0
    } else {
        credit_count(a, g, c, n - 1) + if g[n - 1] == c && mask_at(a, g, n - 1) != Correctness::Wrong {
            1int
        } else {
            0int
        }
    }
}

spec fn match_count(a: Seq<u8>, g: Seq<u8>, c: u8, n: int) -> int
    decreases n,
{
    if n <= 0 {
        0
    } else {
        match_count(a, g, c, n - 1) + if a[n - 1] == c && g[n - 1] == c {
            1int
        } else {
            0int
        }
    }
}

proof fn lemma_letter_split(a: Seq<u8>, g: Seq<u8>, c: u8, n: int)
    ensures
        letter_count(a, c, n) == match_count(a, g, c, n) + spare_count(a, g, c, n),
    decreases n,
{
    if n > 0 {
        lemma_letter_split(a, g, c, n - 1);
    }
}

proof fn lemma_credit_split(a: Seq<u8>, g: Seq<u8>, c: u8, n: int)
    requires
        n <= 5,
    ensures
        credit_count(a, g, c, n) == match_count(a, g, c, n) + vstd::math::min(
            claim_count(a, g, c, n),
            spare_count(a, g, c, 5),
        ),
    decreases n,
{
    let s5 = spare_count(a, g, c, 5);
    lemma_spare_le_n(a, g, c, 5);
    if n <= 0 {
        assert(vstd::math::min(claim_count(a, g, c, n), s5) == 0);
    } else {
        lemma_credit_split(a, g, c, n - 1);
        lemma_claim_le_n(a, g, c, n - 1);
        let kp = claim_count(a, g, c, n - 1);
        let k = claim_count(a, g, c, n);
        if g[n - 1] == c && a[n - 1] != c {
            assert(k == kp + 1);
            assert(mask_at(a, g, n - 1) != Correctness::Wrong <==> k <= s5);
            if kp < s5 {
                assert(vstd::math::min(k, s5) == vstd::math::min(kp, s5) + 1);
            } else {
                assert(vstd::math::min(k, s5) == vstd::math::min(kp, s5));
            }
        } else {
            assert(k == kp);
            if g[n - 1] == c {
                assert(a[n - 1] == c);
                assert(mask_at(a, g, n - 1) == Correctness::Correct);
            }
        }
    }
}

/// Duplicate letters are never over-credited: a guess letter collects
/// Correct and Misplaced marks at most as often as it occurs in the
/// answer.
pub proof fn lemma_no_over_credit(a: Seq<u8>, g: Seq<u8>, c: u8)
    requires
        wf_word(a),
        wf_word(g),
    ensures
        credit_count(a, g, c, 5) <= letter_count(a, c, 5),
{
    lemma_credit_split(a, g, c, 5);
    lemma_letter_split(a, g, c, 5);
    lemma_claim_le_n(a, g, c, 5);
    lemma_spare_le_n(a, g, c, 5);
}

/// When answer and guess share no letter at all, every slot is Wrong.
pub proof fn lemma_disjoint_all_wrong(a: Seq<u8>, g: Seq<u8>)
    requires
        wf_word(a),
        wf_word(g),
        forall|i: int, j: int| 0 <= i < 5 && 0 <= j < 5 ==> a[i] != g[j],
    ensures
        forall|i: int| 0 <= i < 5 ==> mask_spec(a, g)[i] == Correctness::Wrong,
{
    assert forall|i: int| 0 <= i < 5 implies mask_spec(a, g)[i] == Correctness::Wrong by {
        lemma_spare_zero(a, g, g[i], 5);
        lemma_claim_pos(a, g, i);
    }
}

} // verus!


