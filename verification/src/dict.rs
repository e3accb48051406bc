//! Parsing of the dictionary resource: one word per line, each exactly
//! five lowercase letters, optionally followed by a space and a decimal
//! frequency weight. Line order gives the frequency rank.

use vstd::prelude::*;
use crate::word::{Word, WordError, wf_word};

verus! {

/// Why the dictionary resource was rejected.
#[derive(Clone, Copy, Debug, PartialEq, Eq, Structural)]
pub enum DictError {
    /// A line's word column is not a legal five-letter word.
    BadWord(WordError),
    /// A line's weight column is empty, non-numeric, or too large.
    BadWeight,
}

/// Every byte of the sequence is a decimal digit.
pub open spec fn all_digits(s: Seq<u8>) -> bool {
    forall|i: int| 0 <= i < s.len() ==> 48 <= #[trigger] s[i] <= 57
}

/// The value of a decimal digit string, most significant digit first.
pub open spec fn dec_value(s: Seq<u8>) -> int
    decreases s.len(),
{
    if s.len() == 0 {
        0
    } else {
        dec_value(s.drop_last()) * 10 + (s.last() - 48)
    }
}

proof fn lemma_dec_nonneg(s: Seq<u8>)
    requires
        all_digits(s),
    ensures
        dec_value(s) >= 0,
    decreases s.len(),
{
    if s.len() > 0 {
        assert(all_digits(s.drop_last()));
        lemma_dec_nonneg(s.drop_last());
    }
}

proof fn lemma_dec_prefix_le(s: Seq<u8>, k: int)
    requires
        all_digits(s),
        0 <= k <= s.len(),
    ensures
        dec_value(s.subrange(0, k)) <= dec_value(s),
    decreases s.len() - k,
{
    if k == s.len() {
        assert(s.subrange(0, k) =~= s);
    } else {
        let a = s.subrange(0, k);
        let b = s.subrange(0, k + 1);
        assert(b.drop_last() =~= a);
        assert(all_digits(a));
        lemma_dec_nonneg(a);
        assert(dec_value(b) == dec_value(a) * 10 + (s[k] - 48));
        assert(dec_value(a) * 10 >= dec_value(a)) by (nonlinear_arith)
            requires
                dec_value(a) >= 0,
        {}
        lemma_dec_prefix_le(s, k + 1);
    }
}

/// The parsed weight column: a non-empty digit string whose value fits
/// an unsigned 64-bit integer.
pub open spec fn parse_weight_spec(s: Seq<u8>) -> Result<u64, DictError> {
    if s.len() > 0 && all_digits(s) && dec_value(s) <= 0xffff_ffff_ffff_ffff {
        Ok(dec_value(s) as u64)
    } else {
        Err(DictError::BadWeight)
    }
}

/// Parses a decimal weight column.
pub fn parse_weight(s: &[u8]) -> (r: Result<u64, DictError>)
    ensures
        r == parse_weight_spec(s@),
{
    if s.len() == 0 {
        return Err(DictError::BadWeight);
    }
    match parse_digits(s) {
        Some(v) => Ok(v),
        None => Err(DictError::BadWeight),
    }
}

/// Parses a digit string into its value; an empty string is 0. `None`
/// on a non-digit byte or a value too large for 64 bits.
pub fn parse_digits(s: &[u8]) -> (r: Option<u64>)
    ensures
        match r {
            Some(v) => all_digits(s@) && dec_value(s@) == v as int,
            None => !all_digits(s@) || dec_value(s@) > 0xffff_ffff_ffff_ffff,
        },
{
    let n = s.len();
    let mut v: u64 = 0;
    let mut i: usize = 0;
    while i < n
        invariant
            i <= n,
            n == s@.len(),
            all_digits(s@.subrange(0, i as int)),
            v == dec_value(s@.subrange(0, i as int)),
        decreases n - i,
    {
        let b = *vstd::slice::slice_index_get(s, i);
        if b < 48 || b > 57 {
            return None;
        }
        let d = (b - 48) as u64;
        proof {
            assert(s@.subrange(0, i + 1).drop_last() =~= s@.subrange(0, i as int));
            assert(all_digits(s@.subrange(0, i + 1)));
        }
        if v > (0xffff_ffff_ffff_ffffu64 - d) / 10 {
            proof {
                let pre = s@.subrange(0, i + 1);
                assert(dec_value(pre) == v * 10 + d);
                assert(v * 10 + d > 0xffff_ffff_ffff_ffff) by (nonlinear_arith)
                    requires
                        v > (0xffff_ffff_ffff_ffffu64 - d) / 10,
                        0 <= d <= 9,
                        v >= 0,
                {}
                if all_digits(s@) {
                    lemma_dec_prefix_le(s@, i + 1);
                }
            }
            return None;
        }
        proof {
            assert(v * 10 + d <= 0xffff_ffff_ffff_ffff) by (nonlinear_arith)
                requires
                    v <= (0xffff_ffff_ffff_ffffu64 - d) / 10,
                    0 <= d <= 9,
                    v >= 0,
            {}
        }
        v = v * 10 + d;
        i = i + 1;
    }
    proof {
        assert(s@.subrange(0, n as int) =~= s@);
        lemma_dec_nonneg(s@);
    }
    Some(v)
}

/// The index of the first space at or after `i`, or the length if none.
pub open spec fn token_end(s: Seq<u8>, i: int) -> int
    decreases s.len() - i,
{
    if i < 0 || i >= s.len() {
        s.len() as int
    } else if s[i] == 32 {
        i
    } else {
        token_end(s, i + 1)
    }
}

/// The parsed form of one dictionary line: the word's letters and its
/// weight, which defaults to 1 when no weight column is present.
pub open spec fn parse_line_spec(line: Seq<u8>) -> Result<(Seq<u8>, u64), DictError> {
    let e = token_end(line, 0);
    let wordpart = line.subrange(0, e);
    if !wf_word(wordpart) {
        Err(DictError::BadWord(if wordpart.len() != 5 {
            WordError::Length
        } else {
            WordError::Charset
        }))
    } else if e >= line.len() {
        Ok((wordpart, 1))
    } else {
        match parse_weight_spec(line.subrange(e + 1, line.len() as int)) {
            Ok(v) => Ok((wordpart, v)),
            Err(er) => Err(er),
        }
    }
}

/// Parses one dictionary line into a word and its weight.
pub fn parse_line(line: &[u8]) -> (r: Result<(Word, u64), DictError>)
    ensures
        match r {
            Ok(p) => parse_line_spec(line@) == Ok::<(Seq<u8>, u64), DictError>((p.0@, p.1)),
            Err(e) => parse_line_spec(line@) == Err::<(Seq<u8>, u64), DictError>(e),
        },
{
    let n = line.len();
    let mut e: usize = 0;
    while e < n && *vstd::slice::slice_index_get(line, e) != 32
        invariant
            e <= n,
            n == line@.len(),
            token_end(line@, 0) == token_end(line@, e as int),
        decreases n - e,
    {
        e = e + 1;
    }
    proof {
        assert(token_end(line@, 0) == e);
    }
    let mut wb: Vec<u8> = Vec::new();
    let mut i: usize = 0;
    while i < e
        invariant
            i <= e,
            e <= n,
            n == line@.len(),
            wb@ == line@.subrange(0, i as int),
        decreases e - i,
    {
        wb.push(*vstd::slice::slice_index_get(line, i));
        proof {
            assert(wb@ =~= line@.subrange(0, i + 1));
        }
        i = i + 1;
    }
    let word = match Word::from_bytes(wb.as_slice()) {
        Ok(w) => w,
        Err(we) => {
            return Err(DictError::BadWord(we));
        },
    };
    if e == n {
        return Ok((word, 1));
    }
    let mut tb: Vec<u8> = Vec::new();
    let mut j: usize = e + 1;
    while j < n
        invariant
            e + 1 <= j <= n,
            n == line@.len(),
            tb@ == line@.subrange(e + 1, j as int),
        decreases n - j,
    {
        tb.push(*vstd::slice::slice_index_get(line, j));
        proof {
            assert(tb@ =~= line@.subrange(e + 1, j + 1));
        }
        j = j + 1;
    }
    match parse_weight(tb.as_slice()) {
        Ok(v) => Ok((word, v)),
        Err(er) => Err(er),
    }
}

/// The index of the first line break at or after `i`, or the length if
/// none.
pub open spec fn line_end(s: Seq<u8>, i: int) -> int
    decreases s.len() - i,
{
    if i < 0 || i >= s.len() {
        s.len() as int
    } else if s[i] == 10 {
        i
    } else {
        line_end(s, i + 1)
    }
}

pub proof fn lemma_line_end_bounds(s: Seq<u8>, i: int)
    requires
        0 <= i <= s.len(),
    ensures
        i <= line_end(s, i) <= s.len(),
    decreases s.len() - i,
{
    if i < s.len() && s[i] != 10 {
        lemma_line_end_bounds(s, i + 1);
    }
}

/// The parsed entries of the resource text from byte `i` on: lines are
/// cut at line breaks, blank lines are skipped, and the first bad line's
/// error wins.
pub open spec fn parse_from(s: Seq<u8>, i: int) -> Result<Seq<(Seq<u8>, u64)>, DictError>
    decreases s.len() - i,
        via parse_from_dec
{
    if i < 0 || i >= s.len() {
        Ok(Seq::empty())
    } else {
        let e = line_end(s, i);
        let line = s.subrange(i, e);
        let j = if e + 1 <= s.len() {
            e + 1
        } else {
            s.len() as int
        };
        if line.len() == 0 {
            parse_from(s, j)
        } else {
            match parse_line_spec(line) {
                Err(er) => Err(er),
                Ok(ent) => match parse_from(s, j) {
                    Err(er) => Err(er),
                    Ok(tail) => Ok(seq![ent] + tail),
                },
            }
        }
    }
}

#[via_fn]
proof fn parse_from_dec(s: Seq<u8>, i: int) {
    if 0 <= i < s.len() {
        lemma_line_end_bounds(s, i);
    }
}

/// The whole parsed dictionary resource.
pub open spec fn dict_spec(s: Seq<u8>) -> Result<Seq<(Seq<u8>, u64)>, DictError> {
    parse_from(s, 0)
}

/// The letter sequences and weights of a list of parsed entries.
pub open spec fn entry_views(s: Seq<(Word, u64)>) -> Seq<(Seq<u8>, u64)> {
    s.map_values(|e: (Word, u64)| (e.0@, e.1))
}

/// Whether some entry of the list carries the word `w`.
pub open spec fn holds_word(s: Seq<(Seq<u8>, u64)>, w: Seq<u8>) -> bool {
    exists|i: int| 0 <= i < s.len() && s[i].0 == w
}

/// The entries with every repeated word collapsed: only the first
/// occurrence, the best-ranked one, is kept.
pub open spec fn dedup_entries(s: Seq<(Seq<u8>, u64)>) -> Seq<(Seq<u8>, u64)>
    decreases s.len(),
{
    if s.len() == 0 {
        Seq::empty()
    } else {
        let p = dedup_entries(s.drop_last());
        if holds_word(p, s.last().0) {
            p
        } else {
            p.push(s.last())
        }
    }
}

/// Collapsed entries carry pairwise distinct words: the dictionary is a
/// set.
pub proof fn lemma_dedup_unique(s: Seq<(Seq<u8>, u64)>)
    ensures
        forall|i: int, j: int| 0 <= i < j < dedup_entries(s).len() ==> (
        #[trigger] dedup_entries(s)[i]).0 != (#[trigger] dedup_entries(s)[j]).0,
    decreases s.len(),
{
    if s.len() > 0 {
        lemma_dedup_unique(s.drop_last());
        let p = dedup_entries(s.drop_last());
        let d = dedup_entries(s);
        if !holds_word(p, s.last().0) {
            assert forall|i: int, j: int| 0 <= i < j < d.len() implies (#[trigger] d[i]).0 != (
            #[trigger] d[j]).0 by {
                if j == d.len() - 1 {
                    assert(d[i] == p[i]);
                    assert(!(0 <= i < p.len() && p[i].0 == s.last().0));
                }
            }
        }
    }
}

/// A word survives collapsing exactly when some original entry carried
/// it: membership in the dictionary is untouched.
pub proof fn lemma_dedup_same_words(s: Seq<(Seq<u8>, u64)>, w: Seq<u8>)
    ensures
        holds_word(dedup_entries(s), w) <==> holds_word(s, w),
    decreases s.len(),
{
    if s.len() > 0 {
        lemma_dedup_same_words(s.drop_last(), w);
        let t = s.drop_last();
        let p = dedup_entries(t);
        let d = dedup_entries(s);
        if holds_word(s, w) {
            let i = choose|i: int| 0 <= i < s.len() && s[i].0 == w;
            if i < s.len() - 1 {
                assert(t[i] == s[i]);
                assert(holds_word(t, w));
                assert(holds_word(p, w));
                if !holds_word(p, s.last().0) {
                    let j = choose|j: int| 0 <= j < p.len() && p[j].0 == w;
                    assert(d[j] == p[j]);
                }
                assert(holds_word(d, w));
            } else {
                assert(s.last().0 == w);
                if holds_word(p, w) {
                    assert(d == p);
                } else {
                    assert(d[d.len() - 1] == s.last());
                }
                assert(holds_word(d, w));
            }
        }
        if holds_word(d, w) {
            let i = choose|i: int| 0 <= i < d.len() && d[i].0 == w;
            if i < p.len() {
                assert(d[i] == p[i]);
                assert(holds_word(p, w));
                assert(holds_word(t, w));
                let k = choose|k: int| 0 <= k < t.len() && t[k].0 == w;
                assert(s[k] == t[k]);
                assert(holds_word(s, w));
            } else {
                assert(d[i] == s.last());
                assert(s[s.len() - 1].0 == w);
                assert(holds_word(s, w));
            }
        }
    }
}

spec fn combine(pre: Seq<(Seq<u8>, u64)>, r: Result<Seq<(Seq<u8>, u64)>, DictError>) -> Result<
    Seq<(Seq<u8>, u64)>,
    DictError,
> {
    match r {
        Ok(tail) => Ok(pre + tail),
        Err(er) => Err(er),
    }
}

/// Parses the whole dictionary resource text into its ranked entries.
pub fn parse_text(text: &[u8]) -> (r: Result<Vec<(Word, u64)>, DictError>)
    ensures
        match r {
            Ok(v) => dict_spec(text@) == Ok::<Seq<(Seq<u8>, u64)>, DictError>(entry_views(v@)),
            Err(e) => dict_spec(text@) == Err::<Seq<(Seq<u8>, u64)>, DictError>(e),
        },
{
    let n = text.len();
    let mut acc: Vec<(Word, u64)> = Vec::new();
    let mut i: usize = 0;
    while i < n
        invariant
            i <= n,
            n == text@.len(),
            dict_spec(text@) == combine(entry_views(acc@), parse_from(text@, i as int)),
        decreases n - i,
    {
        let mut e: usize = i;
        while e < n && *vstd::slice::slice_index_get(text, e) != 10
            invariant
                i <= e <= n,
                n == text@.len(),
                line_end(text@, i as int) == line_end(text@, e as int),
            decreases n - e,
        {
            e = e + 1;
        }
        proof {
            assert(line_end(text@, i as int) == e);
        }
        let mut lb: Vec<u8> = Vec::new();
        let mut k: usize = i;
        while k < e
            invariant
                i <= k <= e,
                e <= n,
                n == text@.len(),
                lb@ == text@.subrange(i as int, k as int),
            decreases e - k,
        {
            lb.push(*vstd::slice::slice_index_get(text, k));
            proof {
                assert(lb@ =~= text@.subrange(i as int, k + 1));
            }
            k = k + 1;
        }
        let ghost tail_i = if e + 1 <= n {
            e + 1
        } else {
            n as int
        };
        if lb.len() > 0 {
            match parse_line(lb.as_slice()) {
                Err(er) => {
                    return Err(er);
                },
                Ok(ent) => {
                    let ghost before = acc@;
                    acc.push(ent);
                    proof {
                        assert(entry_views(acc@) =~= entry_views(before).push((ent.0@, ent.1)));
                        if let Ok(tail) = parse_from(text@, tail_i) {
                            assert(entry_views(before) + (seq![(ent.0@, ent.1)] + tail) =~= entry_views(
                                acc@,
                            ) + tail);
                        }
                    }
                },
            }
        }
        i = if e < n {
            e + 1
        } else {
            n
        };
    }
    proof {
        assert(parse_from(text@, n as int) == Ok::<Seq<(Seq<u8>, u64)>, DictError>(Seq::empty()));
        assert(entry_views(acc@) + Seq::<(Seq<u8>, u64)>::empty() =~= entry_views(acc@));
    }
    Ok(acc)
}

} // verus!
