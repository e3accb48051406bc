//! Building the dictionary's frequency weights from compressed n-gram
//! logs: each record holds a tab-separated word field (cut at the first
//! underscore) and comma-separated columns whose second entry is a
//! decimal occurrence count; counts of five-letter words are summed per
//! dictionary entry, and a word never observed defaults to 1.

use vstd::prelude::*;
use crate::word::{Word, wf_word, is_lower_byte};
use crate::dict::{all_digits, dec_value, line_end, lemma_line_end_bounds, parse_digits};

verus! {

/// Why processing a frequency log failed. Failure is fatal to that
/// file: no partial counts are reported for it.
#[derive(Clone, Copy, Debug, PartialEq, Eq, Structural)]
pub enum CorpusError {
    /// A record of a dictionary word lacks a count column, holds a
    /// non-digit byte in it, or overflows the 64-bit sum.
    BadCount,
    /// The compressed stream could not be decoded.
    BadStream,
}

/// The index of the first occurrence of `sep` at or after `i`, or the
/// length if none.
pub open spec fn sep_end(s: Seq<u8>, i: int, sep: u8) -> int
    decreases s.len() - i,
{
    if i < 0 || i >= s.len() {
        s.len() as int
    } else if s[i] == sep {
        i
    } else {
        sep_end(s, i + 1, sep)
    }
}

pub proof fn lemma_sep_end_bounds(s: Seq<u8>, i: int, sep: u8)
    requires
        0 <= i <= s.len(),
    ensures
        i <= sep_end(s, i, sep) <= s.len(),
    decreases s.len() - i,
{
    if i < s.len() && s[i] != sep {
        lemma_sep_end_bounds(s, i + 1, sep);
    }
}

/// A byte is an ASCII letter of either case.
pub open spec fn is_alpha_byte(b: u8) -> bool {
    (65 <= b <= 90) || (97 <= b <= 122)
}

/// The lowercase form of a byte: uppercase letters are folded, all
/// other bytes kept.
pub open spec fn lower_byte(b: u8) -> u8 {
    if 65 <= b <= 90 {
        (b + 32) as u8
    } else {
        b
    }
}

/// The word a record counts toward, if any: the first tab-separated
/// field, cut at the first underscore, accepted only when exactly five
/// letters, case-folded to lowercase.
pub open spec fn word_of_line_spec(line: Seq<u8>) -> Option<Seq<u8>> {
    let t = sep_end(line, 0, 9);
    let u = sep_end(line.subrange(0, t), 0, 95);
    let stem = line.subrange(0, t).subrange(0, u);
    if stem.len() == 5 && (forall|j: int| 0 <= j < 5 ==> is_alpha_byte(#[trigger] stem[j])) {
        Some(stem.map_values(|b: u8| lower_byte(b)))
    } else {
        None
    }
}

/// Extracts the word a record counts toward, if it has the right shape.
pub fn word_of_line(line: &[u8]) -> (r: Option<Word>)
    ensures
        match r {
            Some(w) => word_of_line_spec(line@) == Some(w@),
            None => word_of_line_spec(line@) is None,
        },
{
    let n = line.len();
    let mut t: usize = 0;
    while t < n && *vstd::slice::slice_index_get(line, t) != 9
        invariant
            t <= n,
            n == line@.len(),
            sep_end(line@, 0, 9) == sep_end(line@, t as int, 9),
        decreases n - t,
    {
        t = t + 1;
    }
    proof {
        assert(sep_end(line@, 0, 9) == t);
    }
    let ghost wordpart = line@.subrange(0, t as int);
    let mut u: usize = 0;
    while u < t && *vstd::slice::slice_index_get(line, u) != 95
        invariant
            u <= t <= n,
            n == line@.len(),
            wordpart == line@.subrange(0, t as int),
            sep_end(wordpart, 0, 95) == sep_end(wordpart, u as int, 95),
        decreases t - u,
    {
        u = u + 1;
    }
    proof {
        assert(sep_end(wordpart, 0, 95) == u);
    }
    let ghost stem = wordpart.subrange(0, u as int);
    if u != 5 {
        return None;
    }
    let mut lowered: Vec<u8> = Vec::new();
    let mut j: usize = 0;
    while j < 5
        invariant
            j <= 5,
            u == 5,
            5 <= t <= n,
            n == line@.len(),
            sep_end(line@, 0, 9) == t,
            sep_end(wordpart, 0, 95) == 5,
            stem == wordpart.subrange(0, 5),
            wordpart == line@.subrange(0, t as int),
            stem.len() == 5,
            lowered@.len() == j,
            forall|k: int| 0 <= k < j ==> is_alpha_byte(#[trigger] stem[k]) && lowered@[k]
                == lower_byte(stem[k]),
        decreases 5 - j,
    {
        let b = *vstd::slice::slice_index_get(line, j);
        proof {
            assert(stem[j as int] == line@[j as int]);
        }
        if !((65 <= b && b <= 90) || (97 <= b && b <= 122)) {
            proof {
                let t2 = sep_end(line@, 0, 9);
                let w2 = line@.subrange(0, t2);
                let u2 = sep_end(w2, 0, 95);
                let s2 = w2.subrange(0, u2);
                assert(w2 == wordpart);
                assert(u2 == 5);
                assert(s2 == stem);
                assert(!is_alpha_byte(s2[j as int]));
            }
            return None;
        }
        let lb = if b >= 65 && b <= 90 {
            b + 32
        } else {
            b
        };
        lowered.push(lb);
        j = j + 1;
    }
    proof {
        assert forall|k: int| 0 <= k < 5 implies is_lower_byte(#[trigger] lowered@[k]) by {
            assert(is_alpha_byte(stem[k]));
            assert(lowered@[k] == lower_byte(stem[k]));
        }
        assert(wf_word(lowered@));
        assert(lowered@ =~= stem.map_values(|b: u8| lower_byte(b)));
    }
    match Word::from_bytes(lowered.as_slice()) {
        Ok(w) => Some(w),
        Err(_) => {
            proof {
                assert(false);
            }
            None
        },
    }
}

/// The count carried by one comma-separated field: the value of its
/// second column, which must be made of digits (an empty column is 0).
/// `None` when the column is missing, malformed or too large.
pub open spec fn field_count_spec(field: Seq<u8>) -> Option<u64> {
    let c1 = sep_end(field, 0, 44);
    if c1 >= field.len() {
        None
    } else {
        let c2 = sep_end(field, c1 + 1, 44);
        let digits = field.subrange(c1 + 1, c2);
        if all_digits(digits) && dec_value(digits) <= 0xffff_ffff_ffff_ffff {
            Some(dec_value(digits) as u64)
        } else {
            None
        }
    }
}

/// Extracts the count column of one field.
pub fn field_count(field: &[u8]) -> (r: Result<u64, CorpusError>)
    ensures
        match r {
            Ok(v) => field_count_spec(field@) == Some(v),
            Err(e) => field_count_spec(field@) is None && e == CorpusError::BadCount,
        },
{
    let n = field.len();
    let mut c1: usize = 0;
    while c1 < n && *vstd::slice::slice_index_get(field, c1) != 44
        invariant
            c1 <= n,
            n == field@.len(),
            sep_end(field@, 0, 44) == sep_end(field@, c1 as int, 44),
        decreases n - c1,
    {
        c1 = c1 + 1;
    }
    proof {
        assert(sep_end(field@, 0, 44) == c1);
    }
    if c1 >= n {
        return Err(CorpusError::BadCount);
    }
    let mut c2: usize = c1 + 1;
    while c2 < n && *vstd::slice::slice_index_get(field, c2) != 44
        invariant
            c1 + 1 <= c2 <= n,
            n == field@.len(),
            sep_end(field@, c1 + 1, 44) == sep_end(field@, c2 as int, 44),
        decreases n - c2,
    {
        c2 = c2 + 1;
    }
    proof {
        assert(sep_end(field@, c1 + 1, 44) == c2);
    }
    let mut digits: Vec<u8> = Vec::new();
    let mut j: usize = c1 + 1;
    while j < c2
        invariant
            c1 + 1 <= j <= c2 <= n,
            n == field@.len(),
            digits@ == field@.subrange(c1 + 1, j as int),
        decreases c2 - j,
    {
        digits.push(*vstd::slice::slice_index_get(field, j));
        proof {
            assert(digits@ =~= field@.subrange(c1 + 1, j + 1));
        }
        j = j + 1;
    }
    match parse_digits(digits.as_slice()) {
        Some(v) => Ok(v),
        None => Err(CorpusError::BadCount),
    }
}

/// The summed counts of the tab-separated fields from byte `i` on;
/// `None` when a field is bad or the sum passes 64 bits.
pub open spec fn count_sum_spec(s: Seq<u8>, i: int) -> Option<u64>
    decreases s.len() - i,
        via count_sum_dec
{
    if i < 0 || i >= s.len() {
        Some(0)
    } else {
        let e = sep_end(s, i, 9);
        let field = s.subrange(i, e);
        let j = if e + 1 <= s.len() {
            e + 1
        } else {
            s.len() as int
        };
        match field_count_spec(field) {
            None => None,
            Some(c) => match count_sum_spec(s, j) {
                None => None,
                Some(rest) => if c + rest <= 0xffff_ffff_ffff_ffff {
                    Some((c + rest) as u64)
                } else {
                    None
                },
            },
        }
    }
}

#[via_fn]
proof fn count_sum_dec(s: Seq<u8>, i: int) {
    if 0 <= i < s.len() {
        lemma_sep_end_bounds(s, i, 9);
    }
}

spec fn add_count(acc: u64, r: Option<u64>) -> Option<u64> {
    match r {
        None => None,
        Some(c) => if acc + c <= 0xffff_ffff_ffff_ffff {
            Some((acc + c) as u64)
        } else {
            None
        },
    }
}

/// Sums the count columns of the fields from byte `start` on.
pub fn count_sum(s: &[u8], start: usize) -> (r: Result<u64, CorpusError>)
    requires
        start <= s@.len(),
    ensures
        match r {
            Ok(v) => count_sum_spec(s@, start as int) == Some(v),
            Err(e) => count_sum_spec(s@, start as int) is None && e == CorpusError::BadCount,
        },
{
    let n = s.len();
    let mut acc: u64 = 0;
    let mut i: usize = start;
    while i < n
        invariant
            start <= i <= n,
            n == s@.len(),
            count_sum_spec(s@, start as int) == add_count(acc, count_sum_spec(s@, i as int)),
        decreases n - i,
    {
        let mut e: usize = i;
        while e < n && *vstd::slice::slice_index_get(s, e) != 9
            invariant
                i <= e <= n,
                n == s@.len(),
                sep_end(s@, i as int, 9) == sep_end(s@, e as int, 9),
            decreases n - e,
        {
            e = e + 1;
        }
        proof {
            assert(sep_end(s@, i as int, 9) == e);
        }
        let mut fb: Vec<u8> = Vec::new();
        let mut k: usize = i;
        while k < e
            invariant
                i <= k <= e <= n,
                n == s@.len(),
                fb@ == s@.subrange(i as int, k as int),
            decreases e - k,
        {
            fb.push(*vstd::slice::slice_index_get(s, k));
            proof {
                assert(fb@ =~= s@.subrange(i as int, k + 1));
            }
            k = k + 1;
        }
        let ghost jn: int = if e + 1 <= n {
            e + 1
        } else {
            n as int
        };
        let c = match field_count(fb.as_slice()) {
            Ok(c) => c,
            Err(er) => {
                return Err(er);
            },
        };
        if acc > 0xffff_ffff_ffff_ffffu64 - c {
            proof {
                if let Some(rest) = count_sum_spec(s@, jn) {
                    assert(count_sum_spec(s@, i as int) == (if c + rest <= 0xffff_ffff_ffff_ffff {
                        Some((c + rest) as u64)
                    } else {
                        None
                    }));
                }
            }
            return Err(CorpusError::BadCount);
        }
        acc = acc + c;
        i = if e < n {
            e + 1
        } else {
            n
        };
    }
    Ok(acc)
}

/// The letters of each word in a list.
pub open spec fn word_views(s: Seq<Word>) -> Seq<Seq<u8>> {
    s.map_values(|w: Word| w@)
}

/// The first position at or after `i` where the list holds `w`, or the
/// length if none.
pub open spec fn first_index(dict: Seq<Seq<u8>>, w: Seq<u8>, i: int) -> int
    decreases dict.len() - i,
{
    if i < 0 || i >= dict.len() {
        dict.len() as int
    } else if dict[i] == w {
        i
    } else {
        first_index(dict, w, i + 1)
    }
}

/// Finds the rank of a word in the base dictionary, or the length when
/// the word is not in it.
pub fn find_word(dict: &Vec<Word>, w: &Word) -> (r: usize)
    ensures
        r == first_index(word_views(dict@), w@, 0),
        r <= dict@.len(),
{
    let ghost dv = word_views(dict@);
    let n = dict.len();
    let mut i: usize = 0;
    while i < n
        invariant
            i <= n,
            n == dict@.len(),
            dv == word_views(dict@),
            first_index(dv, w@, 0) == first_index(dv, w@, i as int),
        decreases n - i,
    {
        proof {
            assert(dv[i as int] == dict@[i as int]@);
        }
        if dict[i].same(w) {
            return i;
        }
        i = i + 1;
    }
    i
}

/// The counts after one record: a shaped word found in the dictionary
/// gets its summed field counts added at its rank; any other record
/// leaves the counts alone. `None` on a bad count or a sum past 64
/// bits.
pub open spec fn apply_line(line: Seq<u8>, dict: Seq<Seq<u8>>, counts: Seq<u64>) -> Option<
    Seq<u64>,
> {
    match word_of_line_spec(line) {
        None => Some(counts),
        Some(w) => {
            let k = first_index(dict, w, 0);
            if k >= dict.len() {
                Some(counts)
            } else {
                let t = sep_end(line, 0, 9);
                let start = if t + 1 <= line.len() {
                    t + 1
                } else {
                    line.len() as int
                };
                match count_sum_spec(line, start) {
                    None => None,
                    Some(c) => if counts[k] + c <= 0xffff_ffff_ffff_ffff {
                        Some(counts.update(k, (counts[k] + c) as u64))
                    } else {
                        None
                    },
                }
            }
        },
    }
}

/// The counts after every record of the log text from byte `i` on.
pub open spec fn tally_from(data: Seq<u8>, i: int, dict: Seq<Seq<u8>>, counts: Seq<u64>) -> Option<
    Seq<u64>,
>
    decreases data.len() - i,
        via tally_from_dec
{
    if i < 0 || i >= data.len() {
        Some(counts)
    } else {
        let e = line_end(data, i);
        let line = data.subrange(i, e);
        let j = if e + 1 <= data.len() {
            e + 1
        } else {
            data.len() as int
        };
        match apply_line(line, dict, counts) {
            None => None,
            Some(c2) => tally_from(data, j, dict, c2),
        }
    }
}

#[via_fn]
proof fn tally_from_dec(data: Seq<u8>, i: int, dict: Seq<Seq<u8>>, counts: Seq<u64>) {
    if 0 <= i < data.len() {
        lemma_line_end_bounds(data, i);
    }
}

/// Adds the counts of every record in one decompressed log to the
/// per-dictionary-word tallies, record by record; fails fast on a bad
/// count, as partial counts must not feed the priors.
pub fn tally_chunk(data: &[u8], dict: &Vec<Word>, counts: &mut Vec<u64>) -> (r: Result<
    (),
    CorpusError,
>)
    requires
        old(counts)@.len() == dict@.len(),
    ensures
        match r {
            Ok(u) => tally_from(data@, 0, word_views(dict@), old(counts)@) == Some(
                final(counts)@,
            ),
            Err(e) => tally_from(data@, 0, word_views(dict@), old(counts)@) is None && e
                == CorpusError::BadCount,
        },
{
    let ghost counts0 = counts@;
    let ghost dv = word_views(dict@);
    let n = data.len();
    let mut i: usize = 0;
    while i < n
        invariant
            i <= n,
            n == data@.len(),
            dv == word_views(dict@),
            counts0 == old(counts)@,
            counts@.len() == dict@.len(),
            tally_from(data@, 0, dv, counts0) == tally_from(data@, i as int, dv, counts@),
        decreases n - i,
    {
        let mut e: usize = i;
        while e < n && *vstd::slice::slice_index_get(data, e) != 10
            invariant
                i <= e <= n,
                n == data@.len(),
                line_end(data@, i as int) == line_end(data@, e as int),
            decreases n - e,
        {
            e = e + 1;
        }
        proof {
            assert(line_end(data@, i as int) == e);
        }
        let mut lb: Vec<u8> = Vec::new();
        let mut k: usize = i;
        while k < e
            invariant
                i <= k <= e <= n,
                n == data@.len(),
                lb@ == data@.subrange(i as int, k as int),
            decreases e - k,
        {
            lb.push(*vstd::slice::slice_index_get(data, k));
            proof {
                assert(lb@ =~= data@.subrange(i as int, k + 1));
            }
            k = k + 1;
        }
        if let Some(w) = word_of_line(lb.as_slice()) {
            let pos = find_word(dict, &w);
            if pos < dict.len() {
                let m = lb.len();
                let mut t: usize = 0;
                while t < m && *vstd::slice::slice_index_get(lb.as_slice(), t) != 9
                    invariant
                        t <= m,
                        m == lb@.len(),
                        sep_end(lb@, 0, 9) == sep_end(lb@, t as int, 9),
                    decreases m - t,
                {
                    t = t + 1;
                }
                proof {
                    assert(sep_end(lb@, 0, 9) == t);
                }
                let start = if t < m {
                    t + 1
                } else {
                    m
                };
                let c = match count_sum(lb.as_slice(), start) {
                    Ok(c) => c,
                    Err(_) => {
                        proof {
                            assert(data@.subrange(i as int, e as int) == lb@);
                            assert(apply_line(lb@, dv, counts@) is None);
                            assert(tally_from(data@, i as int, dv, counts@) is None);
                        }
                        return Err(CorpusError::BadCount);
                    },
                };
                let cur = counts[pos];
                if cur > 0xffff_ffff_ffff_ffffu64 - c {
                    proof {
                        assert(data@.subrange(i as int, e as int) == lb@);
                        assert(apply_line(lb@, dv, counts@) is None);
                        assert(tally_from(data@, i as int, dv, counts@) is None);
                    }
                    return Err(CorpusError::BadCount);
                }
                counts.set(pos, cur + c);
            }
        }
        i = if e < n {
            e + 1
        } else {
            n
        };
    }
    Ok(())
}

/// What gzip decompression yields on a byte stream; the result is a
/// function of the bytes alone.
pub uninterp spec fn gunzip_of(data: Seq<u8>) -> Seq<u8>;

/// Whether a byte stream decodes as gzip at all; like the decoded
/// bytes, this depends on the stream alone.
pub uninterp spec fn gunzip_ok_of(data: Seq<u8>) -> bool;

/// Relies on flate2's GzDecoder with read_to_end: decodes one whole
/// gzip stream in memory; whether it decodes, and to what, depends on
/// the input bytes alone.
#[verifier::external_body]
fn gunzip(data: &[u8]) -> (r: Result<Vec<u8>, CorpusError>)
    ensures
        (r is Ok) <==> gunzip_ok_of(data@),
        match r {
            Ok(v) => v@ == gunzip_of(data@),
            Err(e) => e == CorpusError::BadStream,
        },
{
    let mut out: Vec<u8> = Vec::new();
    let mut dec = flate2::bufread::GzDecoder::new(data);
    match std::io::Read::read_to_end(&mut dec, &mut out) {
        Ok(_) => Ok(out),
        Err(_) => Err(CorpusError::BadStream),
    }
}

/// Decompresses one gzip-compressed frequency log and adds its counts
/// to the per-dictionary-word tallies. A stream that does not decode
/// is reported as such, and only such a stream is; the tallies are then
/// untouched. A decoded log succeeds exactly when every record of it is
/// well counted; on a bad count the tallies must be discarded by the
/// caller.
pub fn ingest_log(gz: &[u8], dict: &Vec<Word>, counts: &mut Vec<u64>) -> (r: Result<
    (),
    CorpusError,
>)
    requires
        old(counts)@.len() == dict@.len(),
    ensures
        (r == Err::<(), CorpusError>(CorpusError::BadStream)) <==> !gunzip_ok_of(gz@),
        !gunzip_ok_of(gz@) ==> final(counts)@ == old(counts)@,
        gunzip_ok_of(gz@) ==> match r {
            Ok(u) => tally_from(gunzip_of(gz@), 0, word_views(dict@), old(counts)@) == Some(
                final(counts)@,
            ),
            Err(e) => e == CorpusError::BadCount && tally_from(
                gunzip_of(gz@),
                0,
                word_views(dict@),
                old(counts)@,
            ) is None,
        },
{
    let data = match gunzip(gz) {
        Ok(d) => d,
        Err(e) => {
            return Err(e);
        },
    };
    tally_chunk(data.as_slice(), dict, counts)
}

/// The reported weight column: a word never observed defaults to 1.
pub fn default_counts(counts: &Vec<u64>) -> (r: Vec<u64>)
    ensures
        r@.len() == counts@.len(),
        forall|i: int| 0 <= i < counts@.len() ==> r@[i] == (if counts@[i] == 0 {
            1u64
        } else {
            counts@[i]
        }),
{
    let mut r: Vec<u64> = Vec::new();
    let mut i: usize = 0;
    while i < counts.len()
        invariant
            i <= counts@.len(),
            r@.len() == i,
            forall|j: int| 0 <= j < i ==> r@[j] == (if counts@[j] == 0 {
                1u64
            } else {
                counts@[j]
            }),
        decreases counts@.len() - i,
    {
        let c = counts[i];
        r.push(if c == 0 {
            1
        } else {
            c
        });
        i = i + 1;
    }
    r
}

} // verus!
