use std::io::Write;

use wordle_core::Word;
use wordle_core::corpus::CorpusError;
use wordle_core::corpus::default_counts;
use wordle_core::corpus::field_count;
use wordle_core::corpus::find_word;
use wordle_core::corpus::ingest_log;
use wordle_core::corpus::tally_chunk;
use wordle_core::corpus::word_of_line;

fn w(s: &str) -> Word {
    Word::new(s).unwrap()
}

fn gzip(data: &[u8]) -> Vec<u8> {
    let mut enc = flate2::write::GzEncoder::new(Vec::new(), flate2::Compression::default());
    enc.write_all(data).unwrap();
    enc.finish().unwrap()
}

#[test]
fn record_word_is_cut_folded_and_checked() {
    assert_eq!(word_of_line(b"hello\t2019,5,3").unwrap().to_bytes(), b"hello".to_vec());
    assert_eq!(word_of_line(b"hello_NOUN\t2019,5,3").unwrap().to_bytes(), b"hello".to_vec());
    assert_eq!(word_of_line(b"HeLLo\t2019,5,3").unwrap().to_bytes(), b"hello".to_vec());
    assert!(word_of_line(b"hi\t2019,5,3").is_none());
    assert!(word_of_line(b"toolong\t2019,5,3").is_none());
    assert!(word_of_line(b"hell0\t2019,5,3").is_none());
    assert!(word_of_line(b"").is_none());
}

#[test]
fn field_count_reads_second_column() {
    assert_eq!(field_count(b"2019,42,3").unwrap(), 42);
    assert_eq!(field_count(b"2019,,3").unwrap(), 0);
    assert_eq!(field_count(b"2019").unwrap_err(), CorpusError::BadCount);
    assert_eq!(field_count(b"2019,4x,3").unwrap_err(), CorpusError::BadCount);
}

#[test]
fn tally_sums_counts_per_dictionary_word() {
    let dict = vec![w("hello"), w("world")];
    let mut counts = vec![0u64, 0u64];
    let log = b"hello\t2019,42,3\t2020,8,2\nHELLO_NOUN\t1999,9,1\nworld\t2000,7,7\nhi\t1,2,3\nzzzzz\t1,4,1\n";
    tally_chunk(log, &dict, &mut counts).unwrap();
    assert_eq!(counts, vec![59, 7]);
}

#[test]
fn tally_aborts_on_bad_count_of_dictionary_word() {
    let dict = vec![w("hello")];
    let mut counts = vec![0u64];
    assert_eq!(
        tally_chunk(b"hello\t2019,bad,3\n", &dict, &mut counts).unwrap_err(),
        CorpusError::BadCount
    );
    // A malformed count on a word outside the dictionary is never read.
    let mut counts = vec![0u64];
    tally_chunk(b"zzzzz\t2019,bad,3\n", &dict, &mut counts).unwrap();
    assert_eq!(counts, vec![0]);
}

#[test]
fn ingest_decompresses_and_tallies() {
    let dict = vec![w("hello"), w("world")];
    let mut counts = vec![0u64, 0u64];
    let gz = gzip(b"hello\t2019,42,3\nworld\t2000,7,7\nhello\t1,8,1\n");
    ingest_log(&gz, &dict, &mut counts).unwrap();
    assert_eq!(counts, vec![50, 7]);
}

#[test]
fn ingest_refuses_a_broken_stream() {
    let dict = vec![w("hello")];
    let mut counts = vec![3u64];
    assert_eq!(
        ingest_log(b"this is not a gzip stream", &dict, &mut counts).unwrap_err(),
        CorpusError::BadStream
    );
    assert_eq!(counts, vec![3]);
}

#[test]
fn unseen_words_default_to_one() {
    let counts = vec![50u64, 0u64, 7u64];
    assert_eq!(default_counts(&counts), vec![50, 1, 7]);
}

#[test]
fn find_word_gives_first_rank() {
    let dict = vec![w("hello"), w("world"), w("hello")];
    assert_eq!(find_word(&dict, &w("hello")), 0);
    assert_eq!(find_word(&dict, &w("world")), 1);
    assert_eq!(find_word(&dict, &w("cigar")), 3);
}
