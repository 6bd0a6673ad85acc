//! Coverage merging, the step-hash keys, and the on-disk database codec.

use std::hash::Hasher;

use qce_agent_host::bytes::decode_words;
use qce_agent_host::bytes::encode_words;
use qce_agent_host::cov::CovDb;
use qce_agent_host::fuzz::Fuzzer;

fn names(list: &[&str]) -> Vec<Vec<u8>> {
    list.iter().map(|s| s.as_bytes().to_vec()).collect()
}

fn le_bytes(words: &[u64]) -> Vec<u8> {
    let mut out = Vec::new();
    for w in words {
        out.extend_from_slice(&w.to_le_bytes());
    }
    out
}

fn step_hash(words: &[u64]) -> u64 {
    let mut h = twox_hash::XxHash64::with_seed(1);
    for w in words {
        h.write(&w.to_le_bytes());
    }
    h.finish()
}

#[test]
fn merge_files_each_prefix_under_its_step_hash() {
    let (mut f, _) = Fuzzer::new(&names(&[]), &names(&["0"]), &None).unwrap();
    let out = f.process_session_result(&le_bytes(&[0x1, 0x2, 0x3]), 0).unwrap();
    assert_eq!(out.cov_hash, step_hash(&[0x1, 0x2, 0x3]));
    let db = f.coverage();
    assert_eq!(db.num_levels(), 3);
    assert!(db.contains_trace(step_hash(&[0x1]), &vec![0x1]));
    assert!(db.contains_trace(step_hash(&[0x1, 0x2]), &vec![0x1, 0x2]));
    assert!(db.contains_trace(step_hash(&[0x1, 0x2, 0x3]), &vec![0x1, 0x2, 0x3]));
    // nothing under a foreign key, and nothing but the three prefixes
    assert!(!db.contains_trace(step_hash(&[0x2]), &vec![0x2]));
    assert!(!db.contains_trace(step_hash(&[0x1]).wrapping_add(1), &vec![0x1]));
    let file = out.cov_file.expect("a nonempty stream updates the coverage file");
    let reloaded = CovDb::from_bytes(&file).expect("the saved database loads back");
    assert!(reloaded.contains_trace(step_hash(&[0x1, 0x2]), &vec![0x1, 0x2]));
}

#[test]
fn empty_stream_leaves_database_untouched() {
    let (mut f, _) = Fuzzer::new(&names(&[]), &names(&["0"]), &None).unwrap();
    let out = f.process_session_result(&Vec::new(), 0).unwrap();
    // the digest of the empty stream under the guest seed
    assert_eq!(out.cov_hash, step_hash(&[]));
    assert_eq!(out.cov_hash, 0xD5AFBA1336A3BE4B);
    assert!(out.cov_file.is_none());
    assert_eq!(f.coverage().num_levels(), 0);
}

#[test]
fn duplicate_traces_are_stored_once() {
    let (mut f, _) = Fuzzer::new(&names(&[]), &names(&["0"]), &None).unwrap();
    f.process_session_result(&le_bytes(&[7, 8]), 0).unwrap();
    let first = f.coverage().to_bytes();
    f.next_session();
    let out = f.process_session_result(&le_bytes(&[7, 8]), 0).unwrap();
    assert_eq!(out.cov_file.unwrap(), first);
}

#[test]
fn save_then_load_is_bit_identical() {
    let mut db = CovDb::new();
    db.insert(step_hash(&[5]), vec![5]);
    db.insert(step_hash(&[5, 6]), vec![5, 6]);
    db.insert(step_hash(&[9]), vec![9]);
    db.insert(step_hash(&[5, 7]), vec![5, 7]);
    let saved = db.to_bytes();
    let loaded = CovDb::from_bytes(&saved).expect("a saved database loads back");
    assert_eq!(loaded.to_bytes(), saved);
    assert!(loaded.contains_trace(step_hash(&[5, 7]), &vec![5, 7]));
    assert!(loaded.contains_trace(step_hash(&[9]), &vec![9]));
    assert!(!loaded.contains_trace(step_hash(&[6]), &vec![6]));
}

#[test]
fn empty_database_round_trips() {
    let db = CovDb::new();
    let saved = db.to_bytes();
    assert_eq!(saved, le_bytes(&[0]));
    let loaded = CovDb::from_bytes(&saved).unwrap();
    assert_eq!(loaded.num_levels(), 0);
}

#[test]
fn database_file_layout_is_the_packed_words() {
    let mut db = CovDb::new();
    db.insert(0x1111, vec![0xAA]);
    let saved = db.to_bytes();
    // numLengths, numHashes, hash, numTraces, the one sample
    assert_eq!(saved, le_bytes(&[1, 1, 0x1111, 1, 0xAA]));
}

#[test]
fn malformed_database_files_are_refused() {
    // not a whole number of words
    assert!(CovDb::from_bytes(&vec![0u8; 9]).is_none());
    // trailing words beyond the consumed prefix
    assert!(CovDb::from_bytes(&le_bytes(&[0, 7])).is_none());
    // counts pointing past the end
    assert!(CovDb::from_bytes(&le_bytes(&[2, 1])).is_none());
    // unsorted hashes within a level
    assert!(CovDb::from_bytes(&le_bytes(&[1, 2, 0x9, 1, 0x1, 0x8, 1, 0x2])).is_none());
    // duplicate traces within a bucket
    assert!(CovDb::from_bytes(&le_bytes(&[1, 1, 0x9, 2, 0x1, 0x1])).is_none());
}

#[test]
fn word_codec_round_trips_and_truncates() {
    let ws = vec![0x0102030405060708u64, 0xFFEEDDCCBBAA9988u64];
    let bs = encode_words(&ws);
    assert_eq!(bs[0..8], [0x08, 0x07, 0x06, 0x05, 0x04, 0x03, 0x02, 0x01]);
    assert_eq!(decode_words(&bs), ws);
    let mut short = bs.clone();
    short.extend_from_slice(&[0x01, 0x02, 0x03]);
    // a tail of fewer than 8 bytes is dropped
    assert_eq!(decode_words(&short), ws);
}
