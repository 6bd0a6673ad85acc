//! Corpus bookkeeping: bootstrap, seed advancement, discovery, and the
//! corpus-structure errors.

use qce_agent_host::fuzz::CorpusError;
use qce_agent_host::fuzz::Fuzzer;
use qce_agent_host::fuzz::bootstrap_seed;
use qce_agent_host::fuzz::parse_seed_name;

fn names(list: &[&str]) -> Vec<Vec<u8>> {
    list.iter().map(|s| s.as_bytes().to_vec()).collect()
}

#[test]
fn bootstrap_empty_corpus() {
    let (f, bootstrap) = Fuzzer::new(&names(&[]), &names(&[]), &None).unwrap();
    assert!(bootstrap);
    assert_eq!(f.current_seed_id(), 0);
    assert_eq!(f.seed_counter(), 1);
    assert!(f.has_pending_seeds());
    assert_eq!(bootstrap_seed(), b"X".to_vec());
}

#[test]
fn seed_advancement_retires_current_seed() {
    let (mut f, bootstrap) = Fuzzer::new(&names(&[]), &names(&["0"]), &None).unwrap();
    assert!(!bootstrap);
    assert_eq!(f.current_seed_id(), 0);
    let out = f.process_session_result(&Vec::new(), 0).unwrap();
    assert_eq!(out.retired_id, 0);
    assert_eq!(out.new_seeds, 0);
    assert!(out.cov_file.is_none());
    assert!(!f.has_pending_seeds());
}

#[test]
fn seed_discovery_enqueues_new_ids() {
    let (mut f, _) = Fuzzer::new(&names(&[]), &names(&["0"]), &None).unwrap();
    let out = f.process_session_result(&Vec::new(), 2).unwrap();
    assert_eq!(out.retired_id, 0);
    assert_eq!(out.first_new_id, 1);
    assert_eq!(out.new_seeds, 2);
    assert_eq!(f.seed_counter(), 3);
    assert_eq!(f.current_seed_id(), 1);
    assert!(f.has_pending_seeds());
}

#[test]
fn existing_corpus_is_validated() {
    let (f, bootstrap) = Fuzzer::new(&names(&["0", "1"]), &names(&["2", "3"]), &None).unwrap();
    assert!(!bootstrap);
    assert_eq!(f.current_seed_id(), 2);
    assert_eq!(f.seed_counter(), 4);
    assert!(f.has_pending_seeds());
}

#[test]
fn unordered_listing_is_accepted() {
    let (f, _) = Fuzzer::new(&names(&["1", "0"]), &names(&["3", "2"]), &None).unwrap();
    assert_eq!(f.current_seed_id(), 2);
    assert_eq!(f.seed_counter(), 4);
}

#[test]
fn overlapping_seeds_are_fatal() {
    let r = Fuzzer::new(&names(&["0"]), &names(&["0"]), &None);
    assert_eq!(r.err().unwrap(), CorpusError::OverlappingSeeds);
}

#[test]
fn gap_in_tried_is_fatal() {
    let r = Fuzzer::new(&names(&["1"]), &names(&[]), &None);
    assert_eq!(r.err().unwrap(), CorpusError::MissingTriedSeed);
}

#[test]
fn gap_in_queue_is_fatal() {
    let r = Fuzzer::new(&names(&[]), &names(&["1"]), &None);
    assert_eq!(r.err().unwrap(), CorpusError::MissingQueueSeed);
}

#[test]
fn non_decimal_name_is_fatal() {
    let r = Fuzzer::new(&names(&["seed"]), &names(&[]), &None);
    assert_eq!(r.err().unwrap(), CorpusError::InvalidSeedName);
}

#[test]
fn truncated_coverage_file_is_fatal() {
    let r = Fuzzer::new(&names(&[]), &names(&["0"]), &Some(vec![1, 2, 3]));
    assert_eq!(r.err().unwrap(), CorpusError::InvalidCoverageFile);
}

#[test]
fn odd_coverage_stream_is_fatal() {
    let (mut f, _) = Fuzzer::new(&names(&[]), &names(&["0"]), &None).unwrap();
    let r = f.process_session_result(&vec![0u8; 13], 0);
    assert_eq!(r.err().unwrap(), CorpusError::InvalidCoverageLength);
    assert!(f.has_pending_seeds());
    assert_eq!(f.current_seed_id(), 0);
}

#[test]
fn retire_without_merge_advances_cursor() {
    let (mut f, _) = Fuzzer::new(&names(&[]), &names(&["0", "1"]), &None).unwrap();
    let id = f.retire_current_seed();
    assert_eq!(id, 0);
    assert_eq!(f.current_seed_id(), 1);
    assert!(f.has_pending_seeds());
}

#[test]
fn next_session_counts_up() {
    let (mut f, _) = Fuzzer::new(&names(&[]), &names(&["0"]), &None).unwrap();
    assert_eq!(f.session_counter(), 0);
    f.next_session();
    assert_eq!(f.session_counter(), 1);
}

#[test]
fn seed_names_parse_as_decimal_ids() {
    assert_eq!(parse_seed_name(&b"0".to_vec()), Some(0));
    assert_eq!(parse_seed_name(&b"42".to_vec()), Some(42));
    assert_eq!(parse_seed_name(&b"007".to_vec()), Some(7));
    assert_eq!(parse_seed_name(&b"".to_vec()), None);
    assert_eq!(parse_seed_name(&b"4x2".to_vec()), None);
    assert_eq!(parse_seed_name(&b"99999999999999999999999999".to_vec()), None);
}
