//! The shared-memory transport model: initialization, payload packing, and
//! the completion protocol.

use qce_agent_host::vmio::Vmio;

#[test]
fn init_arms_the_latches() {
    let mut v = Vmio::new(64);
    v.init();
    // the host latch is armed, so a poll does not release
    assert!(!v.wait_on_host());
    // nothing is completed and nothing signals success
    assert!(!v.check_completion());
    assert!(!v.check_success());
    // the payload is empty
    assert_eq!(v.recv_data(), Vec::<u8>::new());
}

#[test]
fn guest_release_opens_the_host_latch() {
    let mut v = Vmio::new(64);
    v.init();
    assert!(!v.wait_on_host());
    v.guest_release_host();
    assert!(v.wait_on_host());
}

#[test]
fn fuzz_input_round_trips() {
    let mut v = Vmio::new(64);
    v.init();
    let input = vec![0xDE, 0xAD, 0xBE, 0xEF];
    v.send_fuzz_input(&input, 4);
    assert_eq!(v.recv_data(), input);
}

#[test]
fn coverage_samples_round_trip() {
    let mut v = Vmio::new(64);
    v.init();
    let samples = vec![0x1u64, 0x2, 0x3];
    v.send_kcov_info(&samples);
    assert_eq!(v.get_kcov_info(), samples);
    assert_eq!(v.recv_data().len(), 24);
}

#[test]
fn short_payload_tail_is_dropped() {
    let mut v = Vmio::new(64);
    v.init();
    let mut blob = 0x0807060504030201u64.to_le_bytes().to_vec();
    blob.extend_from_slice(&[0xAA, 0xBB, 0xCC]);
    v.prepare_blob(&blob);
    assert_eq!(v.get_kcov_info(), vec![0x0807060504030201u64]);
}

#[test]
fn completion_is_consumed_exactly_once() {
    let mut v = Vmio::new(64);
    v.init();
    v.guest_complete();
    assert!(v.check_completion());
    assert!(!v.check_completion());
}

#[test]
fn success_probe_reads_the_guest_latch() {
    let mut v = Vmio::new(64);
    v.init();
    assert!(!v.check_success());
    v.guest_signal_success();
    assert!(v.check_success());
}
