//! The control-protocol decisions: event classification, job tracking, job
//! ids, run states, and the session monitor.

use qce_agent_host::SessionVerdict;
use qce_agent_host::monitor_step;
use qce_agent_host::qemu::EventClass;
use qce_agent_host::qemu::JobInfo;
use qce_agent_host::qemu::JobPoll;
use qce_agent_host::qemu::JobStatus;
use qce_agent_host::qemu::QemuError;
use qce_agent_host::qemu::QemuEvent;
use qce_agent_host::qemu::QemuProxy;
use qce_agent_host::qemu::RunState;
use qce_agent_host::qemu::SnapshotAction;
use qce_agent_host::qemu::VMExitMode;
use qce_agent_host::qemu::VMStatus;
use qce_agent_host::qemu::check_guest_reset;
use qce_agent_host::qemu::classify_event;
use qce_agent_host::qemu::abort_reason;
use qce_agent_host::qemu::expect_host_exit;
use qce_agent_host::qemu::expect_resume;
use qce_agent_host::qemu::expect_stop;
use qce_agent_host::qemu::job_poll;
use qce_agent_host::qemu::single_pending_event;

fn job_event(id: &str, status: JobStatus) -> QemuEvent {
    QemuEvent::JobStatusChange { job_id: id.as_bytes().to_vec(), status }
}

#[test]
fn classification_follows_the_table() {
    assert_eq!(classify_event(&QemuEvent::Stop), EventClass::Exit(VMExitMode::Host));
    assert_eq!(classify_event(&QemuEvent::Powerdown), EventClass::Exit(VMExitMode::Host));
    assert_eq!(
        classify_event(&QemuEvent::Shutdown { guest: false }),
        EventClass::Exit(VMExitMode::Host)
    );
    assert_eq!(
        classify_event(&QemuEvent::Shutdown { guest: true }),
        EventClass::Exit(VMExitMode::Hard)
    );
    assert_eq!(
        classify_event(&QemuEvent::Reset { guest: false }),
        EventClass::Exit(VMExitMode::Host)
    );
    assert_eq!(classify_event(&QemuEvent::Reset { guest: true }), EventClass::Exit(VMExitMode::Soft));
    assert_eq!(classify_event(&QemuEvent::GuestPanicked), EventClass::Ignored);
    assert_eq!(classify_event(&QemuEvent::Other), EventClass::Ignored);
    assert_eq!(classify_event(&QemuEvent::MemoryFailure), EventClass::Fatal);
    assert_eq!(classify_event(&QemuEvent::BlockImageCorrupted), EventClass::Fatal);
    assert_eq!(classify_event(&QemuEvent::BlockIoError), EventClass::Fatal);
    assert_eq!(classify_event(&QemuEvent::BlockJobError), EventClass::Fatal);
}

#[test]
fn guest_reset_takes_the_first_decisive_event() {
    assert_eq!(check_guest_reset(&vec![]).unwrap(), None);
    assert_eq!(check_guest_reset(&vec![QemuEvent::GuestPanicked]).unwrap(), None);
    assert_eq!(
        check_guest_reset(&vec![QemuEvent::Other, QemuEvent::Reset { guest: true }]).unwrap(),
        Some(VMExitMode::Soft)
    );
    assert_eq!(
        check_guest_reset(&vec![QemuEvent::Shutdown { guest: true }, QemuEvent::Stop]).unwrap(),
        Some(VMExitMode::Hard)
    );
    assert!(matches!(
        check_guest_reset(&vec![QemuEvent::BlockIoError]),
        Err(QemuError::FatalEvent)
    ));
}

#[test]
fn job_runs_to_a_clean_conclusion() {
    let events = vec![
        job_event("qce_job_0", JobStatus::Running),
        job_event("qce_job_0", JobStatus::Concluded),
    ];
    let id = b"qce_job_0".to_vec();
    assert_eq!(job_poll(&id, &events, false), JobPoll::Concluded { aborted: false });
}

#[test]
fn job_abort_is_remembered_and_reason_found() {
    let events = vec![
        job_event("qce_job_0", JobStatus::Running),
        job_event("qce_job_0", JobStatus::Aborting),
        job_event("qce_job_0", JobStatus::Concluded),
    ];
    let id = b"qce_job_0".to_vec();
    assert_eq!(job_poll(&id, &events, false), JobPoll::Concluded { aborted: true });
    let jobs = vec![JobInfo { id: b"qce_job_0".to_vec(), error: Some(b"no space".to_vec()) }];
    assert_eq!(abort_reason(&id, &jobs), Some(Some(b"no space".to_vec())));
    let silent = vec![JobInfo { id: b"qce_job_0".to_vec(), error: None }];
    assert_eq!(abort_reason(&id, &silent), Some(None));
    let unrelated = vec![JobInfo { id: b"other".to_vec(), error: Some(b"x".to_vec()) }];
    assert_eq!(abort_reason(&id, &unrelated), None);
}

#[test]
fn foreign_job_events_are_ignored() {
    let events = vec![
        job_event("other_job", JobStatus::Paused),
        job_event("qce_job_1", JobStatus::Running),
    ];
    let id = b"qce_job_1".to_vec();
    assert_eq!(job_poll(&id, &events, false), JobPoll::Pending { aborted: false });
}

#[test]
fn disallowed_job_status_fails() {
    let events = vec![job_event("qce_job_0", JobStatus::Paused)];
    let id = b"qce_job_0".to_vec();
    assert_eq!(job_poll(&id, &events, false), JobPoll::Failed { status: JobStatus::Paused });
}

#[test]
fn job_ids_count_up_from_zero() {
    let mut proxy = QemuProxy::new();
    assert_eq!(proxy.next_job_id(), b"qce_job_0".to_vec());
    assert_eq!(proxy.next_job_id(), b"qce_job_1".to_vec());
    assert_eq!(proxy.next_job_id(), b"qce_job_2".to_vec());
}

#[test]
fn snapshot_requests_carry_the_fixed_parameters() {
    let mut proxy = QemuProxy::new();
    let save = proxy.snapshot_save();
    assert_eq!(save.action, SnapshotAction::Save);
    assert_eq!(save.tag, b"qce".to_vec());
    assert_eq!(save.job_id, b"qce_job_0".to_vec());
    assert_eq!(save.vmstate, b"disk0".to_vec());
    assert_eq!(save.devices, vec![b"disk0".to_vec()]);
    let load = proxy.snapshot_load();
    assert_eq!(load.action, SnapshotAction::Load);
    assert_eq!(load.job_id, b"qce_job_1".to_vec());
}

#[test]
fn run_states_are_classified() {
    let proxy = QemuProxy::new();
    assert_eq!(proxy.query_status(RunState::Running).unwrap(), VMStatus::Running);
    assert_eq!(proxy.query_status(RunState::Shutdown).unwrap(), VMStatus::Stopped);
    assert_eq!(proxy.query_status(RunState::GuestPanicked).unwrap(), VMStatus::Stopped);
    assert_eq!(proxy.query_status(RunState::InternalError).unwrap(), VMStatus::Error);
    assert_eq!(proxy.query_status(RunState::IoError).unwrap(), VMStatus::Error);
    assert!(matches!(
        proxy.query_status(RunState::Paused),
        Err(QemuError::UnrecognizedRunState)
    ));
}

#[test]
fn synchronous_commands_take_at_most_one_event() {
    assert!(matches!(single_pending_event(&vec![]), Ok(None)));
    let one = vec![QemuEvent::Stop];
    assert!(matches!(single_pending_event(&one), Ok(Some(QemuEvent::Stop))));
    let two = vec![QemuEvent::Stop, QemuEvent::Resume];
    assert!(matches!(single_pending_event(&two), Err(QemuError::MultipleEvents)));
}

#[test]
fn lifecycle_acknowledgements() {
    assert!(expect_stop(&Some(QemuEvent::Stop)).is_ok());
    assert!(expect_stop(&Some(QemuEvent::Resume)).is_err());
    assert!(expect_stop(&None).is_err());
    assert!(expect_resume(&Some(QemuEvent::Resume)).is_ok());
    assert!(expect_resume(&Some(QemuEvent::Stop)).is_err());
    assert!(expect_host_exit(Some(VMExitMode::Host)).is_ok());
    assert!(expect_host_exit(Some(VMExitMode::Soft)).is_err());
    assert!(expect_host_exit(None).is_err());
}

#[test]
fn monitor_prefers_clean_completion() {
    assert_eq!(monitor_step(true, None), Some(SessionVerdict::Clean));
    assert_eq!(monitor_step(true, Some(VMExitMode::Hard)), Some(SessionVerdict::Clean));
    assert_eq!(
        monitor_step(false, Some(VMExitMode::Soft)),
        Some(SessionVerdict::Terminated(VMExitMode::Soft))
    );
    assert_eq!(monitor_step(false, None), None);
}
