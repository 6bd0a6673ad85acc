//! Decision logic of the hypervisor control protocol.
//!
//! The control socket itself is plain I/O and lives outside the library; the
//! unverified rim connects, hands every command request over the wire, and
//! feeds the drained events back in as values of the model types here. What
//! is verified is every decision the protocol takes: how incoming events are
//! classified, how an asynchronous snapshot job is tracked to its
//! conclusion, how job ids are minted, and how run states are judged.

use vstd::prelude::*;

verus! {

/// Why a control-plane exchange failed.
#[derive(Debug, PartialEq, Eq)]
pub enum QemuError {
    /// A synchronous command saw an event other than the one it expected.
    UnexpectedEvent,
    /// A synchronous command saw more than one event.
    MultipleEvents,
    /// A run-state query returned a state the protocol does not classify.
    UnrecognizedRunState,
    /// An event that signals unrecoverable damage: a memory failure or a
    /// block-device error.
    FatalEvent,
}

/// The status values an asynchronous job moves through.
#[derive(Clone, Copy, Debug, PartialEq, Eq, Structural)]
pub enum JobStatus {
    Created,
    Ready,
    Running,
    Waiting,
    Pending,
    Aborting,
    Concluded,
    Standby,
    Null,
    Undefined,
    Paused,
}

/// The asynchronous events of the control protocol that the coordinator
/// reacts to; everything else is `Other`.
#[derive(Debug, PartialEq, Eq, Clone)]
pub enum QemuEvent {
    Stop,
    Resume,
    Powerdown,
    Shutdown { guest: bool },
    Reset { guest: bool },
    GuestPanicked,
    MemoryFailure,
    BlockImageCorrupted,
    BlockIoError,
    BlockJobError,
    JobStatusChange { job_id: Vec<u8>, status: JobStatus },
    Other,
}

/// How a session ended, as the guest lifecycle events tell it: a
/// guest-initiated reset, a guest-initiated shutdown, or a host-initiated
/// stop.
#[derive(Clone, Copy, Debug, PartialEq, Eq, Structural)]
pub enum VMExitMode {
    Soft,
    Hard,
    Host,
}

/// What one event means for the running guest.
#[derive(Clone, Copy, Debug, PartialEq, Eq, Structural)]
pub enum EventClass {
    Exit(VMExitMode),
    Ignored,
    Fatal,
}

/// The classification table: STOP and POWERDOWN are host-initiated ends;
/// SHUTDOWN and RESET end the session on the side that initiated them;
/// memory and block failures are fatal; everything else, a guest panic
/// included, is informational.
pub open spec fn spec_classify(e: QemuEvent) -> EventClass {
    match e {
        QemuEvent::Stop => EventClass::Exit(VMExitMode::Host),
        QemuEvent::Powerdown => EventClass::Exit(VMExitMode::Host),
        QemuEvent::Shutdown { guest } => if guest {
            EventClass::Exit(VMExitMode::Hard)
        } else {
            EventClass::Exit(VMExitMode::Host)
        },
        QemuEvent::Reset { guest } => if guest {
            EventClass::Exit(VMExitMode::Soft)
        } else {
            EventClass::Exit(VMExitMode::Host)
        },
        QemuEvent::MemoryFailure => EventClass::Fatal,
        QemuEvent::BlockImageCorrupted => EventClass::Fatal,
        QemuEvent::BlockIoError => EventClass::Fatal,
        QemuEvent::BlockJobError => EventClass::Fatal,
        _ => EventClass::Ignored,
    }
}

/// Classifies one event per the table.
pub fn classify_event(e: &QemuEvent) -> (c: EventClass)
    ensures
        c == spec_classify(*e),
{
    match e {
        QemuEvent::Stop => EventClass::Exit(VMExitMode::Host),
        QemuEvent::Powerdown => EventClass::Exit(VMExitMode::Host),
        QemuEvent::Shutdown { guest } => if *guest {
            EventClass::Exit(VMExitMode::Hard)
        } else {
            EventClass::Exit(VMExitMode::Host)
        },
        QemuEvent::Reset { guest } => if *guest {
            EventClass::Exit(VMExitMode::Soft)
        } else {
            EventClass::Exit(VMExitMode::Host)
        },
        QemuEvent::MemoryFailure => EventClass::Fatal,
        QemuEvent::BlockImageCorrupted => EventClass::Fatal,
        QemuEvent::BlockIoError => EventClass::Fatal,
        QemuEvent::BlockJobError => EventClass::Fatal,
        _ => EventClass::Ignored,
    }
}

/// The first decisive event of a drained batch: the classification of the
/// first event that is an exit or a fatality, or nothing if the batch holds
/// neither.
pub open spec fn spec_guest_reset(evs: Seq<QemuEvent>) -> Result<Option<VMExitMode>, ()>
    decreases evs.len(),
{
    if evs.len() == 0 {
        Ok(None)
    } else {
        match spec_classify(evs[0]) {
            EventClass::Exit(m) => Ok(Some(m)),
            EventClass::Fatal => Err(()),
            EventClass::Ignored => spec_guest_reset(evs.drop_first()),
        }
    }
}

/// Walks a batch of drained events and reports how the guest ended, if it
/// did: the non-blocking probe for a guest reset. The blocking variant is
/// its caller draining and probing again until something decisive arrives.
pub fn check_guest_reset(events: &Vec<QemuEvent>) -> (r: Result<Option<VMExitMode>, QemuError>)
    ensures
        match r {
            Ok(m) => spec_guest_reset(events@) == Ok::<Option<VMExitMode>, ()>(m),
            Err(e) => spec_guest_reset(events@) == Err::<Option<VMExitMode>, ()>(()) && e matches
                QemuError::FatalEvent,
        },
{
    let ghost whole = events@;
    let mut i: usize = 0;
    proof {
        assert(whole.skip(0) =~= whole);
    }
    while i < events.len()
        invariant
            i <= events@.len(),
            whole == events@,
            spec_guest_reset(whole) == spec_guest_reset(events@.skip(i as int)),
        decreases events@.len() - i,
    {
        proof {
            assert(events@.skip(i as int)[0] == events@[i as int]);
            assert(events@.skip(i as int).drop_first() =~= events@.skip(i + 1));
        }
        match classify_event(&events[i]) {
            EventClass::Exit(m) => {
                return Ok(Some(m));
            },
            EventClass::Fatal => {
                return Err(QemuError::FatalEvent);
            },
            EventClass::Ignored => {},
        }
        i = i + 1;
    }
    proof {
        assert(events@.skip(events@.len() as int).len() == 0);
    }
    Ok(None)
}

/// Where the tracking of one asynchronous job stands after a batch of
/// events.
#[derive(Clone, Copy, Debug, PartialEq, Eq, Structural)]
pub enum JobPoll {
    /// Nothing decisive yet; keep draining. Carries whether an abort has
    /// been seen.
    Pending { aborted: bool },
    /// The job concluded; if it aborted on the way, the job registry must be
    /// asked for the reason.
    Concluded { aborted: bool },
    /// The job entered a status the protocol does not allow.
    Failed { status: JobStatus },
}

/// Tracks one job through a batch of events: stable statuses keep waiting,
/// an abort is remembered, conclusion ends the loop, and a standby, null,
/// undefined or paused status is an error. Events for other jobs and
/// non-job events are ignored.
pub open spec fn spec_job_poll(job_id: Seq<u8>, evs: Seq<QemuEvent>, aborted: bool) -> JobPoll
    decreases evs.len(),
{
    if evs.len() == 0 {
        JobPoll::Pending { aborted }
    } else {
        match evs[0] {
            QemuEvent::JobStatusChange { job_id: id, status } => {
                if id@ == job_id {
                    match status {
                        JobStatus::Created => spec_job_poll(job_id, evs.drop_first(), aborted),
                        JobStatus::Ready => spec_job_poll(job_id, evs.drop_first(), aborted),
                        JobStatus::Running => spec_job_poll(job_id, evs.drop_first(), aborted),
                        JobStatus::Waiting => spec_job_poll(job_id, evs.drop_first(), aborted),
                        JobStatus::Pending => spec_job_poll(job_id, evs.drop_first(), aborted),
                        JobStatus::Aborting => spec_job_poll(job_id, evs.drop_first(), true),
                        JobStatus::Concluded => JobPoll::Concluded { aborted },
                        _ => JobPoll::Failed { status },
                    }
                } else {
                    spec_job_poll(job_id, evs.drop_first(), aborted)
                }
            },
            _ => spec_job_poll(job_id, evs.drop_first(), aborted),
        }
    }
}

/// Compares two byte strings.
fn bytes_eq(a: &Vec<u8>, b: &Vec<u8>) -> (r: bool)
    ensures
        r == (a@ == b@),
{
    if a.len() != b.len() {
        proof {
            assert(a@ != b@);
        }
        return false;
    }
    let mut i: usize = 0;
    while i < a.len()
        invariant
            i <= a@.len(),
            a@.len() == b@.len(),
            forall|j: int| 0 <= j < i ==> a@[j] == b@[j],
        decreases a@.len() - i,
    {
        if a[i] != b[i] {
            proof {
                assert(a@[i as int] != b@[i as int]);
            }
            return false;
        }
        i = i + 1;
    }
    proof {
        assert(a@ =~= b@);
    }
    true
}

/// Advances the tracking of job `job_id` over one drained batch.
pub fn job_poll(job_id: &Vec<u8>, events: &Vec<QemuEvent>, aborted: bool) -> (r: JobPoll)
    ensures
        r == spec_job_poll(job_id@, events@, aborted),
{
    let ghost whole = events@;
    let mut ab = aborted;
    let mut i: usize = 0;
    proof {
        assert(whole.skip(0) =~= whole);
    }
    while i < events.len()
        invariant
            i <= events@.len(),
            whole == events@,
            spec_job_poll(job_id@, whole, aborted) == spec_job_poll(
                job_id@,
                events@.skip(i as int),
                ab,
            ),
        decreases events@.len() - i,
    {
        proof {
            assert(events@.skip(i as int)[0] == events@[i as int]);
            assert(events@.skip(i as int).drop_first() =~= events@.skip(i + 1));
        }
        match &events[i] {
            QemuEvent::JobStatusChange { job_id: id, status } => {
                if bytes_eq(id, job_id) {
                    match status {
                        JobStatus::Created => {},
                        JobStatus::Ready => {},
                        JobStatus::Running => {},
                        JobStatus::Waiting => {},
                        JobStatus::Pending => {},
                        JobStatus::Aborting => {
                            ab = true;
                        },
                        JobStatus::Concluded => {
                            return JobPoll::Concluded { aborted: ab };
                        },
                        JobStatus::Standby => {
                            return JobPoll::Failed { status: JobStatus::Standby };
                        },
                        JobStatus::Null => {
                            return JobPoll::Failed { status: JobStatus::Null };
                        },
                        JobStatus::Undefined => {
                            return JobPoll::Failed { status: JobStatus::Undefined };
                        },
                        JobStatus::Paused => {
                            return JobPoll::Failed { status: JobStatus::Paused };
                        },
                    }
                }
            },
            _ => {},
        }
        i = i + 1;
    }
    proof {
        assert(events@.skip(events@.len() as int).len() == 0);
    }
    JobPoll::Pending { aborted: ab }
}

/// One entry of the job registry, as the unverified rim hands it in after a
/// `query-jobs` exchange.
pub struct JobInfo {
    pub id: Vec<u8>,
    pub error: Option<Vec<u8>>,
}

/// The abort reason of job `job_id` per the registry: the first matching
/// entry's error message, doubly optional — the outer layer says whether a
/// matching entry exists, the inner whether it carried a message.
pub open spec fn spec_abort_reason(job_id: Seq<u8>, jobs: Seq<JobInfo>) -> Option<Option<Seq<u8>>>
    decreases jobs.len(),
{
    if jobs.len() == 0 {
        None
    } else if jobs[0].id@ == job_id {
        match jobs[0].error {
            Some(e) => Some(Some(e@)),
            None => Some(None),
        }
    } else {
        spec_abort_reason(job_id, jobs.drop_first())
    }
}

/// Looks the abort reason of `job_id` up in the drained job registry.
pub fn abort_reason(job_id: &Vec<u8>, jobs: &Vec<JobInfo>) -> (r: Option<Option<Vec<u8>>>)
    ensures
        match r {
            Some(Some(e)) => spec_abort_reason(job_id@, jobs@) == Some(Some(e@)),
            Some(None) => spec_abort_reason(job_id@, jobs@) == Some(None::<Seq<u8>>),
            None => spec_abort_reason(job_id@, jobs@) is None,
        },
{
    let ghost whole = jobs@;
    let mut i: usize = 0;
    proof {
        assert(whole.skip(0) =~= whole);
    }
    while i < jobs.len()
        invariant
            i <= jobs@.len(),
            whole == jobs@,
            spec_abort_reason(job_id@, whole) == spec_abort_reason(job_id@, jobs@.skip(i as int)),
        decreases jobs@.len() - i,
    {
        proof {
            assert(jobs@.skip(i as int)[0] == jobs@[i as int]);
            assert(jobs@.skip(i as int).drop_first() =~= jobs@.skip(i + 1));
        }
        if bytes_eq(&jobs[i].id, job_id) {
            let entry = &jobs[i];
            match &entry.error {
                Some(e) => {
                    let mut copy: Vec<u8> = Vec::new();
                    let mut j: usize = 0;
                    while j < e.len()
                        invariant
                            j <= e@.len(),
                            copy@ == e@.take(j as int),
                        decreases e@.len() - j,
                    {
                        copy.push(e[j]);
                        proof {
                            assert(e@.take(j as int).push(e@[j as int]) =~= e@.take(j + 1));
                        }
                        j = j + 1;
                    }
                    proof {
                        assert(e@.take(e@.len() as int) =~= e@);
                    }
                    return Some(Some(copy));
                },
                None => {
                    return Some(None);
                },
            }
        }
        i = i + 1;
    }
    proof {
        assert(jobs@.skip(jobs@.len() as int).len() == 0);
    }
    None
}

/// The run states a status query can report.
#[derive(Clone, Copy, Debug, PartialEq, Eq, Structural)]
pub enum RunState {
    Running,
    Shutdown,
    GuestPanicked,
    InternalError,
    IoError,
    Debug,
    Suspended,
    Paused,
    SaveVm,
    RestoreVm,
    Prelaunch,
    Inmigrate,
    Postmigrate,
    FinishMigrate,
    Watchdog,
    Colo,
}

/// The coarse view the coordinator takes of the guest.
#[derive(Clone, Copy, Debug, PartialEq, Eq, Structural)]
pub enum VMStatus {
    Running,
    Stopped,
    Error,
}

/// The digits of `n` in decimal, most significant first.
pub open spec fn dec_digits(n: int) -> Seq<u8>
    recommends
        n >= 0,
    decreases n,
{
    if n < 10 {
        seq![(48 + n) as u8]
    } else {
        dec_digits(n / 10).push((48 + n % 10) as u8)
    }
}

/// The byte form of the snapshot tag, `qce`.
pub open spec fn snapshot_tag() -> Seq<u8> {
    seq![113u8, 99u8, 101u8]
}

/// The byte form of the snapshot device and vmstate name, `disk0`.
pub open spec fn snapshot_disk() -> Seq<u8> {
    seq![100u8, 105u8, 115u8, 107u8, 48u8]
}

/// The byte form of the id of the `n`-th snapshot job: `qce_job_` then the
/// decimal digits of `n`.
pub open spec fn job_id_bytes(n: int) -> Seq<u8> {
    seq![113u8, 99u8, 101u8, 95u8, 106u8, 111u8, 98u8, 95u8] + dec_digits(n)
}

/// Appends the decimal digits of `n`.
fn push_decimal(out: &mut Vec<u8>, n: usize)
    ensures
        final(out)@ == old(out)@ + dec_digits(n as int),
    decreases n,
{
    if n < 10 {
        out.push(48 + n as u8);
        proof {
            assert(old(out)@.push((48 + n) as u8) =~= old(out)@ + dec_digits(n as int));
        }
    } else {
        push_decimal(out, n / 10);
        out.push(48 + (n % 10) as u8);
        proof {
            assert((old(out)@ + dec_digits(n as int / 10)).push((48 + n as int % 10) as u8) =~= old(
                out,
            )@ + dec_digits(n as int));
        }
    }
}

/// Which way a snapshot request moves guest state.
#[derive(Clone, Copy, Debug, PartialEq, Eq, Structural)]
pub enum SnapshotAction {
    Save,
    Load,
}

/// One snapshot command, ready for the wire: the unverified rim sends it and
/// then tracks the job with `job_poll` under the request's own id.
pub struct SnapshotRequest {
    pub action: SnapshotAction,
    pub tag: Vec<u8>,
    pub job_id: Vec<u8>,
    pub vmstate: Vec<u8>,
    pub devices: Vec<Vec<u8>>,
}

/// The proxy's verified core: it mints the strictly increasing job ids and
/// pins every parameter of the snapshot commands.
pub struct QemuProxy {
    job_count: usize,
}

impl QemuProxy {
    /// How many jobs have been minted.
    pub closed spec fn jobs(self) -> int {
        self.job_count as int
    }

    /// A fresh proxy; its first job id will be the 0th.
    pub fn new() -> (p: QemuProxy)
        ensures
            p.jobs() == 0,
    {
        QemuProxy { job_count: 0 }
    }

    /// Mints the next job id, `qce_job_<n>` with `n` strictly increasing
    /// from 0.
    pub fn next_job_id(&mut self) -> (id: Vec<u8>)
        requires
            old(self).jobs() < usize::MAX,
        ensures
            final(self).jobs() == old(self).jobs() + 1,
            id@ == job_id_bytes(old(self).jobs()),
    {
        let mut id: Vec<u8> = Vec::new();
        id.push(113);
        id.push(99);
        id.push(101);
        id.push(95);
        id.push(106);
        id.push(111);
        id.push(98);
        id.push(95);
        let ghost prefix = id@;
        proof {
            assert(prefix =~= seq![113u8, 99u8, 101u8, 95u8, 106u8, 111u8, 98u8, 95u8]);
        }
        push_decimal(&mut id, self.job_count);
        self.job_count = self.job_count + 1;
        id
    }

    /// Builds the asynchronous snapshot-save request: tag `qce`, vmstate and
    /// sole device `disk0`, under a freshly minted job id. The caller must
    /// stop the guest first and track the job to conclusion.
    pub fn snapshot_save(&mut self) -> (req: SnapshotRequest)
        requires
            old(self).jobs() < usize::MAX,
        ensures
            final(self).jobs() == old(self).jobs() + 1,
            req.action is Save,
            req.tag@ == snapshot_tag(),
            req.job_id@ == job_id_bytes(old(self).jobs()),
            req.vmstate@ == snapshot_disk(),
            req.devices@.len() == 1 && req.devices@[0]@ == snapshot_disk(),
    {
        let job_id = self.next_job_id();
        self.snapshot_request(SnapshotAction::Save, job_id)
    }

    /// Builds the asynchronous snapshot-load request, same parameters as the
    /// save. The caller tracks the job to conclusion and then resumes the
    /// guest.
    pub fn snapshot_load(&mut self) -> (req: SnapshotRequest)
        requires
            old(self).jobs() < usize::MAX,
        ensures
            final(self).jobs() == old(self).jobs() + 1,
            req.action is Load,
            req.tag@ == snapshot_tag(),
            req.job_id@ == job_id_bytes(old(self).jobs()),
            req.vmstate@ == snapshot_disk(),
            req.devices@.len() == 1 && req.devices@[0]@ == snapshot_disk(),
    {
        let job_id = self.next_job_id();
        self.snapshot_request(SnapshotAction::Load, job_id)
    }

    /// Fills in the fixed parameters of a snapshot command.
    fn snapshot_request(&self, action: SnapshotAction, job_id: Vec<u8>) -> (req: SnapshotRequest)
        ensures
            req.action == action,
            req.tag@ == snapshot_tag(),
            req.job_id@ == job_id@,
            req.vmstate@ == snapshot_disk(),
            req.devices@.len() == 1 && req.devices@[0]@ == snapshot_disk(),
    {
        let mut tag: Vec<u8> = Vec::new();
        tag.push(113);
        tag.push(99);
        tag.push(101);
        let mut disk: Vec<u8> = Vec::new();
        disk.push(100);
        disk.push(105);
        disk.push(115);
        disk.push(107);
        disk.push(48);
        let mut disk2: Vec<u8> = Vec::new();
        disk2.push(100);
        disk2.push(105);
        disk2.push(115);
        disk2.push(107);
        disk2.push(48);
        let mut devices: Vec<Vec<u8>> = Vec::new();
        devices.push(disk2);
        proof {
            assert(tag@ =~= snapshot_tag());
            assert(disk@ =~= snapshot_disk());
            assert(devices@[0]@ =~= snapshot_disk());
        }
        SnapshotRequest { action, tag, job_id, vmstate: disk, devices }
    }

    /// Judges the response of a run-state query: running and cleanly stopped
    /// states pass through, error states are reported, and every transient
    /// or migration state is unrecognized and fatal.
    pub fn query_status(&self, state: RunState) -> (r: Result<VMStatus, QemuError>)
        ensures
            match r {
                Ok(s) => {
                    &&& (s is Running <==> state is Running)
                    &&& (s is Stopped <==> state is Shutdown || state is GuestPanicked)
                    &&& (s is Error <==> state is InternalError || state is IoError)
                },
                Err(e) => {
                    &&& e is UnrecognizedRunState
                    &&& !(state is Running || state is Shutdown || state is GuestPanicked
                        || state is InternalError || state is IoError)
                },
            },
    {
        match state {
            RunState::Running => Ok(VMStatus::Running),
            RunState::Shutdown => Ok(VMStatus::Stopped),
            RunState::GuestPanicked => Ok(VMStatus::Stopped),
            RunState::InternalError => Ok(VMStatus::Error),
            RunState::IoError => Ok(VMStatus::Error),
            _ => Err(QemuError::UnrecognizedRunState),
        }
    }
}

/// At most one event may follow a synchronous command: none or one is
/// passed through, more is a protocol violation.
pub fn single_pending_event(events: &Vec<QemuEvent>) -> (r: Result<Option<&QemuEvent>, QemuError>)
    ensures
        match r {
            Ok(m) => match m {
                Some(e) => events@.len() == 1 && *e == events@[0],
                None => events@.len() == 0,
            },
            Err(e) => events@.len() > 1 && e is MultipleEvents,
        },
{
    if events.len() == 0 {
        Ok(None)
    } else if events.len() == 1 {
        Ok(Some(&events[0]))
    } else {
        Err(QemuError::MultipleEvents)
    }
}

/// A stop command is done only when its STOP lifecycle event arrived.
pub fn expect_stop(event: &Option<QemuEvent>) -> (r: Result<(), QemuError>)
    ensures
        r is Ok <==> event matches Some(QemuEvent::Stop),
        r is Err ==> r matches Err(QemuError::UnexpectedEvent),
{
    match event {
        Some(QemuEvent::Stop) => Ok(()),
        _ => Err(QemuError::UnexpectedEvent),
    }
}

/// A continue command is done only when its RESUME lifecycle event arrived.
pub fn expect_resume(event: &Option<QemuEvent>) -> (r: Result<(), QemuError>)
    ensures
        r is Ok <==> event matches Some(QemuEvent::Resume),
        r is Err ==> r matches Err(QemuError::UnexpectedEvent),
{
    match event {
        Some(QemuEvent::Resume) => Ok(()),
        _ => Err(QemuError::UnexpectedEvent),
    }
}

/// A reset is acknowledged only by a host-initiated end: a STOP or
/// POWERDOWN, or a SHUTDOWN or RESET that the guest did not initiate.
pub fn expect_host_exit(mode: Option<VMExitMode>) -> (r: Result<(), QemuError>)
    ensures
        r is Ok <==> mode == Some(VMExitMode::Host),
        r is Err ==> r matches Err(QemuError::UnexpectedEvent),
{
    match mode {
        Some(VMExitMode::Host) => Ok(()),
        _ => Err(QemuError::UnexpectedEvent),
    }
}

} // verus!
