//! The execution coordinator's decisions: how an engine status becomes an exit
//! code, which cancellation cause is recorded, what a run reports, whether its
//! session is kept, which processes the reaper signals, and when the drain of
//! the output pipe ends.
//!
//! The host races the engine's run against the cancellation sources and the
//! timers; each time something happens it asks these functions what to do.

use vstd::prelude::*;

verus! {

/// The engine's exit status enumerators.
#[derive(Clone, Copy, Debug, PartialEq, Eq, Structural)]
pub enum ExitStatus {
    Success,
    GeneralError,
    InvalidUsage,
    Unimplemented,
    CannotExecute,
    NotFound,
    Interrupted,
    BrokenPipe,
    Custom(u8),
}

/// Why the engine's execution of a command line ended.
#[derive(Clone, Copy, Debug, PartialEq, Eq, Structural)]
pub enum ControlFlow {
    Normal,
    BreakLoop(usize),
    ContinueLoop(usize),
    ReturnFromFunctionOrScript,
    ExitShell,
}

/// What the engine produced for one run.
#[derive(Clone, Copy, Debug, PartialEq, Eq, Structural)]
pub struct ExecutionResult {
    pub next_control_flow: ControlFlow,
    pub exit_code: ExitStatus,
}

/// The integer that an exit status stands for.
pub open spec fn code_of(s: ExitStatus) -> int {
    match s {
        ExitStatus::Success => 0,
        ExitStatus::GeneralError => 1,
        ExitStatus::InvalidUsage => 2,
        ExitStatus::Unimplemented => 99,
        ExitStatus::CannotExecute => 126,
        ExitStatus::NotFound => 127,
        ExitStatus::Interrupted => 130,
        ExitStatus::BrokenPipe => 141,
        ExitStatus::Custom(c) => c as int,
    }
}

/// The exit code of a completed run, in `0..=255`.
pub fn exit_code(result: &ExecutionResult) -> (r: i32)
    ensures
        r == code_of(result.exit_code),
        0 <= r <= 255,
{
    match result.exit_code {
        ExitStatus::Success => 0,
        ExitStatus::GeneralError => 1,
        ExitStatus::InvalidUsage => 2,
        ExitStatus::Unimplemented => 99,
        ExitStatus::CannotExecute => 126,
        ExitStatus::NotFound => 127,
        ExitStatus::Interrupted => 130,
        ExitStatus::BrokenPipe => 141,
        ExitStatus::Custom(code) => code as i32,
    }
}

/// A session survives a run only when the run left normal control flow.
pub fn session_keepalive(result: &ExecutionResult) -> (r: bool)
    ensures
        r == (result.next_control_flow == ControlFlow::Normal),
{
    match result.next_control_flow {
        ControlFlow::Normal => true,
        ControlFlow::BreakLoop(_) => false,
        ControlFlow::ContinueLoop(_) => false,
        ControlFlow::ReturnFromFunctionOrScript => false,
        ControlFlow::ExitShell => false,
    }
}

/// The cause of a cancellation.
#[derive(Clone, Copy, Debug, PartialEq, Eq, Structural)]
pub enum AbortReason {
    /// An explicit abort from the host.
    Signal,
    /// The run's deadline passed.
    Timeout,
}

/// A one-shot cancellation source: it records the first cause that fires;
/// later fires change nothing.
pub struct CancelSource {
    fired: Option<AbortReason>,
}

impl CancelSource {
    pub closed spec fn reason(&self) -> Option<AbortReason> {
        self.fired
    }

    pub fn new() -> (c: Self)
        ensures
            c.reason() is None,
    {
        CancelSource { fired: None }
    }

    /// Fires the source with `reason`; returns whether this call was the first.
    pub fn fire(&mut self, reason: AbortReason) -> (first: bool)
        ensures
            first == (old(self).reason() is None),
            final(self).reason() == after_fire(old(self).reason(), reason),
    {
        if self.fired.is_none() {
            self.fired = Some(reason);
            true
        } else {
            false
        }
    }

    pub fn fired(&self) -> (r: Option<AbortReason>)
        ensures
            r == self.reason(),
    {
        self.fired
    }

    pub fn is_cancelled(&self) -> (r: bool)
        ensures
            r == (self.reason() is Some),
    {
        self.fired.is_some()
    }
}

/// The recorded cause after a fire with `r`.
pub open spec fn after_fire(s: Option<AbortReason>, r: AbortReason) -> Option<AbortReason> {
    if s is None {
        Some(r)
    } else {
        s
    }
}

/// The recorded cause after a series of fires.
pub open spec fn after_fires(s: Option<AbortReason>, fires: Seq<AbortReason>) -> Option<AbortReason>
    decreases fires.len(),
{
    if fires.len() == 0 {
        s
    } else {
        after_fires(after_fire(s, fires[0]), fires.drop_first())
    }
}

proof fn lemma_fired_stays(x: AbortReason, fires: Seq<AbortReason>)
    ensures
        after_fires(Some(x), fires) == Some(x),
    decreases fires.len(),
{
    if fires.len() > 0 {
        lemma_fired_stays(x, fires.drop_first());
    }
}

/// Whatever fires afterwards (an abort, a deadline, the same cause again), the
/// recorded reason is the first cause that fired.
pub proof fn lemma_first_cause_wins(fires: Seq<AbortReason>)
    requires
        fires.len() > 0,
    ensures
        after_fires(None, fires) == Some(fires[0]),
{
    lemma_fired_stays(fires[0], fires.drop_first());
}

/// Result of running a command in a persistent session.
#[derive(Clone, Copy, Debug, PartialEq, Eq, Structural)]
pub struct ShellRunResult {
    /// Exit code when the command completes normally.
    pub exit_code: Option<i32>,
    /// Whether the command was cancelled via abort.
    pub cancelled: bool,
    /// Whether the command timed out before completion.
    pub timed_out: bool,
}

/// Result of executing a command in a fresh session.
#[derive(Clone, Copy, Debug, PartialEq, Eq, Structural)]
pub struct ShellExecuteResult {
    /// Exit code when the command completes normally.
    pub exit_code: Option<i32>,
    /// Whether the command was cancelled via abort.
    pub cancelled: bool,
    /// Whether the command timed out before completion.
    pub timed_out: bool,
}

/// Options for a persistent session.
pub struct ShellOptions {
    /// Variables applied once, when the session's engine is created.
    pub session_env: Option<Vec<(String, String)>>,
    /// A snapshot file sourced when the session's engine is created.
    pub snapshot_path: Option<String>,
    /// The coordinator's timing windows for runs on this session.
    pub timings: Timings,
}

/// Options for one run.
pub struct ShellRunOptions {
    /// The command line.
    pub command: String,
    /// Working directory for the run.
    pub cwd: Option<String>,
    /// Variables applied to this run only.
    pub env: Option<Vec<(String, String)>>,
    /// Milliseconds before the run is cancelled.
    pub timeout_ms: Option<u32>,
}

/// Options for a run in a fresh session.
pub struct ShellExecuteOptions {
    pub command: String,
    pub cwd: Option<String>,
    pub env: Option<Vec<(String, String)>>,
    pub session_env: Option<Vec<(String, String)>>,
    pub timeout_ms: Option<u32>,
    pub snapshot_path: Option<String>,
    pub timings: Timings,
}

impl ShellExecuteOptions {
    /// Splits the options into those of the fresh session and those of the run.
    pub fn into_parts(self) -> (r: (ShellOptions, ShellRunOptions))
        ensures
            r.0.session_env == self.session_env,
            r.0.snapshot_path == self.snapshot_path,
            r.0.timings == self.timings,
            r.1.command == self.command,
            r.1.cwd == self.cwd,
            r.1.env == self.env,
            r.1.timeout_ms == self.timeout_ms,
    {
        (
            ShellOptions {
                session_env: self.session_env,
                snapshot_path: self.snapshot_path,
                timings: self.timings,
            },
            ShellRunOptions {
                command: self.command,
                cwd: self.cwd,
                env: self.env,
                timeout_ms: self.timeout_ms,
            },
        )
    }
}

/// Exactly one of: an exit code, or a cancellation flag; never both flags.
pub open spec fn well_reported(exit_code: Option<i32>, cancelled: bool, timed_out: bool) -> bool {
    &&& (exit_code is Some) != (cancelled || timed_out)
    &&& !(cancelled && timed_out)
}

/// How a run ended, as the host observed it.
pub enum RunEnd {
    /// The engine's run future resolved first.
    Completed(Result<ExecutionResult, String>),
    /// A cancellation source fired first; the run was then given its grace
    /// period, whether or not it stopped within it.
    Cancelled(AbortReason),
}

/// What the host does once a run on a persistent session has ended.
pub struct RunConclusion {
    /// Whether the session's engine is handed to the next run.
    pub keep_session: bool,
    /// What the host call returns.
    pub result: Result<ShellRunResult, String>,
}

pub open spec fn concluded(end: RunEnd) -> (bool, Result<ShellRunResult, String>) {
    match end {
        RunEnd::Completed(Ok(res)) => (
            res.next_control_flow == ControlFlow::Normal,
            Ok(
                ShellRunResult {
                    exit_code: Some(code_of(res.exit_code) as i32),
                    cancelled: false,
                    timed_out: false,
                },
            ),
        ),
        RunEnd::Completed(Err(e)) => (false, Err(e)),
        RunEnd::Cancelled(reason) => (
            false,
            Ok(
                ShellRunResult {
                    exit_code: None,
                    cancelled: reason == AbortReason::Signal,
                    timed_out: reason == AbortReason::Timeout,
                },
            ),
        ),
    }
}

/// Decides what a run on a persistent session reports and whether its session
/// is kept: kept only after a normal completion; after a cancellation the
/// flags name the cause and there is no exit code.
pub fn conclude_run(end: RunEnd) -> (c: RunConclusion)
    ensures
        (c.keep_session, c.result) == concluded(end),
        c.result matches Ok(r) ==> well_reported(r.exit_code, r.cancelled, r.timed_out),
{
    match end {
        RunEnd::Completed(Ok(res)) => {
            let keep = session_keepalive(&res);
            RunConclusion {
                keep_session: keep,
                result: Ok(
                    ShellRunResult {
                        exit_code: Some(exit_code(&res)),
                        cancelled: false,
                        timed_out: false,
                    },
                ),
            }
        },
        RunEnd::Completed(Err(e)) => RunConclusion { keep_session: false, result: Err(e) },
        RunEnd::Cancelled(reason) => RunConclusion {
            keep_session: false,
            result: Ok(
                ShellRunResult {
                    exit_code: None,
                    cancelled: reason == AbortReason::Signal,
                    timed_out: reason == AbortReason::Timeout,
                },
            ),
        },
    }
}

/// What a one-shot run (fresh session, dropped afterwards) reports.
pub fn conclude_oneshot(end: RunEnd) -> (r: Result<ShellExecuteResult, String>)
    ensures
        match (r, concluded(end).1) {
            (Ok(a), Ok(b)) => a.exit_code == b.exit_code && a.cancelled == b.cancelled
                && a.timed_out == b.timed_out,
            (Err(a), Err(b)) => a == b,
            _ => false,
        },
        r matches Ok(x) ==> well_reported(x.exit_code, x.cancelled, x.timed_out),
{
    let c = conclude_run(end);
    match c.result {
        Ok(x) => Ok(
            ShellExecuteResult {
                exit_code: x.exit_code,
                cancelled: x.cancelled,
                timed_out: x.timed_out,
            },
        ),
        Err(e) => Err(e),
    }
}

/// An abort before completion reports `cancelled` alone; a timeout reports
/// `timed_out` alone; neither carries an exit code.
pub proof fn lemma_cancellation_flags(reason: AbortReason)
    ensures
        reason == AbortReason::Signal ==> concluded(RunEnd::Cancelled(reason)).1 == Ok::<
            ShellRunResult,
            String,
        >(ShellRunResult { exit_code: None, cancelled: true, timed_out: false }),
        reason == AbortReason::Timeout ==> concluded(RunEnd::Cancelled(reason)).1 == Ok::<
            ShellRunResult,
            String,
        >(ShellRunResult { exit_code: None, cancelled: false, timed_out: true }),
        !concluded(RunEnd::Cancelled(reason)).0,
{
}


/// The session a run used goes back to its slot only when it is kept.
pub open spec fn restored<E>(engine: E, keep: bool) -> Option<E> {
    if keep {
        Some(engine)
    } else {
        None
    }
}

/// The slot of a persistent session: empty until the first run creates an
/// engine, emptied whenever a run leaves the engine unfit for reuse.
pub struct SessionSlot<E> {
    engine: Option<E>,
}

impl<E> SessionSlot<E> {
    pub closed spec fn stored(&self) -> Option<E> {
        self.engine
    }

    pub fn new() -> (s: Self)
        ensures
            s.stored() is None,
    {
        SessionSlot { engine: None }
    }

    /// Hands the stored engine to a run; the slot stays empty while it runs.
    /// `None` tells the host to create a fresh engine.
    pub fn take(&mut self) -> (e: Option<E>)
        ensures
            e == old(self).stored(),
            final(self).stored() is None,
    {
        self.engine.take()
    }

    /// Ends a run: the engine is stored again only when `keep` holds, and
    /// dropped otherwise.
    pub fn finish_run(&mut self, engine: E, keep: bool)
        ensures
            final(self).stored() == restored(engine, keep),
    {
        if keep {
            self.engine = Some(engine);
        } else {
            self.engine = None;
        }
    }

    /// Drops whatever engine is stored, as after a cancelled run.
    pub fn evict(&mut self)
        ensures
            final(self).stored() is None,
    {
        self.engine = None;
    }

    pub fn is_empty(&self) -> (r: bool)
        ensures
            r == (self.stored() is None),
    {
        self.engine.is_none()
    }
}

/// A run that ends in non-normal control flow gives up its session: the slot
/// is empty afterwards, so the next run on it gets a freshly created engine.
pub proof fn lemma_non_normal_flow_discards_session<E>(res: ExecutionResult, engine: E)
    requires
        res.next_control_flow != ControlFlow::Normal,
    ensures
        !concluded(RunEnd::Completed(Ok(res))).0,
        restored(engine, concluded(RunEnd::Completed(Ok(res))).0) is None,
{
}

/// A cancelled run never keeps its session, whether or not it stopped within
/// the grace period.
pub proof fn lemma_cancelled_run_discards_session<E>(reason: AbortReason, engine: E)
    ensures
        restored(engine, concluded(RunEnd::Cancelled(reason)).0) is None,
{
}

/// What identifies a background job to the reaper.
#[derive(Clone, Copy, Debug, PartialEq, Eq, Structural)]
pub struct JobIdentity {
    pub process_group: Option<i32>,
    pub representative_pid: Option<i32>,
}

/// The process group of a job, or else its representative process.
pub open spec fn target_of(j: JobIdentity) -> Option<i32> {
    if j.process_group is Some {
        j.process_group
    } else {
        j.representative_pid
    }
}

/// The identities that the reaper signals, one per job that has one, in order.
pub open spec fn targets(jobs: Seq<JobIdentity>) -> Seq<i32>
    decreases jobs.len(),
{
    if jobs.len() == 0 {
        seq![]
    } else {
        let prev = targets(jobs.drop_last());
        match target_of(jobs.last()) {
            Some(p) => prev.push(p),
            None => prev,
        }
    }
}

/// The identities to send a graceful termination signal to (and, after the
/// kill delay, a forced kill): none unless a cancellation actually fired.
pub fn reap_targets(cancel_fired: bool, jobs: &Vec<JobIdentity>) -> (r: Vec<i32>)
    ensures
        cancel_fired ==> r@ == targets(jobs@),
        !cancel_fired ==> r@.len() == 0,
{
    let mut r: Vec<i32> = Vec::new();
    if !cancel_fired {
        return r;
    }
    let mut i: usize = 0;
    while i < jobs.len()
        invariant
            i <= jobs@.len(),
            r@ == targets(jobs@.subrange(0, i as int)),
        decreases jobs@.len() - i,
    {
        let ghost pre = jobs@.subrange(0, i as int);
        assert(jobs@.subrange(0, i as int + 1).drop_last() =~= pre);
        let j = jobs[i];
        match j.process_group {
            Some(p) => r.push(p),
            None => match j.representative_pid {
                Some(p) => r.push(p),
                None => {},
            },
        }
        i += 1;
    }
    assert(jobs@.subrange(0, jobs@.len() as int) =~= jobs@);
    r
}

/// The coordinator's timing windows, in milliseconds.
#[derive(Clone, Copy, Debug, PartialEq, Eq, Structural)]
pub struct Timings {
    /// How long a cancelled run may take to stop before its session is
    /// declared unusable.
    pub grace_ms: u64,
    /// How long the output drain waits without activity.
    pub idle_ms: u64,
    /// The longest the output drain lasts.
    pub max_drain_ms: u64,
    /// Delay between the graceful and the forced signal to background jobs.
    pub kill_delay_ms: u64,
}

impl Default for Timings {
    fn default() -> (t: Self)
        ensures
            t.grace_ms == 1500,
            t.idle_ms == 250,
            t.max_drain_ms == 2000,
            t.kill_delay_ms == 500,
    {
        Timings { grace_ms: 1500, idle_ms: 250, max_drain_ms: 2000, kill_delay_ms: 500 }
    }
}

impl Timings {
    /// The default windows, each replaced by the host's value where given.
    pub fn with_overrides(
        grace_ms: Option<u32>,
        idle_ms: Option<u32>,
        max_drain_ms: Option<u32>,
        kill_delay_ms: Option<u32>,
    ) -> (t: Self)
        ensures
            t.grace_ms == (match grace_ms {
                Some(v) => v as u64,
                None => 1500,
            }),
            t.idle_ms == (match idle_ms {
                Some(v) => v as u64,
                None => 250,
            }),
            t.max_drain_ms == (match max_drain_ms {
                Some(v) => v as u64,
                None => 2000,
            }),
            t.kill_delay_ms == (match kill_delay_ms {
                Some(v) => v as u64,
                None => 500,
            }),
    {
        let d = Timings::default();
        Timings {
            grace_ms: match grace_ms {
                Some(v) => v as u64,
                None => d.grace_ms,
            },
            idle_ms: match idle_ms {
                Some(v) => v as u64,
                None => d.idle_ms,
            },
            max_drain_ms: match max_drain_ms {
                Some(v) => v as u64,
                None => d.max_drain_ms,
            },
            kill_delay_ms: match kill_delay_ms {
                Some(v) => v as u64,
                None => d.kill_delay_ms,
            },
        }
    }
}

/// The drain of the output pipe after the run future resolved: deadlines in
/// milliseconds on the host's clock.
#[derive(Clone, Copy, Debug, PartialEq, Eq, Structural)]
pub struct Drain {
    pub idle_deadline: u64,
    pub max_deadline: u64,
    pub idle_ms: u64,
}

/// What the host observed while draining.
#[derive(Clone, Copy, Debug, PartialEq, Eq, Structural)]
pub enum DrainEvent {
    /// The reader reached the end of the pipe.
    ReaderFinished,
    /// The reader delivered bytes at this time.
    Activity(u64),
    /// The reader's activity channel closed.
    ActivityClosed,
    /// A timer woke the host at this time.
    Tick(u64),
}

/// The drain's next state, or its end; when it ends with the reader still
/// running, the host cancels the reader and joins it.
#[derive(Clone, Copy, Debug, PartialEq, Eq, Structural)]
pub enum DrainStep {
    Continue(Drain),
    Stop { reader_finished: bool },
}

pub open spec fn sat_add(a: u64, b: u64) -> u64 {
    if a + b > u64::MAX {
        u64::MAX
    } else {
        (a + b) as u64
    }
}

/// Starts the drain at time `now`.
pub fn drain_start(now: u64, timings: &Timings) -> (d: Drain)
    ensures
        d.idle_deadline == sat_add(now, timings.idle_ms),
        d.max_deadline == sat_add(now, timings.max_drain_ms),
        d.idle_ms == timings.idle_ms,
{
    Drain {
        idle_deadline: now.saturating_add(timings.idle_ms),
        max_deadline: now.saturating_add(timings.max_drain_ms),
        idle_ms: timings.idle_ms,
    }
}

/// The time at which the host must wake up if nothing else happens.
pub fn drain_wakeup(d: &Drain) -> (t: u64)
    ensures
        t == if d.idle_deadline <= d.max_deadline {
            d.idle_deadline
        } else {
            d.max_deadline
        },
{
    if d.idle_deadline <= d.max_deadline {
        d.idle_deadline
    } else {
        d.max_deadline
    }
}

pub open spec fn drained(d: Drain, ev: DrainEvent) -> DrainStep {
    match ev {
        DrainEvent::ReaderFinished => DrainStep::Stop { reader_finished: true },
        DrainEvent::ActivityClosed => DrainStep::Stop { reader_finished: false },
        DrainEvent::Activity(now) => if now >= d.max_deadline {
            DrainStep::Stop { reader_finished: false }
        } else {
            DrainStep::Continue(Drain { idle_deadline: sat_add(now, d.idle_ms), ..d })
        },
        DrainEvent::Tick(now) => if now >= d.idle_deadline || now >= d.max_deadline {
            DrainStep::Stop { reader_finished: false }
        } else {
            DrainStep::Continue(d)
        },
    }
}

/// One step of the drain: it ends when the reader finishes, when no activity
/// came for the idle window, or at the absolute cap, whichever comes first;
/// activity pushes the idle deadline back, never the cap.
pub fn drain_step(d: Drain, ev: DrainEvent) -> (s: DrainStep)
    ensures
        s == drained(d, ev),
        s matches DrainStep::Continue(n) ==> n.max_deadline == d.max_deadline,
{
    match ev {
        DrainEvent::ReaderFinished => DrainStep::Stop { reader_finished: true },
        DrainEvent::ActivityClosed => DrainStep::Stop { reader_finished: false },
        DrainEvent::Activity(now) => {
            if now >= d.max_deadline {
                DrainStep::Stop { reader_finished: false }
            } else {
                DrainStep::Continue(
                    Drain {
                        idle_deadline: now.saturating_add(d.idle_ms),
                        max_deadline: d.max_deadline,
                        idle_ms: d.idle_ms,
                    },
                )
            }
        },
        DrainEvent::Tick(now) => {
            if now >= d.idle_deadline || now >= d.max_deadline {
                DrainStep::Stop { reader_finished: false }
            } else {
                DrainStep::Continue(d)
            }
        },
    }
}

} // verus!
