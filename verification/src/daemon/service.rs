//! What the daemon decides as a Windows service.

use vstd::prelude::*;
use vstd::string::StringExecFns;

verus! {

/// System error: there is a service of this name.
pub const ERROR_SERVICE_EXISTS: i32 = 1073;

/// System error: there is no service of this name.
pub const ERROR_SERVICE_DOES_NOT_EXIST: i32 = 1060;

/// System error: the service runs already.
pub const ERROR_SERVICE_ALREADY_RUNNING: i32 = 1056;

/// Milliseconds between two looks at a service that is stopping.
pub const STOP_POLL_MS: u64 = 200;

/// Looks at a service that is stopping before it is deleted regardless.
pub const STOP_POLLS: u32 = 50;

/// Milliseconds that the engine may stay silent while it starts before the
/// service manager is told that the start goes on.
pub const HEARTBEAT_MS: u64 = 2000;

/// Seconds without a failure after which earlier ones are forgotten.
pub const FAILURE_RESET_SECS: u64 = 86_400;

/// The state of a service.
#[derive(Clone, Copy, Debug, PartialEq, Eq, Structural)]
pub enum ServiceState {
    Stopped,
    StartPending,
    StopPending,
    Running,
    ContinuePending,
    PausePending,
    Paused,
}

impl ServiceState {
    /// The state's name.
    pub open spec fn label_text(self) -> Seq<char> {
        match self {
            ServiceState::Stopped => "Stopped"@,
            ServiceState::StartPending => "StartPending"@,
            ServiceState::StopPending => "StopPending"@,
            ServiceState::Running => "Running"@,
            ServiceState::ContinuePending => "ContinuePending"@,
            ServiceState::PausePending => "PausePending"@,
            ServiceState::Paused => "Paused"@,
        }
    }

    /// The state's name.
    pub fn label(self) -> (text: &'static str)
        ensures
            text@ == self.label_text(),
    {
        match self {
            ServiceState::Stopped => "Stopped",
            ServiceState::StartPending => "StartPending",
            ServiceState::StopPending => "StopPending",
            ServiceState::Running => "Running",
            ServiceState::ContinuePending => "ContinuePending",
            ServiceState::PausePending => "PausePending",
            ServiceState::Paused => "Paused",
        }
    }
}

/// How a call of the service manager went.
#[derive(Clone, Copy, Debug, PartialEq, Eq, Structural)]
pub enum CallResult {
    Done,
    /// It failed, with the system's error code where there is one.
    Failed(Option<i32>),
}

/// What an attempt to create the service leads to.
#[derive(Clone, Copy, Debug, PartialEq, Eq, Structural)]
pub enum InstallStep {
    /// It is created.
    Created,
    /// It is there: open it and bring its configuration up to date.
    Refresh,
    /// Report the error.
    Fail,
}

/// Decides what follows the attempt to create the service. One that is there is
/// brought up to date, so that an upgrade may install again.
pub fn install_step(created: CallResult) -> (step: InstallStep)
    ensures
        step == InstallStep::Created <==> created == CallResult::Done,
        step == InstallStep::Refresh <==> created == CallResult::Failed(Some(ERROR_SERVICE_EXISTS)),
{
    match created {
        CallResult::Done => InstallStep::Created,
        CallResult::Failed(Some(code)) => if code == ERROR_SERVICE_EXISTS {
            InstallStep::Refresh
        } else {
            InstallStep::Fail
        },
        CallResult::Failed(None) => InstallStep::Fail,
    }
}

/// What an attempt to open the service leads to.
#[derive(Clone, Copy, Debug, PartialEq, Eq, Structural)]
pub enum OpenStep {
    Opened,
    /// There is none, and nothing to do.
    NotInstalled,
    /// Report the error.
    Fail,
}

/// Decides what follows the attempt to open the service. That there is none is
/// no error, so that an uninstaller may always run.
pub fn open_step(opened: CallResult) -> (step: OpenStep)
    ensures
        step == OpenStep::Opened <==> opened == CallResult::Done,
        step == OpenStep::NotInstalled <==> opened == CallResult::Failed(
            Some(ERROR_SERVICE_DOES_NOT_EXIST),
        ),
{
    match opened {
        CallResult::Done => OpenStep::Opened,
        CallResult::Failed(Some(code)) => if code == ERROR_SERVICE_DOES_NOT_EXIST {
            OpenStep::NotInstalled
        } else {
            OpenStep::Fail
        },
        CallResult::Failed(None) => OpenStep::Fail,
    }
}

/// What the status command prints: the state, or that the service is not
/// installed.
pub fn status_line(state: Option<ServiceState>) -> (line: String)
    ensures
        line@ == "goz service: "@ + match state {
            Some(s) => s.label_text(),
            None => "NotInstalled"@,
        },
{
    let mut line = "goz service: ".to_string();
    match state {
        Some(s) => line.append(s.label()),
        None => line.append("NotInstalled"),
    }
    line
}

/// Whether the service has to be started: unless it is known to be running or
/// starting.
pub fn needs_start(state: Option<ServiceState>) -> (res: bool)
    ensures
        res == !(state == Some(ServiceState::Running) || state == Some(ServiceState::StartPending)),
{
    match state {
        Some(ServiceState::Running) => false,
        Some(ServiceState::StartPending) => false,
        _ => true,
    }
}

/// Whether an attempt to start the service left it started; another may have
/// started it meanwhile.
pub fn started(call: CallResult) -> (res: bool)
    ensures
        res == (call == CallResult::Done || call == CallResult::Failed(
            Some(ERROR_SERVICE_ALREADY_RUNNING),
        )),
{
    match call {
        CallResult::Done => true,
        CallResult::Failed(Some(code)) => code == ERROR_SERVICE_ALREADY_RUNNING,
        CallResult::Failed(None) => false,
    }
}

/// Whether the service has to be stopped before it is deleted.
pub fn needs_stop(state: Option<ServiceState>) -> (res: bool)
    ensures
        res == (state is Some && state != Some(ServiceState::Stopped)),
{
    match state {
        Some(ServiceState::Stopped) => false,
        Some(_) => true,
        None => false,
    }
}

/// Whether to go on waiting for the service to stop, after `polls` looks.
pub fn keep_waiting(polls: u32, state: Option<ServiceState>) -> (res: bool)
    ensures
        res == (polls < STOP_POLLS && state is Some && state != Some(ServiceState::Stopped)),
{
    polls < STOP_POLLS && needs_stop(state)
}

/// The seconds after which the service manager restarts a daemon that failed:
/// the first time, the second, and from then on.
pub fn restart_delays() -> (secs: Vec<u64>)
    ensures
        secs@ == seq![5u64, 30u64, 60u64],
{
    let secs = vec![5u64, 30u64, 60u64];
    assert(secs@ =~= seq![5u64, 30u64, 60u64]);
    secs
}

/// How a service that has stopped ended.
#[derive(Clone, Copy, Debug, PartialEq, Eq, Structural)]
pub enum ExitCode {
    Win32(u32),
    ServiceSpecific(u32),
}

/// What the service manager is told.
#[derive(Clone, Copy, Debug, PartialEq, Eq, Structural)]
pub struct Report {
    pub state: ServiceState,
    /// Whether the service can be told to stop.
    pub accepts_stop: bool,
    pub exit_code: ExitCode,
    /// Goes up while a start goes on.
    pub checkpoint: u32,
    /// Seconds within which the next report comes.
    pub wait_hint_secs: u64,
}

impl Report {
    /// The service is starting.
    pub open spec fn starting(checkpoint: u32) -> Report {
        Report {
            state: ServiceState::StartPending,
            accepts_stop: false,
            exit_code: ExitCode::Win32(0),
            checkpoint,
            wait_hint_secs: 4,
        }
    }

    /// The service runs.
    pub open spec fn running() -> Report {
        Report {
            state: ServiceState::Running,
            accepts_stop: true,
            exit_code: ExitCode::Win32(0),
            checkpoint: 0,
            wait_hint_secs: 0,
        }
    }

    /// The service is stopping.
    pub open spec fn stopping() -> Report {
        Report {
            state: ServiceState::StopPending,
            accepts_stop: false,
            exit_code: ExitCode::Win32(0),
            checkpoint: 1,
            wait_hint_secs: 10,
        }
    }

    /// The service has stopped.
    pub open spec fn stopped(exit_code: ExitCode) -> Report {
        Report {
            state: ServiceState::Stopped,
            accepts_stop: false,
            exit_code,
            checkpoint: 0,
            wait_hint_secs: 0,
        }
    }
}

/// A report on a service that has not stopped.
pub fn status_report(
    state: ServiceState,
    accepts_stop: bool,
    checkpoint: u32,
    wait_hint_secs: u64,
) -> (report: Report)
    ensures
        report == (Report {
            state,
            accepts_stop,
            exit_code: ExitCode::Win32(0),
            checkpoint,
            wait_hint_secs,
        }),
{
    Report { state, accepts_stop, exit_code: ExitCode::Win32(0), checkpoint, wait_hint_secs }
}

/// The report on a service that has stopped.
pub fn stopped_report(exit_code: ExitCode) -> (report: Report)
    ensures
        report == Report::stopped(exit_code),
{
    Report {
        state: ServiceState::Stopped,
        accepts_stop: false,
        exit_code,
        checkpoint: 0,
        wait_hint_secs: 0,
    }
}

/// What the service manager asks for.
#[derive(Clone, Copy, Debug, PartialEq, Eq, Structural)]
pub enum Control {
    Stop,
    Shutdown,
    Interrogate,
    Other,
}

/// What the service does about it.
#[derive(Clone, Copy, Debug, PartialEq, Eq, Structural)]
pub enum ControlStep {
    /// Send the report, then tell the server to stop.
    Stop(Report),
    /// Nothing; the request is understood.
    Acknowledge,
    /// The request is not one that the service knows.
    NotImplemented,
}

/// Decides what to do about a request of the service manager.
pub fn on_control(control: Control) -> (step: ControlStep)
    ensures
        step == match control {
            Control::Stop => ControlStep::Stop(Report::stopping()),
            Control::Shutdown => ControlStep::Stop(Report::stopping()),
            Control::Interrogate => ControlStep::Acknowledge,
            Control::Other => ControlStep::NotImplemented,
        },
{
    match control {
        Control::Stop | Control::Shutdown => ControlStep::Stop(
            status_report(ServiceState::StopPending, false, 1, 10),
        ),
        Control::Interrogate => ControlStep::Acknowledge,
        Control::Other => ControlStep::NotImplemented,
    }
}

/// What the engine, while it starts, was heard of.
pub enum EngineNews {
    /// Nothing within [`HEARTBEAT_MS`].
    Silence,
    /// It is ready.
    Ready,
    /// It failed, for the reason given.
    Failed(String),
    /// It is gone without a word.
    Gone,
}

/// What the service does next while it starts.
pub enum StartStep {
    /// Send the report and go on waiting.
    Wait(Report),
    /// Send the report: the service runs.
    Run(Report),
    /// Send the report and end with the error.
    Fail(Report, String),
}

/// A service that is starting.
#[derive(Clone, Copy, Debug, PartialEq, Eq, Structural)]
pub struct Starting {
    /// The checkpoint last reported.
    pub checkpoint: u32,
}

impl Starting {
    /// Begins a start, with the first report to send.
    pub fn begin() -> (res: (Starting, Report))
        ensures
            res.0.checkpoint == 1,
            res.1 == Report::starting(1),
    {
        (Starting { checkpoint: 1 }, status_report(ServiceState::StartPending, false, 1, 4))
    }

    /// Decides what follows from what was heard of the engine. As long as it is
    /// silent, the checkpoint goes up with each report: one that stood still
    /// would look like a service that hangs.
    pub fn on_news(&mut self, news: &EngineNews) -> (step: StartStep)
        requires
            old(self).checkpoint < u32::MAX,
        ensures
            match *news {
                EngineNews::Silence => {
                    &&& final(self).checkpoint == old(self).checkpoint + 1
                    &&& step is Wait
                    &&& step->Wait_0 == Report::starting(final(self).checkpoint)
                },
                EngineNews::Ready => {
                    &&& *final(self) == *old(self)
                    &&& step is Run
                    &&& step->Run_0 == Report::running()
                },
                EngineNews::Failed(why) => {
                    &&& *final(self) == *old(self)
                    &&& step is Fail
                    &&& step->Fail_0 == Report::stopped(ExitCode::ServiceSpecific(1))
                    &&& step->Fail_1@ == why@
                },
                EngineNews::Gone => {
                    &&& *final(self) == *old(self)
                    &&& step is Fail
                    &&& step->Fail_0 == Report::stopped(ExitCode::ServiceSpecific(1))
                    &&& step->Fail_1@ == "engine thread exited before signalling ready"@
                },
            },
    {
        match news {
            EngineNews::Silence => {
                self.checkpoint = self.checkpoint + 1;
                StartStep::Wait(
                    status_report(ServiceState::StartPending, false, self.checkpoint, 4),
                )
            },
            EngineNews::Ready => StartStep::Run(status_report(ServiceState::Running, true, 0, 0)),
            EngineNews::Failed(why) => StartStep::Fail(
                stopped_report(ExitCode::ServiceSpecific(1)),
                why.clone(),
            ),
            EngineNews::Gone => StartStep::Fail(
                stopped_report(ExitCode::ServiceSpecific(1)),
                "engine thread exited before signalling ready".to_string(),
            ),
        }
    }
}

/// The last report of a service that was told to stop.
pub fn final_report() -> (report: Report)
    ensures
        report == Report::stopped(ExitCode::Win32(0)),
{
    stopped_report(ExitCode::Win32(0))
}

/// What the service manager is told: that it may ask for a stop only while the
/// service runs, that a start or a stop under way is at a checkpoint and how long
/// to wait for the next, and a stop's exit code.
pub proof fn law_reports(checkpoint: u32, exit_code: ExitCode)
    ensures
        Report::starting(checkpoint).state is StartPending,
        !Report::starting(checkpoint).accepts_stop,
        Report::starting(checkpoint).checkpoint == checkpoint,
        Report::starting(checkpoint).wait_hint_secs * 1000 > HEARTBEAT_MS,
        Report::running().state is Running,
        Report::running().accepts_stop,
        Report::running().checkpoint == 0,
        Report::stopping().state is StopPending,
        !Report::stopping().accepts_stop,
        Report::stopping().checkpoint > 0,
        Report::stopping().wait_hint_secs > 0,
        Report::stopped(exit_code).state is Stopped,
        !Report::stopped(exit_code).accepts_stop,
        Report::stopped(exit_code).exit_code == exit_code,
        Report::running().exit_code == ExitCode::Win32(0),
{
}

/// No two states have the same name.
pub proof fn law_states_are_told_apart(a: ServiceState, b: ServiceState)
    requires
        a.label_text() == b.label_text(),
    ensures
        a == b,
{
    reveal_strlit("Stopped");
    reveal_strlit("StartPending");
    reveal_strlit("StopPending");
    reveal_strlit("Running");
    reveal_strlit("ContinuePending");
    reveal_strlit("PausePending");
    reveal_strlit("Paused");
    assert("Stopped"@[0] == 'S' && "Running"@[0] == 'R');
    assert("StartPending"@[0] == 'S' && "PausePending"@[0] == 'P');
    assert(a.label_text().len() == b.label_text().len());
    assert(a.label_text()[0] == b.label_text()[0]);
    assert("Stopped"@.len() == 7);
    assert("StartPending"@.len() == 12);
    assert("StopPending"@.len() == 11);
    assert("Running"@.len() == 7);
    assert("ContinuePending"@.len() == 15);
    assert("PausePending"@.len() == 12);
    assert("Paused"@.len() == 6);
}

} // verus!
