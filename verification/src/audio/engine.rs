//! The engine's decisions: when to open devices, when to start over, and what to say.
//!
//! The engine is driven from outside. It names the next thing to do; whoever drives it does that
//! thing and hands back what came of it.
use vstd::prelude::*;

use crate::state::Settings;
use crate::text::{glue, no_texts, one_text, texts, two_texts};

verus! {

/// Why streams could not be made.
#[derive(Debug)]
pub enum DeviceError {
    /// A device is not there.
    NotFound(String),
    /// A device is there, but it does not work as needed.
    StreamBuildFailed(String),
}

/// Commands to a running engine.
pub enum AudioCmd {
    ChangeDevices {
        input_name: Option<String>,
        output_name: Option<String>,
        monitor_name: Option<String>,
        monitor_enabled: bool,
    },
    UpdateSettings(Box<Settings>),
    Stop,
}

/// What came of waiting for a stream to fail.
pub enum Waited {
    /// Nothing failed within the time.
    Timeout,
    /// A stream failed, with this message.
    Failed(String),
    /// Nobody is left who could tell.
    Closed,
}

/// What an engine waits for.
#[derive(Clone, Copy, Debug, PartialEq, Eq, Structural)]
pub enum Phase {
    /// Commands that queued up before the devices are opened.
    Draining,
    /// The devices.
    Connecting,
    /// The input stream to play; a monitor stream may follow.
    PlayingInput { monitor: bool },
    /// The output stream to play; a monitor stream may follow.
    PlayingOutput { monitor: bool },
    /// The monitor stream to play.
    PlayingMonitor,
    /// A stream to fail.
    Running,
    /// Commands that queued up while the streams run.
    Serving,
    /// The end of a pause. Streams that did not play may still be open.
    Resting { holding: bool },
    /// Nothing any more.
    Stopped,
}

/// What came of the last thing to do.
pub enum EngineEvent {
    /// The next queued command, if there is one.
    Command(Option<AudioCmd>),
    /// The streams were made, with or without one for the monitor; or not.
    Started(Result<bool, DeviceError>),
    /// A stream plays, or does not.
    Played(Result<(), String>),
    Waited(Waited),
    Rested,
}

/// The next thing to do.
#[derive(Clone, Copy, Debug, PartialEq, Eq, Structural)]
pub enum EngineAction {
    /// Look for a queued command.
    PollCommand,
    /// Open the devices and make the streams.
    Start,
    PlayInput,
    PlayOutput,
    PlayMonitor,
    /// Wait for a stream to fail, for this many milliseconds.
    Wait(u64),
    /// Pause for this many milliseconds.
    Rest(u64),
    /// Leave.
    Exit,
}

/// What an engine does in one step.
pub struct EngineStep {
    /// What to tell the user.
    pub warnings: Vec<String>,
    /// Settings to post to the running output.
    pub post: Option<Settings>,
    /// The streams are to be closed.
    pub release: bool,
    /// The next thing to do, after all that.
    pub next: EngineAction,
}

/// How long a pause after a failure is, in milliseconds.
pub const RETRY_MS: u64 = 2000;

/// How long a pause before other devices are opened is, in milliseconds.
pub const CHANGE_MS: u64 = 100;

/// How often a running engine looks for commands, in milliseconds.
pub const POLL_MS: u64 = 200;

/// An engine: the devices and settings in force, and what it waits for.
pub struct Engine {
    pub input_name: Option<String>,
    pub output_name: Option<String>,
    pub monitor_name: Option<String>,
    pub monitor_enabled: bool,
    pub settings: Settings,
    pub phase: Phase,
}

/// The engine goes on to wait for `phase`, with the same devices and settings.
pub open spec fn moved(e: Engine, phase: Phase) -> Engine {
    Engine { phase, ..e }
}

/// The engine took on the devices or settings of a command.
pub open spec fn informed(e: Engine, cmd: AudioCmd) -> Engine {
    match cmd {
        AudioCmd::ChangeDevices { input_name, output_name, monitor_name, monitor_enabled } => Engine {
            input_name,
            output_name,
            monitor_name,
            monitor_enabled,
            ..e
        },
        AudioCmd::UpdateSettings(s) => Engine { settings: *s, ..e },
        AudioCmd::Stop => e,
    }
}

/// A step says these things, posts nothing, and goes on with `next`.
pub open spec fn says(step: EngineStep, lines: Seq<Seq<char>>, release: bool, next: EngineAction) -> bool {
    &&& texts(step.warnings@) == lines
    &&& step.post is None
    &&& step.release == release
    &&& step.next == next
}

/// A step that says nothing.
pub open spec fn quiet(step: EngineStep, release: bool, next: EngineAction) -> bool {
    says(step, Seq::empty(), release, next)
}

/// What is said when devices could not be opened.
pub open spec fn start_failure(e: DeviceError) -> Seq<Seq<char>> {
    match e {
        DeviceError::NotFound(msg) => seq![
            "Device not found: "@ + msg@,
            "Retrying in 2 seconds..."@,
        ],
        DeviceError::StreamBuildFailed(msg) => seq![
            "Failed to start streams: "@ + msg@,
            "Retrying in 2 seconds..."@,
        ],
    }
}

/// What is said when a running stream failed.
pub open spec fn stream_failure(w: Waited) -> Seq<Seq<char>> {
    match w {
        Waited::Failed(msg) => seq![
            "Stream error: "@ + msg@,
            "Attempting to reconnect in 2 seconds..."@,
        ],
        _ => seq![
            "Stream channel closed unexpectedly."@,
            "Attempting to reconnect in 2 seconds..."@,
        ],
    }
}

impl Engine {
    /// The event is one that the engine waits for.
    pub open spec fn spec_awaits(&self, event: &EngineEvent) -> bool {
        match *event {
            EngineEvent::Command(_) => self.phase is Draining || self.phase is Serving,
            EngineEvent::Started(_) => self.phase is Connecting,
            EngineEvent::Played(_) => self.phase is PlayingInput || self.phase is PlayingOutput
                || self.phase is PlayingMonitor,
            EngineEvent::Waited(_) => self.phase is Running,
            EngineEvent::Rested => self.phase is Resting,
        }
    }

    /// Whether the event is one that the engine waits for.
    #[verifier::when_used_as_spec(spec_awaits)]
    pub fn awaits(&self, event: &EngineEvent) -> (r: bool)
        ensures
            r == self.spec_awaits(event),
    {
        match event {
            EngineEvent::Command(_) => matches!(self.phase, Phase::Draining)
                || matches!(self.phase, Phase::Serving),
            EngineEvent::Started(_) => matches!(self.phase, Phase::Connecting),
            EngineEvent::Played(_) => matches!(self.phase, Phase::PlayingInput { .. })
                || matches!(self.phase, Phase::PlayingOutput { .. }) || matches!(
                self.phase,
                Phase::PlayingMonitor,
            ),
            EngineEvent::Waited(_) => matches!(self.phase, Phase::Running),
            EngineEvent::Rested => matches!(self.phase, Phase::Resting { .. }),
        }
    }

    /// The engine holds open streams.
    pub open spec fn holding(self) -> bool {
        match self.phase {
            Phase::PlayingInput { .. } => true,
            Phase::PlayingOutput { .. } => true,
            Phase::PlayingMonitor => true,
            Phase::Running => true,
            Phase::Serving => true,
            Phase::Resting { holding } => holding,
            _ => false,
        }
    }

    /// How an engine answers an event: the engine as it is `after`, and the `step` that it takes.
    pub open spec fn answers(self, event: EngineEvent, after: Engine, step: EngineStep) -> bool {
        match (self.phase, event) {
            // before the devices are opened, every queued command counts
            (Phase::Draining, EngineEvent::Command(None)) => {
                &&& after == moved(self, Phase::Connecting)
                &&& quiet(step, false, EngineAction::Start)
            },
            (Phase::Draining, EngineEvent::Command(Some(AudioCmd::Stop))) => {
                &&& after == moved(self, Phase::Stopped)
                &&& quiet(step, false, EngineAction::Exit)
            },
            (Phase::Draining, EngineEvent::Command(Some(cmd))) => {
                &&& after == informed(self, cmd)
                &&& quiet(step, false, EngineAction::PollCommand)
            },
            // opening and starting, one stream after the other
            (Phase::Connecting, EngineEvent::Started(Ok(monitor))) => {
                &&& after == moved(self, Phase::PlayingInput { monitor })
                &&& quiet(step, false, EngineAction::PlayInput)
            },
            (Phase::Connecting, EngineEvent::Started(Err(e))) => {
                &&& after == moved(self, Phase::Resting { holding: false })
                &&& says(step, start_failure(e), false, EngineAction::Rest(RETRY_MS))
            },
            (Phase::PlayingInput { monitor }, EngineEvent::Played(Ok(_))) => {
                &&& after == moved(self, Phase::PlayingOutput { monitor })
                &&& quiet(step, false, EngineAction::PlayOutput)
            },
            (Phase::PlayingInput { .. }, EngineEvent::Played(Err(e))) => {
                &&& after == moved(self, Phase::Resting { holding: true })
                &&& says(
                    step,
                    seq!["Failed to start input stream: "@ + e@],
                    false,
                    EngineAction::Rest(RETRY_MS),
                )
            },
            (Phase::PlayingOutput { monitor }, EngineEvent::Played(Ok(_))) => if monitor {
                &&& after == moved(self, Phase::PlayingMonitor)
                &&& quiet(step, false, EngineAction::PlayMonitor)
            } else {
                &&& after == moved(self, Phase::Running)
                &&& quiet(step, false, EngineAction::Wait(POLL_MS))
            },
            (Phase::PlayingOutput { .. }, EngineEvent::Played(Err(e))) => {
                &&& after == moved(self, Phase::Resting { holding: true })
                &&& says(
                    step,
                    seq!["Failed to start output stream: "@ + e@],
                    false,
                    EngineAction::Rest(RETRY_MS),
                )
            },
            // without the monitor the engine runs on
            (Phase::PlayingMonitor, EngineEvent::Played(Ok(_))) => {
                &&& after == moved(self, Phase::Running)
                &&& quiet(step, false, EngineAction::Wait(POLL_MS))
            },
            (Phase::PlayingMonitor, EngineEvent::Played(Err(e))) => {
                &&& after == moved(self, Phase::Running)
                &&& says(
                    step,
                    seq!["Warning: failed to start monitor stream: "@ + e@],
                    false,
                    EngineAction::Wait(POLL_MS),
                )
            },
            // running
            (Phase::Running, EngineEvent::Waited(Waited::Timeout)) => {
                &&& after == moved(self, Phase::Serving)
                &&& quiet(step, false, EngineAction::PollCommand)
            },
            (Phase::Running, EngineEvent::Waited(w)) => {
                &&& after == moved(self, Phase::Resting { holding: false })
                &&& says(step, stream_failure(w), true, EngineAction::Rest(RETRY_MS))
            },
            (Phase::Serving, EngineEvent::Command(None)) => {
                &&& after == moved(self, Phase::Running)
                &&& quiet(step, false, EngineAction::Wait(POLL_MS))
            },
            (Phase::Serving, EngineEvent::Command(Some(AudioCmd::Stop))) => {
                &&& after == moved(self, Phase::Stopped)
                &&& quiet(step, true, EngineAction::Exit)
            },
            (Phase::Serving, EngineEvent::Command(Some(AudioCmd::UpdateSettings(s)))) => {
                &&& after == informed(self, AudioCmd::UpdateSettings(s))
                &&& texts(step.warnings@) == Seq::<Seq<char>>::empty()
                &&& step.post == Some(*s)
                &&& !step.release
                &&& step.next == EngineAction::PollCommand
            },
            (Phase::Serving, EngineEvent::Command(Some(cmd))) => {
                &&& after == moved(informed(self, cmd), Phase::Resting { holding: false })
                &&& says(
                    step,
                    seq!["Device change requested, reconnecting..."@],
                    true,
                    EngineAction::Rest(CHANGE_MS),
                )
            },
            // after a pause everything starts over
            (Phase::Resting { holding }, EngineEvent::Rested) => {
                &&& after == moved(self, Phase::Draining)
                &&& quiet(step, holding, EngineAction::PollCommand)
            },
            _ => false,
        }
    }

    /// An engine for the given devices and settings; the first thing to do is to look for a
    /// queued command.
    pub fn new(
        input: Option<String>,
        output: Option<String>,
        settings: Settings,
        monitor: Option<String>,
        monitor_enabled: bool,
    ) -> (r: (Engine, EngineAction))
        ensures
            r.0 == (Engine {
                input_name: input,
                output_name: output,
                monitor_name: monitor,
                monitor_enabled,
                settings,
                phase: Phase::Draining,
            }),
            r.1 == EngineAction::PollCommand,
    {
        (
            Engine {
                input_name: input,
                output_name: output,
                monitor_name: monitor,
                monitor_enabled,
                settings,
                phase: Phase::Draining,
            },
            EngineAction::PollCommand,
        )
    }

    fn step_to(&mut self, phase: Phase, warnings: Vec<String>, release: bool, next: EngineAction) -> (step:
        EngineStep)
        ensures
            *final(self) == moved(*old(self), phase),
            says(step, texts(warnings@), release, next),
    {
        self.phase = phase;
        EngineStep { warnings, post: None, release, next }
    }

    fn go(&mut self, phase: Phase, release: bool, next: EngineAction) -> (step: EngineStep)
        ensures
            *final(self) == moved(*old(self), phase),
            quiet(step, release, next),
    {
        self.step_to(phase, no_texts(), release, next)
    }

    fn on_command(&mut self, cmd: Option<AudioCmd>) -> (step: EngineStep)
        requires
            old(self).phase is Draining || old(self).phase is Serving,
        ensures
            old(self).answers(EngineEvent::Command(cmd), *final(self), step),
    {
        let serving: bool = matches!(self.phase, Phase::Serving);
        match cmd {
            None => {
                if serving {
                    self.go(Phase::Running, false, EngineAction::Wait(POLL_MS))
                } else {
                    self.go(Phase::Connecting, false, EngineAction::Start)
                }
            },
            Some(AudioCmd::Stop) => self.go(Phase::Stopped, serving, EngineAction::Exit),
            Some(AudioCmd::UpdateSettings(s)) => {
                self.settings = (*s).clone();
                EngineStep {
                    warnings: no_texts(),
                    post: if serving {
                        Some((*s).clone())
                    } else {
                        None
                    },
                    release: false,
                    next: EngineAction::PollCommand,
                }
            },
            Some(
                AudioCmd::ChangeDevices { input_name, output_name, monitor_name, monitor_enabled },
            ) => {
                self.input_name = input_name;
                self.output_name = output_name;
                self.monitor_name = monitor_name;
                self.monitor_enabled = monitor_enabled;
                if serving {
                    self.step_to(
                        Phase::Resting { holding: false },
                        one_text("Device change requested, reconnecting...".to_owned()),
                        true,
                        EngineAction::Rest(CHANGE_MS),
                    )
                } else {
                    let same: Phase = self.phase;
                    self.go(same, false, EngineAction::PollCommand)
                }
            },
        }
    }

    fn on_started(&mut self, made: Result<bool, DeviceError>) -> (step: EngineStep)
        requires
            old(self).phase is Connecting,
        ensures
            old(self).answers(EngineEvent::Started(made), *final(self), step),
    {
        match made {
            Ok(monitor) => self.go(
                Phase::PlayingInput { monitor },
                false,
                EngineAction::PlayInput,
            ),
            Err(DeviceError::NotFound(msg)) => {
                let lines: Vec<String> = two_texts(
                    glue("Device not found: ", msg.as_str()),
                    "Retrying in 2 seconds...".to_owned(),
                );
                self.step_to(
                    Phase::Resting { holding: false },
                    lines,
                    false,
                    EngineAction::Rest(RETRY_MS),
                )
            },
            Err(DeviceError::StreamBuildFailed(msg)) => {
                let lines: Vec<String> = two_texts(
                    glue("Failed to start streams: ", msg.as_str()),
                    "Retrying in 2 seconds...".to_owned(),
                );
                self.step_to(
                    Phase::Resting { holding: false },
                    lines,
                    false,
                    EngineAction::Rest(RETRY_MS),
                )
            },
        }
    }

    fn on_played(&mut self, played: Result<(), String>) -> (step: EngineStep)
        requires
            old(self).phase is PlayingInput || old(self).phase is PlayingOutput || old(
                self,
            ).phase is PlayingMonitor,
        ensures
            old(self).answers(EngineEvent::Played(played), *final(self), step),
    {
        match (self.phase, played) {
            (Phase::PlayingInput { monitor }, Ok(_)) => self.go(
                Phase::PlayingOutput { monitor },
                false,
                EngineAction::PlayOutput,
            ),
            (Phase::PlayingInput { .. }, Err(e)) => self.step_to(
                Phase::Resting { holding: true },
                one_text(glue("Failed to start input stream: ", e.as_str())),
                false,
                EngineAction::Rest(RETRY_MS),
            ),
            (Phase::PlayingOutput { monitor }, Ok(_)) => if monitor {
                self.go(Phase::PlayingMonitor, false, EngineAction::PlayMonitor)
            } else {
                self.go(Phase::Running, false, EngineAction::Wait(POLL_MS))
            },
            (Phase::PlayingOutput { .. }, Err(e)) => self.step_to(
                Phase::Resting { holding: true },
                one_text(glue("Failed to start output stream: ", e.as_str())),
                false,
                EngineAction::Rest(RETRY_MS),
            ),
            (_, Ok(_)) => self.go(Phase::Running, false, EngineAction::Wait(POLL_MS)),
            (_, Err(e)) => self.step_to(
                Phase::Running,
                one_text(glue("Warning: failed to start monitor stream: ", e.as_str())),
                false,
                EngineAction::Wait(POLL_MS),
            ),
        }
    }

    fn on_waited(&mut self, waited: Waited) -> (step: EngineStep)
        requires
            old(self).phase is Running,
        ensures
            old(self).answers(EngineEvent::Waited(waited), *final(self), step),
    {
        let lines: Vec<String> = match waited {
            Waited::Timeout => {
                return self.go(Phase::Serving, false, EngineAction::PollCommand);
            },
            Waited::Failed(msg) => two_texts(
                glue("Stream error: ", msg.as_str()),
                "Attempting to reconnect in 2 seconds...".to_owned(),
            ),
            Waited::Closed => two_texts(
                "Stream channel closed unexpectedly.".to_owned(),
                "Attempting to reconnect in 2 seconds...".to_owned(),
            ),
        };
        self.step_to(
            Phase::Resting { holding: false },
            lines,
            true,
            EngineAction::Rest(RETRY_MS),
        )
    }

    /// Takes one step.
    pub fn step(&mut self, event: EngineEvent) -> (step: EngineStep)
        requires
            old(self).awaits(&event),
        ensures
            old(self).answers(event, *final(self), step),
    {
        match event {
            EngineEvent::Command(cmd) => self.on_command(cmd),
            EngineEvent::Started(made) => self.on_started(made),
            EngineEvent::Played(played) => self.on_played(played),
            EngineEvent::Waited(waited) => self.on_waited(waited),
            EngineEvent::Rested => {
                let holding: bool = matches!(self.phase, Phase::Resting { holding: true });
                self.go(Phase::Draining, holding, EngineAction::PollCommand)
            },
        }
    }
}

/// What an engine in a phase has asked for.
pub open spec fn asked(phase: Phase, action: EngineAction) -> bool {
    match phase {
        Phase::Draining => action is PollCommand,
        Phase::Connecting => action is Start,
        Phase::PlayingInput { .. } => action is PlayInput,
        Phase::PlayingOutput { .. } => action is PlayOutput,
        Phase::PlayingMonitor => action is PlayMonitor,
        Phase::Running => action is Wait,
        Phase::Serving => action is PollCommand,
        Phase::Resting { .. } => action is Rest,
        Phase::Stopped => action is Exit,
    }
}

/// After every step an engine waits for exactly what it asked for.
pub proof fn law_engine_waits_for_what_it_asked(
    e: Engine,
    event: EngineEvent,
    after: Engine,
    step: EngineStep,
)
    requires
        e.awaits(&event),
        e.answers(event, after, step),
    ensures
        asked(after.phase, step.next),
{
}

/// Streams are opened only when none are open, and closed only when some are: an engine holds
/// streams after a step if and only if they were just made, or were held and not closed.
pub proof fn law_engine_opens_and_closes_in_turn(
    e: Engine,
    event: EngineEvent,
    after: Engine,
    step: EngineStep,
)
    requires
        e.awaits(&event),
        e.answers(event, after, step),
    ensures
        step.release ==> e.holding(),
        step.next is Start ==> !after.holding(),
        event is Started ==> !e.holding(),
        after.holding() <==> (event matches EngineEvent::Started(Ok(_))) || (e.holding()
            && !step.release),
{
}

/// A command to stop ends the engine: it closes what is open, leaves, and waits for nothing more.
pub proof fn law_engine_stops(e: Engine, after: Engine, step: EngineStep, later: EngineEvent)
    requires
        e.awaits(&EngineEvent::Command(Some(AudioCmd::Stop))),
        e.answers(EngineEvent::Command(Some(AudioCmd::Stop)), after, step),
    ensures
        step.next is Exit,
        step.release == e.holding(),
        !after.holding(),
        !after.awaits(&later),
{
}

/// Devices and settings change by commands only, and to what the command says.
pub proof fn law_engine_changes_by_command_only(
    e: Engine,
    event: EngineEvent,
    after: Engine,
    step: EngineStep,
)
    requires
        e.awaits(&event),
        e.answers(event, after, step),
    ensures
        match event {
            EngineEvent::Command(Some(cmd)) => after == moved(informed(e, cmd), after.phase),
            _ => after == moved(e, after.phase),
        },
{
}

/// No failure ends the engine: only a command to stop does.
pub proof fn law_engine_goes_on(e: Engine, event: EngineEvent, after: Engine, step: EngineStep)
    requires
        e.awaits(&event),
        e.answers(event, after, step),
    ensures
        after.phase is Stopped <==> event matches EngineEvent::Command(Some(AudioCmd::Stop)),
{
}

} // verus!
