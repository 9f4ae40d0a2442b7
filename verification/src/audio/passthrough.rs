//! The decisions of a plain session, which runs until the process is killed.
use vstd::prelude::*;

use super::engine::{stream_failure, DeviceError, Waited, RETRY_MS};
use crate::text::{glue, no_texts, one_text, texts, two_texts};

verus! {

/// How long a running session waits for a stream to fail before it waits again, in milliseconds.
pub const PATIENCE_MS: u64 = 5000;

/// What a session waits for.
#[derive(Clone, Copy, Debug, PartialEq, Eq, Structural)]
pub enum Stage {
    /// The streams to be made and to play.
    Opening,
    /// A stream to fail.
    Running,
    /// The end of a pause.
    Resting,
}

/// What came of the last thing to do.
pub enum SessionEvent {
    /// The streams play, or could not be made.
    Opened(Result<(), DeviceError>),
    Waited(Waited),
    Rested,
}

/// The next thing to do.
#[derive(Clone, Copy, Debug, PartialEq, Eq, Structural)]
pub enum SessionAction {
    /// Make the streams and play them.
    Open,
    /// Wait for a stream to fail, for this many milliseconds.
    Wait(u64),
    /// Pause for this many milliseconds.
    Rest(u64),
}

/// What a session does in one step.
pub struct SessionStep {
    /// What to tell the user.
    pub news: Vec<String>,
    /// What to warn the user of.
    pub warnings: Vec<String>,
    /// The streams are to be closed.
    pub release: bool,
    /// The next thing to do, after all that.
    pub next: SessionAction,
}

/// The event is one that a session in this stage waits for.
pub open spec fn spec_expects(stage: Stage, event: &SessionEvent) -> bool {
    match *event {
        SessionEvent::Opened(_) => stage is Opening,
        SessionEvent::Waited(_) => stage is Running,
        SessionEvent::Rested => stage is Resting,
    }
}

/// Whether the event is one that a session in this stage waits for.
#[verifier::when_used_as_spec(spec_expects)]
pub fn expects(stage: Stage, event: &SessionEvent) -> (r: bool)
    ensures
        r == spec_expects(stage, event),
{
    match event {
        SessionEvent::Opened(_) => matches!(stage, Stage::Opening),
        SessionEvent::Waited(_) => matches!(stage, Stage::Running),
        SessionEvent::Rested => matches!(stage, Stage::Resting),
    }
}

/// What is said when devices could not be opened.
pub open spec fn open_failure(e: DeviceError) -> Seq<Seq<char>> {
    match e {
        DeviceError::NotFound(msg) => seq![
            "Device not found: "@ + msg@,
            "Retrying in 2 seconds — plug in your device or check the name."@,
        ],
        DeviceError::StreamBuildFailed(msg) => seq![
            "Failed to start streams: "@ + msg@,
            "Retrying in 2 seconds..."@,
        ],
    }
}

/// How a session answers an event: the stage that it goes to, and the step that it takes.
pub open spec fn continues(event: SessionEvent, after: Stage, step: SessionStep) -> bool {
    let quiet = Seq::<Seq<char>>::empty();
    match event {
        SessionEvent::Opened(Ok(_)) => {
            &&& after is Running
            &&& texts(step.news@) == seq!["Running — press Ctrl+C to stop."@]
            &&& texts(step.warnings@) == quiet
            &&& !step.release
            &&& step.next == SessionAction::Wait(PATIENCE_MS)
        },
        SessionEvent::Opened(Err(e)) => {
            &&& after is Resting
            &&& texts(step.news@) == quiet
            &&& texts(step.warnings@) == open_failure(e)
            &&& !step.release
            &&& step.next == SessionAction::Rest(RETRY_MS)
        },
        SessionEvent::Waited(Waited::Timeout) => {
            &&& after is Running
            &&& texts(step.news@) == quiet
            &&& texts(step.warnings@) == quiet
            &&& !step.release
            &&& step.next == SessionAction::Wait(PATIENCE_MS)
        },
        SessionEvent::Waited(w) => {
            &&& after is Resting
            &&& texts(step.news@) == quiet
            &&& texts(step.warnings@) == stream_failure(w)
            &&& step.release
            &&& step.next == SessionAction::Rest(RETRY_MS)
        },
        SessionEvent::Rested => {
            &&& after is Opening
            &&& texts(step.news@) == quiet
            &&& texts(step.warnings@) == quiet
            &&& !step.release
            &&& step.next == SessionAction::Open
        },
    }
}

/// Takes one step.
pub fn session_step(stage: &mut Stage, event: SessionEvent) -> (step: SessionStep)
    requires
        expects(*old(stage), &event),
    ensures
        continues(event, *final(stage), step),
{
    match event {
        SessionEvent::Opened(Ok(_)) => {
            *stage = Stage::Running;
            SessionStep {
                news: one_text("Running — press Ctrl+C to stop.".to_owned()),
                warnings: no_texts(),
                release: false,
                next: SessionAction::Wait(PATIENCE_MS),
            }
        },
        SessionEvent::Opened(Err(e)) => {
            *stage = Stage::Resting;
            let warnings: Vec<String> = match e {
                DeviceError::NotFound(msg) => two_texts(
                    glue("Device not found: ", msg.as_str()),
                    "Retrying in 2 seconds — plug in your device or check the name.".to_owned(),
                ),
                DeviceError::StreamBuildFailed(msg) => two_texts(
                    glue("Failed to start streams: ", msg.as_str()),
                    "Retrying in 2 seconds...".to_owned(),
                ),
            };
            SessionStep {
                news: no_texts(),
                warnings,
                release: false,
                next: SessionAction::Rest(RETRY_MS),
            }
        },
        SessionEvent::Waited(Waited::Timeout) => SessionStep {
            news: no_texts(),
            warnings: no_texts(),
            release: false,
            next: SessionAction::Wait(PATIENCE_MS),
        },
        SessionEvent::Waited(Waited::Failed(msg)) => {
            *stage = Stage::Resting;
            SessionStep {
                news: no_texts(),
                warnings: two_texts(
                    glue("Stream error: ", msg.as_str()),
                    "Attempting to reconnect in 2 seconds...".to_owned(),
                ),
                release: true,
                next: SessionAction::Rest(RETRY_MS),
            }
        },
        SessionEvent::Waited(Waited::Closed) => {
            *stage = Stage::Resting;
            SessionStep {
                news: no_texts(),
                warnings: two_texts(
                    "Stream channel closed unexpectedly.".to_owned(),
                    "Attempting to reconnect in 2 seconds...".to_owned(),
                ),
                release: true,
                next: SessionAction::Rest(RETRY_MS),
            }
        },
        SessionEvent::Rested => {
            *stage = Stage::Opening;
            SessionStep {
                news: no_texts(),
                warnings: no_texts(),
                release: false,
                next: SessionAction::Open,
            }
        },
    }
}

/// A plain session goes on for ever: every failure, of a device or of a stream, is followed by a
/// pause of two seconds and another try.
pub proof fn law_session_tries_again(
    event: SessionEvent,
    rest: Stage,
    step: SessionStep,
    after: Stage,
    then: SessionStep,
)
    requires
        continues(event, rest, step),
        rest is Resting,
        continues(SessionEvent::Rested, after, then),
    ensures
        step.next == SessionAction::Rest(2000),
        after is Opening,
        then.next is Open,
{
}

} // verus!
