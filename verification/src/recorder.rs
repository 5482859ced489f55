//! The recorder as a whole: what to do when a game starts, stops or gives way
//! to another, when the hotkey is pressed, and when a session fails.

use vstd::prelude::*;

use crate::capture;
use crate::capture::CaptureSession;
use crate::games;
use crate::games::GameEvent;

verus! {

/// What is being recorded.
pub struct Recorder {
    /// The game and its process, while a capture session records it.
    pub recording: Option<(String, u32)>,
}

/// What to do about a change of the running game: end the session, if there is
/// one, then begin another, if a game is to be recorded.
pub struct SessionPlan {
    pub stop: bool,
    pub start: Option<(String, u32)>,
}

/// What to do when the hotkey is pressed.
pub enum HotkeyAction {
    /// Save a clip of this game.
    Save(String),
    /// Nothing is being recorded.
    NoCapture,
}

/// What to do after a look at the session.
#[derive(Debug, Clone, Copy, PartialEq, Eq, Structural)]
pub enum HealthAction {
    /// End the session and begin another for the same game.
    Restart,
    /// Remember the frame count, and the time, for the next look.
    Remember,
    /// Look again later.
    Wait,
}

/// The line that tells what is being recorded.
pub open spec fn status(recording: Option<(Seq<char>, u32)>) -> Seq<char> {
    match recording {
        Some((name, _)) => "Snapple \u{2014} Recording "@ + name,
        None => "Snapple \u{2014} Idle"@,
    }
}

/// The game to record after an event, if any.
pub open spec fn game_to_record(event: games::Event) -> Option<(Seq<char>, u32)> {
    match event {
        games::Event::Started(name, pid) => Some((name, pid)),
        games::Event::Switched(name, pid) => Some((name, pid)),
        games::Event::Stopped => None,
    }
}

impl Recorder {
    /// The game and process that are being recorded.
    pub open spec fn game(&self) -> Option<(Seq<char>, u32)> {
        games::tracked_game(self.recording)
    }

    /// Nothing is being recorded.
    pub fn new() -> (recorder: Recorder)
        ensures
            recorder.game() is None,
    {
        Recorder { recording: None }
    }

    /// Takes note of a change of the running game, and says what to do. Until
    /// a session has begun nothing is being recorded.
    pub fn on_game_event(&mut self, event: GameEvent) -> (plan: SessionPlan)
        ensures
            final(self).game() is None,
            plan.stop == old(self).game() is Some,
            games::tracked_game(plan.start) == game_to_record(event@),
    {
        let stop = self.recording.is_some();
        self.recording = None;
        match event {
            GameEvent::Started { name, pid } => SessionPlan { stop, start: Some((name, pid)) },
            GameEvent::Switched { name, pid } => SessionPlan { stop, start: Some((name, pid)) },
            GameEvent::Stopped => SessionPlan { stop, start: None },
        }
    }

    /// Takes note of an attempt to begin a session for a game.
    pub fn on_session_start(&mut self, name: String, pid: u32, began: bool)
        ensures
            final(self).game() == if began {
                Some((name@, pid))
            } else {
                None
            },
    {
        if began {
            self.recording = Some((name, pid));
        } else {
            self.recording = None;
        }
    }

    /// The line that tells what is being recorded.
    pub fn status_text(&self) -> (line: String)
        ensures
            line@ == status(self.game()),
    {
        match &self.recording {
            Some((name, _)) => {
                let mut line = "Snapple \u{2014} Recording ".to_owned();
                line.append(name.as_str());
                line
            },
            None => "Snapple \u{2014} Idle".to_owned(),
        }
    }

    /// What to do when the hotkey is pressed: a clip is saved while a game is
    /// being recorded, and only then.
    pub fn on_hotkey(&self) -> (action: HotkeyAction)
        ensures
            match action {
                HotkeyAction::Save(name) => self.game() matches Some((game, _)) && name@ == game,
                HotkeyAction::NoCapture => self.game() is None,
            },
    {
        match &self.recording {
            Some((name, _)) => HotkeyAction::Save(name.clone()),
            None => HotkeyAction::NoCapture,
        }
    }

    /// What to do about a failed session: begin another for the game that was
    /// being recorded.
    pub fn on_failure(&mut self) -> (plan: SessionPlan)
        ensures
            final(self).game() is None,
            plan.stop == old(self).game() is Some,
            games::tracked_game(plan.start) == old(self).game(),
    {
        let stop = self.recording.is_some();
        let start = self.recording.take();
        SessionPlan { stop, start }
    }
}

/// The time between two looks at the session, in nanoseconds.
pub const LOOK_INTERVAL_NS: u128 = 1_000_000_000;

/// Whether the session is to be looked at again.
pub fn look_due(since_look_ns: u128) -> (r: bool)
    ensures
        r == (since_look_ns >= LOOK_INTERVAL_NS),
{
    since_look_ns >= LOOK_INTERVAL_NS
}

/// What to do after a look at the session: a failed one is begun anew, and one
/// whose frames advance is remembered each time that enough time has passed.
pub fn check_health(session: &CaptureSession, last_frame_count: u64, since_check_ns: u128) -> (action:
    HealthAction)
    ensures
        action == if session.has_failed(last_frame_count, since_check_ns) {
            HealthAction::Restart
        } else if since_check_ns >= capture::STALL_NS {
            HealthAction::Remember
        } else {
            HealthAction::Wait
        },
{
    if session.needs_restart(last_frame_count, since_check_ns) {
        HealthAction::Restart
    } else if since_check_ns >= capture::STALL_NS {
        HealthAction::Remember
    } else {
        HealthAction::Wait
    }
}

/// Whether the shutter sounds after an attempt to save a clip: only where the
/// clip was saved.
pub fn shutter_sounds<T, E>(outcome: &Result<T, E>) -> (r: bool)
    ensures
        r == outcome is Ok,
{
    match outcome {
        Ok(_) => true,
        Err(_) => false,
    }
}

/// Every change of the running game leads to a recording of the game that runs
/// then, and to none where no game does.
pub proof fn law_recording_follows_the_game(
    current: Option<(Seq<char>, u32)>,
    detected: Option<(Seq<char>, u32)>,
)
    ensures
        current != detected ==> games::event_between(current, detected) is Some,
        games::event_between(current, detected) matches Some(event) ==> game_to_record(event)
            == detected,
{
}

/// The status line ends with the name of the game that is recorded, whatever
/// its process, and two games are told apart.
pub proof fn law_status_names_the_game(name: Seq<char>, other: Seq<char>, pid: u32, other_pid: u32)
    ensures
        status(Some((name, pid))) == "Snapple \u{2014} Recording "@ + name,
        status(Some((name, pid))) == status(Some((other, other_pid))) <==> name == other,
        status(None) == "Snapple \u{2014} Idle"@,
{
    let prefix = "Snapple \u{2014} Recording "@;
    if prefix + name == prefix + other {
        assert((prefix + name).skip(prefix.len() as int) =~= name);
        assert((prefix + other).skip(prefix.len() as int) =~= other);
    }
}

/// Each event is followed: a game that starts or takes the place of another is
/// recorded, and none is once the last has stopped.
pub proof fn law_each_event_is_followed(name: Seq<char>, pid: u32)
    ensures
        game_to_record(games::Event::Started(name, pid)) == Some((name, pid)),
        game_to_record(games::Event::Switched(name, pid)) == Some((name, pid)),
        game_to_record(games::Event::Stopped) is None,
{
}

} // verus!
