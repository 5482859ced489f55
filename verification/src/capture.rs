//! A capture session: whether it is alive, what part of the surface is
//! recorded, which window or monitor is captured, and when frames are due.

use vstd::prelude::*;

use crate::text;
use crate::text::{parse_u32, parse_usize, same_text};

verus! {

// ---------------------------------------------------------------------------
// Health
// ---------------------------------------------------------------------------

/// The state of a capture session at one moment.
#[derive(Debug, Clone, Copy, PartialEq, Eq, Structural)]
pub struct CaptureSession {
    /// Whether the capture thread is still running.
    pub running: bool,
    /// Whether frames are being recorded. Until then a standing frame count
    /// says nothing: finding the content size and connecting the sound take
    /// their time.
    pub warmup_done: bool,
    /// Frames recorded since the session began.
    pub frame_counter: u64,
}

/// The time without a new frame after which a session counts as stalled, in
/// nanoseconds.
pub const STALL_NS: u128 = 5_000_000_000;

impl CaptureSession {
    /// A session that has just begun.
    pub fn start() -> (session: CaptureSession)
        ensures
            session == (CaptureSession { running: true, warmup_done: false, frame_counter: 0 }),
    {
        CaptureSession { running: true, warmup_done: false, frame_counter: 0 }
    }

    /// Frames recorded since the session began.
    pub fn frame_count(&self) -> (n: u64)
        ensures
            n == self.frame_counter,
    {
        self.frame_counter
    }

    /// Whether the capture thread is still running.
    pub fn is_running(&self) -> (r: bool)
        ensures
            r == self.running,
    {
        self.running
    }

    /// Whether the session is to be torn down and begun anew: it has ended,
    /// or it has recorded no frame since the last check, which saw
    /// `last_frame_count` and lies `since_check_ns` back.
    pub open spec fn has_failed(&self, last_frame_count: u64, since_check_ns: u128) -> bool {
        !self.running || (self.warmup_done && since_check_ns >= STALL_NS && self.frame_counter
            == last_frame_count)
    }

    /// Whether the session is to be torn down and begun anew.
    pub fn needs_restart(&self, last_frame_count: u64, since_check_ns: u128) -> (r: bool)
        ensures
            r == self.has_failed(last_frame_count, since_check_ns),
    {
        if !self.is_running() {
            return true;
        }
        if !self.warmup_done {
            return false;
        }
        if since_check_ns >= STALL_NS {
            self.frame_count() == last_frame_count
        } else {
            false
        }
    }

    /// Takes note of a frame that has been written to the encoder.
    pub fn recorded(&mut self)
        requires
            old(self).frame_counter < u64::MAX,
        ensures
            *final(self) == (CaptureSession {
                frame_counter: (old(self).frame_counter + 1) as u64,
                ..*old(self)
            }),
            forall|capture: CaptureLoop|
                *final(self) == #[trigger] session_after(
                    capture,
                    *old(self),
                    CaptureEvent::Recorded,
                ),
    {
        self.frame_counter = self.frame_counter + 1;
    }

    /// Ends the session.
    pub fn stop(&mut self)
        ensures
            *final(self) == (CaptureSession { running: false, ..*old(self) }),
            forall|capture: CaptureLoop|
                *final(self) == #[trigger] session_after(capture, *old(self), CaptureEvent::Stopped),
    {
        self.running = false;
    }
}

// ---------------------------------------------------------------------------
// Content size
// ---------------------------------------------------------------------------

/// A side as the system reports it, taken as unsigned and held to the side of
/// the surface.
pub open spec fn held_side(reported: i32, surface: u32) -> int {
    let side = if reported < 0 {
        reported + 0x1_0000_0000
    } else {
        reported as int
    };
    if side < surface {
        side
    } else {
        surface as int
    }
}

/// A side as the system reports it, held to the side of the surface.
pub fn hold_side(reported: i32, surface: u32) -> (side: u32)
    ensures
        side == held_side(reported, surface),
{
    let unsigned: u32 = reported as u32;
    assert(reported < 0 ==> unsigned == reported + 0x1_0000_0000) by (bit_vector)
        requires
            unsigned == reported as u32,
    ;
    assert(reported >= 0 ==> unsigned == reported) by (bit_vector)
        requires
            unsigned == reported as u32,
    ;
    if unsigned < surface {
        unsigned
    } else {
        surface
    }
}

/// The time for which the content size is looked for, in nanoseconds.
pub const PROBE_NS: u128 = 1_000_000_000;

/// Whether the content size is looked for further: while the session runs, for
/// a second.
pub fn keeps_probing(session: &CaptureSession, since_begin_ns: u128) -> (r: bool)
    ensures
        r == (session.running && since_begin_ns < PROBE_NS),
{
    since_begin_ns < PROBE_NS && session.is_running()
}

/// The time for which frames are held back until the sound is ready, in
/// nanoseconds.
pub const SOUND_WAIT_NS: u128 = 10_000_000_000;

/// Whether frames are held back further, so that sound and video start
/// together: until the sound is ready, while the session runs, and for ten
/// seconds at most.
pub fn waits_for_sound(session: &CaptureSession, ready: bool, since_begin_ns: u128) -> (r: bool)
    ensures
        r == (!ready && session.running && since_begin_ns < SOUND_WAIT_NS),
{
    !ready && session.is_running() && since_begin_ns < SOUND_WAIT_NS
}

/// The largest content seen so far on a surface.
#[derive(Debug, Clone, Copy, PartialEq, Eq, Structural)]
pub struct ContentProbe {
    pub surface_w: u32,
    pub surface_h: u32,
    pub best_w: u32,
    pub best_h: u32,
}

/// The larger of the best content so far and a new one, by area; the first of
/// equals.
pub open spec fn larger_content(best: (int, int), seen: (int, int)) -> (int, int) {
    if seen.0 * seen.1 > best.0 * best.1 {
        seen
    } else {
        best
    }
}

/// The largest of the contents seen, by area; the first of equals.
pub open spec fn largest_content(seen: Seq<(int, int)>) -> (int, int)
    decreases seen.len(),
{
    if seen.len() == 0 {
        (0, 0)
    } else {
        larger_content(largest_content(seen.drop_last()), seen.last())
    }
}

impl ContentProbe {
    /// The largest content so far.
    pub open spec fn best(&self) -> (int, int) {
        (self.best_w as int, self.best_h as int)
    }

    /// The largest content so far lies within the surface.
    pub open spec fn well_formed(&self) -> bool {
        self.best_w <= self.surface_w && self.best_h <= self.surface_h
    }

    /// No content has been seen.
    pub fn new(surface_w: u32, surface_h: u32) -> (probe: ContentProbe)
        ensures
            probe.well_formed(),
            probe.surface_w == surface_w,
            probe.surface_h == surface_h,
            probe.best() == largest_content(Seq::empty()),
    {
        ContentProbe { surface_w, surface_h, best_w: 0, best_h: 0 }
    }

    /// Takes note of the content size of a frame.
    pub fn observe(&mut self, width: i32, height: i32)
        ensures
            old(self).well_formed() ==> final(self).well_formed(),
            final(self).surface_w == old(self).surface_w,
            final(self).surface_h == old(self).surface_h,
            final(self).best() == larger_content(
                old(self).best(),
                (
                    held_side(width, old(self).surface_w),
                    held_side(height, old(self).surface_h),
                ),
            ),
    {
        let w: u32 = hold_side(width, self.surface_w);
        let h: u32 = hold_side(height, self.surface_h);
        assert(0 <= w * h <= u32::MAX * u32::MAX) by (nonlinear_arith)
            requires
                w <= u32::MAX,
                h <= u32::MAX,
        ;
        assert(0 <= self.best_w * self.best_h <= u32::MAX * u32::MAX) by (nonlinear_arith)
            requires
                self.best_w <= u32::MAX,
                self.best_h <= u32::MAX,
        ;
        let area: u64 = w as u64 * h as u64;
        let best_area: u64 = self.best_w as u64 * self.best_h as u64;
        if area > best_area {
            self.best_w = w;
            self.best_h = h;
        }
    }

    /// The content size to record: the largest seen, or what was recorded
    /// before where none was seen.
    pub fn content(&self, previous_w: u32, previous_h: u32) -> (size: (u32, u32))
        ensures
            (size.0 as int, size.1 as int) == if self.best_w > 0 && self.best_h > 0 {
                self.best()
            } else {
                (previous_w as int, previous_h as int)
            },
    {
        if self.best_w > 0 && self.best_h > 0 {
            (self.best_w, self.best_h)
        } else {
            (previous_w, previous_h)
        }
    }
}

/// What to do with a frame.
#[derive(Debug, Clone, Copy, PartialEq, Eq, Structural)]
pub enum FrameAction {
    /// The content has outgrown what is recorded: begin anew with its size.
    Restart,
    /// Convert this part of the frame.
    Convert { src_w: u32, src_h: u32 },
}

/// What to do with a frame whose content size the system reports, when
/// content of another size is being recorded from the surface.
pub fn frame_action(
    width: i32,
    height: i32,
    surface_w: u32,
    surface_h: u32,
    content_w: u32,
    content_h: u32,
) -> (action: FrameAction)
    ensures
        ({
            let w = held_side(width, surface_w);
            let h = held_side(height, surface_h);
            match action {
                FrameAction::Restart => w > content_w || h > content_h,
                FrameAction::Convert { src_w, src_h } => w <= content_w && h <= content_h && src_w
                    == w && src_h == h,
            }
        }),
{
    let w: u32 = hold_side(width, surface_w);
    let h: u32 = hold_side(height, surface_h);
    if w > content_w || h > content_h {
        FrameAction::Restart
    } else {
        FrameAction::Convert { src_w: w, src_h: h }
    }
}

/// Where a capture stands.
#[derive(Debug, Clone, Copy, PartialEq, Eq, Structural)]
pub enum Phase {
    /// The content size is being found out.
    Probing,
    /// The encoder is to be started.
    Starting,
    /// Frames are being recorded.
    Recording,
    /// The capture is over.
    Ended,
}

/// What happens in the course of a capture.
pub enum CaptureEvent {
    /// The contents on the surface have been looked at.
    Probed(ContentProbe),
    /// The encoder has been started, or could not be.
    EncoderStarted(bool),
    /// A frame has come, with the content size that the system reports.
    Frame(i32, i32),
    /// A frame has been converted and can be written.
    Converted,
    /// A frame has been written to the encoder.
    Recorded,
    /// A frame could not be written to the encoder.
    PipeBroken,
    /// The graphics device is lost.
    DeviceLost,
    /// The session has been stopped from outside.
    Stopped,
    /// It was asked whether the capture goes on, of a session that runs or
    /// not.
    Asked(bool),
    /// The capture thread is about to end.
    Over,
}

/// The course of a capture: the content size is found out, the encoder is
/// started for it, frames are recorded; and all begins anew when the content
/// outgrows what is recorded, until the capture ends.
#[derive(Debug, Clone, Copy, PartialEq, Eq, Structural)]
pub struct CaptureLoop {
    pub surface_w: u32,
    pub surface_h: u32,
    pub content_w: u32,
    pub content_h: u32,
    pub phase: Phase,
    /// Whether there is a frame to write.
    pub has_frame: bool,
}

impl CaptureLoop {
    /// The content that is recorded lies within the surface, and there is a
    /// frame to write only while frames are recorded.
    pub open spec fn well_formed(&self) -> bool {
        &&& self.content_w <= self.surface_w
        &&& self.content_h <= self.surface_h
        &&& self.has_frame ==> self.phase == Phase::Recording
    }

    /// The capture that begins once everything is set up to capture a surface
    /// of this size. Where that has failed there is none, and the session ends.
    pub fn begin(surface: Option<(u32, u32)>, session: &mut CaptureSession) -> (capture: Option<
        CaptureLoop,
    >)
        ensures
            match surface {
                Some((w, h)) => {
                    &&& *final(session) == *old(session)
                    &&& capture == Some(
                        CaptureLoop {
                            surface_w: w,
                            surface_h: h,
                            content_w: w,
                            content_h: h,
                            phase: Phase::Probing,
                            has_frame: false,
                        },
                    )
                },
                None => {
                    &&& *final(session) == (CaptureSession { running: false, ..*old(session) })
                    &&& capture is None
                },
            },
    {
        match surface {
            Some((w, h)) => Some(CaptureLoop::new(w, h)),
            None => {
                session.stop();
                None
            },
        }
    }

    /// A capture of a surface: its whole is recorded until the content size is
    /// known.
    pub fn new(surface_w: u32, surface_h: u32) -> (capture: CaptureLoop)
        ensures
            capture.well_formed(),
            capture == (CaptureLoop {
                surface_w,
                surface_h,
                content_w: surface_w,
                content_h: surface_h,
                phase: Phase::Probing,
                has_frame: false,
            }),
    {
        CaptureLoop {
            surface_w,
            surface_h,
            content_w: surface_w,
            content_h: surface_h,
            phase: Phase::Probing,
            has_frame: false,
        }
    }

    /// Takes note of the contents seen on the surface: the largest is
    /// recorded, or what was recorded before where none was seen.
    pub fn probed(&mut self, probe: &ContentProbe)
        requires
            old(self).well_formed(),
            old(self).phase == Phase::Probing,
            probe.well_formed(),
            probe.surface_w == old(self).surface_w,
            probe.surface_h == old(self).surface_h,
        ensures
            final(self).well_formed(),
            *final(self) == (CaptureLoop {
                content_w: final(self).content_w,
                content_h: final(self).content_h,
                phase: Phase::Starting,
                ..*old(self)
            }),
            (final(self).content_w as int, final(self).content_h as int) == if probe.best_w > 0
                && probe.best_h > 0 {
                probe.best()
            } else {
                (old(self).content_w as int, old(self).content_h as int)
            },
            *final(self) == capture_after(*old(self), CaptureEvent::Probed(*probe)),
    {
        let (w, h) = probe.content(self.content_w, self.content_h);
        self.content_w = w;
        self.content_h = h;
        self.phase = Phase::Starting;
    }

    /// Takes note of an attempt to start the encoder: with it recording begins,
    /// and the session has warmed up; without it the capture is over.
    pub fn encoder_started(&mut self, started: bool, session: &mut CaptureSession)
        requires
            old(self).well_formed(),
            old(self).phase == Phase::Starting,
        ensures
            final(self).well_formed(),
            *final(self) == (CaptureLoop {
                phase: if started {
                    Phase::Recording
                } else {
                    Phase::Ended
                },
                ..*old(self)
            }),
            *final(session) == if started {
                CaptureSession { warmup_done: true, ..*old(session) }
            } else {
                *old(session)
            },
            *final(self) == capture_after(*old(self), CaptureEvent::EncoderStarted(started)),
            *final(session) == session_after(
                *old(self),
                *old(session),
                CaptureEvent::EncoderStarted(started),
            ),
    {
        if started {
            self.phase = Phase::Recording;
            session.warmup_done = true;
        } else {
            self.phase = Phase::Ended;
        }
    }

    /// Takes note of a frame, and says what to do with it. Where the content
    /// has outgrown what is recorded the encoder is shut down and the capture
    /// begins anew.
    pub fn on_frame(&mut self, width: i32, height: i32) -> (action: FrameAction)
        requires
            old(self).well_formed(),
            old(self).phase == Phase::Recording,
        ensures
            final(self).well_formed(),
            ({
                let w = held_side(width, old(self).surface_w);
                let h = held_side(height, old(self).surface_h);
                match action {
                    FrameAction::Restart => {
                        &&& w > old(self).content_w || h > old(self).content_h
                        &&& *final(self) == (CaptureLoop {
                            phase: Phase::Probing,
                            has_frame: false,
                            ..*old(self)
                        })
                    },
                    FrameAction::Convert { src_w, src_h } => {
                        &&& w <= old(self).content_w && h <= old(self).content_h
                        &&& src_w == w && src_h == h
                        &&& *final(self) == *old(self)
                    },
                }
            }),
            *final(self) == capture_after(*old(self), CaptureEvent::Frame(width, height)),
    {
        let action = frame_action(
            width,
            height,
            self.surface_w,
            self.surface_h,
            self.content_w,
            self.content_h,
        );
        if let FrameAction::Restart = action {
            self.phase = Phase::Probing;
            self.has_frame = false;
        }
        action
    }

    /// Takes note that a frame has been converted and can be written.
    pub fn converted(&mut self)
        requires
            old(self).well_formed(),
            old(self).phase == Phase::Recording,
        ensures
            final(self).well_formed(),
            *final(self) == (CaptureLoop { has_frame: true, ..*old(self) }),
            *final(self) == capture_after(*old(self), CaptureEvent::Converted),
    {
        self.has_frame = true;
    }

    /// Takes note that a frame could not be written: the encoder is gone, and
    /// the session ends with the capture, so that another is begun in its
    /// place.
    pub fn pipe_broken(&mut self, session: &mut CaptureSession)
        requires
            old(self).well_formed(),
        ensures
            final(self).well_formed(),
            *final(self) == (CaptureLoop { phase: Phase::Ended, has_frame: false, ..*old(self) }),
            *final(session) == (CaptureSession { running: false, ..*old(session) }),
            *final(self) == capture_after(*old(self), CaptureEvent::PipeBroken),
            *final(session) == session_after(*old(self), *old(session), CaptureEvent::PipeBroken),
    {
        self.phase = Phase::Ended;
        self.has_frame = false;
        session.stop();
    }

    /// Takes note that the graphics device is lost: the session ends with the
    /// capture, so that another is begun in its place.
    pub fn device_lost(&mut self, session: &mut CaptureSession)
        requires
            old(self).well_formed(),
        ensures
            final(self).well_formed(),
            *final(self) == (CaptureLoop { phase: Phase::Ended, has_frame: false, ..*old(self) }),
            *final(session) == (CaptureSession { running: false, ..*old(session) }),
            *final(self) == capture_after(*old(self), CaptureEvent::DeviceLost),
            *final(session) == session_after(*old(self), *old(session), CaptureEvent::DeviceLost),
    {
        self.phase = Phase::Ended;
        self.has_frame = false;
        session.stop();
    }

    /// Takes note that the capture thread is about to end: a capture that is
    /// over, for whatever reason, ends its session.
    pub fn over(&self, session: &mut CaptureSession)
        ensures
            *final(session) == if self.phase == Phase::Ended {
                CaptureSession { running: false, ..*old(session) }
            } else {
                *old(session)
            },
            *final(session) == session_after(*self, *old(session), CaptureEvent::Over),
    {
        if let Phase::Ended = self.phase {
            session.stop();
        }
    }

    /// Whether the capture goes on: it ends with the session.
    pub fn goes_on(&mut self, session: &CaptureSession) -> (r: bool)
        requires
            old(self).well_formed(),
        ensures
            final(self).well_formed(),
            r == (session.running && old(self).phase != Phase::Ended),
            r ==> *final(self) == *old(self),
            !r ==> *final(self) == (CaptureLoop {
                phase: Phase::Ended,
                has_frame: false,
                ..*old(self)
            }),
            *final(self) == capture_after(*old(self), CaptureEvent::Asked(session.running)),
    {
        if !session.is_running() {
            self.phase = Phase::Ended;
        }
        if let Phase::Ended = self.phase {
            self.has_frame = false;
            false
        } else {
            true
        }
    }
}

/// The capture after an event.
pub open spec fn capture_after(capture: CaptureLoop, event: CaptureEvent) -> CaptureLoop {
    match event {
        CaptureEvent::Probed(probe) => CaptureLoop {
            content_w: if probe.best_w > 0 && probe.best_h > 0 {
                probe.best_w
            } else {
                capture.content_w
            },
            content_h: if probe.best_w > 0 && probe.best_h > 0 {
                probe.best_h
            } else {
                capture.content_h
            },
            phase: Phase::Starting,
            ..capture
        },
        CaptureEvent::EncoderStarted(started) => CaptureLoop {
            phase: if started {
                Phase::Recording
            } else {
                Phase::Ended
            },
            ..capture
        },
        CaptureEvent::Frame(width, height) => if held_side(width, capture.surface_w)
            > capture.content_w || held_side(height, capture.surface_h) > capture.content_h {
            CaptureLoop { phase: Phase::Probing, has_frame: false, ..capture }
        } else {
            capture
        },
        CaptureEvent::Converted => CaptureLoop { has_frame: true, ..capture },
        CaptureEvent::PipeBroken => CaptureLoop {
            phase: Phase::Ended,
            has_frame: false,
            ..capture
        },
        CaptureEvent::DeviceLost => CaptureLoop {
            phase: Phase::Ended,
            has_frame: false,
            ..capture
        },
        CaptureEvent::Asked(running) => if running && capture.phase != Phase::Ended {
            capture
        } else {
            CaptureLoop { phase: Phase::Ended, has_frame: false, ..capture }
        },
        CaptureEvent::Recorded => capture,
        CaptureEvent::Stopped => capture,
        CaptureEvent::Over => capture,
    }
}

/// The session after an event in the course of its capture.
pub open spec fn session_after(
    capture: CaptureLoop,
    session: CaptureSession,
    event: CaptureEvent,
) -> CaptureSession {
    match event {
        CaptureEvent::EncoderStarted(started) => if started {
            CaptureSession { warmup_done: true, ..session }
        } else {
            session
        },
        CaptureEvent::Recorded => CaptureSession {
            frame_counter: (session.frame_counter + 1) as u64,
            ..session
        },
        CaptureEvent::PipeBroken => CaptureSession { running: false, ..session },
        CaptureEvent::DeviceLost => CaptureSession { running: false, ..session },
        CaptureEvent::Stopped => CaptureSession { running: false, ..session },
        CaptureEvent::Over => if capture.phase == Phase::Ended {
            CaptureSession { running: false, ..session }
        } else {
            session
        },
        CaptureEvent::Probed(_) => session,
        CaptureEvent::Frame(_, _) => session,
        CaptureEvent::Converted => session,
        CaptureEvent::Asked(_) => session,
    }
}

/// Whether an event can happen to a capture and its session.
pub open spec fn can_happen(
    capture: CaptureLoop,
    session: CaptureSession,
    event: CaptureEvent,
) -> bool {
    match event {
        CaptureEvent::Probed(probe) => {
            &&& capture.phase == Phase::Probing
            &&& probe.well_formed()
            &&& probe.surface_w == capture.surface_w
            &&& probe.surface_h == capture.surface_h
        },
        CaptureEvent::EncoderStarted(_) => capture.phase == Phase::Starting,
        CaptureEvent::Frame(_, _) => capture.phase == Phase::Recording,
        CaptureEvent::Converted => capture.phase == Phase::Recording,
        CaptureEvent::Recorded => capture.phase == Phase::Recording && session.frame_counter
            < u64::MAX,
        CaptureEvent::Asked(running) => running == session.running,
        CaptureEvent::PipeBroken => true,
        CaptureEvent::DeviceLost => true,
        CaptureEvent::Stopped => true,
        CaptureEvent::Over => true,
    }
}

/// A capture and its session after a course of events.
pub open spec fn after_course(
    capture: CaptureLoop,
    session: CaptureSession,
    events: Seq<CaptureEvent>,
) -> (CaptureLoop, CaptureSession)
    decreases events.len(),
{
    if events.len() == 0 {
        (capture, session)
    } else {
        let (c, s) = after_course(capture, session, events.drop_last());
        (capture_after(c, events.last()), session_after(c, s, events.last()))
    }
}

/// Whether each event of a course can happen after those before it.
pub open spec fn is_course(
    capture: CaptureLoop,
    session: CaptureSession,
    events: Seq<CaptureEvent>,
) -> bool
    decreases events.len(),
{
    events.len() > 0 ==> {
        let (c, s) = after_course(capture, session, events.drop_last());
        is_course(capture, session, events.drop_last()) && can_happen(c, s, events.last())
    }
}

/// The frames that are written in a course of events.
pub open spec fn frames_written(events: Seq<CaptureEvent>) -> nat
    decreases events.len(),
{
    if events.len() == 0 {
        0
    } else {
        frames_written(events.drop_last()) + if events.last() is Recorded {
            1nat
        } else {
            0
        }
    }
}

/// The bytes of a frame of this size.
pub fn frame_bytes(width: u32, height: u32) -> (n: usize)
    requires
        width * 4 <= u32::MAX,
        width * 4 * height <= usize::MAX,
    ensures
        n == width * 4 * height,
{
    (width * 4) as usize * height as usize
}

// ---------------------------------------------------------------------------
// Pacing
// ---------------------------------------------------------------------------

/// The time between two frames, in microseconds.
pub fn frame_interval(fps: u64) -> (us: u64)
    requires
        fps > 0,
    ensures
        us == 1_000_000int / fps as int,
        us * fps <= 1_000_000 < (us + 1) * fps,
{
    proof {
        lemma_rounded_down(1_000_000, fps as int);
    }
    1_000_000 / fps
}

/// The frames that should have been written after `elapsed_us` microseconds.
pub open spec fn frames_due(elapsed_us: u64, fps: u64) -> int {
    elapsed_us * fps / 1_000_000
}

/// How often the current frame is written in one round: once, and once more
/// for each frame that is missing, but at most four times more.
pub open spec fn writes_in_round(due: int, written: int) -> int {
    if due <= written {
        1
    } else if due - written < 4 {
        1 + due - written
    } else {
        5
    }
}

/// Keeps the written frames in step with time.
#[derive(Debug, Clone, Copy, PartialEq, Eq, Structural)]
pub struct FramePacer {
    pub fps: u64,
    /// Frames written since the first.
    pub frame_count: u64,
}

impl FramePacer {
    /// No frame has been written.
    pub fn new(fps: u64) -> (pacer: FramePacer)
        ensures
            pacer == (FramePacer { fps, frame_count: 0 }),
    {
        FramePacer { fps, frame_count: 0 }
    }

    /// How often to write the current frame, `elapsed_us` microseconds after
    /// the first.
    pub fn writes(&self, elapsed_us: u64) -> (n: u64)
        requires
            elapsed_us * self.fps <= u64::MAX,
        ensures
            n == writes_in_round(frames_due(elapsed_us, self.fps), self.frame_count as int),
    {
        assert(elapsed_us * self.fps >= 0) by (nonlinear_arith);
        let target: u64 = elapsed_us * self.fps / 1_000_000;
        let behind: u64 = target.saturating_sub(self.frame_count);
        if behind < 4 {
            1 + behind
        } else {
            5
        }
    }

    /// Takes note of a frame that has been written.
    pub fn wrote(&mut self)
        requires
            old(self).frame_count < u64::MAX,
        ensures
            *final(self) == (FramePacer {
                frame_count: (old(self).frame_count + 1) as u64,
                ..*old(self)
            }),
    {
        self.frame_count = self.frame_count + 1;
    }

    /// When the next frame is due, in microseconds after the first.
    pub fn next_due_us(&self) -> (us: u64)
        requires
            self.fps > 0,
            self.frame_count * 1_000_000 <= u64::MAX,
        ensures
            us == self.frame_count * 1_000_000 / self.fps as int,
            us * self.fps <= self.frame_count * 1_000_000 < (us + 1) * self.fps,
    {
        proof {
            lemma_rounded_down(self.frame_count * 1_000_000, self.fps as int);
        }
        self.frame_count * 1_000_000 / self.fps
    }
}

/// The time between two cleanups of the segment directory, in nanoseconds.
pub const CLEANUP_INTERVAL_NS: u128 = 10_000_000_000;

/// Whether the segment directory is to be cleaned up again.
pub fn cleanup_due(since_cleanup_ns: u128) -> (r: bool)
    ensures
        r == (since_cleanup_ns > CLEANUP_INTERVAL_NS),
{
    since_cleanup_ns > CLEANUP_INTERVAL_NS
}

// ---------------------------------------------------------------------------
// The window of the game
// ---------------------------------------------------------------------------

/// The number of times that the window of a game is looked for.
pub const WINDOW_ATTEMPTS: u32 = 5;

/// What to do after a look for the window of a game.
#[derive(Debug, Clone, Copy, PartialEq, Eq, Structural)]
pub enum SearchStep {
    /// Capture the window.
    Found,
    /// Wait a second and look again.
    Wait,
    /// Do without the window.
    GiveUp,
}

/// The search for the window of a game that may still be opening.
#[derive(Debug, Clone, Copy, PartialEq, Eq, Structural)]
pub struct WindowSearch {
    /// Looks so far that found nothing.
    pub failed: u32,
}

impl WindowSearch {
    /// The search has not begun.
    pub fn new() -> (search: WindowSearch)
        ensures
            search.failed == 0,
    {
        WindowSearch { failed: 0 }
    }

    /// Takes note of a look, and says what to do.
    pub fn looked(&mut self, found: bool) -> (step: SearchStep)
        requires
            old(self).failed < WINDOW_ATTEMPTS,
        ensures
            found ==> step == SearchStep::Found && *final(self) == *old(self),
            !found ==> final(self).failed == old(self).failed + 1,
            !found ==> step == if final(self).failed < WINDOW_ATTEMPTS {
                SearchStep::Wait
            } else {
                SearchStep::GiveUp
            },
    {
        if found {
            return SearchStep::Found;
        }
        self.failed = self.failed + 1;
        if self.failed < WINDOW_ATTEMPTS {
            SearchStep::Wait
        } else {
            SearchStep::GiveUp
        }
    }
}

/// The corners of a window's client area.
#[derive(Debug, Clone, Copy, PartialEq, Eq, Structural)]
pub struct ClientRect {
    pub left: i32,
    pub top: i32,
    pub right: i32,
    pub bottom: i32,
}

impl ClientRect {
    /// The sides can be told in 32 bits.
    pub open spec fn sides_fit(self) -> bool {
        i32::MIN <= self.right - self.left <= i32::MAX && i32::MIN <= self.bottom - self.top
            <= i32::MAX
    }

    /// The area.
    pub open spec fn area(self) -> int {
        (self.right - self.left) * (self.bottom - self.top)
    }
}

/// A window as the system describes it.
#[derive(Debug, Clone, Copy, PartialEq, Eq, Structural)]
pub struct WindowInfo {
    pub handle: isize,
    pub pid: u32,
    pub style: u32,
    pub ex_style: u32,
    /// The client area, where it could be found out.
    pub client: Option<ClientRect>,
}

/// Style of a window that is visible.
pub const WS_VISIBLE: u32 = 0x1000_0000;

/// Extended style of a floating toolbar, overlay or tooltip.
pub const WS_EX_TOOLWINDOW: u32 = 0x0000_0080;

impl WindowInfo {
    /// Whether the window may be the one that a process renders to: its own,
    /// visible, no tool window, and with a known client area.
    pub open spec fn is_candidate(&self, pid: u32) -> bool {
        self.pid == pid && self.style & WS_VISIBLE != 0 && self.ex_style & WS_EX_TOOLWINDOW == 0
            && self.client is Some
    }

    /// The client area of a window that has one.
    pub open spec fn area(&self) -> int {
        self.client->0.area()
    }
}

/// The window with the largest client area, and that area; the first of
/// equals. A window without any area is no match.
pub open spec fn largest_window(windows: Seq<WindowInfo>, pid: u32) -> (isize, int)
    decreases windows.len(),
{
    if windows.len() == 0 {
        (0, 0)
    } else {
        let best = largest_window(windows.drop_last(), pid);
        let w = windows.last();
        if w.is_candidate(pid) && w.area() > best.1 {
            (w.handle, w.area())
        } else {
            best
        }
    }
}

/// The main window of a process among all windows: the visible one with the
/// largest client area that is no tool window.
pub fn find_window_for_pid(windows: &Vec<WindowInfo>, pid: u32) -> (handle: Option<isize>)
    requires
        forall|i: int|
            0 <= i < windows@.len() && (#[trigger] windows@[i]).is_candidate(pid)
                ==> windows@[i].client->0.sides_fit(),
    ensures
        handle == if largest_window(windows@, pid).0 != 0 {
            Some(largest_window(windows@, pid).0)
        } else {
            None
        },
{
    let mut best: isize = 0;
    let mut best_area: i64 = 0;
    let mut i: usize = 0;
    while i < windows.len()
        invariant
            i <= windows@.len(),
            forall|i: int|
                0 <= i < windows@.len() && (#[trigger] windows@[i]).is_candidate(pid)
                    ==> windows@[i].client->0.sides_fit(),
            (best, best_area as int) == largest_window(windows@.take(i as int), pid),
        decreases windows@.len() - i,
    {
        proof {
            assert(windows@.take(i + 1).drop_last() =~= windows@.take(i as int));
            assert(windows@.take(i + 1).last() == windows@[i as int]);
        }
        let w = windows[i];
        if w.pid == pid && w.style & WS_VISIBLE != 0 && w.ex_style & WS_EX_TOOLWINDOW == 0 {
            if let Some(rect) = w.client {
                assert(windows@[i as int].is_candidate(pid));
                let across: i64 = (rect.right - rect.left) as i64;
                let down: i64 = (rect.bottom - rect.top) as i64;
                assert(i64::MIN <= across * down <= i64::MAX) by (nonlinear_arith)
                    requires
                        i32::MIN <= across <= i32::MAX,
                        i32::MIN <= down <= i32::MAX,
                ;
                let area: i64 = across * down;
                if area > best_area {
                    best_area = area;
                    best = w.handle;
                }
            }
        }
        i += 1;
    }
    assert(windows@.take(i as int) =~= windows@);
    if best != 0 {
        Some(best)
    } else {
        None
    }
}

// ---------------------------------------------------------------------------
// The monitor
// ---------------------------------------------------------------------------

/// The monitor that a 1-based index stands for. Handles 0 and -1 are none.
pub open spec fn monitor_at(monitors: Seq<isize>, index: int) -> Option<isize> {
    if 1 <= index <= monitors.len() && monitors[index - 1] != 0 && monitors[index - 1] != -1 {
        Some(monitors[index - 1])
    } else {
        None
    }
}

/// The monitor that a 1-based index stands for, among all monitors.
pub fn monitor_by_index(monitors: &Vec<isize>, index: u32) -> (monitor: Option<isize>)
    ensures
        monitor == monitor_at(monitors@, index as int),
{
    if index == 0 || index as u64 > monitors.len() as u64 {
        return None;
    }
    let found: isize = monitors[(index - 1) as usize];
    if found != 0 && found != -1 {
        Some(found)
    } else {
        None
    }
}

/// Which monitor to capture.
#[derive(Debug, Clone, Copy, PartialEq, Eq, Structural)]
pub enum MonitorChoice {
    /// The one that the window of the game is on.
    OfWindow,
    /// The primary one.
    Primary,
    /// The one with this handle.
    Handle(isize),
}

/// Which monitor a setting asks for: "auto" is that of the window, where it
/// is known; a number is the monitor with that index; all else, and what is
/// not there, is the primary monitor.
pub open spec fn monitor_choice(
    setting: Seq<char>,
    window_known: bool,
    monitors: Seq<isize>,
) -> MonitorChoice {
    if setting == "auto"@ {
        if window_known {
            MonitorChoice::OfWindow
        } else {
            MonitorChoice::Primary
        }
    } else {
        match text::parsed_unsigned(setting, u32::MAX as nat) {
            Some(index) => match monitor_at(monitors, index as int) {
                Some(handle) => MonitorChoice::Handle(handle),
                None => MonitorChoice::Primary,
            },
            None => MonitorChoice::Primary,
        }
    }
}

/// Which monitor to capture, by the setting and all monitors.
pub fn choose_monitor(setting: &str, window_known: bool, monitors: &Vec<isize>) -> (choice:
    MonitorChoice)
    ensures
        choice == monitor_choice(setting@, window_known, monitors@),
{
    if same_text(setting, "auto") {
        if window_known {
            MonitorChoice::OfWindow
        } else {
            MonitorChoice::Primary
        }
    } else {
        match parse_u32(setting) {
            Some(index) => match monitor_by_index(monitors, index) {
                Some(handle) => MonitorChoice::Handle(handle),
                None => MonitorChoice::Primary,
            },
            None => MonitorChoice::Primary,
        }
    }
}

/// The index of the monitor that a setting asks for: "auto" is that of the
/// window, where it is known; a number is itself, where there are so many; all
/// else is 1, the primary monitor.
pub open spec fn monitor_target(
    setting: Seq<char>,
    auto_monitor: Option<usize>,
    available: usize,
) -> int {
    if setting == "auto"@ {
        match auto_monitor {
            Some(index) => index as int,
            None => 1,
        }
    } else {
        match text::parsed_unsigned(setting, usize::MAX as nat) {
            Some(index) => if 1 <= index <= available {
                index as int
            } else {
                1
            },
            None => 1,
        }
    }
}

/// The index of the monitor that a setting asks for.
pub fn choose_monitor_target(
    setting: &str,
    auto_monitor: Option<usize>,
    available_monitors: usize,
) -> (index: usize)
    ensures
        index == monitor_target(setting@, auto_monitor, available_monitors),
{
    if same_text(setting, "auto") {
        match auto_monitor {
            Some(index) => index,
            None => 1,
        }
    } else {
        match parse_usize(setting) {
            Some(index) => if index >= 1 && index <= available_monitors {
                index
            } else {
                1
            },
            None => 1,
        }
    }
}

// ---------------------------------------------------------------------------
// Laws
// ---------------------------------------------------------------------------

/// A session that runs is kept while it warms up, while its frames advance,
/// and until enough time has passed; one that has ended never is.
pub proof fn law_only_failed_sessions_restart(
    session: CaptureSession,
    last_frame_count: u64,
    since_check_ns: u128,
)
    ensures
        !session.running ==> session.has_failed(last_frame_count, since_check_ns),
        session.running && !session.warmup_done ==> !session.has_failed(
            last_frame_count,
            since_check_ns,
        ),
        session.running && session.frame_counter != last_frame_count ==> !session.has_failed(
            last_frame_count,
            since_check_ns,
        ),
        session.running && since_check_ns < STALL_NS ==> !session.has_failed(
            last_frame_count,
            since_check_ns,
        ),
        session.warmup_done && session.frame_counter == last_frame_count && since_check_ns
            >= STALL_NS ==> session.has_failed(last_frame_count, since_check_ns),
{
}

/// The content that is recorded is one that was seen, and none that was seen
/// is larger; where none has any area, the largest has none.
pub proof fn law_largest_content_is_largest(seen: Seq<(int, int)>)
    requires
        forall|i: int| 0 <= i < seen.len() ==> (#[trigger] seen[i]).0 >= 0 && seen[i].1 >= 0,
    ensures
        forall|i: int|
            0 <= i < seen.len() ==> (#[trigger] seen[i]).0 * seen[i].1 <= largest_content(seen).0
                * largest_content(seen).1,
        largest_content(seen) == (0int, 0int) || seen.contains(largest_content(seen)),
    decreases seen.len(),
{
    if seen.len() > 0 {
        let front = seen.drop_last();
        law_largest_content_is_largest(front);
        let best = largest_content(front);
        assert forall|i: int| 0 <= i < seen.len() implies (#[trigger] seen[i]).0 * seen[i].1
            <= largest_content(seen).0 * largest_content(seen).1 by {
            if i < front.len() {
                assert(front[i] == seen[i]);
            }
        }
        if largest_content(seen) == seen.last() {
            assert(seen[seen.len() - 1] == seen.last());
        } else if best != (0int, 0int) {
            let k = choose|k: int| 0 <= k < front.len() && front[k] == best;
            assert(seen[k] == best);
        }
    } else {
        assert(0int * 0int == 0);
    }
}

/// A reported side is held within the surface, and one that is within it is
/// kept.
pub proof fn law_held_side_is_within(reported: i32, surface: u32)
    ensures
        0 <= held_side(reported, surface) <= surface,
        0 <= reported <= surface ==> held_side(reported, surface) == reported,
{
}

/// A session whose graphics device is lost, or whose encoder takes no more
/// frames, is begun anew at the next look.
pub proof fn law_device_loss_leads_to_restart(
    capture: CaptureLoop,
    session: CaptureSession,
    last_frame_count: u64,
    since_check_ns: u128,
)
    ensures
        session_after(capture, session, CaptureEvent::DeviceLost).has_failed(
            last_frame_count,
            since_check_ns,
        ),
        session_after(capture, session, CaptureEvent::PipeBroken).has_failed(
            last_frame_count,
            since_check_ns,
        ),
{
}

/// In every course of a capture the content stays within the surface, a
/// session whose frames are recorded has warmed up, and it has warmed up
/// exactly where recording has begun; a capture that is over stays over, and a
/// session that has ended stays ended.
pub proof fn law_course_keeps_order(
    capture: CaptureLoop,
    session: CaptureSession,
    events: Seq<CaptureEvent>,
)
    requires
        capture.well_formed(),
        capture.phase == Phase::Recording ==> session.warmup_done,
        is_course(capture, session, events),
    ensures
        ({
            let (c, s) = after_course(capture, session, events);
            &&& c.well_formed()
            &&& c.surface_w == capture.surface_w && c.surface_h == capture.surface_h
            &&& c.phase == Phase::Recording ==> s.warmup_done
            &&& s.warmup_done <==> session.warmup_done || events.contains(
                CaptureEvent::EncoderStarted(true),
            )
            &&& capture.phase == Phase::Ended ==> c.phase == Phase::Ended
            &&& !session.running ==> !s.running
        }),
    decreases events.len(),
{
    if events.len() > 0 {
        let front = events.drop_last();
        let begun = CaptureEvent::EncoderStarted(true);
        law_course_keeps_order(capture, session, front);
        let (c, s) = after_course(capture, session, front);
        if front.contains(begun) {
            let k = choose|k: int| 0 <= k < front.len() && front[k] == begun;
            assert(events[k] == begun);
        }
        if events.contains(begun) && events.last() != begun {
            let k = choose|k: int| 0 <= k < events.len() && events[k] == begun;
            assert(front[k] == begun);
        }
        if events.last() == begun {
            assert(events[events.len() - 1] == begun);
        }
        if let CaptureEvent::Frame(width, height) = events.last() {
            law_held_side_is_within(width, c.surface_w);
            law_held_side_is_within(height, c.surface_h);
        }
    }
}

/// The frames of a session are those that have been written in its course: the
/// count grows by one with each, duplicates among them, never falls, and goes
/// on where the content outgrows what is recorded and the encoder is started
/// anew.
pub proof fn law_frames_are_counted(
    capture: CaptureLoop,
    session: CaptureSession,
    events: Seq<CaptureEvent>,
)
    requires
        is_course(capture, session, events),
    ensures
        after_course(capture, session, events).1.frame_counter == session.frame_counter
            + frames_written(events),
    decreases events.len(),
{
    if events.len() > 0 {
        law_frames_are_counted(capture, session, events.drop_last());
    }
}

/// Whatever the course of a capture, and whatever ended it, once its thread has
/// ended the session does not run, and another is begun at the next look.
pub proof fn law_ended_capture_ends_its_session(
    capture: CaptureLoop,
    session: CaptureSession,
    events: Seq<CaptureEvent>,
    last_frame_count: u64,
    since_check_ns: u128,
)
    requires
        after_course(capture, session, events).0.phase == Phase::Ended,
    ensures
        ({
            let s = after_course(capture, session, events.push(CaptureEvent::Over)).1;
            !s.running && s.has_failed(last_frame_count, since_check_ns)
        }),
{
    assert(events.push(CaptureEvent::Over).drop_last() =~= events);
}

/// A capture is over as soon as its session has ended, its device is lost, its
/// encoder is gone or could not be started.
pub proof fn law_what_ends_a_capture(capture: CaptureLoop, session: CaptureSession)
    ensures
        capture_after(capture, CaptureEvent::DeviceLost).phase == Phase::Ended,
        capture_after(capture, CaptureEvent::PipeBroken).phase == Phase::Ended,
        capture_after(capture, CaptureEvent::EncoderStarted(false)).phase == Phase::Ended,
        !session.running ==> capture_after(capture, CaptureEvent::Asked(session.running)).phase
            == Phase::Ended,
{
}

/// The window that is found is the first of those with the largest area, and
/// no window without area is found.
pub proof fn law_window_is_largest(windows: Seq<WindowInfo>, pid: u32)
    ensures
        largest_window(windows, pid).1 >= 0,
        forall|i: int|
            0 <= i < windows.len() && (#[trigger] windows[i]).is_candidate(pid)
                ==> windows[i].area() <= largest_window(windows, pid).1,
        largest_window(windows, pid).1 == 0 ==> largest_window(windows, pid).0 == 0,
        largest_window(windows, pid).1 > 0 ==> exists|i: int|
            is_first_largest(windows, pid, i) && #[trigger] windows[i].handle == largest_window(
                windows,
                pid,
            ).0,
    decreases windows.len(),
{
    if windows.len() > 0 {
        let front = windows.drop_last();
        law_window_is_largest(front, pid);
        let best = largest_window(front, pid);
        let last = windows.len() - 1;
        assert forall|i: int|
            0 <= i < windows.len() && (#[trigger] windows[i]).is_candidate(
                pid,
            ) implies windows[i].area() <= largest_window(windows, pid).1 by {
            if i < last {
                assert(front[i] == windows[i]);
            }
        }
        if windows[last].is_candidate(pid) && windows[last].area() > best.1 {
            assert forall|k: int|
                0 <= k < last && (#[trigger] windows[k]).is_candidate(
                    pid,
                ) implies windows[k].area() < windows[last].area() by {
                assert(front[k] == windows[k]);
            }
            assert(is_first_largest(windows, pid, last));
            assert(windows[last].handle == largest_window(windows, pid).0);
        } else if best.1 > 0 {
            let i = choose|i: int|
                is_first_largest(front, pid, i) && #[trigger] front[i].handle == best.0;
            assert(front[i] == windows[i]);
            assert forall|k: int|
                0 <= k < i && (#[trigger] windows[k]).is_candidate(
                    pid,
                ) implies windows[k].area() < windows[i].area() by {
                assert(front[k] == windows[k]);
            }
            assert forall|k: int|
                0 <= k < windows.len() && (#[trigger] windows[k]).is_candidate(
                    pid,
                ) implies windows[k].area() <= windows[i].area() by {
                if k < last {
                    assert(front[k] == windows[k]);
                } else {
                    assert(front[i].area() == best.1) by {
                        lemma_best_area(front, pid, i);
                    }
                }
            }
            assert(is_first_largest(windows, pid, i));
            assert(windows[i].handle == largest_window(windows, pid).0);
        }
    }
}

/// Whether window `i` is a candidate, none is larger, and all before it are
/// smaller.
pub open spec fn is_first_largest(windows: Seq<WindowInfo>, pid: u32, i: int) -> bool {
    &&& 0 <= i < windows.len()
    &&& windows[i].is_candidate(pid)
    &&& forall|k: int|
        0 <= k < i && (#[trigger] windows[k]).is_candidate(pid) ==> windows[k].area()
            < windows[i].area()
    &&& forall|k: int|
        0 <= k < windows.len() && (#[trigger] windows[k]).is_candidate(pid) ==> windows[k].area()
            <= windows[i].area()
}

/// The area that is found is that of a first largest window, if it has any.
proof fn lemma_best_area(windows: Seq<WindowInfo>, pid: u32, i: int)
    requires
        is_first_largest(windows, pid, i),
        windows[i].area() <= largest_window(windows, pid).1,
        largest_window(windows, pid).1 > 0,
    ensures
        windows[i].area() == largest_window(windows, pid).1,
{
    lemma_area_is_reached(windows, pid);
    let k = choose|k: int|
        0 <= k < windows.len() && (#[trigger] windows[k]).is_candidate(pid) && windows[k].area()
            == largest_window(windows, pid).1;
    assert(windows[k].area() <= windows[i].area());
}

proof fn lemma_area_is_reached(windows: Seq<WindowInfo>, pid: u32)
    requires
        largest_window(windows, pid).1 > 0,
    ensures
        exists|k: int|
            0 <= k < windows.len() && (#[trigger] windows[k]).is_candidate(pid)
                && windows[k].area() == largest_window(windows, pid).1,
    decreases windows.len(),
{
    let front = windows.drop_last();
    let last = windows.len() - 1;
    if windows[last].is_candidate(pid) && windows[last].area() > largest_window(front, pid).1 {
    } else {
        lemma_area_is_reached(front, pid);
        let k = choose|k: int|
            0 <= k < front.len() && (#[trigger] front[k]).is_candidate(pid) && front[k].area()
                == largest_window(front, pid).1;
        assert(windows[k] == front[k]);
    }
}

/// A round of writing catches up with time, or writes five frames; it writes
/// at least one, and it gets no more than one frame ahead of time unless it
/// was ahead before.
pub proof fn law_round_catches_up(due: int, written: int)
    ensures
        1 <= writes_in_round(due, written) <= 5,
        written + writes_in_round(due, written) > due || writes_in_round(due, written) == 5,
        written <= due ==> written + writes_in_round(due, written) <= due + 1,
        written > due ==> writes_in_round(due, written) == 1,
{
}

/// Where all monitors are there, the index that a setting asks for and the
/// monitor that is captured are the same one.
pub proof fn law_monitor_is_the_target(setting: Seq<char>, monitors: Seq<isize>)
    requires
        setting != "auto"@,
        0 < monitors.len() <= u32::MAX,
        forall|i: int|
            0 <= i < monitors.len() ==> #[trigger] monitors[i] != 0 && monitors[i] != -1,
    ensures
        ({
            let target = monitor_target(setting, None, monitors.len() as usize);
            match monitor_choice(setting, false, monitors) {
                MonitorChoice::Handle(handle) => handle == monitors[target - 1],
                MonitorChoice::Primary => target == 1,
                MonitorChoice::OfWindow => false,
            }
        }),
{
}

/// The frames that are due keep to the rate that is set: as many as the time
/// holds, and not one more. After whole seconds they are the rate, times the
/// seconds.
pub proof fn law_due_frames_keep_the_rate(elapsed_us: u64, fps: u64, seconds: u64)
    ensures
        frames_due(elapsed_us, fps) * 1_000_000 <= elapsed_us * fps < (frames_due(elapsed_us, fps)
            + 1) * 1_000_000,
        seconds * 1_000_000 <= u64::MAX ==> frames_due((seconds * 1_000_000) as u64, fps) == seconds
            * fps,
{
    assert(elapsed_us * fps >= 0) by (nonlinear_arith);
    if seconds * 1_000_000 <= u64::MAX {
        let us = (seconds * 1_000_000) as u64;
        assert(us * fps == (seconds * fps) * 1_000_000) by (nonlinear_arith)
            requires
                us == seconds * 1_000_000,
        ;
    }
}

/// Where the video keeps up, a round at any time leaves exactly one frame more
/// than are due by then, unless more had been written before: the recording
/// plays at the rate that is set.
pub proof fn law_recording_plays_in_real_time(elapsed_us: u64, fps: u64, written: int)
    requires
        0 <= written,
        written * 1_000_000 <= elapsed_us * fps,
        elapsed_us * fps < (written + 5) * 1_000_000,
    ensures
        ({
            let after = written + writes_in_round(frames_due(elapsed_us, fps), written);
            (after - 1) * 1_000_000 <= elapsed_us * fps < after * 1_000_000
        }),
{
    law_due_frames_keep_the_rate(elapsed_us, fps, 0);
}

/// A reported side beyond the surface is that of the surface, and a negative
/// one is the unsigned number with the same bits.
pub proof fn law_large_side_is_cut(reported: i32, surface: u32)
    ensures
        reported > surface ==> held_side(reported, surface) == surface,
        reported < 0 && surface <= i32::MAX ==> held_side(reported, surface) == surface,
        reported < 0 && reported + 0x1_0000_0000 <= surface ==> held_side(reported, surface)
            == reported + 0x1_0000_0000,
        reported < 0 && reported + 0x1_0000_0000 >= surface ==> held_side(reported, surface)
            == surface,
{
}

/// Of contents that are equally large the first that was seen is recorded.
pub proof fn law_first_of_equal_contents(seen: Seq<(int, int)>, i: int)
    requires
        forall|k: int| 0 <= k < seen.len() ==> (#[trigger] seen[k]).0 >= 0 && seen[k].1 >= 0,
        0 <= i < seen.len(),
        seen[i].0 * seen[i].1 > 0,
        forall|k: int|
            0 <= k < i ==> (#[trigger] seen[k]).0 * seen[k].1 < seen[i].0 * seen[i].1,
        forall|k: int|
            i <= k < seen.len() ==> (#[trigger] seen[k]).0 * seen[k].1 <= seen[i].0 * seen[i].1,
    ensures
        largest_content(seen) == seen[i],
    decreases seen.len(),
{
    let front = seen.drop_last();
    assert forall|k: int| 0 <= k < front.len() implies (#[trigger] front[k]).0 >= 0 && front[k].1
        >= 0 by {
        assert(front[k] == seen[k]);
    }
    if i < front.len() {
        assert forall|k: int| 0 <= k < i implies (#[trigger] front[k]).0 * front[k].1 < front[i].0
            * front[i].1 by {
            assert(front[k] == seen[k]);
        }
        assert forall|k: int| i <= k < front.len() implies (#[trigger] front[k]).0 * front[k].1
            <= front[i].0 * front[i].1 by {
            assert(front[k] == seen[k]);
        }
        law_first_of_equal_contents(front, i);
        assert(seen[seen.len() - 1] == seen.last());
    } else {
        law_largest_content_is_largest(front);
        let best = largest_content(front);
        assert(best.0 * best.1 < seen[i].0 * seen[i].1) by {
            if best == (0int, 0int) {
                assert(0int * 0int == 0);
            } else {
                let k = choose|k: int| 0 <= k < front.len() && front[k] == best;
                assert(seen[k] == best);
            }
        }
    }
}

/// A window is the candidate of a process where it is its own, the bit of a
/// visible window is set, that of a tool window is not, and its client area is
/// known.
pub proof fn law_candidates_are_visible_windows(window: WindowInfo, pid: u32)
    ensures
        window.is_candidate(pid) <==> window.pid == pid && window.style / 0x1000_0000 % 2 == 1
            && window.ex_style / 0x80 % 2 == 0 && window.client is Some,
{
    let (style, ex) = (window.style, window.ex_style);
    assert((style & 0x1000_0000 != 0) == (style / 0x1000_0000 % 2 == 1)) by (bit_vector);
    assert((ex & 0x80 == 0) == (ex / 0x80 % 2 == 0)) by (bit_vector);
}

/// The area of a window is its width times its height, wherever it lies.
pub proof fn law_area_is_width_times_height(rect: ClientRect, width: int, height: int)
    requires
        rect.right == rect.left + width,
        rect.bottom == rect.top + height,
    ensures
        rect.area() == width * height,
{
}

/// A monitor is chosen by its index, counted from one: the setting that writes
/// the index gives the monitor at that place, and one that writes an index
/// beyond all monitors, or no number at all, gives the primary one.
pub proof fn law_monitor_is_chosen_by_index(
    index: nat,
    setting: Seq<char>,
    window_known: bool,
    monitors: Seq<isize>,
    auto_monitor: Option<usize>,
)
    requires
        monitors.len() <= u32::MAX,
        forall|i: int|
            0 <= i < monitors.len() ==> #[trigger] monitors[i] != 0 && monitors[i] != -1,
    ensures
        1 <= index <= monitors.len() ==> monitor_choice(
            text::decimal(index),
            window_known,
            monitors,
        ) == MonitorChoice::Handle(monitors[index - 1]) && monitor_target(
            text::decimal(index),
            auto_monitor,
            monitors.len() as usize,
        ) == index,
        index == 0 || index > monitors.len() ==> monitor_choice(
            text::decimal(index),
            window_known,
            monitors,
        ) == MonitorChoice::Primary && monitor_target(
            text::decimal(index),
            auto_monitor,
            monitors.len() as usize,
        ) == 1,
        setting != "auto"@ && (exists|i: int|
            0 <= i < setting.len() && setting[i] != '+' && !('0' <= #[trigger] setting[i] <= '9'))
            ==> monitor_choice(setting, window_known, monitors) == MonitorChoice::Primary
            && monitor_target(setting, auto_monitor, monitors.len() as usize) == 1,
        monitor_choice("auto"@, window_known, monitors) == if window_known {
            MonitorChoice::OfWindow
        } else {
            MonitorChoice::Primary
        },
        monitor_target("auto"@, auto_monitor, monitors.len() as usize) == match auto_monitor {
            Some(i) => i as int,
            None => 1,
        },
{
    text::law_number_is_read_back(index, u32::MAX as nat);
    text::law_number_is_read_back(index, usize::MAX as nat);
    reveal_strlit("auto");
    text::law_decimal_has_no_leading_zero(index);
    assert("auto"@[0] == 'a');
    if setting != "auto"@ && (exists|i: int|
        0 <= i < setting.len() && setting[i] != '+' && !('0' <= #[trigger] setting[i] <= '9')) {
        text::law_only_numbers_are_read(setting, u32::MAX as nat);
        text::law_only_numbers_are_read(setting, usize::MAX as nat);
    }
}

/// A quotient is the largest number that goes so often into another.
proof fn lemma_rounded_down(n: int, d: int)
    requires
        0 <= n,
        0 < d,
    ensures
        n / d * d <= n < (n / d + 1) * d,
{
    let q = n / d;
    assert(q * d <= n < q * d + d) by (nonlinear_arith)
        requires
            q == n / d,
            d > 0,
            n >= 0,
    ;
    assert((q + 1) * d == q * d + d) by (nonlinear_arith);
}

/// An index stands for a monitor where there are so many, counted from one, and
/// the system has a handle for it.
pub proof fn law_index_counts_monitors_from_one(monitors: Seq<isize>, i: int, index: int)
    ensures
        0 <= i < monitors.len() && monitors[i] != 0 && monitors[i] != -1 ==> monitor_at(
            monitors,
            i + 1,
        ) == Some(monitors[i]),
        0 <= i < monitors.len() && (monitors[i] == 0 || monitors[i] == -1) ==> monitor_at(
            monitors,
            i + 1,
        ) is None,
        index <= 0 || index > monitors.len() ==> monitor_at(monitors, index) is None,
{
}

/// A capture follows its content: it records the largest that was seen, or what
/// it recorded before where none was; it begins anew exactly where a frame is
/// wider or higher than what is recorded; and there is a frame to write from
/// the first that has been converted until then.
pub proof fn law_capture_follows_its_content(
    capture: CaptureLoop,
    probe: ContentProbe,
    width: i32,
    height: i32,
)
    requires
        0 <= width <= capture.surface_w,
        0 <= height <= capture.surface_h,
        capture.phase == Phase::Recording,
    ensures
        ({
            let probed = capture_after(capture, CaptureEvent::Probed(probe));
            &&& probe.best_w > 0 && probe.best_h > 0 ==> probed.content_w == probe.best_w
                && probed.content_h == probe.best_h
            &&& probe.best_w == 0 || probe.best_h == 0 ==> probed.content_w == capture.content_w
                && probed.content_h == capture.content_h
            &&& probed.phase == Phase::Starting
        }),
        ({
            let after = capture_after(capture, CaptureEvent::Frame(width, height));
            &&& width > capture.content_w || height > capture.content_h <==> after.phase
                == Phase::Probing
            &&& width <= capture.content_w && height <= capture.content_h ==> after == capture
            &&& after.phase == Phase::Probing ==> !after.has_frame
            &&& after.content_w == capture.content_w && after.content_h == capture.content_h
        }),
        capture_after(capture, CaptureEvent::Converted).has_frame,
        capture_after(capture, CaptureEvent::Recorded) == capture,
{
}

} // verus!
