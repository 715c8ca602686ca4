//! Voice notes: a tap starts recording, another stops it into a review in which the take is
//! kept, discarded or played again; and the assistant's replies, shown one at a time.

use crate::render::wav::{parse_mono_44k, replay_sample, replayed, wav_of, SAMPLE_RATE};
use crate::text::{
    chars_contain, chars_of, contains_text, decimal, fixed_digits, lower_of, lower_text,
    push_decimal, push_fixed, push_text,
};
use crate::voice_delivery::{
    lemma_decimal_is_read_back, older_first, stamp_of, stamp_text, Report, ReportView,
};
use vstd::prelude::*;
use vstd::string::*;

verus! {

/// The longest take, in seconds.
pub const MAX_TAKE_SECS: u64 = 120;

/// A shorter take is a misfire.
pub const MIN_TAKE_SAMPLES: usize = 11_025;

/// How long a status line stays up.
pub const FLASH_NANOS: u64 = 3_000_000_000;

/// A reply is on screen at least this long.
pub const REPLY_MIN_NANOS: u128 = 6_000_000_000;

/// A reply outlives its sound by this much.
pub const REPLY_LINGER_NANOS: u128 = 4_000_000_000;

/// Between two looks into the inbox, in milliseconds.
pub const REPLY_POLL_MILLIS: u64 = 3_000;

/// The longest sleep between two looks at the stop flag, in milliseconds.
pub const POLL_SLICE_MILLIS: u64 = 200;

/// Where the recorder is.
#[derive(Debug)]
pub enum Phase {
    Idle,
    Recording { stopping: bool, elapsed_nanos: u64 },
    Review { samples: Vec<i16> },
}

/// A status line and how long it is still shown.
#[derive(Debug)]
pub struct Flash {
    pub text: String,
    pub left_nanos: u64,
}

/// The recorder.
#[derive(Debug)]
pub struct VoiceUx {
    phase: Phase,
    flash: Option<Flash>,
    /// A sweep's report is still to come.
    delivery: bool,
    /// The review just closed and the press that closed it is still held.
    linger: bool,
}

/// Where the recorder is, by value.
pub enum PhaseView {
    Idle,
    Recording { stopping: bool, elapsed_nanos: u64 },
    Review { samples: Seq<i16> },
}

/// The recorder by value.
pub struct VoiceView {
    pub phase: PhaseView,
    pub flash: Option<(Seq<char>, u64)>,
    pub delivery: bool,
    pub linger: bool,
}

impl View for VoiceUx {
    type V = VoiceView;

    closed spec fn view(&self) -> VoiceView {
        VoiceView {
            phase: match self.phase {
                Phase::Idle => PhaseView::Idle,
                Phase::Recording { stopping, elapsed_nanos } => PhaseView::Recording {
                    stopping,
                    elapsed_nanos,
                },
                Phase::Review { samples } => PhaseView::Review { samples: samples@ },
            },
            flash: match self.flash {
                Some(f) => Some((f.text@, f.left_nanos)),
                None => None,
            },
            delivery: self.delivery,
            linger: self.linger,
        }
    }
}

/// What a look at a sweep's report found.
#[derive(Debug)]
pub enum DeliveryPoll {
    Empty,
    Reported(Report),
    Dead,
}

/// What a look at the capture found.
#[derive(Debug)]
pub enum CapturePoll {
    Empty,
    Taken(Vec<i16>),
    Failed(String),
    Dead,
}

/// What a frame brings.
#[derive(Debug)]
pub struct VoiceFrame {
    /// Fresh presses.
    pub record: bool,
    pub confirm: bool,
    pub discard: bool,
    /// The keep or the discard button is down.
    pub closing_held: bool,
    pub delta_nanos: u64,
    pub delivery: DeliveryPoll,
    pub capture: CapturePoll,
}

/// What is to be done after a frame.
#[derive(Debug, Clone, Copy, PartialEq, Eq, Structural)]
pub struct VoiceOrders {
    /// Start a capture.
    pub start: bool,
    /// Tell the capture to wrap up.
    pub stop: bool,
    /// Stop the playback.
    pub silence: bool,
    /// Play the take from the top.
    pub play: bool,
    /// Save the take, and say how it went.
    pub save: bool,
}

/// Nothing to do.
pub open spec fn at_ease() -> VoiceOrders {
    VoiceOrders { start: false, stop: false, silence: false, play: false, save: false }
}

/// What a sweep's report is flashed as; an empty sweep says nothing.
pub open spec fn report_text(r: ReportView) -> Option<Seq<char>> {
    if r.error is Some {
        Some("voice note queued — inbox unreachable"@)
    } else if r.sent == 0 {
        None
    } else if r.sent == 1 {
        Some("voice note sent"@)
    } else {
        Some(decimal(r.sent) + " voice notes sent"@)
    }
}

/// A status line at the start of its time.
pub open spec fn flashing(t: Seq<char>) -> Option<(Seq<char>, u64)> {
    Some((t, FLASH_NANOS))
}

/// A status line after some time.
pub open spec fn faded(f: Option<(Seq<char>, u64)>, nanos: u64) -> Option<(Seq<char>, u64)> {
    match f {
        Some((t, left)) => if left <= nanos {
            None
        } else {
            Some((t, (left - nanos) as u64))
        },
        None => None,
    }
}

/// The recorder once the sweep was looked at.
pub open spec fn after_delivery(s: VoiceView, p: DeliveryPoll) -> VoiceView {
    if !s.delivery {
        s
    } else {
        match p {
            DeliveryPoll::Empty => s,
            DeliveryPoll::Dead => VoiceView { delivery: false, ..s },
            DeliveryPoll::Reported(r) => VoiceView {
                delivery: false,
                flash: match report_text(r@) {
                    Some(t) => flashing(t),
                    None => s.flash,
                },
                ..s
            },
        }
    }
}

/// The recorder once the sweep was looked at, the closing press was released, and the status
/// line has faded.
pub open spec fn settled_frame(s: VoiceView, f: VoiceFrame) -> VoiceView {
    let a = after_delivery(s, f.delivery);
    VoiceView {
        linger: a.linger && f.closing_held,
        flash: faded(a.flash, f.delta_nanos),
        ..a
    }
}

/// Time recorded so far.
pub open spec fn run_on(elapsed: u64, nanos: u64) -> u64 {
    if elapsed + nanos > u64::MAX {
        u64::MAX
    } else {
        (elapsed + nanos) as u64
    }
}

/// The recorder after a frame, and what is to be done. While a take is reviewed, to keep it
/// stops its playback and waits for the save.
pub open spec fn voiced(s: VoiceView, f: VoiceFrame) -> (VoiceView, VoiceOrders) {
    let a = settled_frame(s, f);
    match a.phase {
        PhaseView::Idle => if f.record {
            (
                VoiceView {
                    phase: PhaseView::Recording { stopping: false, elapsed_nanos: 0 },
                    ..a
                },
                VoiceOrders { start: true, ..at_ease() },
            )
        } else {
            (a, at_ease())
        },
        PhaseView::Recording { stopping, elapsed_nanos } => {
            let orders = VoiceOrders { stop: f.record && !stopping, ..at_ease() };
            match f.capture {
                CapturePoll::Empty => (
                    VoiceView {
                        phase: PhaseView::Recording {
                            stopping: stopping || f.record,
                            elapsed_nanos: run_on(elapsed_nanos, f.delta_nanos),
                        },
                        ..a
                    },
                    orders,
                ),
                CapturePoll::Taken(v) => if v@.len() >= MIN_TAKE_SAMPLES {
                    (
                        VoiceView { phase: PhaseView::Review { samples: v@ }, ..a },
                        VoiceOrders { play: true, ..orders },
                    )
                } else {
                    (
                        VoiceView {
                            phase: PhaseView::Idle,
                            flash: flashing("voice note too short — discarded"@),
                            ..a
                        },
                        orders,
                    )
                },
                CapturePoll::Failed(e) => (
                    VoiceView {
                        phase: PhaseView::Idle,
                        flash: flashing("mic unavailable: "@ + e@),
                        ..a
                    },
                    orders,
                ),
                CapturePoll::Dead => (
                    VoiceView {
                        phase: PhaseView::Idle,
                        flash: flashing("mic capture failed"@),
                        ..a
                    },
                    orders,
                ),
            }
        },
        PhaseView::Review { samples } => if f.confirm {
            (a, VoiceOrders { save: true, silence: true, ..at_ease() })
        } else if f.discard {
            (
                VoiceView {
                    phase: PhaseView::Idle,
                    flash: flashing("voice note discarded"@),
                    linger: true,
                    ..a
                },
                VoiceOrders { silence: true, ..at_ease() },
            )
        } else if f.record {
            (a, VoiceOrders { silence: true, play: true, ..at_ease() })
        } else {
            (a, at_ease())
        },
    }
}

/// A capture runs that was not told to wrap up yet.
pub open spec fn is_capturing(s: VoiceView) -> bool {
    s.phase matches PhaseView::Recording { stopping, elapsed_nanos } && !stopping
}

/// What came of a save: where it went, or why it failed.
#[derive(Debug)]
pub enum SaveOutcome {
    Saved(String),
    Failed(String),
}

/// The recorder once the take was saved, or was not: either way the review is over.
/// `sweeping` says that a sweep was started.
pub open spec fn kept(s: VoiceView, o: SaveOutcome, sweeping: bool) -> VoiceView {
    VoiceView {
        phase: PhaseView::Idle,
        flash: match o {
            SaveOutcome::Saved(path) => flashing("voice note saved · "@ + path@),
            SaveOutcome::Failed(e) => flashing("save failed: "@ + e@),
        },
        delivery: s.delivery || (o is Saved && sweeping),
        linger: true,
    }
}

fn flash(text: String) -> (f: Option<Flash>)
    ensures
        f matches Some(x) && x.text@ == text@ && x.left_nanos == FLASH_NANOS,
{
    Some(Flash { text, left_nanos: FLASH_NANOS })
}

fn flash_str(t: &str) -> (f: Option<Flash>)
    ensures
        f matches Some(x) && x.text@ == t@ && x.left_nanos == FLASH_NANOS,
{
    flash(String::from_str(t))
}

fn flash_two(a: &str, b: &str) -> (f: Option<Flash>)
    ensures
        f matches Some(x) && x.text@ == a@ + b@ && x.left_nanos == FLASH_NANOS,
{
    let mut out = String::new();
    push_text(&mut out, a);
    push_text(&mut out, b);
    assert(out@ =~= a@ + b@);
    flash(out)
}

impl VoiceUx {
    /// Nothing is recorded.
    pub fn new() -> (v: Self)
        ensures
            v@ == (VoiceView {
                phase: PhaseView::Idle,
                flash: None,
                delivery: false,
                linger: false,
            }),
    {
        VoiceUx { phase: Phase::Idle, flash: None, delivery: false, linger: false }
    }

    /// While the review is up, or the press that closed it is held, its buttons are not the
    /// game's.
    pub fn gameplay_gated(&self) -> (b: bool)
        ensures
            b == (self@.phase is Review || self@.linger),
    {
        let reviewing: bool = match &self.phase {
            Phase::Review { samples } => true,
            _ => false,
        };
        reviewing || self.linger
    }

    /// The take under review.
    pub fn take(&self) -> (r: Option<&Vec<i16>>)
        ensures
            match r {
                Some(v) => self@.phase matches PhaseView::Review { samples } && samples == v@,
                None => !(self@.phase is Review),
            },
    {
        match &self.phase {
            Phase::Review { samples } => Some(samples),
            _ => None,
        }
    }

    /// Whether a report is awaited.
    pub fn awaiting_report(&self) -> (b: bool)
        ensures
            b == self@.delivery,
    {
        self.delivery
    }

    fn poll_delivery(&mut self, p: &DeliveryPoll)
        ensures
            final(self)@ == after_delivery(old(self)@, *p),
    {
        if !self.delivery {
            return;
        }
        match p {
            DeliveryPoll::Empty => {},
            DeliveryPoll::Dead => {
                self.delivery = false;
            },
            DeliveryPoll::Reported(r) => {
                self.delivery = false;
                if r.error.is_some() {
                    self.flash = flash_str("voice note queued — inbox unreachable");
                } else if r.sent == 1 {
                    self.flash = flash_str("voice note sent");
                } else if r.sent > 1 {
                    let mut out = String::new();
                    push_decimal(&mut out, r.sent as u64);
                    push_text(&mut out, " voice notes sent");
                    assert(out@ =~= decimal(r.sent as nat) + " voice notes sent"@);
                    self.flash = flash(out);
                }
            },
        }
    }

    fn settle_frame(&mut self, f: &VoiceFrame)
        ensures
            final(self)@ == settled_frame(old(self)@, *f),
    {
        self.poll_delivery(&f.delivery);
        self.linger = self.linger && f.closing_held;
        let fl = self.flash.take();
        if let Some(x) = fl {
            if x.left_nanos > f.delta_nanos {
                self.flash = Some(Flash { text: x.text, left_nanos: x.left_nanos - f.delta_nanos });
            }
        }
    }

    /// One frame of the recorder.
    pub fn drive(&mut self, f: VoiceFrame) -> (o: VoiceOrders)
        ensures
            (final(self)@, o) == voiced(old(self)@, f),
    {
        self.settle_frame(&f);
        let mut o = VoiceOrders {
            start: false,
            stop: false,
            silence: false,
            play: false,
            save: false,
        };
        match &self.phase {
            Phase::Idle => {
                if f.record {
                    o.start = true;
                    self.phase = Phase::Recording { stopping: false, elapsed_nanos: 0 };
                }
            },
            Phase::Recording { stopping, elapsed_nanos } => {
                let was_stopping: bool = *stopping;
                let so_far: u64 = *elapsed_nanos;
                o.stop = f.record && !was_stopping;
                match f.capture {
                    CapturePoll::Empty => {
                        let now: u64 = if f.delta_nanos > u64::MAX - so_far {
                            u64::MAX
                        } else {
                            so_far + f.delta_nanos
                        };
                        self.phase = Phase::Recording {
                            stopping: was_stopping || f.record,
                            elapsed_nanos: now,
                        };
                    },
                    CapturePoll::Taken(samples) => {
                        if samples.len() >= MIN_TAKE_SAMPLES {
                            o.play = true;
                            self.phase = Phase::Review { samples };
                        } else {
                            self.flash = flash_str("voice note too short — discarded");
                            self.phase = Phase::Idle;
                        }
                    },
                    CapturePoll::Failed(e) => {
                        self.flash = flash_two("mic unavailable: ", e.as_str());
                        self.phase = Phase::Idle;
                    },
                    CapturePoll::Dead => {
                        self.flash = flash_str("mic capture failed");
                        self.phase = Phase::Idle;
                    },
                }
            },
            Phase::Review { samples } => {
                if f.confirm {
                    o.save = true;
                    o.silence = true;
                } else if f.discard {
                    o.silence = true;
                    self.flash = flash_str("voice note discarded");
                    self.phase = Phase::Idle;
                    self.linger = true;
                } else if f.record {
                    o.silence = true;
                    o.play = true;
                }
            },
        }
        o
    }

    /// The take was saved, or was not.
    pub fn saved(&mut self, o: SaveOutcome, sweeping: bool)
        ensures
            final(self)@ == kept(old(self)@, o, sweeping),
    {
        match &o {
            SaveOutcome::Saved(path) => {
                self.flash = flash_two("voice note saved · ", path.as_str());
                self.delivery = self.delivery || sweeping;
            },
            SaveOutcome::Failed(e) => {
                self.flash = flash_two("save failed: ", e.as_str());
            },
        }
        self.phase = Phase::Idle;
        self.linger = true;
    }

    /// Whether a round's start should start a sweep: not while a report is awaited.
    pub fn wants_sweep(&self) -> (b: bool)
        ensures
            b == !self@.delivery,
    {
        !self.delivery
    }

    /// A sweep was started, or was not.
    pub fn swept(&mut self, started: bool)
        ensures
            final(self)@ == (VoiceView {
                delivery: old(self)@.delivery || started,
                ..old(self)@
            }),
    {
        self.delivery = self.delivery || started;
    }

    /// The round is over: no hot microphone outlives it, and nothing is played on.
    pub fn cancel_voice(&mut self) -> (o: VoiceOrders)
        ensures
            final(self)@ == (VoiceView {
                phase: PhaseView::Idle,
                flash: None,
                linger: false,
                ..old(self)@
            }),
            o == (VoiceOrders { stop: is_capturing(old(self)@), silence: true, ..at_ease() }),
    {
        let stop: bool = match &self.phase {
            Phase::Recording { stopping, elapsed_nanos } => !*stopping,
            _ => false,
        };
        self.phase = Phase::Idle;
        self.flash = None;
        self.linger = false;
        VoiceOrders { start: false, stop, silence: true, play: false, save: false }
    }

    /// The line on screen. `length` is the take's length in words.
    pub fn hud_line(
        &self,
        record_chip: &str,
        keep_chip: &str,
        discard_chip: &str,
        length: &str,
    ) -> (r: Option<String>)
        ensures
            match r {
                Some(s) => line_of(self@, record_chip@, keep_chip@, discard_chip@, length@)
                    == Some(s@),
                None => line_of(self@, record_chip@, keep_chip@, discard_chip@, length@) is None,
            },
    {
        let mut out = String::new();
        match &self.phase {
            Phase::Recording { stopping, elapsed_nanos } => {
                let secs: u64 = *elapsed_nanos / 1_000_000_000;
                push_text(&mut out, "● REC ");
                push_decimal(&mut out, secs / 60);
                push_text(&mut out, ":");
                push_fixed(&mut out, secs % 60, 10, 2);
                push_text(&mut out, "  (tap ");
                push_text(&mut out, record_chip);
                push_text(&mut out, " to stop)");
                assert(out@ =~= rec_line(*elapsed_nanos, record_chip@));
                Some(out)
            },
            Phase::Review { samples } => {
                push_text(&mut out, "voice note ");
                push_text(&mut out, length);
                push_text(&mut out, "s — keep ");
                push_text(&mut out, keep_chip);
                push_text(&mut out, " · discard ");
                push_text(&mut out, discard_chip);
                push_text(&mut out, " · replay ");
                push_text(&mut out, record_chip);
                assert(out@ =~= review_line(length@, keep_chip@, discard_chip@, record_chip@));
                Some(out)
            },
            Phase::Idle => match &self.flash {
                Some(f) => {
                    push_text(&mut out, f.text.as_str());
                    assert(out@ =~= f.text@);
                    Some(out)
                },
                None => None,
            },
        }
    }
}

/// The line while recording.
pub open spec fn rec_line(elapsed_nanos: u64, chip: Seq<char>) -> Seq<char> {
    let secs = elapsed_nanos as nat / 1_000_000_000;
    "● REC "@ + decimal(secs / 60) + ":"@ + fixed_digits(secs % 60, 10, 2) + "  (tap "@ + chip
        + " to stop)"@
}

/// The line while a take is reviewed.
pub open spec fn review_line(
    length: Seq<char>,
    keep: Seq<char>,
    discard: Seq<char>,
    replay: Seq<char>,
) -> Seq<char> {
    "voice note "@ + length + "s — keep "@ + keep + " · discard "@ + discard + " · replay "@
        + replay
}

/// The line on screen: the recorder's where it is busy, else the status line.
pub open spec fn line_of(
    s: VoiceView,
    record: Seq<char>,
    keep: Seq<char>,
    discard: Seq<char>,
    length: Seq<char>,
) -> Option<Seq<char>> {
    match s.phase {
        PhaseView::Recording { stopping, elapsed_nanos } => Some(rec_line(elapsed_nanos, record)),
        PhaseView::Review { samples } => Some(review_line(length, keep, discard, record)),
        PhaseView::Idle => match s.flash {
            Some((t, left)) => Some(t),
            None => None,
        },
    }
}

/// From the press that closes a review, whether the take is kept or discarded, until it is
/// released, the buttons stay the recorder's.
pub proof fn lemma_closing_press_is_not_the_games(
    s: VoiceView,
    f: VoiceFrame,
    o: SaveOutcome,
    sweeping: bool,
    t: VoiceView,
    g: VoiceFrame,
)
    requires
        s.phase is Review,
        f.confirm || f.discard,
        t.linger,
        g.closing_held,
    ensures
        f.confirm ==> voiced(s, f).1.save && kept(voiced(s, f).0, o, sweeping).linger,
        !f.confirm ==> voiced(s, f).0.linger,
        voiced(t, g).0.linger,
{
}

/// However a review ends, or starts over, what was playing is stopped.
pub proof fn lemma_no_playback_outlives_its_review(s: VoiceView, f: VoiceFrame)
    requires
        s.phase is Review,
        f.confirm || f.discard || f.record,
    ensures
        voiced(s, f).1.silence,
{
}

/// A take that is too short is never kept.
pub proof fn lemma_misfire_is_discarded(s: VoiceView, f: VoiceFrame)
    requires
        s.phase is Recording,
        f.capture matches CapturePoll::Taken(v) && v@.len() < MIN_TAKE_SAMPLES,
    ensures
        voiced(s, f).0.phase is Idle,
        !voiced(s, f).1.play,
{
}

/// A pad button that a prompt may name.
#[derive(Debug, Clone, Copy, PartialEq, Eq, Structural)]
pub enum PadButton {
    South,
    East,
    West,
    North,
    Other,
}

/// A key that a prompt may name.
#[derive(Debug, Clone, Copy, PartialEq, Eq, Structural)]
pub enum PromptKey {
    Enter,
    Escape,
    V,
    Other,
}

pub open spec fn pad_name(b: PadButton) -> Seq<char> {
    match b {
        PadButton::South => "A"@,
        PadButton::East => "B"@,
        PadButton::West => "X"@,
        PadButton::North => "Y"@,
        PadButton::Other => "?"@,
    }
}

pub open spec fn key_name(k: PromptKey) -> Seq<char> {
    match k {
        PromptKey::Enter => "Enter"@,
        PromptKey::Escape => "Esc"@,
        PromptKey::V => "V"@,
        PromptKey::Other => "?"@,
    }
}

/// What a prompt calls an action's button and key.
pub open spec fn chip_of(pad: Option<PadButton>, key: Option<PromptKey>) -> Seq<char> {
    match (pad, key) {
        (Some(p), Some(k)) => pad_name(p) + "/"@ + key_name(k),
        (Some(p), None) => pad_name(p),
        (None, Some(k)) => key_name(k),
        (None, None) => "?"@,
    }
}

pub fn prompt_chip(pad: Option<PadButton>, key: Option<PromptKey>) -> (s: String)
    ensures
        s@ == chip_of(pad, key),
{
    let mut out = String::new();
    if pad.is_none() && key.is_none() {
        push_text(&mut out, "?");
    }
    if let Some(p) = pad {
        match p {
            PadButton::South => push_text(&mut out, "A"),
            PadButton::East => push_text(&mut out, "B"),
            PadButton::West => push_text(&mut out, "X"),
            PadButton::North => push_text(&mut out, "Y"),
            PadButton::Other => push_text(&mut out, "?"),
        }
        if key.is_some() {
            push_text(&mut out, "/");
        }
    }
    if let Some(k) = key {
        match k {
            PromptKey::Enter => push_text(&mut out, "Enter"),
            PromptKey::Escape => push_text(&mut out, "Esc"),
            PromptKey::V => push_text(&mut out, "V"),
            PromptKey::Other => push_text(&mut out, "?"),
        }
    }
    assert(out@ =~= chip_of(pad, key));
    out
}

/// The name of a saved take.
pub open spec fn take_name(stamp_millis: u64) -> Seq<char> {
    "voice-"@ + decimal(stamp_millis as nat) + ".wav"@
}

pub fn take_file_name(stamp_millis: u64) -> (s: String)
    ensures
        s@ == take_name(stamp_millis),
{
    let mut out = String::new();
    push_text(&mut out, "voice-");
    push_decimal(&mut out, stamp_millis);
    push_text(&mut out, ".wav");
    assert(out@ =~= take_name(stamp_millis));
    out
}

/// A saved take is one that a sweep picks up.
pub proof fn lemma_saved_takes_are_swept(stamp_millis: u64)
    ensures
        crate::voice_delivery::is_take(take_name(stamp_millis)),
{
    let t = take_name(stamp_millis);
    reveal_strlit("voice-");
    reveal_strlit(".wav");
    assert(t.take("voice-"@.len() as int) =~= "voice-"@);
    assert(t.skip(t.len() - ".wav"@.len()) =~= ".wav"@);
}

/// Of two saved takes the one saved earlier is shipped first.
pub proof fn lemma_older_takes_go_first(x: u64, y: u64)
    requires
        x < y,
    ensures
        older_first(take_name(x), take_name(y)),
        !older_first(take_name(y), take_name(x)),
{
    lemma_take_is_stamped(x);
    lemma_take_is_stamped(y);
}

/// The name of a saved take says when it was saved.
pub proof fn lemma_take_is_stamped(stamp_millis: u64)
    ensures
        stamp_of(take_name(stamp_millis)) == Some(stamp_millis as nat),
{
    lemma_saved_takes_are_swept(stamp_millis);
    lemma_decimal_is_read_back(stamp_millis as nat);
    reveal_strlit("voice-");
    reveal_strlit(".wav");
    assert(stamp_text(take_name(stamp_millis)) =~= decimal(stamp_millis as nat));
}

/// A device whose name holds what was asked for, whatever the case.
pub open spec fn matches_mic(name: Option<String>, want: Seq<char>) -> bool {
    name matches Some(n) && contains_text(lower_of(n@), lower_of(want))
}

/// The first device that matches; a device that has no name matches nothing.
pub fn pick_mic(names: &Vec<Option<String>>, want: &str) -> (r: Result<usize, String>)
    ensures
        match r {
            Ok(i) => i < names@.len() && matches_mic(names@[i as int], want@) && forall|k: int|
                0 <= k < i ==> !matches_mic(#[trigger] names@[k], want@),
            Err(e) => {
                &&& forall|k: int|
                    0 <= k < names@.len() ==> !matches_mic(#[trigger] names@[k], want@)
                &&& e@ == "no input device matching RL_MIC="@ + want@
            },
        },
{
    let lw = lower_text(want);
    let w = chars_of(lw.as_str());
    let mut i: usize = 0;
    while i < names.len()
        invariant
            i <= names@.len(),
            w@ == lower_of(want@),
            forall|k: int| 0 <= k < i ==> !matches_mic(#[trigger] names@[k], want@),
        decreases names@.len() - i,
    {
        if let Some(n) = &names[i] {
            let ln = lower_text(n.as_str());
            let c = chars_of(ln.as_str());
            if chars_contain(c.as_slice(), w.as_slice()) {
                return Ok(i);
            }
        }
        i = i + 1;
    }
    let mut out = String::new();
    push_text(&mut out, "no input device matching RL_MIC=");
    push_text(&mut out, want);
    assert(out@ =~= "no input device matching RL_MIC="@ + want@);
    Err(out)
}

/// The most raw samples of a take.
pub fn cap_samples(src_rate: u32) -> (n: u64)
    ensures
        n == src_rate * MAX_TAKE_SECS,
{
    src_rate as u64 * MAX_TAKE_SECS
}

/// How many samples a take has at the one rate.
pub fn resampled_len(src_len: u64, src_rate: u32) -> (n: u128)
    requires
        src_rate > 0,
    ensures
        n == src_len * SAMPLE_RATE / src_rate as int,
{
    assert(src_len * SAMPLE_RATE <= u64::MAX * SAMPLE_RATE) by (nonlinear_arith)
        requires
            src_len <= u64::MAX,
    ;
    let p: u128 = src_len as u128 * SAMPLE_RATE as u128;
    p / src_rate as u128
}

/// A reply that came in.
#[derive(Debug)]
pub struct Reply {
    pub text: String,
    pub wav: Vec<u8>,
}

/// A reply to show, with its sound where it can be played.
#[derive(Debug)]
pub struct QueuedReply {
    pub text: String,
    pub samples: Option<Vec<i16>>,
}

/// A reply to show, by value.
pub struct ReplyView {
    pub text: Seq<char>,
    pub samples: Option<Seq<i16>>,
}

impl View for QueuedReply {
    type V = ReplyView;

    open spec fn view(&self) -> ReplyView {
        ReplyView {
            text: self.text@,
            samples: match self.samples {
                Some(v) => Some(v@),
                None => None,
            },
        }
    }
}

/// The replies not yet shown, and the time left of the one that is.
#[derive(Debug)]
pub struct ReplyUx {
    queue: Vec<QueuedReply>,
    showing: Option<u128>,
}

/// The replies by value.
pub struct RepliesView {
    pub queue: Seq<ReplyView>,
    pub showing: Option<u128>,
}

pub open spec fn reply_views(q: Seq<QueuedReply>) -> Seq<ReplyView> {
    Seq::new(q.len(), |i: int| q[i]@)
}

impl View for ReplyUx {
    type V = RepliesView;

    closed spec fn view(&self) -> RepliesView {
        RepliesView { queue: reply_views(self.queue@), showing: self.showing }
    }
}

/// What a fresh reply is queued as: its text, and its sound if that reads as one.
pub open spec fn reply_of(r: Reply) -> ReplyView {
    ReplyView {
        text: r.text@,
        samples: match wav_of(r.wav@) {
            Ok(s) => Some(s.map_values(|v: i16| replayed(v as int) as i16)),
            Err(e) => None,
        },
    }
}

/// Several of them.
pub open spec fn replies_of(rs: Seq<Reply>) -> Seq<ReplyView> {
    Seq::new(rs.len(), |i: int| reply_of(rs[i]))
}

/// How long a reply is shown.
pub open spec fn show_nanos(r: ReplyView) -> u128 {
    match r.samples {
        Some(s) => {
            let sounding = s.len() as int * 1_000_000_000 / SAMPLE_RATE as int
                + REPLY_LINGER_NANOS;
            if sounding > REPLY_MIN_NANOS {
                sounding as u128
            } else {
                REPLY_MIN_NANOS
            }
        },
        None => REPLY_MIN_NANOS,
    }
}

/// What a frame does with the replies.
#[derive(Debug)]
pub enum ReplyOrder {
    /// Leave the screen as it is.
    Keep,
    /// Take the reply off the screen.
    Hide,
    /// Show this reply, in place of another if there was one.
    Show(QueuedReply),
}

/// The replies after a frame, and the one to show: a reply stays until its time is up, then
/// the next in line is shown.
pub open spec fn replied(s: RepliesView, fresh: Seq<ReplyView>, nanos: u64) -> (
    RepliesView,
    Option<ReplyView>,
) {
    let q = s.queue + fresh;
    match s.showing {
        Some(left) if left > nanos => (
            RepliesView { queue: q, showing: Some((left - nanos) as u128) },
            None,
        ),
        _ => if q.len() == 0 {
            (RepliesView { queue: q, showing: None }, None)
        } else {
            (RepliesView { queue: q.skip(1), showing: Some(show_nanos(q[0])) }, Some(q[0]))
        },
    }
}

fn playable(wav: &Vec<u8>) -> (r: Option<Vec<i16>>)
    ensures
        match r {
            Some(v) => wav_of(wav@) matches Ok(s) && v@ == s.map_values(
                |v: i16| replayed(v as int) as i16,
            ),
            None => wav_of(wav@) is Err,
        },
{
    match parse_mono_44k(wav.as_slice()) {
        Ok(s) => {
            let mut out: Vec<i16> = Vec::new();
            let mut i: usize = 0;
            while i < s.len()
                invariant
                    i <= s@.len(),
                    out@.len() == i,
                    forall|k: int| 0 <= k < i ==> out@[k] == replayed(s@[k] as int),
                decreases s@.len() - i,
            {
                out.push(replay_sample(s[i]));
                i = i + 1;
            }
            assert(out@ =~= s@.map_values(|v: i16| replayed(v as int) as i16));
            Some(out)
        },
        Err(e) => None,
    }
}

impl ReplyUx {
    /// No replies.
    pub fn new() -> (r: Self)
        ensures
            r@ == (RepliesView { queue: Seq::empty(), showing: None }),
    {
        let r = ReplyUx { queue: Vec::new(), showing: None };
        assert(r@.queue =~= Seq::empty());
        r
    }

    /// One frame: queue what came in, and show the next reply once the one on screen is due.
    pub fn drive(&mut self, fresh: Vec<Reply>, delta_nanos: u64) -> (o: ReplyOrder)
        ensures
            final(self)@ == replied(old(self)@, replies_of(fresh@), delta_nanos).0,
            match (replied(old(self)@, replies_of(fresh@), delta_nanos).1) {
                Some(r) => o matches ReplyOrder::Show(q) && q@ == r,
                None => if old(self)@.showing is Some && final(self)@.showing is None {
                    o is Hide
                } else {
                    o is Keep
                },
            },
    {
        let ghost q0 = self@.queue;
        let ghost want = replies_of(fresh@);
        let mut i: usize = 0;
        assert(q0 + want.take(0) =~= q0);
        while i < fresh.len()
            invariant
                i <= fresh@.len(),
                want == replies_of(fresh@),
                reply_views(self.queue@) == q0 + want.take(i as int),
                self.showing == old(self).showing,
            decreases fresh@.len() - i,
        {
            let samples = playable(&fresh[i].wav);
            let ghost b = reply_views(self.queue@);
            let q = QueuedReply { text: fresh[i].text.clone(), samples };
            assert(q@ == want[i as int]) by {
                match q.samples {
                    Some(v) => {
                        assert(q@.samples == want[i as int].samples);
                    },
                    None => {},
                }
            }
            self.queue.push(q);
            proof {
                assert(reply_views(self.queue@) =~= b.push(want[i as int]));
                assert(want.take(i + 1) =~= want.take(i as int).push(want[i as int]));
                assert(q0 + want.take(i + 1) =~= (q0 + want.take(i as int)).push(want[i as int]));
            }
            i = i + 1;
        }
        assert(want.take(i as int) =~= want);
        let was_showing: bool = self.showing.is_some();
        if let Some(left) = self.showing {
            if left > delta_nanos as u128 {
                self.showing = Some(left - delta_nanos as u128);
                return ReplyOrder::Keep;
            }
            self.showing = None;
        }
        if self.queue.len() == 0 {
            return if was_showing {
                ReplyOrder::Hide
            } else {
                ReplyOrder::Keep
            };
        }
        let ghost q = reply_views(self.queue@);
        let next = self.queue.remove(0);
        assert(reply_views(self.queue@) =~= q.skip(1));
        let mut nanos: u128 = REPLY_MIN_NANOS;
        if let Some(s) = &next.samples {
            let sounding: u128 = s.len() as u128 * 1_000_000_000 / SAMPLE_RATE as u128
                + REPLY_LINGER_NANOS;
            if sounding > nanos {
                nanos = sounding;
            }
        }
        self.showing = Some(nanos);
        ReplyOrder::Show(next)
    }

    /// The round is over: nothing is on screen, and what is still queued waits for the next
    /// round.
    pub fn stop_reply_poll(&mut self)
        ensures
            final(self)@ == (RepliesView { showing: None, ..old(self)@ }),
    {
        self.showing = None;
    }
}

/// Replies are shown in the order in which they came: nothing that is queued is lost but by
/// being shown.
pub proof fn lemma_replies_keep_order(s: RepliesView, fresh: Seq<ReplyView>, nanos: u64)
    ensures
        match replied(s, fresh, nanos).1 {
            Some(r) => seq![r] + replied(s, fresh, nanos).0.queue == s.queue + fresh,
            None => replied(s, fresh, nanos).0.queue == s.queue + fresh,
        },
{
    let q = s.queue + fresh;
    if q.len() > 0 {
        assert(seq![q[0]] + q.skip(1) =~= q);
    }
}

/// What a look into the inbox found.
#[derive(Debug, Clone, Copy, PartialEq, Eq, Structural)]
pub enum InboxPoll {
    Found,
    Quiet,
    Failed,
}

/// What the poller does next.
#[derive(Debug, Clone, Copy, PartialEq, Eq, Structural)]
pub enum PollStep {
    /// Hand the reply over, and acknowledge it only then.
    HandOver,
    Sleep,
    WarnAndSleep,
}

/// The poller: it warns once per outage.
#[derive(Debug, Clone, Copy, PartialEq, Eq, Structural)]
pub struct ReplyPoller {
    pub warned: bool,
}

impl ReplyPoller {
    /// After a look into the inbox.
    pub fn polled(&mut self, p: InboxPoll) -> (s: PollStep)
        ensures
            final(self).warned == (p is Failed),
            s == (match p {
                InboxPoll::Found => PollStep::HandOver,
                InboxPoll::Quiet => PollStep::Sleep,
                InboxPoll::Failed => if old(self).warned {
                    PollStep::Sleep
                } else {
                    PollStep::WarnAndSleep
                },
            }),
    {
        match p {
            InboxPoll::Found => {
                self.warned = false;
                PollStep::HandOver
            },
            InboxPoll::Quiet => {
                self.warned = false;
                PollStep::Sleep
            },
            InboxPoll::Failed => {
                let again: bool = self.warned;
                self.warned = true;
                if again {
                    PollStep::Sleep
                } else {
                    PollStep::WarnAndSleep
                }
            },
        }
    }
}

/// How long to sleep now, of what is left until the next look.
pub fn sleep_slice(left_millis: u64) -> (s: u64)
    ensures
        s == (if left_millis < POLL_SLICE_MILLIS {
            left_millis
        } else {
            POLL_SLICE_MILLIS
        }),
{
    if left_millis < POLL_SLICE_MILLIS {
        left_millis
    } else {
        POLL_SLICE_MILLIS
    }
}

} // verus!
