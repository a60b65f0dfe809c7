//! What the controls of the program do.

use crate::generated::{
    apply_generated, continuation_base, continuations_replace_generated_notes, continues,
    first_start, generated_status, kept, placed, placed_notes_follow_each_other, played,
    played_notes_are_notes, GeneratedUpdate,
};
use crate::midi::{
    after_arrivals, in_order, silence_counts_from_the_last_sound, Activity, Arrival,
};
use crate::model::{
    prompt_notes, prompted, prompts_tell_what_was_played, relative, tells, ModelNote,
};
use crate::order::stable_sort;
use crate::playback::{present, PlaybackControl, PlaybackState, PlaybackTimeline};
use crate::state::{
    ends_fit, next_counter, recording_starts_behind_all_notes, Note, Shared,
};
use crate::text::{append_decimal, decimal};
use crate::timeline::{bounds_of, timeline_bounds};
use vstd::prelude::*;
use vstd::string::*;

verus! {

/// The pause in the input after which a continuation is generated.
pub const AUTO_PAUSE_MS: u64 = 800;

/// Whether a continuation is due: nothing sounds and nothing has for a while, and there are
/// more played notes than the last continuation was asked for.
pub open spec fn is_due(
    now_ms: u64,
    last_input_ms: u64,
    input_active: bool,
    input_notes: nat,
    requested_notes: usize,
) -> bool {
    &&& !input_active
    &&& input_notes > requested_notes
    &&& now_ms - last_input_ms >= AUTO_PAUSE_MS
}

/// Decides whether a continuation is due.
pub fn auto_generation_due(
    now_ms: u64,
    last_input_ms: u64,
    input_active: bool,
    input_notes: usize,
    requested_notes: usize,
) -> (due: bool)
    ensures
        due == is_due(now_ms, last_input_ms, input_active, input_notes as nat, requested_notes),
{
    !input_active && input_notes > requested_notes && now_ms.saturating_sub(last_input_ms)
        >= AUTO_PAUSE_MS
}

/// The place of a name in a list.
pub open spec fn place_of(names: Seq<String>, name: Seq<char>, i: int) -> bool {
    &&& 0 <= i < names.len()
    &&& names[i]@ == name
    &&& forall|k: int| 0 <= k < i ==> (#[trigger] names[k])@ != name
}

/// The first place of the preferred name among `names`.
pub fn preferred_index(names: &[String], preferred: Option<&str>) -> (index: Option<u32>)
    ensures
        match index {
            Some(index) => preferred is Some && exists|i: usize|
                #[trigger] place_of(names@, preferred->0@, i as int) && index == i as u32,
            None => preferred matches Some(name) ==> forall|i: int|
                0 <= i < names@.len() ==> (#[trigger] names@[i])@ != name@,
        },
        names@.len() <= u32::MAX ==> (index matches Some(index) ==> {
            &&& index < names@.len()
            &&& names@[index as int]@ == preferred->0@
            &&& forall|k: int| 0 <= k < index ==> (#[trigger] names@[k])@ != preferred->0@
        }),
{
    let name = match preferred {
        Some(name) => name,
        None => {
            return None;
        },
    };
    let wanted = name.to_owned();
    let mut i: usize = 0;
    while i < names.len()
        invariant
            i <= names.len(),
            preferred == Some(name),
            wanted@ == name@,
            forall|k: int| 0 <= k < i ==> (#[trigger] names@[k])@ != name@,
        decreases names.len() - i,
    {
        if names[i] == wanted {
            assert(place_of(names@, preferred->0@, i as int));
            return Some(i as u32);
        }
        i = i + 1;
    }
    None
}

/// How many of the notes were played.
pub open spec fn played_count(notes: Seq<Note>) -> nat
    decreases notes.len(),
{
    if notes.len() == 0 {
        0
    } else {
        played_count(notes.drop_last()) + if notes.last().generated { 0nat } else { 1nat }
    }
}

/// Counts the notes that were played.
pub fn count_played(notes: &Vec<Note>) -> (count: usize)
    ensures
        count == played_count(notes@),
        count <= notes@.len(),
{
    let mut count: usize = 0;
    let mut i: usize = 0;
    while i < notes.len()
        invariant
            i <= notes.len(),
            count <= i,
            count == played_count(notes@.take(i as int)),
        decreases notes.len() - i,
    {
        assert(notes@.take(i + 1).drop_last() =~= notes@.take(i as int));
        if !notes[i].generated {
            count = count + 1;
        }
        i = i + 1;
    }
    assert(notes@.take(notes.len() as int) =~= notes@);
    count
}

/// A continuation that the model is to be asked for: the prompt with its times in
/// milliseconds, where it starts, and the revision that it goes by.
pub struct GenerationTicket {
    pub notes: Vec<ModelNote>,
    pub musical_start_ms: Option<u64>,
    pub revision: u64,
}

/// What the controls look like.
#[derive(Clone, Copy, Debug, PartialEq, Eq)]
pub struct ControlView {
    pub record_label: &'static str,
    pub play_label: &'static str,
    pub play_visible: bool,
    pub play_sensitive: bool,
    pub pause_visible: bool,
    pub stop_visible: bool,
    pub generate_sensitive: bool,
}

/// What the timeline looks like.
#[derive(Clone, Copy, Debug, PartialEq, Eq)]
pub struct TimelineView {
    pub playhead: Option<u64>,
    pub bounds: Option<(u64, u64)>,
    pub follow_playhead: bool,
}

/// A running program: the recorder, playback, whether a continuation is being computed,
/// whether recording resumes on its own, and how many played notes the last automatic
/// continuation was asked for.
pub struct Session<P> {
    pub shared: Shared,
    pub playback: PlaybackControl<P>,
    pub generation_busy: bool,
    pub auto_resume: bool,
    pub auto_requested_notes: usize,
}

/// Playback as it is after its state became `state` and its player was put aside.
pub open spec fn halted<P>(
    before: PlaybackControl<P>,
    after: PlaybackControl<P>,
    state: PlaybackState,
) -> bool {
    &&& after.state == state
    &&& after.player is None
    &&& after.retired@ == before.retired@ + present(before.player)
}

impl<P> Session<P> {
    /// A program that has just started and shows `status`.
    pub fn new(status: String) -> (session: Self)
        ensures
            session.shared.notes@.len() == 0,
            session.shared.status == status,
            !session.shared.connected,
            !session.shared.capturing,
            session.shared.capture_generation == 0,
            session.shared.capture_started_ms == 0,
            session.shared.capture_position_ms == 0,
            !session.shared.input_active,
            session.shared.last_input_ms == 0,
            session.shared.generation_revision == 0,
            session.playback.state == PlaybackState::initial(),
            session.playback.player is None,
            session.playback.retired@ == Seq::<P>::empty(),
            !session.generation_busy,
            !session.auto_resume,
            session.auto_requested_notes == 0,
            session.playback.wf(),
    {
        let mut shared: Shared = Default::default();
        shared.status = status;
        Session {
            shared,
            playback: Default::default(),
            generation_busy: false,
            auto_resume: false,
            auto_requested_notes: 0,
        }
    }

    /// Where the playhead stands: at what is heard, else at what is recorded, else at the
    /// place where playback was left.
    pub open spec fn playhead_at(self, now_ms: u64) -> Option<u64> {
        if self.playback.state.phase is Playing {
            self.playback.state.heard(now_ms)
        } else if self.shared.capturing {
            Some(self.shared.position_at(now_ms) as u64)
        } else {
            self.playback.state.cursor_ms
        }
    }

    /// Where the playhead stands.
    pub fn playhead(&self, now_ms: u64) -> (playhead: Option<u64>)
        requires
            !(self.playback.state.phase is Playing) ==> self.shared.position_at(now_ms)
                <= u64::MAX,
        ensures
            playhead == self.playhead_at(now_ms),
    {
        if self.playback.is_playing() {
            self.playback.position(now_ms)
        } else if self.shared.capturing {
            Some(self.shared.capture_position(now_ms))
        } else {
            self.playback.cursor()
        }
    }

    /// The place that the timeline is laid out around when it is clicked.
    pub open spec fn click_anchor(self, now_ms: u64) -> Option<u64> {
        if self.playback.state.heard(now_ms) is Some {
            self.playback.state.heard(now_ms)
        } else if self.playback.state.cursor_ms is Some {
            self.playback.state.cursor_ms
        } else if self.shared.capturing {
            Some(self.shared.position_at(now_ms) as u64)
        } else {
            None
        }
    }

    /// The stretch of time in which a click on the timeline selects a position.
    pub fn click_bounds(&self, now_ms: u64) -> (bounds: Option<(u64, u64)>)
        requires
            ends_fit(self.shared.notes@),
            self.playback.state.heard(now_ms) is None && self.playback.state.cursor_ms is None
                ==> self.shared.position_at(now_ms) <= u64::MAX,
        ensures
            bounds == bounds_of(self.shared.notes@, self.click_anchor(now_ms)),
    {
        let anchor = match self.playback.position(now_ms) {
            Some(position) => Some(position),
            None => match self.playback.cursor() {
                Some(cursor) => Some(cursor),
                None => if self.shared.capturing {
                    Some(self.shared.capture_position(now_ms))
                } else {
                    None
                },
            },
        };
        timeline_bounds(self.shared.notes.as_slice(), anchor)
    }

    /// Whether the timeline shows where recording stands.
    pub open spec fn shows_clock(self, now_ms: u64) -> bool {
        !(self.playback.state.phase is Playing) || (self.playback.state.heard(now_ms) is None
            && self.shared.connected)
    }

    /// What the timeline looks like at `now_ms`.
    pub fn timeline_view(&self, now_ms: u64) -> (view: TimelineView)
        requires
            ends_fit(self.shared.notes@),
            self.shows_clock(now_ms) ==> self.shared.position_at(now_ms) <= u64::MAX,
        ensures
            view.playhead == self.playhead_at(now_ms),
            view.bounds == bounds_of(
                self.shared.notes@,
                if self.playhead_at(now_ms) is None && self.shared.connected {
                    Some(self.shared.position_at(now_ms) as u64)
                } else {
                    self.playhead_at(now_ms)
                },
            ),
            view.follow_playhead == (self.playback.state.phase is Playing
                || self.shared.capturing),
    {
        let playhead = self.playhead(now_ms);
        let position = match playhead {
            Some(playhead) => Some(playhead),
            None => if self.shared.connected {
                Some(self.shared.capture_position(now_ms))
            } else {
                None
            },
        };
        TimelineView {
            playhead,
            bounds: timeline_bounds(self.shared.notes.as_slice(), position),
            follow_playhead: self.playback.is_playing() || self.shared.capturing,
        }
    }

    /// The status line: the status and the number of notes.
    pub fn status_line(&self) -> (line: String)
        ensures
            line@ == self.shared.status@ + "  |  "@ + decimal(self.shared.notes@.len()) + " notes"@,
    {
        let mut line = self.shared.status.clone();
        line.append("  |  ");
        append_decimal(&mut line, self.shared.notes.len() as u64);
        line.append(" notes");
        line
    }

    /// What the controls look like.
    pub fn control_view(&self) -> (view: ControlView)
        ensures
            view.record_label@ == if self.shared.capturing { "Stop Rec"@ } else { "Rec"@ },
            view.play_label@ == if self.playback.state.phase is Paused {
                "Resume"@
            } else {
                "Play"@
            },
            view.play_visible == !(self.playback.state.phase is Playing),
            view.play_sensitive == (!(self.playback.state.phase is Rendering)
                && !self.generation_busy),
            view.pause_visible == (self.playback.state.phase is Playing),
            view.stop_visible == (self.playback.state.phase is Playing
                || self.playback.state.phase is Paused),
            view.generate_sensitive == !self.generation_busy,
    {
        let playing = self.playback.is_playing();
        let paused = self.playback.is_paused();
        ControlView {
            record_label: if self.shared.capturing { "Stop Rec" } else { "Rec" },
            play_label: if paused { "Resume" } else { "Play" },
            play_visible: !playing,
            play_sensitive: !self.playback.is_rendering() && !self.generation_busy,
            pause_visible: playing,
            stop_visible: playing || paused,
            generate_sensitive: !self.generation_busy,
        }
    }

    /// The devices are connected: recording is off, and the keys that were held are forgotten.
    pub fn devices_connected(&mut self, status: String)
        requires
            old(self).shared.capture_generation < u64::MAX,
        ensures
            *final(self) == (Session {
                shared: Shared {
                    connected: true,
                    capturing: false,
                    capture_generation: (old(self).shared.capture_generation + 1) as u64,
                    status,
                    ..old(self).shared
                },
                ..*old(self)
            }),
    {
        self.shared.connected = true;
        self.shared.capturing = false;
        self.shared.capture_generation = self.shared.capture_generation + 1;
        self.shared.status = status;
    }

    /// The devices are listed anew and none is connected.
    pub fn devices_refreshed(&mut self, inputs: usize, outputs: usize)
        requires
            old(self).shared.capture_generation < u64::MAX,
        ensures
            final(self).shared.status@ == "Found "@ + decimal(inputs as nat) + " inputs and "@
                + decimal(outputs as nat) + " outputs. Click Connect."@,
            *final(self) == (Session {
                shared: Shared {
                    connected: false,
                    capturing: false,
                    capture_generation: (old(self).shared.capture_generation + 1) as u64,
                    status: final(self).shared.status,
                    ..old(self).shared
                },
                ..*old(self)
            }),
    {
        self.shared.connected = false;
        self.shared.capturing = false;
        self.shared.capture_generation = self.shared.capture_generation + 1;
        let mut status = "Found ".to_owned();
        append_decimal(&mut status, inputs as u64);
        status.append(" inputs and ");
        append_decimal(&mut status, outputs as u64);
        status.append(" outputs. Click Connect.");
        self.shared.status = status;
    }

    /// The record button: switches recording on, from the cursor if there is one, or off. A
    /// cursor that was used is forgotten. Without devices nothing can be recorded.
    pub fn record_clicked(&mut self, now_ms: u64)
        requires
            old(self).shared.connected && old(self).shared.capturing ==> old(
                self,
            ).shared.position_at(now_ms) <= u64::MAX,
            old(self).shared.connected && !old(self).shared.capturing && old(
                self,
            ).playback.state.cursor_ms is None ==> ends_fit(old(self).shared.notes@),
        ensures
            !old(self).shared.connected ==> {
                &&& final(self).shared.status@ == "Connect MIDI devices before recording."@
                &&& *final(self) == (Session {
                    shared: Shared { status: final(self).shared.status, ..old(self).shared },
                    ..*old(self)
                })
            },
            old(self).shared.connected ==> {
                let selected = if old(self).shared.capturing {
                    None
                } else {
                    old(self).playback.state.cursor_ms
                };
                &&& old(self).shared.toggled(now_ms, selected, final(self).shared)
                &&& if selected is Some {
                    halted(
                        old(self).playback,
                        final(self).playback,
                        old(self).playback.state.cleared(),
                    )
                } else {
                    final(self).playback == old(self).playback
                }
            },
            *final(self) == (Session {
                shared: final(self).shared,
                playback: final(self).playback,
                ..*old(self)
            }),
            old(self).playback.wf() ==> final(self).playback.wf(),
    {
        if !self.shared.connected {
            self.shared.status = "Connect MIDI devices before recording.".to_owned();
            return ;
        }
        let selected = if self.shared.capturing {
            None
        } else {
            self.playback.cursor()
        };
        self.shared.toggle_capture(now_ms, selected);
        if selected.is_some() {
            self.playback.reset();
        }
    }

    /// The clear button: removes all notes and the cursor.
    pub fn clear_clicked(&mut self, now_ms: u64)
        ensures
            old(self).shared.cleared(now_ms, final(self).shared),
            halted(old(self).playback, final(self).playback, old(self).playback.state.cleared()),
            *final(self) == (Session {
                shared: final(self).shared,
                playback: final(self).playback,
                auto_resume: false,
                ..*old(self)
            }),
            old(self).playback.wf() ==> final(self).playback.wf(),
    {
        self.auto_resume = false;
        self.playback.reset();
        self.shared.clear_timeline(now_ms);
    }

    /// Puts the notes of a file in place of the timeline.
    pub fn notes_imported(&mut self, notes: Vec<Note>, now_ms: u64, source: &str)
        requires
            ends_fit(notes@),
        ensures
            exists|replaced: Shared| #[trigger]
                old(self).shared.replaced(notes, now_ms, replaced) && final(self).shared == (
                Shared { status: final(self).shared.status, ..replaced }),
            final(self).shared.status@ == "Imported "@ + decimal(notes@.len()) + " notes from "@
                + source@,
            halted(old(self).playback, final(self).playback, old(self).playback.state.cleared()),
            *final(self) == (Session {
                shared: final(self).shared,
                playback: final(self).playback,
                auto_resume: false,
                ..*old(self)
            }),
            old(self).playback.wf() ==> final(self).playback.wf(),
    {
        let count = notes.len();
        self.auto_resume = false;
        self.playback.reset();
        self.shared.replace_notes(notes, now_ms);
        assert(old(self).shared.replaced(notes, now_ms, self.shared));
        let mut status = "Imported ".to_owned();
        append_decimal(&mut status, count as u64);
        status.append(" notes from ");
        status.append(source);
        self.shared.status = status;
    }

    /// Whether the notes can be exported; if there are none, that is shown.
    pub fn can_export(&mut self) -> (can: bool)
        ensures
            can == (old(self).shared.notes@.len() > 0),
            can ==> *final(self) == *old(self),
            !can ==> final(self).shared.status@ == "Nothing to export"@,
            *final(self) == (Session {
                shared: Shared { status: final(self).shared.status, ..old(self).shared },
                ..*old(self)
            }),
    {
        if self.shared.notes.len() == 0 {
            self.shared.status = "Nothing to export".to_owned();
            return false;
        }
        true
    }

    /// Shows that the notes were exported.
    pub fn notes_exported(&mut self, count: usize, target: &str)
        ensures
            final(self).shared.status@ == "Exported "@ + decimal(count as nat) + " notes to "@
                + target@,
            *final(self) == (Session {
                shared: Shared { status: final(self).shared.status, ..old(self).shared },
                ..*old(self)
            }),
    {
        let mut status = "Exported ".to_owned();
        append_decimal(&mut status, count as u64);
        status.append(" notes to ");
        status.append(target);
        self.shared.status = status;
    }

    /// Why the play button does nothing, before its settings are saved.
    pub open spec fn play_refusal(self, soundfont: Seq<char>) -> Option<Seq<char>> {
        if self.generation_busy {
            Some("Wait for generation to finish"@)
        } else if self.playback.state.phase is Rendering {
            Some("SoundFont is still rendering..."@)
        } else if soundfont.len() == 0 {
            Some("Choose a .sf2 SoundFont first"@)
        } else {
            None
        }
    }

    /// Whether the play button does something; if not, the reason is shown.
    pub fn may_play(&mut self, soundfont: &str) -> (may: bool)
        ensures
            may == (old(self).play_refusal(soundfont@) is None),
            may ==> *final(self) == *old(self),
            !may ==> final(self).shared.status@ == old(self).play_refusal(soundfont@)->0,
            *final(self) == (Session {
                shared: Shared { status: final(self).shared.status, ..old(self).shared },
                ..*old(self)
            }),
    {
        if self.generation_busy {
            self.shared.status = "Wait for generation to finish".to_owned();
            return false;
        }
        if self.playback.is_rendering() {
            self.shared.status = "SoundFont is still rendering...".to_owned();
            return false;
        }
        self.has_soundfont(soundfont)
    }

    /// Whether a SoundFont is chosen; if not, that is shown.
    pub fn has_soundfont(&mut self, soundfont: &str) -> (chosen: bool)
        ensures
            chosen == (soundfont@.len() > 0),
            chosen ==> *final(self) == *old(self),
            !chosen ==> final(self).shared.status@ == "Choose a .sf2 SoundFont first"@,
            *final(self) == (Session {
                shared: Shared { status: final(self).shared.status, ..old(self).shared },
                ..*old(self)
            }),
    {
        if soundfont.is_empty() {
            self.shared.status = "Choose a .sf2 SoundFont first".to_owned();
            return false;
        }
        true
    }

    /// Whether there are notes to play; if not, that is shown.
    pub fn has_notes(&mut self) -> (present: bool)
        ensures
            present == (old(self).shared.notes@.len() > 0),
            present ==> *final(self) == *old(self),
            !present ==> final(self).shared.status@ == "Nothing to play"@,
            *final(self) == (Session {
                shared: Shared { status: final(self).shared.status, ..old(self).shared },
                ..*old(self)
            }),
    {
        if self.shared.notes.len() == 0 {
            self.shared.status = "Nothing to play".to_owned();
            return false;
        }
        true
    }

    /// The pause button: pauses what is heard, which outdates every continuation.
    pub fn pause_clicked(&mut self, now_ms: u64)
        ensures
            old(self).playback.state.heard(now_ms) is None ==> *final(self) == *old(self),
            old(self).playback.state.heard(now_ms) is Some ==> {
                &&& halted(
                    old(self).playback,
                    final(self).playback,
                    old(self).playback.state.paused(now_ms),
                )
                &&& final(self).shared.status@ == "Paused"@
                &&& final(self).shared.generation_revision == next_counter(
                    old(self).shared.generation_revision,
                )
            },
            *final(self) == (Session {
                shared: Shared {
                    status: final(self).shared.status,
                    generation_revision: final(self).shared.generation_revision,
                    ..old(self).shared
                },
                playback: final(self).playback,
                ..*old(self)
            }),
            old(self).playback.wf() ==> final(self).playback.wf(),
    {
        if self.playback.pause(now_ms) {
            self.shared.invalidate_generation();
            self.shared.status = "Paused".to_owned();
        }
    }

    /// The stop button: stops playback, which outdates every continuation, and leaves recording
    /// off.
    pub fn stop_clicked(&mut self, now_ms: u64)
        ensures
            halted(
                old(self).playback,
                final(self).playback,
                old(self).playback.state.stopped(now_ms),
            ),
            final(self).shared.status@ == "Stopped"@,
            final(self).shared.generation_revision == next_counter(
                old(self).shared.generation_revision,
            ),
            *final(self) == (Session {
                shared: Shared {
                    status: final(self).shared.status,
                    generation_revision: final(self).shared.generation_revision,
                    ..old(self).shared
                },
                playback: final(self).playback,
                auto_resume: false,
                ..*old(self)
            }),
            old(self).playback.wf() ==> final(self).playback.wf(),
    {
        self.auto_resume = false;
        self.playback.stop(now_ms);
        self.shared.invalidate_generation();
        self.shared.status = "Stopped".to_owned();
    }

    /// A click on the timeline: moves the cursor, which outdates every continuation, and tells
    /// whether something was being played.
    pub fn position_clicked(&mut self, position_ms: u64, status: String) -> (was_playing: bool)
        ensures
            was_playing == (old(self).playback.state.phase is Playing),
            halted(
                old(self).playback,
                final(self).playback,
                old(self).playback.state.sought(position_ms),
            ),
            final(self).shared.generation_revision == next_counter(
                old(self).shared.generation_revision,
            ),
            *final(self) == (Session {
                shared: Shared {
                    status,
                    generation_revision: final(self).shared.generation_revision,
                    ..old(self).shared
                },
                playback: final(self).playback,
                ..*old(self)
            }),
            old(self).playback.wf() ==> final(self).playback.wf(),
    {
        let was_playing = self.playback.seek(position_ms);
        self.shared.invalidate_generation();
        self.shared.status = status;
        was_playing
    }

    /// Where a continuation starts: at what is heard, else at the cursor.
    pub open spec fn continuation_start(self, now_ms: u64) -> Option<u64> {
        if self.playback.state.heard(now_ms) is Some {
            self.playback.state.heard(now_ms)
        } else {
            self.playback.state.cursor_ms
        }
    }

    /// The prompt of a continuation that is requested now.
    pub open spec fn prompt_now(self, now_ms: u64) -> Seq<ModelNote> {
        relative(stable_sort(prompted(self.shared.notes@, self.continuation_start(now_ms))))
    }

    /// Requests a continuation. There is none while another is being computed, nor, unless
    /// `allow_empty` is set, without a prompt. A request outdates all earlier ones.
    pub fn request_generation(&mut self, now_ms: u64, allow_empty: bool) -> (ticket: Option<
        GenerationTicket,
    >)
        ensures
            ticket is Some <==> (old(self).prompt_now(now_ms).len() > 0 || allow_empty) && !old(
                self,
            ).generation_busy,
            ticket matches Some(ticket) ==> {
                &&& ticket.notes@ == old(self).prompt_now(now_ms)
                &&& ticket.musical_start_ms == old(self).continuation_start(now_ms)
                &&& ticket.revision == next_counter(old(self).shared.generation_revision)
                &&& *final(self) == (Session {
                    shared: Shared { generation_revision: ticket.revision, ..old(self).shared },
                    generation_busy: true,
                    ..*old(self)
                })
            },
            ticket is None ==> {
                &&& final(self).shared.status@ == if old(self).prompt_now(now_ms).len() == 0
                    && !allow_empty {
                    "Play at least one complete note before this position"@
                } else {
                    "Generation is already in progress"@
                }
                &&& *final(self) == (Session {
                    shared: Shared { status: final(self).shared.status, ..old(self).shared },
                    ..*old(self)
                })
            },
    {
        let musical_start_ms = match self.playback.position(now_ms) {
            Some(position) => Some(position),
            None => self.playback.cursor(),
        };
        let notes = prompt_notes(self.shared.notes.as_slice(), musical_start_ms);
        if notes.len() == 0 && !allow_empty {
            self.shared.status = "Play at least one complete note before this position".to_owned();
            return None;
        }
        if self.generation_busy {
            self.shared.status = "Generation is already in progress".to_owned();
            return None;
        }
        self.generation_busy = true;
        let revision = self.shared.invalidate_generation();
        Some(GenerationTicket { notes, musical_start_ms, revision })
    }

    /// The request is passed on.
    pub fn request_queued(&mut self)
        ensures
            final(self).shared.status@ == "Generating..."@,
            *final(self) == (Session {
                shared: Shared { status: final(self).shared.status, ..old(self).shared },
                ..*old(self)
            }),
    {
        self.shared.status = "Generating...".to_owned();
    }

    /// The request could not be passed on.
    pub fn request_failed(&mut self, error: String)
        ensures
            *final(self) == (Session {
                shared: Shared { status: error, ..old(self).shared },
                generation_busy: false,
                ..*old(self)
            }),
    {
        self.generation_busy = false;
        self.shared.status = error;
    }

    /// Whether a request is still wanted. If not, the way is free for the next one.
    pub fn request_is_current(&mut self, revision: u64) -> (current: bool)
        ensures
            current == (old(self).shared.generation_revision == revision),
            *final(self) == (Session {
                generation_busy: current && old(self).generation_busy,
                ..*old(self)
            }),
    {
        if !self.shared.generation_is_current(revision) {
            self.generation_busy = false;
            return false;
        }
        true
    }

    /// The model is asked now, if the request is still wanted.
    pub fn request_starts(&mut self, revision: u64) -> (current: bool)
        ensures
            current == (old(self).shared.generation_revision == revision),
            current ==> final(self).shared.status@ == "Generating..."@,
            !current ==> final(self).shared.status == old(self).shared.status,
            *final(self) == (Session {
                shared: Shared { status: final(self).shared.status, ..old(self).shared },
                generation_busy: current && old(self).generation_busy,
                ..*old(self)
            }),
    {
        if !self.request_is_current(revision) {
            return false;
        }
        self.shared.status = "Generating...".to_owned();
        true
    }

    /// The model failed. Its error is shown if the request is still wanted.
    pub fn generation_failed(&mut self, revision: u64, error: String)
        ensures
            *final(self) == (Session {
                shared: if old(self).shared.generation_revision == revision {
                    Shared { status: error, ..old(self).shared }
                } else {
                    old(self).shared
                },
                generation_busy: false,
                ..*old(self)
            }),
    {
        if self.shared.generation_is_current(revision) {
            self.shared.status = error;
        }
        self.generation_busy = false;
    }

    /// The model answered. The notes, with their times in milliseconds, are put on the
    /// timeline if the request is still wanted; `Some` tells where they are to be played from.
    /// Then the request goes on until they are being rendered, see
    /// [`Session::request_finished`], and recording does not resume before that.
    pub fn generation_done(
        &mut self,
        generated: &Vec<ModelNote>,
        musical_start_ms: Option<u64>,
        revision: u64,
        auto_play: bool,
    ) -> (play_from: Option<u64>)
        ensures
            old(self).shared.generation_revision == revision ==> {
                let base = continuation_base(old(self).shared.notes@, musical_start_ms);
                &&& final(self).shared.notes@ == kept(old(self).shared.notes@, base) + placed(
                    generated@,
                    base,
                )
                &&& exists|base: u64, from: Seq<int>| #[trigger]
                    continues(
                        old(self).shared.notes@,
                        generated@,
                        musical_start_ms,
                        base,
                        from,
                        final(self).shared.notes@,
                    )
                &&& final(self).shared.status@ == generated_status(generated@.len())
                &&& play_from == if auto_play {
                    first_start(placed(generated@, base))
                } else {
                    None
                }
            },
            old(self).shared.generation_revision != revision ==> {
                &&& final(self).shared.notes == old(self).shared.notes
                &&& final(self).shared.status@ == if old(self).shared.status@ != "Generating..."@ {
                    old(self).shared.status@
                } else if old(self).shared.capturing {
                    "Recording MIDI prompt..."@
                } else {
                    "Ready"@
                }
                &&& play_from is None
            },
            *final(self) == (Session {
                shared: Shared {
                    notes: final(self).shared.notes,
                    status: final(self).shared.status,
                    ..old(self).shared
                },
                generation_busy: old(self).generation_busy && play_from is Some,
                ..*old(self)
            }),
            old(self).generation_busy && play_from is Some ==> !final(self).resumes(),
    {
        let update = apply_generated(generated, musical_start_ms, revision, &mut self.shared);
        match update {
            GeneratedUpdate::Applied(start) => {
                let play_from = if auto_play {
                    start
                } else {
                    None
                };
                if play_from.is_none() {
                    self.generation_busy = false;
                }
                play_from
            },
            GeneratedUpdate::Stale => {
                self.generation_busy = false;
                let waiting = "Generating...".to_owned();
                if self.shared.status == waiting {
                    self.shared.status = if self.shared.capturing {
                        "Recording MIDI prompt...".to_owned()
                    } else {
                        "Ready".to_owned()
                    };
                }
                None
            },
        }
    }

    /// The request is over: its notes are on the timeline, and if they are to be played, that has
    /// begun.
    pub fn request_finished(&mut self)
        ensures
            *final(self) == (Session { generation_busy: false, ..*old(self) }),
    {
        self.generation_busy = false;
    }

    /// Whether recording is to be switched on again: the continuation that it was switched off
    /// for is there, and whatever was to be played has been.
    pub open spec fn resumes(self) -> bool {
        self.auto_resume && !self.generation_busy && self.playback.state.phase is Idle
    }

    /// Switches recording on again when it is time to.
    pub fn resume_recording(&mut self, now_ms: u64)
        requires
            old(self).resumes() && old(self).shared.connected && !old(self).shared.capturing
                ==> ends_fit(old(self).shared.notes@),
        ensures
            !old(self).resumes() ==> *final(self) == *old(self),
            old(self).resumes() ==> {
                &&& if old(self).shared.connected && !old(self).shared.capturing {
                    old(self).shared.toggled(now_ms, None, final(self).shared)
                } else {
                    final(self).shared == old(self).shared
                }
                &&& *final(self) == (Session {
                    shared: final(self).shared,
                    auto_resume: false,
                    ..*old(self)
                })
            },
    {
        if self.auto_resume && !self.generation_busy && !self.playback.is_rendering()
            && !self.playback.is_playing() && !self.playback.is_paused() {
            if self.shared.connected && !self.shared.capturing {
                self.shared.toggle_capture(now_ms, None);
            }
            self.auto_resume = false;
        }
    }

    /// The played notes that the last automatic continuation was asked for, as far as they are
    /// still there.
    pub open spec fn requested_now(self) -> usize {
        if played_count(self.shared.notes@) < self.auto_requested_notes {
            played_count(self.shared.notes@) as usize
        } else {
            self.auto_requested_notes
        }
    }

    /// Whether the player has paused for long enough to be continued.
    pub open spec fn continues(self, now_ms: u64, auto_selected: bool) -> bool {
        &&& auto_selected
        &&& self.shared.capturing
        &&& is_due(
            now_ms,
            self.shared.last_input_ms,
            self.shared.input_active,
            played_count(self.shared.notes@),
            self.requested_now(),
        )
        &&& !self.generation_busy
        &&& !(self.playback.state.phase is Rendering)
        &&& !(self.playback.state.phase is Playing)
    }

    /// Switches recording off when the player has paused for long enough, and tells whether it
    /// did: then a continuation is to be requested, and recording resumes after it.
    pub fn pause_for_continuation(&mut self, now_ms: u64, auto_selected: bool) -> (pausing: bool)
        requires
            old(self).continues(now_ms, auto_selected) ==> old(self).shared.position_at(now_ms)
                <= u64::MAX,
        ensures
            pausing == old(self).continues(now_ms, auto_selected),
            !pausing ==> *final(self) == (Session {
                auto_requested_notes: old(self).requested_now(),
                ..*old(self)
            }),
            pausing ==> {
                &&& old(self).shared.toggled(now_ms, None, final(self).shared)
                &&& final(self).auto_requested_notes == played_count(old(self).shared.notes@)
                &&& *final(self) == (Session {
                    shared: final(self).shared,
                    auto_requested_notes: final(self).auto_requested_notes,
                    auto_resume: true,
                    ..*old(self)
                })
            },
    {
        let input_notes = count_played(&self.shared.notes);
        if input_notes < self.auto_requested_notes {
            self.auto_requested_notes = input_notes;
        }
        let pausing = auto_selected && self.shared.capturing && auto_generation_due(
            now_ms,
            self.shared.last_input_ms,
            self.shared.input_active,
            input_notes,
            self.auto_requested_notes,
        ) && !self.generation_busy && !self.playback.is_rendering() && !self.playback.is_playing();
        if pausing {
            self.auto_requested_notes = input_notes;
            self.shared.toggle_capture(now_ms, None);
            self.auto_resume = true;
        }
        pausing
    }

    /// Shows an error or a notice.
    pub fn report(&mut self, status: String)
        ensures
            *final(self) == (Session {
                shared: Shared { status, ..old(self).shared },
                ..*old(self)
            }),
    {
        self.shared.status = status;
    }
}

/// A continuation is due only when no note is pressed or sustained, and none has been for
/// [`AUTO_PAUSE_MS`].
pub proof fn continuations_wait_for_silence(
    start: Activity,
    arrivals: Seq<Arrival>,
    k: int,
    now_ms: u64,
    input_notes: nat,
    requested_notes: usize,
)
    requires
        in_order(arrivals),
        0 <= k < arrivals.len(),
        after_arrivals(start, arrivals.take(k)).captured.keys.sounds(),
        is_due(
            now_ms,
            after_arrivals(start, arrivals).last_ms,
            after_arrivals(start, arrivals).active,
            input_notes,
            requested_notes,
        ),
    ensures
        now_ms - arrivals[k].now_ms >= AUTO_PAUSE_MS,
        !after_arrivals(start, arrivals).captured.keys.sounds(),
{
    silence_counts_from_the_last_sound(start, arrivals, k);
}

/// Recording does not resume while a continuation is rendered, played or paused: from the moment
/// that its run begins, neither the end of the request nor the start of the playing lets it. It
/// does once the run has come to its end, if nothing else is requested.
pub proof fn recording_waits_for_the_continuation<P>(before: Session<P>, begun: Session<P>)
    requires
        begun.playback.state == before.playback.state.begun(),
    ensures
        !begun.resumes(),
        !(Session { generation_busy: false, ..begun }).resumes(),
        forall|after: Session<P>, run: u64|
            after.playback.state == #[trigger] begun.playback.state.started(run)
                ==> !#[trigger] after.resumes(),
        forall|after: Session<P>, run: u64, timeline: PlaybackTimeline|
            after.playback.state == #[trigger] begun.playback.state.started(run).timed(
                run,
                timeline,
            ) ==> !#[trigger] after.resumes(),
        forall|after: Session<P>, run: u64, timeline: PlaybackTimeline, now_ms: u64|
            after.playback.state == #[trigger] begun.playback.state.started(run).timed(
                run,
                timeline,
            ).paused(now_ms) ==> !#[trigger] after.resumes(),
        forall|after: Session<P>|
            after.playback.state == begun.playback.state.ended(begun.playback.state.generation)
                ==> (#[trigger] after.resumes() <==> after.auto_resume && !after.generation_busy),
{
}

/// When recording resumes after a continuation, it does so behind every note of it, and behind
/// every note that was played.
pub proof fn recording_resumes_behind_the_continuation(
    notes: Seq<Note>,
    generated: Seq<ModelNote>,
    base: u64,
    continued: Shared,
    resumed: Shared,
    now_ms: u64,
)
    requires
        !continued.capturing,
        continued.notes@ == kept(notes, base) + placed(generated, base),
        continued.toggled(now_ms, None, resumed),
    ensures
        forall|i: int|
            0 <= i < generated.len() ==> (#[trigger] placed(generated, base)[i]).end()
                <= resumed.position_at(now_ms),
        forall|i: int|
            0 <= i < played(notes).len() ==> (#[trigger] played(notes)[i]).end()
                <= resumed.position_at(now_ms),
        continued.capture_position_ms <= resumed.position_at(now_ms),
{
    recording_starts_behind_all_notes(continued, resumed, now_ms);
    placed_notes_follow_each_other(generated, base);
    continuations_replace_generated_notes(notes, generated, base);
    let left = kept(notes, base);
    assert forall|i: int| 0 <= i < generated.len() implies (
    #[trigger] placed(generated, base)[i]).end() <= resumed.position_at(now_ms) by {
        assert(continued.notes@[left.len() + i] == placed(generated, base)[i]);
    }
    assert forall|i: int| 0 <= i < played(notes).len() implies (#[trigger] played(notes)[i]).end()
        <= resumed.position_at(now_ms) by {
        played_notes_are_notes(continued.notes@, i);
    }
}

/// After an automatic continuation was requested, none is requested again until there is
/// another played note.
pub proof fn one_continuation_for_each_pause(
    now_ms: u64,
    last_input_ms: u64,
    input_active: bool,
    notes: usize,
)
    ensures
        !is_due(now_ms, last_input_ms, input_active, notes as nat, notes),
{
}

proof fn played_count_counts(notes: Seq<Note>)
    ensures
        played_count(notes) == played(notes).len(),
    decreases notes.len(),
{
    if notes.len() > 0 {
        played_count_counts(notes.drop_last());
    }
}

/// The played notes are counted one by one: an added note counts if it was played.
pub proof fn played_notes_are_counted(notes: Seq<Note>, note: Note)
    ensures
        played_count(notes) == played(notes).len(),
        played_count(Seq::empty()) == 0,
        played_count(notes.push(note)) - played_count(notes) == if note.generated {
            0int
        } else {
            1
        },
{
    played_count_counts(notes);
    assert(notes.push(note).drop_last() =~= notes);
}

/// A continuation becomes due 800 milliseconds after the last sound, and stays so: it is if nothing
/// sounds and there is a played note for which none was asked.
pub proof fn continuations_become_due(
    earlier_ms: u64,
    later_ms: u64,
    last_input_ms: u64,
    input_active: bool,
    input_notes: nat,
    requested_notes: usize,
)
    requires
        earlier_ms <= later_ms,
    ensures
        is_due(earlier_ms, last_input_ms, input_active, input_notes, requested_notes) ==> is_due(
            later_ms,
            last_input_ms,
            input_active,
            input_notes,
            requested_notes,
        ),
        !input_active && input_notes > requested_notes ==> (is_due(
            later_ms,
            last_input_ms,
            input_active,
            input_notes,
            requested_notes,
        ) <==> later_ms >= last_input_ms + 800),
        !is_due(later_ms, last_input_ms, true, input_notes, requested_notes),
        input_notes <= requested_notes ==> !is_due(
            later_ms,
            last_input_ms,
            input_active,
            input_notes,
            requested_notes,
        ),
{
}

/// Recording is switched off for a continuation only in automatic mode, while it is on, and only
/// when nothing is computed, rendered or played. Then it takes 800 milliseconds of silence and a
/// played note for which none was asked.
pub proof fn recording_is_interrupted_only_in_silence<P>(
    session: Session<P>,
    now_ms: u64,
    auto_selected: bool,
)
    ensures
        session.continues(now_ms, auto_selected) <==> {
            &&& auto_selected
            &&& session.shared.capturing
            &&& !session.shared.input_active
            &&& now_ms >= session.shared.last_input_ms + 800
            &&& played_count(session.shared.notes@) > session.auto_requested_notes
            &&& !session.generation_busy
            &&& session.playback.state.phase is Idle || session.playback.state.phase is Paused
        },
        session.requested_now() <= session.auto_requested_notes,
        session.requested_now() <= played_count(session.shared.notes@),
        session.requested_now() == session.auto_requested_notes || session.requested_now()
            == played_count(session.shared.notes@),
{
}

/// Recording resumes only if it was interrupted, and only when nothing is computed, rendered,
/// played or paused.
pub proof fn recording_resumes_only_when_idle<P>(session: Session<P>)
    ensures
        session.resumes() <==> {
            &&& session.auto_resume
            &&& !session.generation_busy
            &&& session.playback.state.phase is Idle
        },
{
}

/// The playhead shows what is heard. While nothing plays, it runs with the recording; without a
/// recording it stands where playback was left.
pub proof fn playhead_shows_what_goes_on<P>(session: Session<P>, earlier_ms: u64, later_ms: u64)
    requires
        earlier_ms <= later_ms,
        session.shared.position_at(later_ms) <= u64::MAX,
    ensures
        session.playback.state.phase is Playing ==> session.playhead_at(later_ms)
            == session.playback.state.heard(later_ms),
        !(session.playback.state.phase is Playing) && session.shared.capturing ==> {
            &&& session.playhead_at(later_ms) is Some
            &&& session.playhead_at(later_ms)->0 == session.shared.position_at(later_ms)
            &&& session.shared.capture_started_ms <= earlier_ms ==> session.playhead_at(
                later_ms,
            )->0 - session.playhead_at(earlier_ms)->0 == later_ms - earlier_ms
        },
        !(session.playback.state.phase is Playing) && !session.shared.capturing ==> {
            &&& session.playhead_at(later_ms) == session.playback.state.cursor_ms
            &&& session.playhead_at(earlier_ms) == session.playback.state.cursor_ms
        },
{
}

/// A click on the timeline counts from what is heard, else from the cursor, else from where
/// recording stands. A continuation starts at what is heard, else at the cursor.
pub proof fn clicks_and_continuations_have_an_anchor<P>(session: Session<P>, now_ms: u64)
    requires
        session.shared.position_at(now_ms) <= u64::MAX,
    ensures
        session.playback.state.heard(now_ms) is Some ==> session.click_anchor(now_ms)
            == session.playback.state.heard(now_ms) && session.continuation_start(now_ms)
            == session.playback.state.heard(now_ms),
        session.playback.state.heard(now_ms) is None ==> session.continuation_start(now_ms)
            == session.playback.state.cursor_ms,
        session.playback.state.heard(now_ms) is None && session.playback.state.cursor_ms is Some
            ==> session.click_anchor(now_ms) == session.playback.state.cursor_ms,
        session.playback.state.heard(now_ms) is None && session.playback.state.cursor_ms is None
            && session.shared.capturing ==> session.click_anchor(now_ms) is Some
            && session.click_anchor(now_ms)->0 == session.shared.position_at(now_ms),
        session.playback.state.heard(now_ms) is None && session.playback.state.cursor_ms is None
            && !session.shared.capturing ==> session.click_anchor(now_ms) is None,
{
}

/// Playing waits for a continuation that is being computed, then for what is being rendered, and
/// needs a SoundFont.
pub proof fn playing_needs_a_free_way<P>(session: Session<P>, soundfont: Seq<char>)
    ensures
        session.play_refusal(soundfont) is None <==> !session.generation_busy && !(
        session.playback.state.phase is Rendering) && soundfont.len() > 0,
        session.generation_busy ==> session.play_refusal(soundfont) == Some(
            "Wait for generation to finish"@,
        ),
        !session.generation_busy && session.playback.state.phase is Rendering
            ==> session.play_refusal(soundfont) == Some("SoundFont is still rendering..."@),
        !session.generation_busy && !(session.playback.state.phase is Rendering) && soundfont.len()
            == 0 ==> session.play_refusal(soundfont) == Some("Choose a .sf2 SoundFont first"@),
{
}

/// The prompt of a continuation tells what was played up to where it starts.
pub proof fn continuations_are_asked_for_what_was_played<P>(
    session: Session<P>,
    now_ms: u64,
) -> (chosen: Seq<int>)
    ensures
        tells(
            session.shared.notes@,
            if session.playback.state.heard(now_ms) is Some {
                session.playback.state.heard(now_ms)
            } else {
                session.playback.state.cursor_ms
            },
            chosen,
            session.prompt_now(now_ms),
        ),
{
    prompts_tell_what_was_played(session.shared.notes@, session.continuation_start(now_ms))
}

/// When playback is halted, its player is put aside, once, behind those that were before.
pub proof fn halting_puts_the_player_aside<P>(
    before: PlaybackControl<P>,
    after: PlaybackControl<P>,
    state: PlaybackState,
)
    requires
        halted(before, after, state),
    ensures
        after.state == state,
        after.player is None,
        before.player is None ==> after.retired@ == before.retired@,
        before.player matches Some(player) ==> after.retired@ == before.retired@.push(player),
{
    assert(before.player is None ==> after.retired@ =~= before.retired@);
    if let Some(player) = before.player {
        assert(after.retired@ =~= before.retired@.push(player));
    }
}

} // verus!
