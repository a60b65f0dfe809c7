//! What is being played, and what the playhead shows of it.

use crate::state::{monus, next_counter};
use vstd::prelude::*;

verus! {

#[derive(Clone, Copy, Debug, PartialEq, Eq, Structural)]
pub enum PlaybackPhase {
    Idle,
    Rendering,
    Playing,
    Paused,
}

/// How wall time maps to musical time while notes are played.
#[derive(Clone, Copy, Debug, PartialEq, Eq, Structural)]
pub struct PlaybackTimeline {
    pub wall_start_ms: u64,
    pub musical_start_ms: u64,
    pub musical_end_ms: u64,
}

/// What is played. `generation` names the run that may go on; every other one is over.
/// `cursor_ms` is the place where playback was left, and `resume_from_cursor` tells whether
/// it starts there again.
#[derive(Clone, Copy, Debug, PartialEq, Eq, Structural)]
pub struct PlaybackState {
    pub generation: u64,
    pub phase: PlaybackPhase,
    pub cursor_ms: Option<u64>,
    pub resume_from_cursor: bool,
    pub timeline: Option<PlaybackTimeline>,
}

/// The lesser of two numbers.
pub open spec fn lesser(a: int, b: int) -> int {
    if a <= b { a } else { b }
}

impl PlaybackState {
    /// Nothing has been played yet.
    pub open spec fn initial() -> PlaybackState {
        PlaybackState {
            generation: 0,
            phase: PlaybackPhase::Idle,
            cursor_ms: None,
            resume_from_cursor: false,
            timeline: None,
        }
    }

    /// Only a run that is rendered or played has a timeline; playback resumes only where
    /// there is a cursor; and a paused run can be resumed.
    pub open spec fn wf(self) -> bool {
        &&& self.timeline is Some ==> self.phase is Rendering || self.phase is Playing
        &&& self.resume_from_cursor ==> self.cursor_ms is Some
        &&& self.phase is Paused ==> self.resume_from_cursor
    }

    /// Whether a run is still to go on.
    pub open spec fn active(self, generation: u64) -> bool {
        self.generation == generation && (self.phase is Rendering || self.phase is Playing)
    }

    /// Whether a run is rendered and plays.
    pub open spec fn plays(self, generation: u64) -> bool {
        self.generation == generation && self.phase is Playing
    }

    /// The musical time that is heard at wall time `now_ms`: it runs from the start of the
    /// timeline to its end, and stays there.
    pub open spec fn heard(self, now_ms: u64) -> Option<u64> {
        if self.phase is Playing && self.timeline is Some {
            let timeline = self.timeline->0;
            Some(
                lesser(
                    timeline.musical_start_ms + monus(now_ms, timeline.wall_start_ms),
                    timeline.musical_end_ms as int,
                ) as u64,
            )
        } else {
            None
        }
    }

    /// Where playback starts, if it was left somewhere.
    pub open spec fn resume_point(self) -> Option<u64> {
        if self.resume_from_cursor { self.cursor_ms } else { None }
    }

    /// A new run is being rendered.
    pub open spec fn begun(self) -> PlaybackState {
        PlaybackState {
            generation: next_counter(self.generation) as u64,
            phase: PlaybackPhase::Rendering,
            resume_from_cursor: false,
            timeline: None,
            ..self
        }
    }

    /// The run is rendered and starts to play, unless it is over.
    pub open spec fn started(self, generation: u64) -> PlaybackState {
        if self.generation == generation && self.phase is Rendering {
            PlaybackState { phase: PlaybackPhase::Playing, ..self }
        } else {
            self
        }
    }

    /// The run is over, and the next one starts where it was left. If nothing is heard, there
    /// is nothing to pause.
    pub open spec fn paused(self, now_ms: u64) -> PlaybackState {
        match self.heard(now_ms) {
            Some(position) => PlaybackState {
                generation: next_counter(self.generation) as u64,
                phase: PlaybackPhase::Paused,
                cursor_ms: Some(position),
                resume_from_cursor: true,
                timeline: None,
            },
            None => self,
        }
    }

    /// The run is over. The cursor stays where it was left, but the next run does not start
    /// there.
    pub open spec fn stopped(self, now_ms: u64) -> PlaybackState {
        PlaybackState {
            generation: next_counter(self.generation) as u64,
            phase: PlaybackPhase::Idle,
            cursor_ms: if self.heard(now_ms) is Some {
                self.heard(now_ms)
            } else {
                self.cursor_ms
            },
            resume_from_cursor: false,
            timeline: None,
        }
    }

    /// The run is over, and the next one starts at `position_ms`. What was paused stays so.
    pub open spec fn sought(self, position_ms: u64) -> PlaybackState {
        PlaybackState {
            generation: next_counter(self.generation) as u64,
            phase: if self.phase is Paused { PlaybackPhase::Paused } else { PlaybackPhase::Idle },
            cursor_ms: Some(position_ms),
            resume_from_cursor: true,
            timeline: None,
        }
    }

    /// The run is over and its cursor forgotten.
    pub open spec fn cleared(self) -> PlaybackState {
        PlaybackState {
            generation: next_counter(self.generation) as u64,
            phase: PlaybackPhase::Idle,
            cursor_ms: None,
            resume_from_cursor: false,
            timeline: None,
        }
    }

    /// The run has come to its end, unless it was over before.
    pub open spec fn ended(self, generation: u64) -> PlaybackState {
        if self.generation == generation {
            PlaybackState {
                generation: self.generation,
                phase: PlaybackPhase::Idle,
                cursor_ms: None,
                resume_from_cursor: false,
                timeline: None,
            }
        } else {
            self
        }
    }

    /// The run goes by `timeline`, unless it is over.
    pub open spec fn timed(self, generation: u64, timeline: PlaybackTimeline) -> PlaybackState {
        if self.active(generation) {
            PlaybackState { timeline: Some(timeline), ..self }
        } else {
            self
        }
    }
}

/// The one element of an option, or nothing.
pub open spec fn present<P>(value: Option<P>) -> Seq<P> {
    match value {
        Some(p) => seq![p],
        None => Seq::empty(),
    }
}

/// The state of playback together with the players of type `P` that make it heard. A player
/// whose run is over is put aside in `retired`; its owner takes it from there and stops it.
pub struct PlaybackControl<P> {
    pub state: PlaybackState,
    pub player: Option<P>,
    pub retired: Vec<P>,
}

impl<P> Default for PlaybackControl<P> {
    fn default() -> (control: Self)
        ensures
            control.state == PlaybackState::initial(),
            control.player is None,
            control.retired@ == Seq::<P>::empty(),
            control.wf(),
    {
        PlaybackControl {
            state: PlaybackState {
                generation: 0,
                phase: PlaybackPhase::Idle,
                cursor_ms: None,
                resume_from_cursor: false,
                timeline: None,
            },
            player: None,
            retired: Vec::new(),
        }
    }
}

impl<P> PlaybackControl<P> {
    /// The state is consistent, and only a run that is rendered or played has a player.
    pub open spec fn wf(self) -> bool {
        &&& self.state.wf()
        &&& self.player is Some ==> self.state.phase is Rendering || self.state.phase is Playing
    }

    /// Puts the player aside.
    fn retire_player(&mut self)
        ensures
            final(self).state == old(self).state,
            final(self).player is None,
            final(self).retired@ == old(self).retired@ + present(old(self).player),
    {
        let mut player: Option<P> = None;
        std::mem::swap(&mut player, &mut self.player);
        match player {
            Some(player) => {
                self.retired.push(player);
            },
            None => {},
        }
        assert(self.retired@ =~= old(self).retired@ + present(old(self).player));
    }

    /// Hands out the players that are to be stopped.
    pub fn take_retired(&mut self) -> (players: Vec<P>)
        ensures
            players@ == old(self).retired@,
            final(self).retired@ == Seq::<P>::empty(),
            final(self).state == old(self).state,
            final(self).player == old(self).player,
    {
        let mut players: Vec<P> = Vec::new();
        std::mem::swap(&mut players, &mut self.retired);
        players
    }

    /// Starts to render a new run and returns its name.
    pub fn begin_rendering(&mut self) -> (generation: u64)
        ensures
            generation == next_counter(old(self).state.generation),
            final(self).state == old(self).state.begun(),
            final(self).player is None,
            final(self).retired@ == old(self).retired@ + present(old(self).player),
            old(self).wf() ==> final(self).wf(),
    {
        self.state.generation = self.state.generation.wrapping_add(1);
        self.state.phase = PlaybackPhase::Rendering;
        self.state.resume_from_cursor = false;
        self.state.timeline = None;
        self.retire_player();
        self.state.generation
    }

    /// Starts to play a run that is rendered, and tells whether it did.
    pub fn start_playback(&mut self, generation: u64) -> (started: bool)
        ensures
            started == (old(self).state.generation == generation && old(
                self,
            ).state.phase is Rendering),
            final(self).state == old(self).state.started(generation),
            final(self).player == old(self).player,
            final(self).retired == old(self).retired,
            old(self).wf() ==> final(self).wf(),
    {
        if self.state.generation != generation || self.state.phase != PlaybackPhase::Rendering {
            return false;
        }
        self.state.phase = PlaybackPhase::Playing;
        true
    }

    /// Pauses what is heard, and tells whether there was anything.
    pub fn pause(&mut self, now_ms: u64) -> (paused: bool)
        ensures
            paused == (old(self).state.heard(now_ms) is Some),
            final(self).state == old(self).state.paused(now_ms),
            paused ==> final(self).player is None && final(self).retired@ == old(self).retired@
                + present(old(self).player),
            !paused ==> *final(self) == *old(self),
            old(self).wf() ==> final(self).wf(),
    {
        let position = match self.position(now_ms) {
            Some(position) => position,
            None => {
                return false;
            },
        };
        self.state.cursor_ms = Some(position);
        self.state.timeline = None;
        self.state.phase = PlaybackPhase::Paused;
        self.state.resume_from_cursor = true;
        self.state.generation = self.state.generation.wrapping_add(1);
        self.retire_player();
        true
    }

    /// Stops whatever is rendered or played.
    pub fn stop(&mut self, now_ms: u64)
        ensures
            final(self).state == old(self).state.stopped(now_ms),
            final(self).player is None,
            final(self).retired@ == old(self).retired@ + present(old(self).player),
            old(self).wf() ==> final(self).wf(),
    {
        if let Some(position) = self.position(now_ms) {
            self.state.cursor_ms = Some(position);
        }
        self.state.timeline = None;
        self.state.phase = PlaybackPhase::Idle;
        self.state.resume_from_cursor = false;
        self.state.generation = self.state.generation.wrapping_add(1);
        self.retire_player();
    }

    /// Moves the cursor, and tells whether something was being played.
    pub fn seek(&mut self, position_ms: u64) -> (was_playing: bool)
        ensures
            was_playing == (old(self).state.phase is Playing),
            final(self).state == old(self).state.sought(position_ms),
            final(self).player is None,
            final(self).retired@ == old(self).retired@ + present(old(self).player),
            old(self).wf() ==> final(self).wf(),
    {
        let was_playing = self.state.phase == PlaybackPhase::Playing;
        let was_paused = self.state.phase == PlaybackPhase::Paused;
        self.state.cursor_ms = Some(position_ms);
        self.state.timeline = None;
        self.state.phase = if was_paused {
            PlaybackPhase::Paused
        } else {
            PlaybackPhase::Idle
        };
        self.state.resume_from_cursor = true;
        self.state.generation = self.state.generation.wrapping_add(1);
        self.retire_player();
        was_playing
    }

    /// Stops whatever is rendered or played, and forgets the cursor.
    pub fn reset(&mut self)
        ensures
            final(self).state == old(self).state.cleared(),
            final(self).player is None,
            final(self).retired@ == old(self).retired@ + present(old(self).player),
            old(self).wf() ==> final(self).wf(),
    {
        self.state.generation = self.state.generation.wrapping_add(1);
        self.state.phase = PlaybackPhase::Idle;
        self.state.cursor_ms = None;
        self.state.resume_from_cursor = false;
        self.state.timeline = None;
        self.retire_player();
    }

    /// Whether a run is still to go on.
    pub fn is_active(&self, generation: u64) -> (active: bool)
        ensures
            active == self.state.active(generation),
    {
        self.state.generation == generation && (self.state.phase == PlaybackPhase::Rendering
            || self.state.phase == PlaybackPhase::Playing)
    }

    /// Whether a run is rendered and plays.
    pub fn is_run_playing(&self, generation: u64) -> (playing: bool)
        ensures
            playing == self.state.plays(generation),
    {
        self.state.generation == generation && self.state.phase == PlaybackPhase::Playing
    }

    pub fn is_playing(&self) -> (playing: bool)
        ensures
            playing == (self.state.phase is Playing),
    {
        self.state.phase == PlaybackPhase::Playing
    }

    pub fn is_rendering(&self) -> (rendering: bool)
        ensures
            rendering == (self.state.phase is Rendering),
    {
        self.state.phase == PlaybackPhase::Rendering
    }

    pub fn is_paused(&self) -> (paused: bool)
        ensures
            paused == (self.state.phase is Paused),
    {
        self.state.phase == PlaybackPhase::Paused
    }

    /// The place where playback was left.
    pub fn cursor(&self) -> (cursor: Option<u64>)
        ensures
            cursor == self.state.cursor_ms,
    {
        self.state.cursor_ms
    }

    /// Where the next run starts, if playback was left somewhere to be resumed.
    pub fn playback_start(&self) -> (start: Option<u64>)
        ensures
            start == self.state.resume_point(),
    {
        if self.state.resume_from_cursor {
            self.state.cursor_ms
        } else {
            None
        }
    }

    /// Sets the timeline of a run, unless it is over.
    pub fn set_timeline(
        &mut self,
        generation: u64,
        wall_start_ms: u64,
        musical_start_ms: u64,
        musical_end_ms: u64,
    )
        ensures
            final(self).state == old(self).state.timed(
                generation,
                PlaybackTimeline { wall_start_ms, musical_start_ms, musical_end_ms },
            ),
            final(self).player == old(self).player,
            final(self).retired == old(self).retired,
            old(self).wf() ==> final(self).wf(),
    {
        if self.is_active(generation) {
            self.state.timeline = Some(
                PlaybackTimeline { wall_start_ms, musical_start_ms, musical_end_ms },
            );
        }
    }

    /// The musical time that is heard at wall time `now_ms`.
    pub fn position(&self, now_ms: u64) -> (position: Option<u64>)
        ensures
            position == self.state.heard(now_ms),
    {
        if self.state.phase != PlaybackPhase::Playing {
            return None;
        }
        match self.state.timeline {
            Some(timeline) => {
                let position = timeline.musical_start_ms.saturating_add(
                    now_ms.saturating_sub(timeline.wall_start_ms),
                );
                Some(
                    if position <= timeline.musical_end_ms {
                        position
                    } else {
                        timeline.musical_end_ms
                    },
                )
            },
            None => None,
        }
    }

    /// Takes in the player of a run; if that is over, the player is put aside.
    pub fn set_player(&mut self, generation: u64, player: P)
        ensures
            final(self).state == old(self).state,
            final(self).player == if old(self).state.active(generation) {
                Some(player)
            } else {
                old(self).player
            },
            final(self).retired@ == if old(self).state.active(generation) {
                old(self).retired@
            } else {
                old(self).retired@.push(player)
            },
            old(self).wf() ==> final(self).wf(),
    {
        if self.is_active(generation) {
            self.player = Some(player);
        } else {
            self.retired.push(player);
        }
    }

    /// Ends a run that has come to its end, unless it was over before. Its player has nothing
    /// left to play and is let go.
    pub fn finish(&mut self, generation: u64)
        ensures
            final(self).state == old(self).state.ended(generation),
            final(self).player == if old(self).state.generation == generation {
                None
            } else {
                old(self).player
            },
            final(self).retired == old(self).retired,
            old(self).wf() ==> final(self).wf(),
    {
        if self.state.generation == generation {
            self.state.phase = PlaybackPhase::Idle;
            self.state.cursor_ms = None;
            self.state.resume_from_cursor = false;
            self.state.timeline = None;
            self.player = None;
        }
    }
}

/// A new run, a pause, a stop, a seek or a reset ends every earlier run: it can neither start
/// nor go on.
pub proof fn earlier_runs_are_over(state: PlaybackState, now_ms: u64, position_ms: u64)
    ensures
        !state.begun().active(state.generation),
        state.begun().started(state.generation) == state.begun(),
        state.heard(now_ms) is Some ==> forall|run: u64| !#[trigger] state.paused(now_ms).active(run),
        forall|run: u64| !#[trigger] state.stopped(now_ms).active(run),
        forall|run: u64| !#[trigger] state.sought(position_ms).active(run),
        forall|run: u64| !#[trigger] state.cleared().active(run),
{
}

/// What is paused is resumed where it was heard last.
pub proof fn pausing_freezes_the_playhead(state: PlaybackState, now_ms: u64)
    requires
        state.heard(now_ms) is Some,
    ensures
        state.paused(now_ms).cursor_ms == state.heard(now_ms),
        state.paused(now_ms).resume_point() == state.heard(now_ms),
        forall|later_ms: u64| (#[trigger] state.paused(now_ms).heard(later_ms)) is None,
{
}

/// A stop keeps the place, but the next run does not start there.
pub proof fn stopping_keeps_the_cursor(state: PlaybackState, now_ms: u64)
    ensures
        state.heard(now_ms) is Some ==> state.stopped(now_ms).cursor_ms == state.heard(now_ms),
        state.heard(now_ms) is None ==> state.stopped(now_ms).cursor_ms == state.cursor_ms,
        state.stopped(now_ms).resume_point() is None,
{
}

/// A seek moves the cursor, leaves a pause in place, and the next run starts there.
pub proof fn seeking_moves_the_cursor(state: PlaybackState, position_ms: u64)
    ensures
        state.sought(position_ms).cursor_ms == Some(position_ms),
        state.sought(position_ms).resume_point() == Some(position_ms),
        state.sought(position_ms).phase is Paused <==> state.phase is Paused,
{
}

/// While a run is rendered nothing is heard, and no run plays; it does only once it is rendered.
pub proof fn rendering_is_silent(state: PlaybackState, now_ms: u64)
    ensures
        state.begun().heard(now_ms) is None,
        forall|run: u64| !#[trigger] state.begun().plays(run),
        state.begun().started(state.begun().generation).plays(state.begun().generation),
        forall|run: u64|
            run != state.begun().generation ==> #[trigger] state.begun().started(run)
                == state.begun(),
{
}

/// Something that happens to playback.
pub enum PlaybackStep {
    Begin,
    Start(u64),
    Pause(u64),
    Stop(u64),
    Seek(u64),
    Reset,
    SetTimeline(u64, PlaybackTimeline),
    Finish(u64),
}

impl PlaybackState {
    /// What a step leads to.
    pub open spec fn after(self, step: PlaybackStep) -> PlaybackState {
        match step {
            PlaybackStep::Begin => self.begun(),
            PlaybackStep::Start(generation) => self.started(generation),
            PlaybackStep::Pause(now_ms) => self.paused(now_ms),
            PlaybackStep::Stop(now_ms) => self.stopped(now_ms),
            PlaybackStep::Seek(position_ms) => self.sought(position_ms),
            PlaybackStep::Reset => self.cleared(),
            PlaybackStep::SetTimeline(generation, timeline) => self.timed(generation, timeline),
            PlaybackStep::Finish(generation) => self.ended(generation),
        }
    }

    /// What a number of steps leads to.
    pub open spec fn after_all(self, steps: Seq<PlaybackStep>) -> PlaybackState
        decreases steps.len(),
    {
        if steps.len() == 0 {
            self
        } else {
            self.after_all(steps.drop_last()).after(steps.last())
        }
    }

    /// How many names of runs lie between `run` and the current one, in the order in which they
    /// are given out.
    pub open spec fn runs_since(self, run: u64) -> int {
        if self.generation >= run {
            self.generation - run
        } else {
            self.generation - run + u64::MAX + 1
        }
    }
}

/// A run that is over never goes on again, whatever happens, until its name is given out anew.
pub proof fn ended_runs_stay_over(state: PlaybackState, run: u64, steps: Seq<PlaybackStep>)
    requires
        !state.active(run),
        state.runs_since(run) + steps.len() <= u64::MAX,
    ensures
        !state.after_all(steps).active(run),
        !state.after_all(steps).plays(run),
        state.after_all(steps).runs_since(run) <= state.runs_since(run) + steps.len(),
    decreases steps.len(),
{
    if steps.len() > 0 {
        ended_runs_stay_over(state, run, steps.drop_last());
    }
}

/// The playhead never moves backwards while a run plays, and never leaves its end.
pub proof fn playhead_moves_forward(state: PlaybackState, earlier_ms: u64, later_ms: u64)
    requires
        state.heard(earlier_ms) is Some,
        earlier_ms <= later_ms,
    ensures
        state.heard(later_ms) is Some,
        state.heard(earlier_ms)->0 <= state.heard(later_ms)->0,
        state.heard(later_ms)->0 <= state.timeline->0.musical_end_ms,
{
}

/// Something is heard exactly while a run plays by a timeline. Until the timeline starts, its first
/// moment is heard; from there on musical time goes by as wall time does, until the end, where it
/// stays.
pub proof fn playhead_keeps_time(state: PlaybackState, earlier_ms: u64, later_ms: u64)
    requires
        earlier_ms <= later_ms,
    ensures
        state.heard(later_ms) is Some <==> state.phase is Playing && state.timeline is Some,
        state.heard(later_ms) is Some ==> {
            let timeline = state.timeline->0;
            let earlier = state.heard(earlier_ms)->0;
            let later = state.heard(later_ms)->0;
            &&& state.heard(earlier_ms) is Some
            &&& later <= timeline.musical_end_ms
            &&& later_ms <= timeline.wall_start_ms && timeline.musical_start_ms
                <= timeline.musical_end_ms ==> later == timeline.musical_start_ms
            &&& timeline.wall_start_ms <= earlier_ms && later < timeline.musical_end_ms ==> later
                - earlier == later_ms - earlier_ms
            &&& timeline.wall_start_ms <= later_ms && later < timeline.musical_end_ms ==> later
                - timeline.musical_start_ms == later_ms - timeline.wall_start_ms
            &&& timeline.wall_start_ms <= later_ms && later_ms - timeline.wall_start_ms
                >= timeline.musical_end_ms - timeline.musical_start_ms ==> later
                == timeline.musical_end_ms
        },
{
}

/// A new run gets the next name and is rendered. It has no timeline yet, the cursor stays, and
/// there is nothing more to resume.
pub proof fn beginning_names_a_run(state: PlaybackState)
    ensures
        state.begun().generation == (state.generation + 1) % 0x1_0000_0000_0000_0000,
        state.begun().phase is Rendering,
        state.begun().cursor_ms == state.cursor_ms,
        state.begun().resume_point() is None,
        state.begun().timeline is None,
        state.begun().active(state.begun().generation),
{
}

/// Only the current run starts to play, once it is rendered, and only the current one gets a
/// timeline, while it is rendered or plays. Nothing else changes.
pub proof fn only_the_current_run_goes_on(
    state: PlaybackState,
    run: u64,
    timeline: PlaybackTimeline,
)
    ensures
        ({
            let started = state.started(run);
            let starts = run == state.generation && state.phase is Rendering;
            &&& starts ==> started.phase is Playing
            &&& !starts ==> started.phase == state.phase
            &&& started.generation == state.generation
            &&& started.cursor_ms == state.cursor_ms
            &&& started.resume_from_cursor == state.resume_from_cursor
            &&& started.timeline == state.timeline
        }),
        ({
            let timed = state.timed(run, timeline);
            let goes_on = run == state.generation && !(state.phase is Idle) && !(
            state.phase is Paused);
            &&& goes_on ==> timed.timeline == Some(timeline)
            &&& !goes_on ==> timed.timeline == state.timeline
            &&& timed.generation == state.generation
            &&& timed.phase == state.phase
            &&& timed.cursor_ms == state.cursor_ms
            &&& timed.resume_from_cursor == state.resume_from_cursor
        }),
        ({
            let ended = state.ended(run);
            &&& run != state.generation ==> ended == state
            &&& run == state.generation ==> {
                &&& ended.generation == state.generation
                &&& ended.phase is Idle
                &&& ended.cursor_ms is None
                &&& !ended.resume_from_cursor
                &&& ended.timeline is None
            }
        }),
        state.active(run) <==> run == state.generation && !(state.phase is Idle) && !(
        state.phase is Paused),
        state.plays(run) <==> run == state.generation && state.phase is Playing,
{
}

/// A pause, a stop, a seek and a reset end the run: its name is given up and there is no timeline.
/// After a pause the next run starts where playback was heard, after a seek at the chosen place.
/// After a stop the place is still shown, and after a reset it is forgotten; from neither the next
/// run starts there. Only what is heard can be paused, and only what is paused stays so.
pub proof fn runs_end_in_four_ways(state: PlaybackState, now_ms: u64, position_ms: u64)
    ensures
        state.heard(now_ms) is None ==> state.paused(now_ms) == state,
        state.heard(now_ms) is Some ==> {
            let paused = state.paused(now_ms);
            &&& paused.generation == (state.generation + 1) % 0x1_0000_0000_0000_0000
            &&& paused.phase is Paused
            &&& paused.cursor_ms == state.heard(now_ms)
            &&& paused.resume_from_cursor
            &&& paused.timeline is None
        },
        ({
            let stopped = state.stopped(now_ms);
            &&& stopped.generation == (state.generation + 1) % 0x1_0000_0000_0000_0000
            &&& stopped.phase is Idle
            &&& state.heard(now_ms) is Some ==> stopped.cursor_ms == state.heard(now_ms)
            &&& state.heard(now_ms) is None ==> stopped.cursor_ms == state.cursor_ms
            &&& !stopped.resume_from_cursor
            &&& stopped.timeline is None
        }),
        ({
            let sought = state.sought(position_ms);
            &&& sought.generation == (state.generation + 1) % 0x1_0000_0000_0000_0000
            &&& state.phase is Paused ==> sought.phase is Paused
            &&& !(state.phase is Paused) ==> sought.phase is Idle
            &&& sought.cursor_ms == Some(position_ms)
            &&& sought.resume_from_cursor
            &&& sought.timeline is None
        }),
        ({
            let cleared = state.cleared();
            &&& cleared.generation == (state.generation + 1) % 0x1_0000_0000_0000_0000
            &&& cleared.phase is Idle
            &&& cleared.cursor_ms is None
            &&& !cleared.resume_from_cursor
            &&& cleared.timeline is None
        }),
        state.resume_point() == if state.resume_from_cursor {
            state.cursor_ms
        } else {
            None
        },
{
}

/// A player that is put aside is put aside once; without a player nothing is.
pub proof fn players_are_put_aside_once<P>(player: P)
    ensures
        present(Some(player)).len() == 1,
        present(Some(player))[0] == player,
        present(None::<P>).len() == 0,
{
}

/// At first nothing is rendered or played, nothing is heard, no place is shown, and playback starts
/// at its usual place. Runs are named from one on.
pub proof fn playback_starts_idle(now_ms: u64, run: u64)
    ensures
        PlaybackState::initial().wf(),
        PlaybackState::initial().phase is Idle,
        !PlaybackState::initial().active(run),
        PlaybackState::initial().heard(now_ms) is None,
        PlaybackState::initial().cursor_ms is None,
        !PlaybackState::initial().resume_from_cursor,
        PlaybackState::initial().timeline is None,
        PlaybackState::initial().begun().generation == 1,
{
}

} // verus!
