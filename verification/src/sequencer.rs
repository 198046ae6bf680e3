//! The step engine: a four-track, sixteen-step grid driven by a clock.
//!
//! Each tick `t` selects step `(t - 1) % 16`. Processing a step walks the
//! tracks in index order; within one track it applies every recorded param to
//! the track's voice and emits a controller change, then emits and clears the
//! pending note-offs, then emits a note-on for every recorded note, either
//! emitting the matching note-off at once (duration 0) or writing the pitch
//! to the pending list of step `(step + duration) % 16`.

use vstd::prelude::*;

use crate::clock::Clock;
use crate::types::{
    controller_number_spec, note_valid, param_valid, u2, u4, u7, Controller, Event, Note, Param,
};

verus! {

/// Number of tracks in the grid.
pub const TRACKS: usize = 4;

/// Number of steps per track.
pub const STEPS: usize = 16;

/// Number of steps in one beat, fixed by the tempo formula.
pub const STEPS_PER_BEAT: u8 = 4;

/// A track's latest applied controller state.
#[derive(Clone, Copy, Debug, PartialEq, Eq, Structural)]
pub struct Voice {
    pub modulation: u7,
    pub breath: u7,
    pub volume: u7,
    pub pan: u7,
}

/// Every field of the voice lies in its legal range.
pub open spec fn voice_valid(v: Voice) -> bool {
    &&& 0 <= v.modulation@ <= 127
    &&& 0 <= v.breath@ <= 127
    &&& 0 <= v.volume@ <= 127
    &&& 0 <= v.pan@ <= 127
}

/// The voice after one param is applied.
pub open spec fn param_applied(v: Voice, p: Param) -> Voice {
    match p.controller {
        Controller::Modulation => Voice { modulation: p.value, ..v },
        Controller::Breath => Voice { breath: p.value, ..v },
        Controller::Volume => Voice { volume: p.value, ..v },
        Controller::Pan => Voice { pan: p.value, ..v },
    }
}

/// The voice after a list of params is applied in order.
pub open spec fn params_applied(v: Voice, ps: Seq<Param>) -> Voice
    decreases ps.len(),
{
    if ps.len() == 0 {
        v
    } else {
        param_applied(params_applied(v, ps.drop_last()), ps.last())
    }
}

impl Voice {
    /// Applies one param: stores its value under its controller.
    pub fn set_param(&mut self, param: &Param)
        ensures
            *final(self) == param_applied(*old(self), *param),
    {
        match param.controller {
            Controller::Modulation => self.modulation = param.value,
            Controller::Breath => self.breath = param.value,
            Controller::Volume => self.volume = param.value,
            Controller::Pan => self.pan = param.value,
        }
    }
}

/// One step of one track: scheduled note-ons, pending note-off pitches
/// (written by earlier steps, consumed when this step fires), and scheduled
/// param changes. Order within each list is insertion order.
#[derive(Debug)]
pub struct Step {
    pub note_ons: Vec<Note>,
    pub note_offs: Vec<u7>,
    pub params: Vec<Param>,
}

/// Well-formedness of one step: every entry is in range, at most one note per
/// pitch, at most one param per controller.
pub open spec fn step_wf(st: Step) -> bool {
    &&& forall|k: int| 0 <= k < st.note_ons@.len() ==> note_valid(#[trigger] st.note_ons@[k])
    &&& forall|k1: int, k2: int|
        0 <= k1 < k2 < st.note_ons@.len() ==> st.note_ons@[k1].pitch@ != st.note_ons@[k2].pitch@
    &&& forall|k: int| 0 <= k < st.note_offs@.len() ==> 0 <= (#[trigger] st.note_offs@[k])@ <= 127
    &&& forall|k: int| 0 <= k < st.params@.len() ==> param_valid(#[trigger] st.params@[k])
    &&& forall|k1: int, k2: int|
        0 <= k1 < k2 < st.params@.len() ==> st.params@[k1].controller != st.params@[k2].controller
}

/// One lane of the grid: a voice and its sixteen steps.
#[derive(Debug)]
pub struct Track {
    pub voice: Voice,
    pub steps: Vec<Step>,
}

/// Well-formedness of one track.
pub open spec fn track_wf(tr: Track) -> bool {
    &&& voice_valid(tr.voice)
    &&& tr.steps@.len() == 16
    &&& forall|j: int| 0 <= j < 16 ==> step_wf(#[trigger] tr.steps@[j])
}

/// Well-formedness of the whole grid.
pub open spec fn grid_wf(ts: Seq<Track>) -> bool {
    &&& ts.len() == 4
    &&& forall|i: int| 0 <= i < 4 ==> track_wf(#[trigger] ts[i])
}

/// The controller-change events one param list emits, in list order.
pub open spec fn cc_events(ch: u4, ps: Seq<Param>) -> Seq<Event>
    decreases ps.len(),
{
    if ps.len() == 0 {
        Seq::empty()
    } else {
        cc_events(ch, ps.drop_last()) + seq![
            Event::ControllerChange {
                channel: ch,
                controller: controller_number_spec(ps.last().controller),
                value: ps.last().value,
            },
        ]
    }
}

/// The note-off events one pending list emits, in list order.
pub open spec fn off_events(ch: u4, offs: Seq<u7>) -> Seq<Event>
    decreases offs.len(),
{
    if offs.len() == 0 {
        Seq::empty()
    } else {
        off_events(ch, offs.drop_last()) + seq![
            Event::NoteOff { channel: ch, pitch: offs.last() },
        ]
    }
}

/// The note-on events one note list emits, in list order; a note of duration
/// zero is immediately followed by its matching note-off.
pub open spec fn on_events(ch: u4, ons: Seq<Note>) -> Seq<Event>
    decreases ons.len(),
{
    if ons.len() == 0 {
        Seq::empty()
    } else {
        on_events(ch, ons.drop_last()) + (if ons.last().duration@ == 0 {
            seq![
                Event::NoteOn {
                    channel: ch,
                    pitch: ons.last().pitch,
                    velocity: ons.last().velocity,
                },
                Event::NoteOff { channel: ch, pitch: ons.last().pitch },
            ]
        } else {
            seq![
                Event::NoteOn {
                    channel: ch,
                    pitch: ons.last().pitch,
                    velocity: ons.last().velocity,
                },
            ]
        })
    }
}

/// The pitches that firing the notes `ons` at step `s` writes to the pending
/// note-off list of step `j`, in note order: one for every note of nonzero
/// duration `d` with `(s + d) % 16 == j`.
pub open spec fn scheduled_offs(ons: Seq<Note>, s: int, j: int) -> Seq<u7>
    decreases ons.len(),
{
    if ons.len() == 0 {
        Seq::empty()
    } else {
        scheduled_offs(ons.drop_last(), s, j) + (if ons.last().duration@ > 0 && (s
            + ons.last().duration@) % 16 == j {
            seq![ons.last().pitch]
        } else {
            Seq::empty()
        })
    }
}

/// The ordered batch one track contributes to step `s`: controller changes,
/// then pending note-offs, then note-ons.
pub open spec fn track_step_events(tr: Track, s: int, ch: u4) -> Seq<Event> {
    cc_events(ch, tr.steps@[s].params@) + off_events(ch, tr.steps@[s].note_offs@) + on_events(
        ch,
        tr.steps@[s].note_ons@,
    )
}

/// The ordered batch the first `n` tracks contribute to step `s`, in
/// ascending track order; the channel of track `i` is `i`.
pub open spec fn grid_step_events(ts: Seq<Track>, s: int, n: int) -> Seq<Event>
    decreases n,
{
    if n <= 0 {
        Seq::empty()
    } else {
        grid_step_events(ts, s, n - 1) + track_step_events(ts[n - 1], s, u4((n - 1) as u8))
    }
}

/// The full ordered batch step `s` emits.
pub open spec fn step_events(ts: Seq<Track>, s: int) -> Seq<Event> {
    grid_step_events(ts, s, 4)
}

/// How firing step `s` transforms one track: params are applied to the
/// voice, the step's pending note-offs are consumed, and every note of
/// nonzero duration writes its pitch to the pending list of its target step.
/// Note-ons and params themselves are untouched.
pub open spec fn track_stepped(pre: Track, post: Track, s: int) -> bool {
    &&& post.voice == params_applied(pre.voice, pre.steps@[s].params@)
    &&& post.steps@.len() == 16
    &&& forall|j: int| 0 <= j < 16 ==> post.steps@[j].note_ons@ == pre.steps@[j].note_ons@
    &&& forall|j: int| 0 <= j < 16 ==> post.steps@[j].params@ == pre.steps@[j].params@
    &&& post.steps@[s].note_offs@ == Seq::<u7>::empty()
    &&& forall|j: int|
        0 <= j < 16 && j != s ==> post.steps@[j].note_offs@ == pre.steps@[j].note_offs@
            + scheduled_offs(pre.steps@[s].note_ons@, s, j)
}

/// How firing step `s` transforms the grid: every track is stepped.
pub open spec fn grid_stepped(pre: Seq<Track>, post: Seq<Track>, s: int) -> bool {
    &&& post.len() == pre.len()
    &&& forall|i: int| 0 <= i < pre.len() ==> track_stepped(pre[i], #[trigger] post[i], s)
}

/// Applying valid params keeps the voice valid.
proof fn lemma_params_applied_valid(v: Voice, ps: Seq<Param>)
    requires
        voice_valid(v),
        forall|k: int| 0 <= k < ps.len() ==> param_valid(#[trigger] ps[k]),
    ensures
        voice_valid(params_applied(v, ps)),
    decreases ps.len(),
{
    if ps.len() > 0 {
        lemma_params_applied_valid(v, ps.drop_last());
    }
}

/// A valid nonzero duration never wraps back onto the triggering step.
proof fn lemma_wrap_target(s: int, d: int)
    requires
        0 <= s < 16,
        1 <= d <= 15,
    ensures
        0 <= (s + d) % 16 < 16,
        (s + d) % 16 != s,
{
    if s + d < 16 {
        vstd::arithmetic::div_mod::lemma_fundamental_div_mod_converse(s + d, 16, 0, s + d);
    } else {
        vstd::arithmetic::div_mod::lemma_fundamental_div_mod_converse(s + d, 16, 1, s + d - 16);
    }
}

/// Valid notes never schedule a note-off onto their own step.
proof fn lemma_scheduled_offs_self(ons: Seq<Note>, s: int)
    requires
        0 <= s < 16,
        forall|k: int| 0 <= k < ons.len() ==> note_valid(#[trigger] ons[k]),
    ensures
        scheduled_offs(ons, s, s) == Seq::<u7>::empty(),
    decreases ons.len(),
{
    if ons.len() > 0 {
        lemma_scheduled_offs_self(ons.drop_last(), s);
        let n = ons.last();
        if n.duration@ > 0 {
            lemma_wrap_target(s, n.duration@);
        }
        assert(scheduled_offs(ons, s, s) =~= Seq::<u7>::empty());
    }
}

/// Phase a of firing a step on one track: applies every param recorded at
/// `s` to the voice, emitting a controller change for each.
fn process_params(tr: &mut Track, s: usize, ch: u4, events: &mut Vec<Event>)
    requires
        track_wf(*old(tr)),
        s < 16,
    ensures
        track_wf(*final(tr)),
        final(tr).voice == params_applied(old(tr).voice, old(tr).steps@[s as int].params@),
        final(tr).steps == old(tr).steps,
        final(events)@ == old(events)@ + cc_events(ch, old(tr).steps@[s as int].params@),
{
    let ghost tr0 = *tr;
    let ghost ev0 = events@;
    let ghost ps = tr0.steps@[s as int].params@;
    let n_params = tr.steps[s].params.len();
    let mut k: usize = 0;
    while k < n_params
        invariant
            k <= n_params,
            s < 16,
            track_wf(tr0),
            n_params == ps.len(),
            ps == tr0.steps@[s as int].params@,
            tr.steps == tr0.steps,
            tr.voice == params_applied(tr0.voice, ps.take(k as int)),
            events@ == ev0 + cc_events(ch, ps.take(k as int)),
        decreases n_params - k,
    {
        let p = tr.steps[s].params[k];
        proof {
            assert(ps.take(k + 1).drop_last() =~= ps.take(k as int));
            assert(ps.take(k + 1).last() == p);
        }
        tr.voice.set_param(&p);
        events.push(
            Event::ControllerChange { channel: ch, controller: p.controller.number(), value: p.value },
        );
        proof {
            assert(events@ =~= ev0 + cc_events(ch, ps.take(k + 1)));
        }
        k += 1;
    }
    proof {
        assert(ps.take(n_params as int) =~= ps);
        lemma_params_applied_valid(tr0.voice, ps);
    }
}

/// Phase b of firing a step on one track: emits a note-off for every pending
/// pitch recorded at `s` and clears the pending list.
fn process_note_offs(tr: &mut Track, s: usize, ch: u4, events: &mut Vec<Event>)
    requires
        track_wf(*old(tr)),
        s < 16,
    ensures
        track_wf(*final(tr)),
        final(tr).voice == old(tr).voice,
        final(tr).steps@.len() == 16,
        forall|j: int| 0 <= j < 16 ==> final(tr).steps@[j].note_ons == old(tr).steps@[j].note_ons,
        forall|j: int| 0 <= j < 16 ==> final(tr).steps@[j].params == old(tr).steps@[j].params,
        forall|j: int|
            0 <= j < 16 && j != s ==> final(tr).steps@[j].note_offs == old(tr).steps@[j].note_offs,
        final(tr).steps@[s as int].note_offs@ == Seq::<u7>::empty(),
        final(events)@ == old(events)@ + off_events(ch, old(tr).steps@[s as int].note_offs@),
{
    let ghost tr0 = *tr;
    let ghost ev0 = events@;
    let ghost offs = tr0.steps@[s as int].note_offs@;
    let n_offs = tr.steps[s].note_offs.len();
    let mut k: usize = 0;
    while k < n_offs
        invariant
            k <= n_offs,
            s < 16,
            track_wf(tr0),
            n_offs == offs.len(),
            offs == tr0.steps@[s as int].note_offs@,
            tr.steps == tr0.steps,
            tr.voice == tr0.voice,
            events@ == ev0 + off_events(ch, offs.take(k as int)),
        decreases n_offs - k,
    {
        let pitch = tr.steps[s].note_offs[k];
        proof {
            assert(offs.take(k + 1).drop_last() =~= offs.take(k as int));
            assert(offs.take(k + 1).last() == pitch);
        }
        events.push(Event::NoteOff { channel: ch, pitch });
        proof {
            assert(events@ =~= ev0 + off_events(ch, offs.take(k + 1)));
        }
        k += 1;
    }
    proof {
        assert(offs.take(n_offs as int) =~= offs);
    }
    tr.steps[s].note_offs.clear();
}

/// Phase c of firing a step on one track: emits a note-on for every note
/// recorded at `s`; a duration of zero gets its note-off in the same batch,
/// any other duration writes the pitch to the pending list of the target
/// step.
fn process_note_ons(tr: &mut Track, s: usize, ch: u4, events: &mut Vec<Event>)
    requires
        track_wf(*old(tr)),
        s < 16,
    ensures
        track_wf(*final(tr)),
        final(tr).voice == old(tr).voice,
        final(tr).steps@.len() == 16,
        forall|j: int| 0 <= j < 16 ==> final(tr).steps@[j].note_ons == old(tr).steps@[j].note_ons,
        forall|j: int| 0 <= j < 16 ==> final(tr).steps@[j].params == old(tr).steps@[j].params,
        forall|j: int|
            0 <= j < 16 && j != s ==> final(tr).steps@[j].note_offs@ == old(
                tr,
            ).steps@[j].note_offs@ + scheduled_offs(old(tr).steps@[s as int].note_ons@, s as int, j),
        final(tr).steps@[s as int].note_offs@ == old(tr).steps@[s as int].note_offs@,
        final(events)@ == old(events)@ + on_events(ch, old(tr).steps@[s as int].note_ons@),
{
    let ghost tr0 = *tr;
    let ghost ev0 = events@;
    let ghost ons = tr0.steps@[s as int].note_ons@;
    let n_ons = tr.steps[s].note_ons.len();
    let mut k: usize = 0;
    while k < n_ons
        invariant
            k <= n_ons,
            s < 16,
            track_wf(tr0),
            n_ons == ons.len(),
            ons == tr0.steps@[s as int].note_ons@,
            tr.voice == tr0.voice,
            tr.steps@.len() == 16,
            forall|j: int| 0 <= j < 16 ==> tr.steps@[j].note_ons == tr0.steps@[j].note_ons,
            forall|j: int| 0 <= j < 16 ==> tr.steps@[j].params == tr0.steps@[j].params,
            forall|j: int|
                0 <= j < 16 && j != s ==> tr.steps@[j].note_offs@ == tr0.steps@[j].note_offs@
                    + scheduled_offs(ons.take(k as int), s as int, j),
            tr.steps@[s as int].note_offs@ == tr0.steps@[s as int].note_offs@,
            forall|j: int, x: int|
                0 <= j < 16 && 0 <= x < tr.steps@[j].note_offs@.len() ==> 0 <= (
                #[trigger] tr.steps@[j].note_offs@[x])@ <= 127,
            events@ == ev0 + on_events(ch, ons.take(k as int)),
        decreases n_ons - k,
    {
        let note = tr.steps[s].note_ons[k];
        proof {
            assert(ons.take(k + 1).drop_last() =~= ons.take(k as int));
            assert(ons.take(k + 1).last() == note);
            assert(note_valid(note));
        }
        events.push(Event::NoteOn { channel: ch, pitch: note.pitch, velocity: note.velocity });
        if note.duration.get() == 0 {
            events.push(Event::NoteOff { channel: ch, pitch: note.pitch });
            proof {
                assert(events@ =~= ev0 + on_events(ch, ons.take(k + 1)));
                assert forall|j: int| 0 <= j < 16 && j != s implies tr.steps@[j].note_offs@
                    == tr0.steps@[j].note_offs@ + scheduled_offs(ons.take(k + 1), s as int, j) by {
                    assert(scheduled_offs(ons.take(k + 1), s as int, j) =~= scheduled_offs(
                        ons.take(k as int),
                        s as int,
                        j,
                    ));
                }
            }
        } else {
            let d = note.duration.get() as usize;
            let j = (s + d) % 16;
            proof {
                lemma_wrap_target(s as int, note.duration@);
            }
            tr.steps[j].note_offs.push(note.pitch);
            proof {
                let ghost tgt = j as int;
                assert(events@ =~= ev0 + on_events(ch, ons.take(k + 1)));
                assert forall|jj: int| 0 <= jj < 16 && jj != s implies tr.steps@[jj].note_offs@
                    == tr0.steps@[jj].note_offs@ + scheduled_offs(ons.take(k + 1), s as int, jj) by {
                    if jj == tgt {
                        assert(scheduled_offs(ons.take(k + 1), s as int, jj) =~= scheduled_offs(
                            ons.take(k as int),
                            s as int,
                            jj,
                        ) + seq![note.pitch]);
                        assert(tr.steps@[jj].note_offs@ =~= tr0.steps@[jj].note_offs@
                            + scheduled_offs(ons.take(k + 1), s as int, jj));
                    } else {
                        assert(scheduled_offs(ons.take(k + 1), s as int, jj) =~= scheduled_offs(
                            ons.take(k as int),
                            s as int,
                            jj,
                        ));
                    }
                }
            }
        }
        k += 1;
    }
    proof {
        assert(ons.take(n_ons as int) =~= ons);
        assert forall|j: int| 0 <= j < 16 implies step_wf(tr.steps@[j]) by {
            assert(step_wf(tr0.steps@[j]));
        }
    }
}

/// Fires step `s` on one track, channel `ch`: params, then pending
/// note-offs, then note-ons, appending this track's batch to `events`.
fn process_track(tr: &mut Track, s: usize, ch: u4, events: &mut Vec<Event>)
    requires
        track_wf(*old(tr)),
        s < 16,
    ensures
        track_wf(*final(tr)),
        track_stepped(*old(tr), *final(tr), s as int),
        final(events)@ == old(events)@ + track_step_events(*old(tr), s as int, ch),
{
    let ghost tr0 = *tr;
    let ghost ev0 = events@;
    process_params(tr, s, ch, events);
    process_note_offs(tr, s, ch, events);
    process_note_ons(tr, s, ch, events);
    proof {
        lemma_scheduled_offs_self(tr0.steps@[s as int].note_ons@, s as int);
        assert(events@ =~= ev0 + track_step_events(tr0, s as int, ch));
    }
}

/// A step that holds nothing.
pub open spec fn step_empty(st: Step) -> bool {
    &&& st.note_ons@.len() == 0
    &&& st.note_offs@.len() == 0
    &&& st.params@.len() == 0
}

/// A track with a zeroed voice and sixteen empty steps.
pub open spec fn track_empty(tr: Track) -> bool {
    &&& tr.voice == (Voice { modulation: u7(0), breath: u7(0), volume: u7(0), pan: u7(0) })
    &&& tr.steps@.len() == 16
    &&& forall|j: int| 0 <= j < 16 ==> step_empty(#[trigger] tr.steps@[j])
}

/// A grid of four empty tracks.
pub open spec fn grid_empty(ts: Seq<Track>) -> bool {
    &&& ts.len() == 4
    &&& forall|i: int| 0 <= i < 4 ==> track_empty(#[trigger] ts[i])
}

fn empty_step() -> (st: Step)
    ensures
        step_empty(st),
        step_wf(st),
{
    Step { note_ons: Vec::new(), note_offs: Vec::new(), params: Vec::new() }
}

fn empty_track() -> (tr: Track)
    ensures
        track_empty(tr),
        track_wf(tr),
{
    let mut steps: Vec<Step> = Vec::new();
    while steps.len() < 16
        invariant
            steps@.len() <= 16,
            forall|j: int| 0 <= j < steps@.len() ==> step_empty(#[trigger] steps@[j]),
            forall|j: int| 0 <= j < steps@.len() ==> step_wf(#[trigger] steps@[j]),
        decreases 16 - steps@.len(),
    {
        steps.push(empty_step());
    }
    Track { voice: Voice { modulation: u7(0), breath: u7(0), volume: u7(0), pan: u7(0) }, steps }
}

/// The notes of `ons` whose pitch differs from `p`, in their original order.
pub open spec fn notes_without_pitch(ons: Seq<Note>, p: int) -> Seq<Note>
    decreases ons.len(),
{
    if ons.len() == 0 {
        Seq::empty()
    } else {
        notes_without_pitch(ons.drop_last(), p) + (if ons.last().pitch@ == p {
            Seq::empty()
        } else {
            seq![ons.last()]
        })
    }
}

/// Whether some note in `ons` has pitch `p`.
pub open spec fn has_pitch(ons: Seq<Note>, p: int) -> bool {
    exists|k: int| 0 <= k < ons.len() && ons[k].pitch@ == p
}

/// The params of `ps` whose controller differs from `c`, in their original
/// order.
pub open spec fn params_without_controller(ps: Seq<Param>, c: Controller) -> Seq<Param>
    decreases ps.len(),
{
    if ps.len() == 0 {
        Seq::empty()
    } else {
        params_without_controller(ps.drop_last(), c) + (if ps.last().controller == c {
            Seq::empty()
        } else {
            seq![ps.last()]
        })
    }
}

/// Whether some param in `ps` addresses controller `c`.
pub open spec fn has_controller(ps: Seq<Param>, c: Controller) -> bool {
    exists|k: int| 0 <= k < ps.len() && ps[k].controller == c
}

/// Filtering by pitch keeps validity and pitch-uniqueness, removes every
/// note of pitch `p`, and introduces no pitch that was not present.
proof fn lemma_nwp_wf(ons: Seq<Note>, p: int)
    requires
        forall|k: int| 0 <= k < ons.len() ==> note_valid(#[trigger] ons[k]),
        forall|k1: int, k2: int|
            0 <= k1 < k2 < ons.len() ==> ons[k1].pitch@ != ons[k2].pitch@,
    ensures
        forall|k: int|
            0 <= k < notes_without_pitch(ons, p).len() ==> note_valid(
                #[trigger] notes_without_pitch(ons, p)[k],
            ),
        forall|k: int|
            0 <= k < notes_without_pitch(ons, p).len() ==> (#[trigger] notes_without_pitch(
                ons,
                p,
            )[k]).pitch@ != p,
        forall|k1: int, k2: int|
            0 <= k1 < k2 < notes_without_pitch(ons, p).len() ==> notes_without_pitch(
                ons,
                p,
            )[k1].pitch@ != notes_without_pitch(ons, p)[k2].pitch@,
        forall|q: int| has_pitch(notes_without_pitch(ons, p), q) ==> has_pitch(ons, q),
    decreases ons.len(),
{
    if ons.len() > 0 {
        let dl = ons.drop_last();
        lemma_nwp_wf(dl, p);
        let pre = notes_without_pitch(dl, p);
        let cur = notes_without_pitch(ons, p);
        let last = ons.last();
        assert(note_valid(ons[ons.len() - 1]));
        assert forall|q: int| has_pitch(pre, q) implies has_pitch(dl, q) by {}
        assert forall|q: int| has_pitch(dl, q) implies has_pitch(ons, q) by {
            let x = choose|x: int| 0 <= x < dl.len() && dl[x].pitch@ == q;
            assert(ons[x].pitch@ == q);
        }
        if last.pitch@ == p {
            assert(cur =~= pre);
        } else {
            assert(cur =~= pre + seq![last]);
            assert forall|k1: int, k2: int|
                0 <= k1 < k2 < cur.len() implies cur[k1].pitch@ != cur[k2].pitch@ by {
                if k2 < pre.len() {
                    assert(cur[k1] == pre[k1] && cur[k2] == pre[k2]);
                } else {
                    assert(cur[k2] == last);
                    assert(cur[k1] == pre[k1]);
                    assert(has_pitch(pre, pre[k1].pitch@));
                    let x = choose|x: int| 0 <= x < dl.len() && dl[x].pitch@ == pre[k1].pitch@;
                    assert(ons[x].pitch@ != ons[ons.len() - 1].pitch@);
                }
            }
            assert forall|q: int| has_pitch(cur, q) implies has_pitch(ons, q) by {
                let k = choose|k: int| 0 <= k < cur.len() && cur[k].pitch@ == q;
                if k < pre.len() {
                    assert(pre[k].pitch@ == q);
                    assert(has_pitch(pre, q));
                } else {
                    assert(ons[ons.len() - 1].pitch@ == q);
                }
            }
        }
    }
}

/// Filtering by controller keeps validity and controller-uniqueness, removes
/// every param for `c`, and introduces no controller that was not present.
proof fn lemma_pwc_wf(ps: Seq<Param>, c: Controller)
    requires
        forall|k: int| 0 <= k < ps.len() ==> param_valid(#[trigger] ps[k]),
        forall|k1: int, k2: int|
            0 <= k1 < k2 < ps.len() ==> ps[k1].controller != ps[k2].controller,
    ensures
        forall|k: int|
            0 <= k < params_without_controller(ps, c).len() ==> param_valid(
                #[trigger] params_without_controller(ps, c)[k],
            ),
        forall|k: int|
            0 <= k < params_without_controller(ps, c).len() ==> (
            #[trigger] params_without_controller(ps, c)[k]).controller != c,
        forall|k1: int, k2: int|
            0 <= k1 < k2 < params_without_controller(ps, c).len() ==> params_without_controller(
                ps,
                c,
            )[k1].controller != params_without_controller(ps, c)[k2].controller,
        forall|d: Controller|
            has_controller(params_without_controller(ps, c), d) ==> has_controller(ps, d),
    decreases ps.len(),
{
    if ps.len() > 0 {
        let dl = ps.drop_last();
        lemma_pwc_wf(dl, c);
        let pre = params_without_controller(dl, c);
        let cur = params_without_controller(ps, c);
        let last = ps.last();
        assert(param_valid(ps[ps.len() - 1]));
        assert forall|d: Controller| has_controller(pre, d) implies has_controller(dl, d) by {}
        assert forall|d: Controller| has_controller(dl, d) implies has_controller(ps, d) by {
            let x = choose|x: int| 0 <= x < dl.len() && dl[x].controller == d;
            assert(ps[x].controller == d);
        }
        if last.controller == c {
            assert(cur =~= pre);
        } else {
            assert(cur =~= pre + seq![last]);
            assert forall|k1: int, k2: int|
                0 <= k1 < k2 < cur.len() implies cur[k1].controller != cur[k2].controller by {
                if k2 < pre.len() {
                    assert(cur[k1] == pre[k1] && cur[k2] == pre[k2]);
                } else {
                    assert(cur[k2] == last);
                    assert(cur[k1] == pre[k1]);
                    assert(has_controller(pre, pre[k1].controller));
                    assert(has_controller(dl, pre[k1].controller));
                    let x = choose|x: int|
                        0 <= x < dl.len() && dl[x].controller == pre[k1].controller;
                    assert(ps[x].controller != ps[ps.len() - 1].controller);
                }
            }
            assert forall|d: Controller| has_controller(cur, d) implies has_controller(ps, d) by {
                let k = choose|k: int| 0 <= k < cur.len() && cur[k].controller == d;
                if k < pre.len() {
                    assert(pre[k].controller == d);
                    assert(has_controller(pre, d));
                } else {
                    assert(ps[ps.len() - 1].controller == d);
                }
            }
        }
    }
}

/// The notes of `notes` whose pitch differs from `pitch`, in order.
fn retain_notes_without(notes: &Vec<Note>, pitch: u7) -> (kept: Vec<Note>)
    ensures
        kept@ == notes_without_pitch(notes@, pitch@),
{
    let mut kept: Vec<Note> = Vec::new();
    let n = notes.len();
    let mut k: usize = 0;
    while k < n
        invariant
            k <= n,
            n == notes@.len(),
            kept@ == notes_without_pitch(notes@.take(k as int), pitch@),
        decreases n - k,
    {
        let cur = notes[k];
        proof {
            assert(notes@.take(k + 1).drop_last() =~= notes@.take(k as int));
            assert(notes@.take(k + 1).last() == cur);
        }
        if cur.pitch.get() != pitch.get() {
            kept.push(cur);
        }
        proof {
            assert(kept@ =~= notes_without_pitch(notes@.take(k + 1), pitch@));
        }
        k += 1;
    }
    proof {
        assert(notes@.take(n as int) =~= notes@);
    }
    kept
}

/// The params of `params` whose controller differs from that of `which`, in
/// order.
fn retain_params_without(params: &Vec<Param>, which: Controller) -> (kept: Vec<Param>)
    ensures
        kept@ == params_without_controller(params@, which),
{
    let mut kept: Vec<Param> = Vec::new();
    let n = params.len();
    let mut k: usize = 0;
    while k < n
        invariant
            k <= n,
            n == params@.len(),
            kept@ == params_without_controller(params@.take(k as int), which),
        decreases n - k,
    {
        let cur = params[k];
        proof {
            assert(params@.take(k + 1).drop_last() =~= params@.take(k as int));
            assert(params@.take(k + 1).last() == cur);
        }
        let same = match (cur.controller, which) {
            (Controller::Modulation, Controller::Modulation) => true,
            (Controller::Breath, Controller::Breath) => true,
            (Controller::Volume, Controller::Volume) => true,
            (Controller::Pan, Controller::Pan) => true,
            _ => false,
        };
        if !same {
            kept.push(cur);
        }
        proof {
            assert(kept@ =~= params_without_controller(params@.take(k + 1), which));
        }
        k += 1;
    }
    proof {
        assert(params@.take(n as int) =~= params@);
    }
    kept
}

/// The step index a tick selects: tick `t` maps to `(t - 1) % 16`, with the
/// defensive guard that an out-of-contract tick 0 maps to step 0.
pub open spec fn step_of_tick(t: int) -> int {
    if t == 0 {
        0
    } else {
        (t - 1) % 16
    }
}

/// How `add_note` transforms the grid: in the addressed step's note list,
/// any note of the same pitch is dropped and the new note is appended;
/// everything else is untouched.
pub open spec fn note_added(pre: Seq<Track>, post: Seq<Track>, ti: int, si: int, n: Note) -> bool {
    &&& post.len() == pre.len()
    &&& forall|i: int| 0 <= i < pre.len() && i != ti ==> post[i] == pre[i]
    &&& post[ti].voice == pre[ti].voice
    &&& post[ti].steps@.len() == pre[ti].steps@.len()
    &&& forall|j: int|
        0 <= j < pre[ti].steps@.len() && j != si ==> post[ti].steps@[j] == pre[ti].steps@[j]
    &&& post[ti].steps@[si].note_ons@ == notes_without_pitch(pre[ti].steps@[si].note_ons@, n.pitch@)
        + seq![n]
    &&& post[ti].steps@[si].note_offs == pre[ti].steps@[si].note_offs
    &&& post[ti].steps@[si].params == pre[ti].steps@[si].params
}

/// How `delete_note` transforms the grid: every note of the matching pitch
/// leaves the addressed step's note list; everything else is untouched.
pub open spec fn note_removed(pre: Seq<Track>, post: Seq<Track>, ti: int, si: int, p: int) -> bool {
    &&& post.len() == pre.len()
    &&& forall|i: int| 0 <= i < pre.len() && i != ti ==> post[i] == pre[i]
    &&& post[ti].voice == pre[ti].voice
    &&& post[ti].steps@.len() == pre[ti].steps@.len()
    &&& forall|j: int|
        0 <= j < pre[ti].steps@.len() && j != si ==> post[ti].steps@[j] == pre[ti].steps@[j]
    &&& post[ti].steps@[si].note_ons@ == notes_without_pitch(pre[ti].steps@[si].note_ons@, p)
    &&& post[ti].steps@[si].note_offs == pre[ti].steps@[si].note_offs
    &&& post[ti].steps@[si].params == pre[ti].steps@[si].params
}

/// How `set_param` transforms the grid: in the addressed step's param list,
/// any param for the same controller is dropped and the new param is
/// appended; everything else is untouched.
pub open spec fn param_set(pre: Seq<Track>, post: Seq<Track>, ti: int, si: int, p: Param) -> bool {
    &&& post.len() == pre.len()
    &&& forall|i: int| 0 <= i < pre.len() && i != ti ==> post[i] == pre[i]
    &&& post[ti].voice == pre[ti].voice
    &&& post[ti].steps@.len() == pre[ti].steps@.len()
    &&& forall|j: int|
        0 <= j < pre[ti].steps@.len() && j != si ==> post[ti].steps@[j] == pre[ti].steps@[j]
    &&& post[ti].steps@[si].params@ == params_without_controller(
        pre[ti].steps@[si].params@,
        p.controller,
    ) + seq![p]
    &&& post[ti].steps@[si].note_ons == pre[ti].steps@[si].note_ons
    &&& post[ti].steps@[si].note_offs == pre[ti].steps@[si].note_offs
}

/// How `clear_param` transforms the grid: every param for the matching
/// controller leaves the addressed step's param list; everything else is
/// untouched.
pub open spec fn param_cleared(
    pre: Seq<Track>,
    post: Seq<Track>,
    ti: int,
    si: int,
    c: Controller,
) -> bool {
    &&& post.len() == pre.len()
    &&& forall|i: int| 0 <= i < pre.len() && i != ti ==> post[i] == pre[i]
    &&& post[ti].voice == pre[ti].voice
    &&& post[ti].steps@.len() == pre[ti].steps@.len()
    &&& forall|j: int|
        0 <= j < pre[ti].steps@.len() && j != si ==> post[ti].steps@[j] == pre[ti].steps@[j]
    &&& post[ti].steps@[si].params@ == params_without_controller(pre[ti].steps@[si].params@, c)
    &&& post[ti].steps@[si].note_ons == pre[ti].steps@[si].note_ons
    &&& post[ti].steps@[si].note_offs == pre[ti].steps@[si].note_offs
}

/// A four-track, sixteen-step sequencer over a clock implementation.
#[derive(Debug)]
pub struct Sequencer<C: Clock> {
    /// The tick source.
    pub clock: C,
    /// The shared grid: one `Track` per channel.
    pub tracks: Vec<Track>,
}

impl<C: Clock> Sequencer<C> {
    /// Well-formedness: the clock's configuration and the grid's invariants
    /// hold.
    pub open spec fn wf(&self) -> bool {
        &&& self.clock.inv()
        &&& grid_wf(self.tracks@)
    }

    /// A stopped sequencer with an empty grid, zero ticks and the default
    /// period.
    pub fn new() -> (r: Self)
        ensures
            r.wf(),
            r.clock.ticks() == 0,
            !r.clock.running(),
            r.clock.period_us() == 1_000_000,
            grid_empty(r.tracks@),
    {
        let mut tracks: Vec<Track> = Vec::new();
        while tracks.len() < 4
            invariant
                tracks@.len() <= 4,
                forall|i: int| 0 <= i < tracks@.len() ==> track_empty(#[trigger] tracks@[i]),
                forall|i: int| 0 <= i < tracks@.len() ==> track_wf(#[trigger] tracks@[i]),
            decreases 4 - tracks@.len(),
        {
            tracks.push(empty_track());
        }
        Sequencer { clock: C::new(), tracks }
    }

    /// Derives the clock period from a tempo in beats per minute:
    /// `60 / (bpm * 4)` seconds, with four steps per beat. Configuration
    /// happens before the engine starts; there is no hot reload.
    pub fn with_tempo(&mut self, bpm: u8)
        requires
            old(self).wf(),
            bpm >= 1,
            !old(self).clock.running(),
        ensures
            final(self).wf(),
            final(self).clock.period_us() == 60_000_000int / (4 * bpm as int),
            final(self).clock.ticks() == old(self).clock.ticks(),
            !final(self).clock.running(),
            final(self).tracks == old(self).tracks,
    {
        let steps_per_beat: u64 = STEPS_PER_BEAT as u64;
        let period_us: u64 = 60_000_000 / (steps_per_beat * bpm as u64);
        proof {
            vstd::arithmetic::div_mod::lemma_div_is_ordered_by_denominator(60_000_000, 4 * bpm as int, 1020);
        }
        self.clock.with_period(period_us);
    }

    /// A fresh sequencer with the same period as this one: an empty grid, a
    /// zeroed tick counter, stopped.
    pub fn build(&self) -> (r: Self)
        requires
            self.wf(),
        ensures
            r.wf(),
            r.clock.period_us() == self.clock.period_us(),
            r.clock.ticks() == 0,
            !r.clock.running(),
            grid_empty(r.tracks@),
    {
        proof {
            self.clock.lemma_inv_period();
        }
        let mut r = Self::new();
        r.clock.with_period(self.clock.get_period());
        r
    }

    /// Processes the step selected by the clock's current tick: walks the
    /// tracks in index order and builds the ordered event batch.
    fn run_tick(&mut self) -> (r: (usize, Vec<Event>))
        requires
            old(self).wf(),
        ensures
            final(self).wf(),
            final(self).clock == old(self).clock,
            r.0 < 16,
            r.0 as int == step_of_tick(old(self).clock.ticks()),
            r.1@ == step_events(old(self).tracks@, r.0 as int),
            grid_stepped(old(self).tracks@, final(self).tracks@, r.0 as int),
    {
        let t = self.clock.get_ticks();
        let step = if t == 0 {
            0
        } else {
            (t - 1) % 16
        };
        let mut events: Vec<Event> = Vec::new();
        let ghost g0 = self.tracks@;
        let mut i: usize = 0;
        while i < 4
            invariant
                i <= 4,
                step < 16,
                self.tracks@.len() == 4,
                grid_wf(g0),
                self.clock == old(self).clock,
                forall|x: int|
                    0 <= x < i ==> track_stepped(g0[x], #[trigger] self.tracks@[x], step as int),
                forall|x: int| 0 <= x < i ==> track_wf(#[trigger] self.tracks@[x]),
                forall|x: int| i <= x < 4 ==> self.tracks@[x] == g0[x],
                events@ == grid_step_events(g0, step as int, i as int),
            decreases 4 - i,
        {
            let ch = u4(i as u8);
            proof {
                assert(self.tracks@[i as int] == g0[i as int]);
                assert(track_wf(g0[i as int]));
            }
            process_track(&mut self.tracks[i], step, ch, &mut events);
            proof {
                assert(events@ =~= grid_step_events(g0, step as int, i + 1));
            }
            i += 1;
        }
        (step, events)
    }

    /// Starts the engine: a no-op when already running, otherwise the clock
    /// starts and tick `old ticks + 1` fires at once, whose step batch is
    /// returned.
    pub fn start(&mut self) -> (r: Option<(usize, Vec<Event>)>)
        requires
            old(self).wf(),
            old(self).clock.ticks() < usize::MAX,
        ensures
            final(self).wf(),
            final(self).clock.running(),
            final(self).clock.period_us() == old(self).clock.period_us(),
            old(self).clock.running() ==> *final(self) == *old(self) && r is None,
            !old(self).clock.running() ==> final(self).clock.ticks() == old(self).clock.ticks()
                + 1,
            !old(self).clock.running() ==> (r matches Some(se) && se.0 < 16 && se.0 as int
                == step_of_tick(old(self).clock.ticks() + 1) && se.1@ == step_events(
                old(self).tracks@,
                se.0 as int,
            ) && grid_stepped(old(self).tracks@, final(self).tracks@, se.0 as int)),
    {
        if self.clock.is_running() {
            return None;
        }
        self.clock.start();
        let (step, events) = self.run_tick();
        Some((step, events))
    }

    /// One delivered tick: the clock counter advances and the selected step
    /// is processed, returning the step index and its event batch.
    pub fn tick(&mut self) -> (r: (usize, Vec<Event>))
        requires
            old(self).wf(),
            old(self).clock.running(),
            old(self).clock.ticks() < usize::MAX,
        ensures
            final(self).wf(),
            final(self).clock.running(),
            final(self).clock.period_us() == old(self).clock.period_us(),
            final(self).clock.ticks() == old(self).clock.ticks() + 1,
            r.0 < 16,
            r.0 as int == step_of_tick(old(self).clock.ticks() + 1),
            r.1@ == step_events(old(self).tracks@, r.0 as int),
            grid_stepped(old(self).tracks@, final(self).tracks@, r.0 as int),
    {
        self.clock.fire();
        self.run_tick()
    }

    /// One tick on which the engine could not reach the grid within its
    /// half-period deadline: the step still advances and is reported, but no
    /// events are produced and the grid is untouched. This is the engine's
    /// deliberate backpressure policy, not an error.
    pub fn tick_skipped(&mut self) -> (step: usize)
        requires
            old(self).wf(),
            old(self).clock.running(),
            old(self).clock.ticks() < usize::MAX,
        ensures
            final(self).wf(),
            final(self).clock.running(),
            final(self).clock.period_us() == old(self).clock.period_us(),
            final(self).clock.ticks() == old(self).clock.ticks() + 1,
            final(self).tracks == old(self).tracks,
            step < 16,
            step as int == step_of_tick(old(self).clock.ticks() + 1),
    {
        self.clock.fire();
        let t = self.clock.get_ticks();
        if t == 0 {
            0
        } else {
            (t - 1) % 16
        }
    }

    /// Stops the clock; the tick counter and the grid are preserved, so a
    /// later `start` continues step numbering seamlessly. Idempotent.
    pub fn pause(&mut self)
        requires
            old(self).wf(),
        ensures
            final(self).wf(),
            !final(self).clock.running(),
            final(self).clock.ticks() == old(self).clock.ticks(),
            final(self).clock.period_us() == old(self).clock.period_us(),
            final(self).tracks == old(self).tracks,
    {
        self.clock.stop();
    }

    /// Whether the engine is running.
    pub fn is_running(&self) -> (r: bool)
        ensures
            r == self.clock.running(),
    {
        self.clock.is_running()
    }

    /// The configured clock period, in microseconds.
    pub fn get_period(&self) -> (p: u64)
        ensures
            p as int == self.clock.period_us(),
    {
        self.clock.get_period()
    }

    /// The current step index and the total ticks observed: before the first
    /// tick this is `(0, 0)`, afterwards step `(t - 1) % 16` for tick `t`.
    pub fn get_steps(&self) -> (r: (u4, usize))
        ensures
            r.1 as int == self.clock.ticks(),
            r.0@ == step_of_tick(self.clock.ticks()),
            0 <= r.0@ < 16,
    {
        let ticks = self.clock.get_ticks();
        if ticks == 0 {
            (u4(0), 0)
        } else {
            (u4(((ticks - 1) % 16) as u8), ticks)
        }
    }

    /// Adds a note at (track, step); a note of the same pitch already there
    /// is overwritten.
    pub fn add_note(&mut self, track: u2, step: u4, note: Note)
        requires
            old(self).wf(),
            track@ < 4,
            step@ < 16,
            note_valid(note),
        ensures
            final(self).wf(),
            final(self).clock == old(self).clock,
            note_added(old(self).tracks@, final(self).tracks@, track@, step@, note),
    {
        let ghost pre = self.tracks@;
        let ti = track.get() as usize;
        let si = step.get() as usize;
        let ghost ons0 = pre[ti as int].steps@[si as int].note_ons@;
        let mut kept = retain_notes_without(&self.tracks[ti].steps[si].note_ons, note.pitch);
        kept.push(note);
        self.tracks[ti].steps[si].note_ons = kept;
        proof {
            lemma_nwp_wf(ons0, note.pitch@);
            assert(self.tracks@[ti as int].steps@[si as int].note_ons@ =~= notes_without_pitch(
                ons0,
                note.pitch@,
            ) + seq![note]);
            assert(note_added(pre, self.tracks@, track@, step@, note));
            assert forall|i: int| 0 <= i < 4 implies track_wf(#[trigger] self.tracks@[i]) by {
                assert(track_wf(pre[i]));
                if i == track@ {
                    assert forall|j: int| 0 <= j < 16 implies step_wf(
                        #[trigger] self.tracks@[i].steps@[j],
                    ) by {
                        assert(step_wf(pre[i].steps@[j]));
                    }
                }
            }
        }
    }

    /// Removes the note of the matching pitch at (track, step); a no-op when
    /// no such note exists.
    pub fn delete_note(&mut self, track: u2, step: u4, note: Note)
        requires
            old(self).wf(),
            track@ < 4,
            step@ < 16,
        ensures
            final(self).wf(),
            final(self).clock == old(self).clock,
            note_removed(old(self).tracks@, final(self).tracks@, track@, step@, note.pitch@),
    {
        let ghost pre = self.tracks@;
        let ti = track.get() as usize;
        let si = step.get() as usize;
        let ghost ons0 = pre[ti as int].steps@[si as int].note_ons@;
        let kept = retain_notes_without(&self.tracks[ti].steps[si].note_ons, note.pitch);
        self.tracks[ti].steps[si].note_ons = kept;
        proof {
            lemma_nwp_wf(ons0, note.pitch@);
            assert(note_removed(pre, self.tracks@, track@, step@, note.pitch@));
            assert forall|i: int| 0 <= i < 4 implies track_wf(#[trigger] self.tracks@[i]) by {
                assert(track_wf(pre[i]));
                if i == track@ {
                    assert forall|j: int| 0 <= j < 16 implies step_wf(
                        #[trigger] self.tracks@[i].steps@[j],
                    ) by {
                        assert(step_wf(pre[i].steps@[j]));
                    }
                }
            }
        }
    }

    /// Sets a param at (track, step); a param for the same controller
    /// already there is overwritten.
    pub fn set_param(&mut self, track: u2, step: u4, param: Param)
        requires
            old(self).wf(),
            track@ < 4,
            step@ < 16,
            param_valid(param),
        ensures
            final(self).wf(),
            final(self).clock == old(self).clock,
            param_set(old(self).tracks@, final(self).tracks@, track@, step@, param),
    {
        let ghost pre = self.tracks@;
        let ti = track.get() as usize;
        let si = step.get() as usize;
        let ghost ps0 = pre[ti as int].steps@[si as int].params@;
        let mut kept = retain_params_without(&self.tracks[ti].steps[si].params, param.controller);
        kept.push(param);
        self.tracks[ti].steps[si].params = kept;
        proof {
            lemma_pwc_wf(ps0, param.controller);
            assert(self.tracks@[ti as int].steps@[si as int].params@ =~= params_without_controller(
                ps0,
                param.controller,
            ) + seq![param]);
            assert(param_set(pre, self.tracks@, track@, step@, param));
            assert forall|i: int| 0 <= i < 4 implies track_wf(#[trigger] self.tracks@[i]) by {
                assert(track_wf(pre[i]));
                if i == track@ {
                    assert forall|j: int| 0 <= j < 16 implies step_wf(
                        #[trigger] self.tracks@[i].steps@[j],
                    ) by {
                        assert(step_wf(pre[i].steps@[j]));
                    }
                }
            }
        }
    }

    /// Clears the param for the matching controller at (track, step); a
    /// no-op when no such param exists.
    pub fn clear_param(&mut self, track: u2, step: u4, param: Param)
        requires
            old(self).wf(),
            track@ < 4,
            step@ < 16,
        ensures
            final(self).wf(),
            final(self).clock == old(self).clock,
            param_cleared(old(self).tracks@, final(self).tracks@, track@, step@, param.controller),
    {
        let ghost pre = self.tracks@;
        let ti = track.get() as usize;
        let si = step.get() as usize;
        let ghost ps0 = pre[ti as int].steps@[si as int].params@;
        let kept = retain_params_without(&self.tracks[ti].steps[si].params, param.controller);
        self.tracks[ti].steps[si].params = kept;
        proof {
            lemma_pwc_wf(ps0, param.controller);
            assert(param_cleared(pre, self.tracks@, track@, step@, param.controller));
            assert forall|i: int| 0 <= i < 4 implies track_wf(#[trigger] self.tracks@[i]) by {
                assert(track_wf(pre[i]));
                if i == track@ {
                    assert forall|j: int| 0 <= j < 16 implies step_wf(
                        #[trigger] self.tracks@[i].steps@[j],
                    ) by {
                        assert(step_wf(pre[i].steps@[j]));
                    }
                }
            }
        }
    }
}

/// Law: tick `t >= 1` selects exactly step `(t - 1) % 16`, always a legal
/// step index.
pub proof fn lemma_step_mapping(t: int)
    requires
        t >= 1,
    ensures
        step_of_tick(t) == (t - 1) % 16,
        0 <= step_of_tick(t) < 16,
{
}

/// Law: from any tick count `t`, every step index is reached within the
/// next full cycle: some tick in `(t, t + 16]` selects step `s`. A note
/// added while the engine runs is therefore observed within one lap of the
/// grid once its step fires.
pub proof fn lemma_step_within_cycle(t: int, s: int)
    requires
        t >= 0,
        0 <= s < 16,
    ensures
        exists|u: int| t < u <= t + 16 && #[trigger] step_of_tick(u) == s,
{
    vstd::arithmetic::div_mod::lemma_mod_bound(s - t, 16);
    let d = (s - t) % 16;
    let u = t + d + 1;
    vstd::arithmetic::div_mod::lemma_add_mod_noop_right(t, s - t, 16);
    assert((u - 1) % 16 == s % 16);
    vstd::arithmetic::div_mod::lemma_small_mod(s as nat, 16);
    assert(step_of_tick(u) == s);
}

/// A note list scheduled at `s` writes the pitch of each of its qualifying
/// notes to the list for the note's target step.
proof fn lemma_scheduled_offs_contains(ons: Seq<Note>, s: int, j: int, k: int)
    requires
        0 <= k < ons.len(),
        ons[k].duration@ > 0,
        (s + ons[k].duration@) % 16 == j,
    ensures
        exists|x: int|
            0 <= x < scheduled_offs(ons, s, j).len() && scheduled_offs(ons, s, j)[x] == ons[k].pitch,
    decreases ons.len(),
{
    let sc = scheduled_offs(ons, s, j);
    if k == ons.len() - 1 {
        assert(sc[sc.len() - 1] == ons[k].pitch);
    } else {
        let dl = ons.drop_last();
        lemma_scheduled_offs_contains(dl, s, j, k);
        let pre = scheduled_offs(dl, s, j);
        let x = choose|x: int| 0 <= x < pre.len() && pre[x] == dl[k].pitch;
        assert(sc[x] == ons[k].pitch);
    }
}

/// Law: a note of nonzero duration `d` fired at step `s` has its note-off
/// pitch written to the pending list of step `(s + d) % 16` by that step's
/// processing, and the target is never `s` itself: a duration of at most 15
/// is one short of a full lap of the 16 steps.
pub proof fn lemma_note_off_scheduling(pre: Track, post: Track, s: int, k: int)
    requires
        track_wf(pre),
        track_stepped(pre, post, s),
        0 <= s < 16,
        0 <= k < pre.steps@[s].note_ons@.len(),
        pre.steps@[s].note_ons@[k].duration@ > 0,
    ensures
        ({
            let n = pre.steps@[s].note_ons@[k];
            let tgt = (s + n.duration@) % 16;
            &&& 0 <= tgt < 16
            &&& tgt != s
            &&& exists|x: int|
                0 <= x < post.steps@[tgt].note_offs@.len() && post.steps@[tgt].note_offs@[x]
                    == n.pitch
        }),
{
    let n = pre.steps@[s].note_ons@[k];
    assert(step_wf(pre.steps@[s]));
    assert(note_valid(pre.steps@[s].note_ons@[k]));
    lemma_wrap_target(s, n.duration@);
    let tgt = (s + n.duration@) % 16;
    lemma_scheduled_offs_contains(pre.steps@[s].note_ons@, s, tgt, k);
    let sc = scheduled_offs(pre.steps@[s].note_ons@, s, tgt);
    let x = choose|x: int| 0 <= x < sc.len() && sc[x] == n.pitch;
    assert(post.steps@[tgt].note_offs@[pre.steps@[tgt].note_offs@.len() + x] == n.pitch);
}

/// Filtering a pitch out leaves no note of that pitch.
proof fn lemma_nwp_removes(ons: Seq<Note>, p: int)
    ensures
        forall|k: int|
            0 <= k < notes_without_pitch(ons, p).len() ==> (#[trigger] notes_without_pitch(
                ons,
                p,
            )[k]).pitch@ != p,
    decreases ons.len(),
{
    if ons.len() > 0 {
        let dl = ons.drop_last();
        lemma_nwp_removes(dl, p);
        let pre = notes_without_pitch(dl, p);
        let cur = notes_without_pitch(ons, p);
        assert forall|k: int|
            0 <= k < cur.len() implies (#[trigger] cur[k]).pitch@ != p by {
            if k < pre.len() {
                assert(cur[k] == pre[k]);
            }
        }
    }
}

/// A list with no note of pitch `p` is unchanged by filtering `p` out.
proof fn lemma_nwp_noop(ons: Seq<Note>, p: int)
    requires
        forall|k: int| 0 <= k < ons.len() ==> (#[trigger] ons[k]).pitch@ != p,
    ensures
        notes_without_pitch(ons, p) == ons,
    decreases ons.len(),
{
    if ons.len() > 0 {
        let dl = ons.drop_last();
        lemma_nwp_noop(dl, p);
        assert(ons[ons.len() - 1].pitch@ != p);
        assert(notes_without_pitch(ons, p) =~= ons);
    } else {
        assert(notes_without_pitch(ons, p) =~= ons);
    }
}

/// How many notes of pitch `p` a list holds.
pub open spec fn count_pitch(ons: Seq<Note>, p: int) -> nat
    decreases ons.len(),
{
    if ons.len() == 0 {
        0
    } else {
        count_pitch(ons.drop_last(), p) + (if ons.last().pitch@ == p {
            1nat
        } else {
            0nat
        })
    }
}

/// A list with no note of pitch `p` counts zero of them.
proof fn lemma_count_pitch_none(ons: Seq<Note>, p: int)
    requires
        forall|k: int| 0 <= k < ons.len() ==> (#[trigger] ons[k]).pitch@ != p,
    ensures
        count_pitch(ons, p) == 0,
    decreases ons.len(),
{
    if ons.len() > 0 {
        lemma_count_pitch_none(ons.drop_last(), p);
        assert(ons[ons.len() - 1].pitch@ != p);
    }
}

/// Law: after an add, exactly one note of the added pitch is present, and a
/// later delete by that pitch removes exactly it, leaving the other notes as
/// a plain delete would.
pub proof fn lemma_key_uniqueness(ons: Seq<Note>, n: Note)
    ensures
        count_pitch(notes_without_pitch(ons, n.pitch@) + seq![n], n.pitch@) == 1,
        notes_without_pitch(notes_without_pitch(ons, n.pitch@) + seq![n], n.pitch@)
            == notes_without_pitch(ons, n.pitch@),
{
    let p = n.pitch@;
    let a = notes_without_pitch(ons, p);
    let added = a + seq![n];
    lemma_nwp_removes(ons, p);
    lemma_count_pitch_none(a, p);
    assert(added.drop_last() =~= a);
    assert(added.last() == n);
    assert(count_pitch(added, p) == 1);
    lemma_nwp_noop(a, p);
    assert(notes_without_pitch(added, p) =~= a);
}

/// Law: adding a second note of the same pitch overwrites the first: the
/// note list after both additions is the list the second addition alone
/// produces.
pub proof fn lemma_add_note_overwrites(ons: Seq<Note>, n1: Note, n2: Note)
    requires
        n1.pitch@ == n2.pitch@,
    ensures
        notes_without_pitch(notes_without_pitch(ons, n1.pitch@) + seq![n1], n2.pitch@) + seq![n2]
            == notes_without_pitch(ons, n2.pitch@) + seq![n2],
{
    let p = n1.pitch@;
    let a = notes_without_pitch(ons, p);
    let added = a + seq![n1];
    lemma_nwp_removes(ons, p);
    lemma_nwp_noop(a, p);
    assert(added.drop_last() =~= a);
    assert(added.last() == n1);
    assert(notes_without_pitch(added, p) =~= a);
}

/// The channel an event addresses.
pub open spec fn event_channel(e: Event) -> int {
    match e {
        Event::NoteOn { channel, .. } => channel@,
        Event::NoteOff { channel, .. } => channel@,
        Event::ControllerChange { channel, .. } => channel@,
    }
}

/// The processing phase an event belongs to within one track's batch:
/// controller changes first, then note-offs, then note-ons.
pub open spec fn event_phase(e: Event) -> int {
    match e {
        Event::ControllerChange { .. } => 0,
        Event::NoteOff { .. } => 1,
        Event::NoteOn { .. } => 2,
    }
}

/// Every controller-change event of one param list addresses the given
/// channel in phase 0.
proof fn lemma_cc_events_shape(ch: u4, ps: Seq<Param>)
    ensures
        cc_events(ch, ps).len() == ps.len(),
        forall|x: int|
            0 <= x < cc_events(ch, ps).len() ==> event_channel(#[trigger] cc_events(ch, ps)[x])
                == ch@ && event_phase(cc_events(ch, ps)[x]) == 0,
    decreases ps.len(),
{
    if ps.len() > 0 {
        lemma_cc_events_shape(ch, ps.drop_last());
        let pre = cc_events(ch, ps.drop_last());
        let cur = cc_events(ch, ps);
        assert forall|x: int|
            0 <= x < cur.len() implies event_channel(#[trigger] cur[x]) == ch@ && event_phase(
            cur[x],
        ) == 0 by {
            if x < pre.len() {
                assert(cur[x] == pre[x]);
            }
        }
    }
}

/// Every note-off event of one pending list addresses the given channel in
/// phase 1.
proof fn lemma_off_events_shape(ch: u4, offs: Seq<u7>)
    ensures
        off_events(ch, offs).len() == offs.len(),
        forall|x: int|
            0 <= x < off_events(ch, offs).len() ==> event_channel(#[trigger] off_events(ch, offs)[x])
                == ch@ && event_phase(off_events(ch, offs)[x]) == 1,
    decreases offs.len(),
{
    if offs.len() > 0 {
        lemma_off_events_shape(ch, offs.drop_last());
        let pre = off_events(ch, offs.drop_last());
        let cur = off_events(ch, offs);
        assert forall|x: int|
            0 <= x < cur.len() implies event_channel(#[trigger] cur[x]) == ch@ && event_phase(
            cur[x],
        ) == 1 by {
            if x < pre.len() {
                assert(cur[x] == pre[x]);
            }
        }
    }
}

/// Every event of one note list addresses the given channel in phase 1 or
/// 2; with no zero-duration note, only phase 2 occurs.
proof fn lemma_on_events_shape(ch: u4, ons: Seq<Note>)
    ensures
        forall|x: int|
            0 <= x < on_events(ch, ons).len() ==> event_channel(#[trigger] on_events(ch, ons)[x])
                == ch@ && 1 <= event_phase(on_events(ch, ons)[x]) <= 2,
        (forall|k: int| 0 <= k < ons.len() ==> (#[trigger] ons[k]).duration@ > 0) ==> forall|x: int|
            0 <= x < on_events(ch, ons).len() ==> event_phase(#[trigger] on_events(ch, ons)[x])
                == 2,
    decreases ons.len(),
{
    if ons.len() > 0 {
        lemma_on_events_shape(ch, ons.drop_last());
        let pre = on_events(ch, ons.drop_last());
        let cur = on_events(ch, ons);
        assert forall|x: int|
            0 <= x < cur.len() implies event_channel(#[trigger] cur[x]) == ch@ && 1 <= event_phase(
            cur[x],
        ) <= 2 by {
            if x < pre.len() {
                assert(cur[x] == pre[x]);
            }
        }
        if forall|k: int| 0 <= k < ons.len() ==> (#[trigger] ons[k]).duration@ > 0 {
            assert(ons[ons.len() - 1].duration@ > 0);
            assert forall|k: int|
                0 <= k < ons.drop_last().len() implies (#[trigger] ons.drop_last()[k]).duration@
                    > 0 by {
                assert(ons[k].duration@ > 0);
            }
            assert forall|x: int|
                0 <= x < cur.len() implies event_phase(#[trigger] cur[x]) == 2 by {
                if x < pre.len() {
                    assert(cur[x] == pre[x]);
                }
            }
        }
    }
}

/// Every event of one track's batch addresses that track's channel; with no
/// zero-duration note at the step, the phases never decrease through the
/// batch.
proof fn lemma_track_events_shape(tr: Track, s: int, ch: u4)
    requires
        0 <= s < 16,
        track_wf(tr),
    ensures
        forall|x: int|
            0 <= x < track_step_events(tr, s, ch).len() ==> event_channel(
                #[trigger] track_step_events(tr, s, ch)[x],
            ) == ch@,
        (forall|k: int|
            0 <= k < tr.steps@[s].note_ons@.len() ==> (#[trigger] tr.steps@[s].note_ons@[k]).duration@
                > 0) ==> forall|x1: int, x2: int|
            0 <= x1 < x2 < track_step_events(tr, s, ch).len() ==> event_phase(
                #[trigger] track_step_events(tr, s, ch)[x1],
            ) <= event_phase(#[trigger] track_step_events(tr, s, ch)[x2]),
{
    let ccs = cc_events(ch, tr.steps@[s].params@);
    let offs = off_events(ch, tr.steps@[s].note_offs@);
    let ons = on_events(ch, tr.steps@[s].note_ons@);
    let all = track_step_events(tr, s, ch);
    lemma_cc_events_shape(ch, tr.steps@[s].params@);
    lemma_off_events_shape(ch, tr.steps@[s].note_offs@);
    lemma_on_events_shape(ch, tr.steps@[s].note_ons@);
    assert forall|x: int|
        0 <= x < all.len() implies event_channel(#[trigger] all[x]) == ch@ by {
        if x < ccs.len() {
            assert(all[x] == ccs[x]);
        } else if x < ccs.len() + offs.len() {
            assert(all[x] == offs[x - ccs.len()]);
        } else {
            assert(all[x] == ons[x - ccs.len() - offs.len()]);
        }
    }
    if forall|k: int|
        0 <= k < tr.steps@[s].note_ons@.len() ==> (#[trigger] tr.steps@[s].note_ons@[k]).duration@
            > 0 {
        assert forall|x1: int, x2: int|
            0 <= x1 < x2 < all.len() implies event_phase(#[trigger] all[x1]) <= event_phase(
            #[trigger] all[x2],
        ) by {
            if x1 < ccs.len() {
                assert(all[x1] == ccs[x1]);
            } else if x1 < ccs.len() + offs.len() {
                assert(all[x1] == offs[x1 - ccs.len()]);
            } else {
                assert(all[x1] == ons[x1 - ccs.len() - offs.len()]);
            }
            if x2 < ccs.len() {
                assert(all[x2] == ccs[x2]);
            } else if x2 < ccs.len() + offs.len() {
                assert(all[x2] == offs[x2 - ccs.len()]);
            } else {
                assert(all[x2] == ons[x2 - ccs.len() - offs.len()]);
            }
        }
    }
}

/// Every event the first `n` tracks contribute has a channel below `n`;
/// channels never decrease through the batch; and, with no zero-duration
/// note anywhere at the step, two events of the same channel keep their
/// phase order.
proof fn lemma_grid_events_shape(ts: Seq<Track>, s: int, n: int)
    requires
        grid_wf(ts),
        0 <= s < 16,
        0 <= n <= 4,
    ensures
        forall|x: int|
            0 <= x < grid_step_events(ts, s, n).len() ==> 0 <= event_channel(
                #[trigger] grid_step_events(ts, s, n)[x],
            ) < n,
        forall|x1: int, x2: int|
            0 <= x1 < x2 < grid_step_events(ts, s, n).len() ==> event_channel(
                #[trigger] grid_step_events(ts, s, n)[x1],
            ) <= event_channel(#[trigger] grid_step_events(ts, s, n)[x2]),
        (forall|i: int, k: int|
            0 <= i < 4 && 0 <= k < ts[i].steps@[s].note_ons@.len() ==> (
            #[trigger] ts[i].steps@[s].note_ons@[k]).duration@ > 0) ==> forall|x1: int, x2: int|
            0 <= x1 < x2 < grid_step_events(ts, s, n).len() && event_channel(
                #[trigger] grid_step_events(ts, s, n)[x1],
            ) == event_channel(#[trigger] grid_step_events(ts, s, n)[x2]) ==> event_phase(
                grid_step_events(ts, s, n)[x1],
            ) <= event_phase(grid_step_events(ts, s, n)[x2]),
    decreases n,
{
    if n > 0 {
        lemma_grid_events_shape(ts, s, n - 1);
        let pre = grid_step_events(ts, s, n - 1);
        let cur = grid_step_events(ts, s, n);
        let ch = u4((n - 1) as u8);
        let block = track_step_events(ts[n - 1], s, ch);
        assert(track_wf(ts[n - 1]));
        lemma_track_events_shape(ts[n - 1], s, ch);
        assert(ch@ == n - 1);
        assert forall|x: int|
            0 <= x < cur.len() implies 0 <= event_channel(#[trigger] cur[x]) < n by {
            if x < pre.len() {
                assert(cur[x] == pre[x]);
            } else {
                assert(cur[x] == block[x - pre.len()]);
            }
        }
        assert forall|x1: int, x2: int|
            0 <= x1 < x2 < cur.len() implies event_channel(#[trigger] cur[x1]) <= event_channel(
            #[trigger] cur[x2],
        ) by {
            if x1 < pre.len() {
                assert(cur[x1] == pre[x1]);
            } else {
                assert(cur[x1] == block[x1 - pre.len()]);
            }
            if x2 < pre.len() {
                assert(cur[x2] == pre[x2]);
            } else {
                assert(cur[x2] == block[x2 - pre.len()]);
            }
        }
        if forall|i: int, k: int|
            0 <= i < 4 && 0 <= k < ts[i].steps@[s].note_ons@.len() ==> (
            #[trigger] ts[i].steps@[s].note_ons@[k]).duration@ > 0 {
            assert forall|k: int|
                0 <= k < ts[n - 1].steps@[s].note_ons@.len() implies (#[trigger] ts[n
                - 1].steps@[s].note_ons@[k]).duration@ > 0 by {
                assert(ts[n - 1].steps@[s].note_ons@[k].duration@ > 0);
            }
            assert forall|x1: int, x2: int|
                0 <= x1 < x2 < cur.len() && event_channel(#[trigger] cur[x1]) == event_channel(
                #[trigger] cur[x2],
            ) implies event_phase(cur[x1]) <= event_phase(cur[x2]) by {
                if x2 < pre.len() {
                    assert(cur[x1] == pre[x1] && cur[x2] == pre[x2]);
                } else if x1 >= pre.len() {
                    assert(cur[x1] == block[x1 - pre.len()]);
                    assert(cur[x2] == block[x2 - pre.len()]);
                } else {
                    assert(cur[x1] == pre[x1]);
                    assert(cur[x2] == block[x2 - pre.len()]);
                    assert(event_channel(cur[x1]) < n - 1 || event_channel(cur[x1]) <= n - 1);
                    assert(event_channel(cur[x2]) == n - 1);
                    assert(event_channel(cur[x1]) < n - 1);
                }
            }
        }
    }
}

/// Law: within one step's batch, events are grouped by track in ascending
/// track order: channel numbers never decrease through the batch.
pub proof fn lemma_batch_track_order(ts: Seq<Track>, s: int)
    requires
        grid_wf(ts),
        0 <= s < 16,
    ensures
        forall|x1: int, x2: int|
            0 <= x1 < x2 < step_events(ts, s).len() ==> event_channel(
                #[trigger] step_events(ts, s)[x1],
            ) <= event_channel(#[trigger] step_events(ts, s)[x2]),
{
    lemma_grid_events_shape(ts, s, 4);
}

/// Law: for a step none of whose notes has duration zero, the batch places
/// every controller change of a track before every note-off of that track,
/// and every note-off before every note-on. A duration-zero note is the one
/// stated exception: its matching note-off follows its note-on immediately
/// within the same batch.
pub proof fn lemma_batch_phase_order(ts: Seq<Track>, s: int)
    requires
        grid_wf(ts),
        0 <= s < 16,
        forall|i: int, k: int|
            0 <= i < 4 && 0 <= k < ts[i].steps@[s].note_ons@.len() ==> (
            #[trigger] ts[i].steps@[s].note_ons@[k]).duration@ > 0,
    ensures
        forall|x1: int, x2: int|
            0 <= x1 < x2 < step_events(ts, s).len() && event_channel(
                #[trigger] step_events(ts, s)[x1],
            ) == event_channel(#[trigger] step_events(ts, s)[x2]) ==> event_phase(
                step_events(ts, s)[x1],
            ) <= event_phase(step_events(ts, s)[x2]),
{
    lemma_grid_events_shape(ts, s, 4);
}

} // verus!
