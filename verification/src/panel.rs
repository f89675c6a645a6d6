//! The instrument's face: which key and octave the pads are in, what is held
//! down and by what, what each key is bound to. Input arrives as plain values
//! (key codes, pads under a finger) and what the audio thread must be told
//! goes out as messages, so every decision here is made without a window.

use vstd::prelude::*;

use crate::controls::{
    action_at, action_spec, bind, source_id_spec, without_key, Action, Source, ACTION_COUNT,
};
use crate::engine::{sent, Msg, Sent};
use crate::settings::{OCTAVE_MAX, OCTAVE_MIN};
use crate::theory::{
    chords_in_key, degree_quality, lemma_major_key_qualities, lemma_minor_key_qualities,
    lemma_triads_transpose, major_key_quality, minor_key_quality, quality_spec, triad_fits,
    triad_spec, ArpPattern, Mode, MAJOR_SCALE, MINOR_SCALE,
};

verus! {

/// How many pads there are: one per chord of the key.
pub const PAD_COUNT: usize = 7;

/// Where a finger is in its touch.
#[derive(Clone, Copy, PartialEq, Eq, Debug, Structural)]
pub enum TouchPhase {
    Start,
    Move,
    End,
    Cancel,
}

/// The scale a mode plays.
pub open spec fn scale_of(mode: Mode) -> Seq<i32> {
    match mode {
        Mode::Major => MAJOR_SCALE@,
        Mode::Minor => MINOR_SCALE@,
    }
}

/// Keys past F# drop an octave rather than climbing, so no key lands in a
/// shrill register.
pub open spec fn root_midi_spec(key_pitch: int, octave: int) -> int {
    60 + (if key_pitch > 6 {
        key_pitch - 12
    } else {
        key_pitch
    }) + octave * 12
}

/// The chord on pad `degree`.
pub open spec fn chord_spec(key_pitch: int, mode: Mode, octave: int, degree: int) -> Seq<i32> {
    triad_spec(root_midi_spec(key_pitch, octave), scale_of(mode), degree).map_values(
        |x: int| x as i32,
    )
}

/// The face as values.
pub struct PanelView {
    pub key_pitch: i32,
    pub mode: Mode,
    pub octave: i32,
    pub patch_index: usize,
    pub patch_count: usize,
    pub arp_on: bool,
    pub arp_pattern: ArpPattern,
    pub bars: u8,
    pub bindings: Seq<Seq<u32>>,
    pub rebinding: bool,
    pub binding_target: Option<usize>,
    pub held: Seq<(Source, usize)>,
    pub touches: Seq<(u64, usize)>,
    pub pointer_on_pads: bool,
    pub dirty: bool,
}

impl PanelView {
    pub open spec fn chord(self, degree: int) -> Seq<i32> {
        chord_spec(self.key_pitch as int, self.mode, self.octave as int, degree)
    }

    /// Whether pad `degree` is held by anything.
    pub open spec fn lit(self, degree: usize) -> bool {
        exists|i: int| 0 <= i < self.held.len() && (#[trigger] self.held[i]).1 == degree
    }

    pub open spec fn wf(self) -> bool {
        &&& 0 <= self.key_pitch < 12
        &&& OCTAVE_MIN <= self.octave <= OCTAVE_MAX
        &&& self.patch_index < self.patch_count
        &&& self.bindings.len() == ACTION_COUNT
        &&& self.held.no_duplicates()
        &&& forall|i: int| 0 <= i < self.held.len() ==> (#[trigger] self.held[i]).1 < PAD_COUNT
        &&& forall|i: int| 0 <= i < self.touches.len() ==> (#[trigger] self.touches[i]).1 < PAD_COUNT
        &&& forall|i: int, j: int|
            0 <= i < j < self.touches.len() ==> (#[trigger] self.touches[i]).0 != (
            #[trigger] self.touches[j]).0
        &&& self.binding_target matches Some(t) ==> t < ACTION_COUNT
    }
}

/// A change of state and the messages it sends.
pub type Step = (PanelView, Seq<Sent>);

/// `a`, then `f` on what `a` left.
pub open spec fn then(a: Step, f: spec_fn(PanelView) -> Step) -> Step {
    (f(a.0).0, a.1 + f(a.0).1)
}

/// Pad `degree` pressed by `source`: a chord starts unless that source is
/// already holding it.
pub open spec fn noted_on(v: PanelView, source: Source, degree: int) -> Step {
    if v.held.contains((source, degree as usize)) {
        (v, seq![])
    } else {
        (
            PanelView { held: v.held.push((source, degree as usize)), ..v },
            seq![
                Sent::NoteOn {
                    id: source_id_spec(source, degree as u64),
                    chord: v.chord(degree),
                    degree: degree as u8,
                },
            ],
        )
    }
}

/// Pad `degree` let go by `source`: its chord stops, if it was down.
pub open spec fn noted_off(v: PanelView, source: Source, degree: int) -> Step {
    if v.held.contains((source, degree as usize)) {
        (
            PanelView { held: v.held.remove_value((source, degree as usize)), ..v },
            seq![Sent::NoteOff { id: source_id_spec(source, degree as u64) }],
        )
    } else {
        (v, seq![])
    }
}

/// Everything let go.
pub open spec fn released(v: PanelView) -> Step {
    (PanelView { held: seq![], touches: seq![], ..v }, seq![Sent::ReleaseLive])
}

/// A new key: what is held stops, since a chord from the old key ringing
/// under the new one is just mud.
pub open spec fn rekeyed(v: PanelView, pitch: i32, mode: Mode) -> Step {
    if pitch != v.key_pitch || mode != v.mode {
        let r = released(PanelView { key_pitch: pitch, mode, ..v });
        (PanelView { dirty: true, ..r.0 }, r.1)
    } else {
        (v, seq![])
    }
}

pub open spec fn clamp_octave(octave: int) -> i32 {
    if octave < OCTAVE_MIN {
        OCTAVE_MIN
    } else if octave > OCTAVE_MAX {
        OCTAVE_MAX
    } else {
        octave as i32
    }
}

/// A new octave, kept in range.
pub open spec fn reoctaved(v: PanelView, octave: int) -> Step {
    let o = clamp_octave(octave);
    if o != v.octave {
        let r = released(PanelView { octave: o, ..v });
        (PanelView { dirty: true, ..r.0 }, r.1)
    } else {
        (v, seq![])
    }
}

/// A new sound for what is played next.
pub open spec fn repatched(v: PanelView, index: usize) -> Step {
    if index != v.patch_index {
        let r = released(PanelView { patch_index: index, ..v });
        (PanelView { dirty: true, ..r.0 }, r.1.push(Sent::SetPatch(index)))
    } else {
        (v, seq![])
    }
}

/// The arpeggiator switched on or off.
pub open spec fn arp_set(v: PanelView, on: bool) -> Step {
    (
        PanelView { arp_on: on, held: seq![], touches: seq![], dirty: true, ..v },
        seq![Sent::SetArp(on)],
    )
}

/// Rebinding mode entered or left.
pub open spec fn rebinding_set(v: PanelView, on: bool) -> Step {
    released(PanelView { rebinding: on, binding_target: None, ..v })
}

/// What a control's action does.
pub open spec fn acted(v: PanelView, action: Action) -> Step {
    match action {
        Action::Pad(_) => (v, seq![]),
        Action::Record => (v, seq![Sent::Pedal]),
        Action::PlayStop => (v, seq![Sent::PlayStop]),
        Action::Undo => (v, seq![Sent::Undo]),
        Action::Clear => (v, seq![Sent::ClearLoop]),
        Action::Arp => arp_set(v, !v.arp_on),
        Action::OctaveDown => reoctaved(v, v.octave - 1),
        Action::OctaveUp => reoctaved(v, v.octave + 1),
    }
}

/// Every held pad a key is holding, in order.
pub open spec fn keyed(held: Seq<(Source, usize)>) -> Seq<(Source, usize)>
    decreases held.len(),
{
    if held.len() == 0 {
        seq![]
    } else if held.last().0 is Key {
        keyed(held.drop_last()).push(held.last())
    } else {
        keyed(held.drop_last())
    }
}

/// Each of `hs` let go, in order.
pub open spec fn lifted_each(v: PanelView, hs: Seq<(Source, usize)>) -> Step
    decreases hs.len(),
{
    if hs.len() == 0 {
        (v, seq![])
    } else {
        then(lifted_each(v, hs.drop_last()), |w: PanelView| noted_off(w, hs.last().0, hs.last().1 as int))
    }
}

/// The bindings once `key` is given to action `target` alone.
pub open spec fn bound(bs: Seq<Seq<u32>>, target: int, key: u32) -> Seq<Seq<u32>> {
    Seq::new(
        bs.len(),
        |i: int|
            if i == target {
                seq![key]
            } else {
                without_key(bs[i], key)
            },
    )
}

/// Key presses while rebinding: escape ends it, and the first other key goes
/// to the action waiting for one.
pub open spec fn rebind_presses(v: PanelView, presses: Seq<u32>, escape: u32) -> Step
    decreases presses.len(),
{
    if presses.len() == 0 {
        (v, seq![])
    } else if presses[0] == escape {
        rebinding_set(v, false)
    } else {
        let v1 = match v.binding_target {
            Some(t) => PanelView {
                bindings: bound(v.bindings, t as int, presses[0]),
                binding_target: None,
                dirty: true,
                ..v
            },
            None => v,
        };
        rebind_presses(v1, presses.drop_first(), escape)
    }
}

/// A pad's keys: each one held down sounds the pad, each one up lets it go.
pub open spec fn pad_keys(v: PanelView, keys: Seq<u32>, down: Seq<u32>, degree: int) -> Step
    decreases keys.len(),
{
    if keys.len() == 0 {
        (v, seq![])
    } else {
        let k = keys.last();
        then(
            pad_keys(v, keys.drop_last(), down, degree),
            |w: PanelView|
                if down.contains(k) {
                    noted_on(w, Source::Key(k), degree)
                } else {
                    noted_off(w, Source::Key(k), degree)
                },
        )
    }
}

/// Whether any of `keys` was pressed.
pub open spec fn any_pressed(keys: Seq<u32>, presses: Seq<u32>) -> bool {
    exists|j: int| 0 <= j < keys.len() && presses.contains(#[trigger] keys[j])
}

/// Action `i`'s keys this frame.
pub open spec fn action_keys(
    v: PanelView,
    bindings: Seq<Seq<u32>>,
    presses: Seq<u32>,
    down: Seq<u32>,
    i: int,
) -> Step {
    match action_spec(i) {
        Action::Pad(d) => pad_keys(v, bindings[i], down, d as int),
        other => if any_pressed(bindings[i], presses) {
            acted(v, other)
        } else {
            (v, seq![])
        },
    }
}

/// The first `n` actions' keys this frame, in order.
pub open spec fn actions_keyed(
    v: PanelView,
    bindings: Seq<Seq<u32>>,
    presses: Seq<u32>,
    down: Seq<u32>,
    n: int,
) -> Step
    decreases n,
{
    if n <= 0 {
        (v, seq![])
    } else {
        then(
            actions_keyed(v, bindings, presses, down, n - 1),
            |w: PanelView| action_keys(w, bindings, presses, down, n - 1),
        )
    }
}

/// One frame of the keyboard: `presses` went down this frame (shortcuts
/// left out), `down` are all held. Without focus no key-up can arrive, so
/// every key lets go rather than ringing on.
pub open spec fn keys_handled(
    v: PanelView,
    focused: bool,
    presses: Seq<u32>,
    down: Seq<u32>,
    escape: u32,
) -> Step {
    if !focused {
        lifted_each(v, keyed(v.held))
    } else if v.rebinding {
        rebind_presses(v, presses, escape)
    } else {
        actions_keyed(v, v.bindings, presses, down, ACTION_COUNT as int)
    }
}

/// Where the finger `id` is in the list, or the list's length.
pub open spec fn touch_slot(ts: Seq<(u64, usize)>, id: u64, from: int) -> int
    decreases ts.len() - from,
{
    if from >= ts.len() {
        ts.len() as int
    } else if ts[from].0 == id {
        from
    } else {
        touch_slot(ts, id, from + 1)
    }
}

/// One touch event, `over` being the pad under the finger if any. Sliding a
/// finger from one pad to the next moves the chord with it.
pub open spec fn touched(v: PanelView, id: u64, phase: TouchPhase, over: Option<usize>) -> Step {
    let slot = touch_slot(v.touches, id, 0);
    let was: Option<usize> = if slot < v.touches.len() {
        Some(v.touches[slot].1)
    } else {
        None
    };
    match phase {
        TouchPhase::Start | TouchPhase::Move => {
            if v.rebinding {
                if phase == TouchPhase::Start && over is Some {
                    (PanelView { binding_target: over, ..v }, seq![])
                } else {
                    (v, seq![])
                }
            } else if was != over {
                let v1 = if slot < v.touches.len() {
                    PanelView { touches: v.touches.remove(slot), ..v }
                } else {
                    v
                };
                let s1: Step = match was {
                    Some(d) => noted_off(v1, Source::Touch(id), d as int),
                    None => (v1, seq![]),
                };
                match over {
                    Some(d) => {
                        let s2 = noted_on(s1.0, Source::Touch(id), d as int);
                        (PanelView { touches: s2.0.touches.push((id, d)), ..s2.0 }, s1.1 + s2.1)
                    },
                    None => s1,
                }
            } else {
                (v, seq![])
            }
        },
        TouchPhase::End | TouchPhase::Cancel => {
            if slot < v.touches.len() {
                let d = v.touches[slot].1;
                noted_off(PanelView { touches: v.touches.remove(slot), ..v }, Source::Touch(id), d as int)
            } else {
                (v, seq![])
            }
        },
    }
}

/// Touch events in order.
pub open spec fn touches_handled(v: PanelView, events: Seq<(u64, TouchPhase, Option<usize>)>) -> Step
    decreases events.len(),
{
    if events.len() == 0 {
        (v, seq![])
    } else {
        let e = events.last();
        then(touches_handled(v, events.drop_last()), |w: PanelView| touched(w, e.0, e.1, e.2))
    }
}

/// The pad the mouse is holding, if any.
pub open spec fn pointer_pad(held: Seq<(Source, usize)>) -> Option<usize>
    decreases held.len(),
{
    if held.len() == 0 {
        None
    } else if held[0].0 == Source::Pointer {
        Some(held[0].1)
    } else {
        pointer_pad(held.drop_first())
    }
}

/// One frame of the mouse: whether its button is `down`, whether it was
/// `pressed` this frame, and the pad it is over. A press that started off the
/// pads plays nothing, so dragging out of a dropdown does not play them.
pub open spec fn pointed(v: PanelView, down: bool, pressed: bool, over: Option<usize>) -> Step {
    let on_pads = if !down {
        false
    } else if pressed {
        over is Some
    } else {
        v.pointer_on_pads
    };
    let v1 = PanelView { pointer_on_pads: on_pads, ..v };
    if v.rebinding {
        if pressed && over is Some {
            (PanelView { binding_target: over, ..v1 }, seq![])
        } else {
            (v1, seq![])
        }
    } else {
        let target = if down && on_pads {
            over
        } else {
            None
        };
        let current = pointer_pad(v.held);
        if current != target {
            let s1: Step = match current {
                Some(d) => noted_off(v1, Source::Pointer, d as int),
                None => (v1, seq![]),
            };
            match target {
                Some(d) => then(s1, |w: PanelView| noted_on(w, Source::Pointer, d as int)),
                None => s1,
            }
        } else {
            (v1, seq![])
        }
    }
}

/// The instrument's face.
pub struct Panel {
    /// 0-11, 0 = C.
    pub key_pitch: i32,
    pub mode: Mode,
    pub octave: i32,
    pub patch_index: usize,
    /// How many sounds there are to choose from.
    pub patch_count: usize,
    pub chords: [[i32; 3]; 7],
    pub arp_on: bool,
    pub arp_pattern: ArpPattern,
    pub bars: u8,
    /// The key codes bound to each action, in the order of `action_at`.
    pub bindings: Vec<Vec<u32>>,
    pub rebinding: bool,
    pub binding_target: Option<usize>,
    /// Which (source, pad) pairs are sounding right now.
    pub held: Vec<(Source, usize)>,
    /// Fingers on a touchscreen, and the pad each is on.
    pub touches: Vec<(u64, usize)>,
    /// Whether the current mouse press started on a pad - so dragging out of
    /// a dropdown and across the pads does not play them.
    pub pointer_on_pads: bool,
    /// Settings changed and not yet written.
    pub dirty: bool,
}

impl View for Panel {
    type V = PanelView;

    open spec fn view(&self) -> PanelView {
        PanelView {
            key_pitch: self.key_pitch,
            mode: self.mode,
            octave: self.octave,
            patch_index: self.patch_index,
            patch_count: self.patch_count,
            arp_on: self.arp_on,
            arp_pattern: self.arp_pattern,
            bars: self.bars,
            bindings: self.bindings@.map_values(|keys: Vec<u32>| keys@),
            rebinding: self.rebinding,
            binding_target: self.binding_target,
            held: self.held@,
            touches: self.touches@,
            pointer_on_pads: self.pointer_on_pads,
            dirty: self.dirty,
        }
    }
}

/// The triads of every key and octave the pads can be in fit an `i32`.
proof fn lemma_chords_fit(root: int, mode: Mode)
    requires
        -1000 <= root <= 1000,
    ensures
        forall|d: int| 0 <= d < 7 ==> #[trigger] triad_fits(root, scale_of(mode), d),
        forall|d: int, i: int|
            0 <= d < 7 && 0 <= i < 3 ==> -2000 <= #[trigger] triad_spec(root, scale_of(mode), d)[i]
                <= 2000,
{
    let p = scale_of(mode);
    assert(forall|k: int| 0 <= k < 7 ==> 0 <= #[trigger] p[k] < 12);
}

/// The pads play the seven chords of the chosen key's scale: their roots
/// climb the major scale (tone, tone, semitone, tone, tone, tone) or the
/// natural minor (tone, semitone, tone, tone, semitone, tone) from the first
/// pad, and their qualities are I ii iii IV V vi vii° in a major key and
/// i ii° III iv v VI VII in a minor one, whatever the key and octave.
pub proof fn lemma_pads_follow_the_mode(v: PanelView, d: int)
    requires
        0 <= v.key_pitch < 12,
        OCTAVE_MIN <= v.octave <= OCTAVE_MAX,
        0 <= d < 7,
    ensures
        v.mode == Mode::Major ==> quality_spec(v.chord(d)) == major_key_quality(d),
        v.mode == Mode::Minor ==> quality_spec(v.chord(d)) == minor_key_quality(d),
        v.mode == Mode::Major ==> v.chord(d)[0] - v.chord(0)[0] == seq![0int, 2, 4, 5, 7, 9, 11][d],
        v.mode == Mode::Minor ==> v.chord(d)[0] - v.chord(0)[0] == seq![0int, 2, 3, 5, 7, 8, 10][d],
{
    let root = root_midi_spec(v.key_pitch as int, v.octave as int);
    lemma_chords_fit(root, v.mode);
    lemma_major_key_qualities(root);
    lemma_minor_key_qualities(root);
    let t = triad_spec(root, scale_of(v.mode), d);
    assert(v.chord(d)[0] == t[0] && v.chord(d)[1] == t[1] && v.chord(d)[2] == t[2]);
    assert(degree_quality(root, scale_of(v.mode), d) == quality_spec(v.chord(d)));
    let t0 = triad_spec(root, scale_of(v.mode), 0);
    assert(v.chord(0)[0] == t0[0]);
    assert(d % 7 == d && d / 7 == 0);
}

/// Octave down moves every pad's chord down twelve semitones and lets go
/// of what is held, unless the pads are already at the lowest octave, when
/// it changes nothing; octave up is the same the other way.
pub proof fn lemma_octave_buttons(v: PanelView)
    requires
        0 <= v.key_pitch < 12,
        OCTAVE_MIN <= v.octave <= OCTAVE_MAX,
    ensures
        v.octave > OCTAVE_MIN ==> {
            let r = acted(v, Action::OctaveDown);
            &&& r.0.octave == v.octave - 1
            &&& r.1 == seq![Sent::ReleaseLive]
            &&& forall|d: int, i: int|
                0 <= d < 7 && 0 <= i < 3 ==> #[trigger] r.0.chord(d)[i] == v.chord(d)[i] - 12
        },
        v.octave == OCTAVE_MIN ==> acted(v, Action::OctaveDown) == (v, Seq::<Sent>::empty()),
        v.octave < OCTAVE_MAX ==> {
            let r = acted(v, Action::OctaveUp);
            &&& r.0.octave == v.octave + 1
            &&& r.1 == seq![Sent::ReleaseLive]
            &&& forall|d: int, i: int|
                0 <= d < 7 && 0 <= i < 3 ==> #[trigger] r.0.chord(d)[i] == v.chord(d)[i] + 12
        },
        v.octave == OCTAVE_MAX ==> acted(v, Action::OctaveUp) == (v, Seq::<Sent>::empty()),
{
    let root = root_midi_spec(v.key_pitch as int, v.octave as int);
    let p = scale_of(v.mode);
    lemma_chords_fit(root, v.mode);
    if v.octave > OCTAVE_MIN {
        let r = acted(v, Action::OctaveDown);
        lemma_chords_fit(root - 12, v.mode);
        assert(root_midi_spec(r.0.key_pitch as int, r.0.octave as int) == root - 12);
        assert forall|d: int, i: int|
            0 <= d < 7 && 0 <= i < 3 implies #[trigger] r.0.chord(d)[i] == v.chord(d)[i] - 12 by {
            lemma_triads_transpose(root, -12, p, d);
        }
    }
    if v.octave < OCTAVE_MAX {
        let r = acted(v, Action::OctaveUp);
        lemma_chords_fit(root + 12, v.mode);
        assert(root_midi_spec(r.0.key_pitch as int, r.0.octave as int) == root + 12);
        assert forall|d: int, i: int|
            0 <= d < 7 && 0 <= i < 3 implies #[trigger] r.0.chord(d)[i] == v.chord(d)[i] + 12 by {
            lemma_triads_transpose(root, 12, p, d);
        }
    }
}


impl Panel {
    pub open spec fn wf(&self) -> bool {
        &&& self@.wf()
        &&& forall|d: int| 0 <= d < 7 ==> (#[trigger] self.chords[d])@ == self@.chord(d)
    }

    /// The note the key's first chord is built on.
    pub fn root_midi(&self) -> (r: i32)
        requires
            self@.wf(),
        ensures
            r == root_midi_spec(self.key_pitch as int, self.octave as int),
    {
        let pitch = if self.key_pitch > 6 {
            self.key_pitch - 12
        } else {
            self.key_pitch
        };
        60 + pitch + self.octave * 12
    }

    fn rebuild_chords(&mut self)
        requires
            old(self)@.wf(),
        ensures
            final(self)@ == old(self)@,
            final(self).wf(),
    {
        let root = self.root_midi();
        let pattern = self.mode.pattern();
        proof {
            lemma_chords_fit(root as int, self.mode);
            assert(pattern@ == scale_of(self.mode));
        }
        let chords = chords_in_key(root, &pattern);
        self.chords = chords;
        proof {
            assert forall|d: int| 0 <= d < 7 implies (#[trigger] self.chords[d])@ == self@.chord(d) by {
                assert(self.chords[d]@ =~= self@.chord(d));
            }
        }
    }

    /// A face in key `key_pitch`, `mode`, `octave`, sound `patch_index` of
    /// `patch_count`, with `bindings` for its keys.
    pub fn new(
        key_pitch: i32,
        mode: Mode,
        octave: i32,
        patch_index: usize,
        patch_count: usize,
        arp_on: bool,
        arp_pattern: ArpPattern,
        bars: u8,
        bindings: Vec<Vec<u32>>,
    ) -> (p: Panel)
        requires
            0 <= key_pitch < 12,
            OCTAVE_MIN <= octave <= OCTAVE_MAX,
            patch_index < patch_count,
            bindings@.len() == ACTION_COUNT,
        ensures
            p.wf(),
            p@ == (PanelView {
                key_pitch,
                mode,
                octave,
                patch_index,
                patch_count,
                arp_on,
                arp_pattern,
                bars,
                bindings: bindings@.map_values(|keys: Vec<u32>| keys@),
                rebinding: false,
                binding_target: None,
                held: seq![],
                touches: seq![],
                pointer_on_pads: false,
                dirty: false,
            }),
    {
        let mut p = Panel {
            key_pitch,
            mode,
            octave,
            patch_index,
            patch_count,
            chords: [[0i32; 3]; 7],
            arp_on,
            arp_pattern,
            bars,
            bindings,
            rebinding: false,
            binding_target: None,
            held: Vec::new(),
            touches: Vec::new(),
            pointer_on_pads: false,
            dirty: false,
        };
        p.rebuild_chords();
        p
    }

    /// Whether pad `degree` is held by anything.
    pub fn is_lit(&self, degree: usize) -> (lit: bool)
        ensures
            lit == self@.lit(degree),
    {
        let mut i: usize = 0;
        while i < self.held.len()
            invariant
                i <= self.held@.len(),
                forall|j: int| 0 <= j < i ==> (#[trigger] self.held@[j]).1 != degree,
            decreases self.held@.len() - i,
        {
            if self.held[i].1 == degree {
                assert(self@.held[i as int].1 == degree);
                return true;
            }
            i = i + 1;
        }
        false
    }

    fn held_index(&self, source: Source, degree: usize) -> (i: usize)
        ensures
            i <= self.held@.len(),
            i < self.held@.len() <==> self.held@.contains((source, degree)),
            i < self.held@.len() ==> self.held@[i as int] == (source, degree),
            forall|j: int| 0 <= j < i ==> self.held@[j] != (source, degree),
    {
        let mut i: usize = 0;
        while i < self.held.len()
            invariant
                i <= self.held@.len(),
                forall|j: int| 0 <= j < i ==> self.held@[j] != (source, degree),
            decreases self.held@.len() - i,
        {
            if self.held[i].0 == source && self.held[i].1 == degree {
                return i;
            }
            i = i + 1;
        }
        i
    }

    /// Pad `degree` pressed by `source`.
    pub fn note_on(&mut self, source: Source, degree: usize, out: &mut Vec<Msg>)
        requires
            old(self).wf(),
            degree < PAD_COUNT,
        ensures
            final(self).wf(),
            (final(self)@, sent(final(out)@)) == then(
                (old(self)@, sent(old(out)@)),
                |v: PanelView| noted_on(v, source, degree as int),
            ),
    {
        let i = self.held_index(source, degree);
        if i < self.held.len() {
            assert(sent(old(out)@) + seq![] =~= sent(out@));
            return;
        }
        let ghost before = self@;
        self.held.push((source, degree));
        let id = source.id(degree);
        out.push(Msg::NoteOn { id, chord: self.chords[degree], degree: degree as u8 });
        proof {
            assert(self.held@ =~= before.held.push((source, degree)));
            assert(self@ =~= noted_on(before, source, degree as int).0);
            assert(sent(out@) =~= sent(old(out)@) + noted_on(before, source, degree as int).1);
        }
    }

    /// Pad `degree` let go by `source`. Nothing is sent unless it was down:
    /// this runs for every unheld key on every frame.
    pub fn note_off(&mut self, source: Source, degree: usize, out: &mut Vec<Msg>)
        requires
            old(self).wf(),
            degree < PAD_COUNT,
        ensures
            final(self).wf(),
            (final(self)@, sent(final(out)@)) == then(
                (old(self)@, sent(old(out)@)),
                |v: PanelView| noted_off(v, source, degree as int),
            ),
    {
        let i = self.held_index(source, degree);
        if i == self.held.len() {
            assert(sent(old(out)@) + seq![] =~= sent(out@));
            return;
        }
        let ghost before = self@;
        proof {
            before.held.index_of_first_ensures((source, degree));
            assert(before.held.index_of_first((source, degree)) == Some(i as int));
        }
        self.held.remove(i);
        let id = source.id(degree);
        out.push(Msg::NoteOff { id });
        proof {
            assert(self.held@ =~= before.held.remove_value((source, degree)));
            assert(self@ =~= noted_off(before, source, degree as int).0);
            assert(sent(out@) =~= sent(old(out)@) + noted_off(before, source, degree as int).1);
        }
    }

    /// Let go of everything.
    pub fn release_all(&mut self, out: &mut Vec<Msg>)
        requires
            old(self).wf(),
        ensures
            final(self).wf(),
            (final(self)@, sent(final(out)@)) == then(
                (old(self)@, sent(old(out)@)),
                |v: PanelView| released(v),
            ),
    {
        self.held.clear();
        self.touches.clear();
        out.push(Msg::ReleaseLive);
        assert(sent(out@) =~= sent(old(out)@) + seq![Sent::ReleaseLive]);
        assert(self@ =~= released(old(self)@).0);
    }

    /// A new key and mode.
    pub fn set_key(&mut self, pitch: i32, mode: Mode, out: &mut Vec<Msg>)
        requires
            old(self).wf(),
            0 <= pitch < 12,
        ensures
            final(self).wf(),
            (final(self)@, sent(final(out)@)) == then(
                (old(self)@, sent(old(out)@)),
                |v: PanelView| rekeyed(v, pitch, mode),
            ),
    {
        if pitch != self.key_pitch || mode != self.mode {
            self.key_pitch = pitch;
            self.mode = mode;
            self.held.clear();
            self.touches.clear();
            out.push(Msg::ReleaseLive);
            self.rebuild_chords();
            self.dirty = true;
            assert(sent(out@) =~= sent(old(out)@) + seq![Sent::ReleaseLive]);
            assert(self@ =~= rekeyed(old(self)@, pitch, mode).0);
        } else {
            assert(sent(old(out)@) + seq![] =~= sent(out@));
        }
    }

    /// A new octave, clamped to the range the pads can reach.
    pub fn set_octave(&mut self, octave: i32, out: &mut Vec<Msg>)
        requires
            old(self).wf(),
        ensures
            final(self).wf(),
            (final(self)@, sent(final(out)@)) == then(
                (old(self)@, sent(old(out)@)),
                |v: PanelView| reoctaved(v, octave as int),
            ),
    {
        let o = if octave < OCTAVE_MIN {
            OCTAVE_MIN
        } else if octave > OCTAVE_MAX {
            OCTAVE_MAX
        } else {
            octave
        };
        if o != self.octave {
            self.octave = o;
            self.held.clear();
            self.touches.clear();
            out.push(Msg::ReleaseLive);
            self.rebuild_chords();
            self.dirty = true;
            assert(sent(out@) =~= sent(old(out)@) + seq![Sent::ReleaseLive]);
            assert(self@ =~= reoctaved(old(self)@, octave as int).0);
        } else {
            assert(sent(old(out)@) + seq![] =~= sent(out@));
        }
    }

    /// A new sound.
    pub fn set_patch(&mut self, index: usize, out: &mut Vec<Msg>)
        requires
            old(self).wf(),
            index < old(self).patch_count,
        ensures
            final(self).wf(),
            (final(self)@, sent(final(out)@)) == then(
                (old(self)@, sent(old(out)@)),
                |v: PanelView| repatched(v, index),
            ),
    {
        if index != self.patch_index {
            self.patch_index = index;
            self.held.clear();
            self.touches.clear();
            out.push(Msg::ReleaseLive);
            out.push(Msg::SetPatch(index));
            self.dirty = true;
            assert(sent(out@) =~= sent(old(out)@) + seq![Sent::ReleaseLive, Sent::SetPatch(index)]);
            assert(self@ =~= repatched(old(self)@, index).0);
        } else {
            assert(sent(old(out)@) + seq![] =~= sent(out@));
        }
    }

    /// The arpeggiator on or off. What is held is dropped: a chord that
    /// started as a block would end as an arpeggio.
    pub fn set_arp(&mut self, on: bool, out: &mut Vec<Msg>)
        requires
            old(self).wf(),
        ensures
            final(self).wf(),
            (final(self)@, sent(final(out)@)) == then(
                (old(self)@, sent(old(out)@)),
                |v: PanelView| arp_set(v, on),
            ),
    {
        self.arp_on = on;
        self.held.clear();
        self.touches.clear();
        out.push(Msg::SetArp(on));
        self.dirty = true;
        assert(sent(out@) =~= sent(old(out)@) + seq![Sent::SetArp(on)]);
        assert(self@ =~= arp_set(old(self)@, on).0);
    }

    /// Rebinding mode on or off.
    pub fn set_rebinding(&mut self, on: bool, out: &mut Vec<Msg>)
        requires
            old(self).wf(),
        ensures
            final(self).wf(),
            (final(self)@, sent(final(out)@)) == then(
                (old(self)@, sent(old(out)@)),
                |v: PanelView| rebinding_set(v, on),
            ),
    {
        self.rebinding = on;
        self.binding_target = None;
        self.release_all(out);
        assert(self@ =~= rebinding_set(old(self)@, on).0);
    }

    /// A control clicked: while rebinding it becomes the one the next key
    /// goes to, and the click does nothing else (`false`); otherwise the
    /// control acts (`true`).
    pub fn pick(&mut self, idx: usize) -> (act: bool)
        requires
            old(self).wf(),
            idx < ACTION_COUNT,
        ensures
            final(self).wf(),
            act == !old(self)@.rebinding,
            final(self)@ == if old(self)@.rebinding {
                PanelView { binding_target: Some(idx), ..old(self)@ }
            } else {
                old(self)@
            },
    {
        if self.rebinding {
            self.binding_target = Some(idx);
            false
        } else {
            true
        }
    }

    /// What a control does when pressed.
    pub fn do_action(&mut self, action: Action, out: &mut Vec<Msg>)
        requires
            old(self).wf(),
        ensures
            final(self).wf(),
            (final(self)@, sent(final(out)@)) == then(
                (old(self)@, sent(old(out)@)),
                |v: PanelView| acted(v, action),
            ),
    {
        match action {
            Action::Pad(_) => {
                assert(sent(old(out)@) + seq![] =~= sent(out@));
            },
            Action::Record => {
                out.push(Msg::Pedal);
                assert(sent(out@) =~= sent(old(out)@) + seq![Sent::Pedal]);
            },
            Action::PlayStop => {
                out.push(Msg::PlayStop);
                assert(sent(out@) =~= sent(old(out)@) + seq![Sent::PlayStop]);
            },
            Action::Undo => {
                out.push(Msg::Undo);
                assert(sent(out@) =~= sent(old(out)@) + seq![Sent::Undo]);
            },
            Action::Clear => {
                out.push(Msg::ClearLoop);
                assert(sent(out@) =~= sent(old(out)@) + seq![Sent::ClearLoop]);
            },
            Action::Arp => self.set_arp(!self.arp_on, out),
            Action::OctaveDown => self.set_octave(self.octave - 1, out),
            Action::OctaveUp => self.set_octave(self.octave + 1, out),
        }
    }
}


/// Whether `k` is in `v`.
fn has_key(v: &Vec<u32>, k: u32) -> (b: bool)
    ensures
        b == v@.contains(k),
{
    let mut i: usize = 0;
    while i < v.len()
        invariant
            i <= v@.len(),
            forall|j: int| 0 <= j < i ==> v@[j] != k,
        decreases v@.len() - i,
    {
        if v[i] == k {
            assert(v@[i as int] == k);
            return true;
        }
        i = i + 1;
    }
    false
}

/// Whether any of `keys` is in `presses`.
fn any_key_pressed(keys: &Vec<u32>, presses: &Vec<u32>) -> (b: bool)
    ensures
        b == any_pressed(keys@, presses@),
{
    let mut i: usize = 0;
    while i < keys.len()
        invariant
            i <= keys@.len(),
            forall|j: int| 0 <= j < i ==> !presses@.contains(#[trigger] keys@[j]),
        decreases keys@.len() - i,
    {
        if has_key(presses, keys[i]) {
            return true;
        }
        i = i + 1;
    }
    false
}

/// A copy of a list of key codes.
fn copy_keys(keys: &Vec<u32>) -> (c: Vec<u32>)
    ensures
        c@ == keys@,
{
    let mut c: Vec<u32> = Vec::new();
    let mut i: usize = 0;
    while i < keys.len()
        invariant
            i <= keys@.len(),
            c@ == keys@.take(i as int),
        decreases keys@.len() - i,
    {
        c.push(keys[i]);
        i = i + 1;
        assert(c@ =~= keys@.take(i as int));
    }
    assert(keys@.take(keys@.len() as int) =~= keys@);
    c
}

/// Playing pads never touches the bindings.
proof fn lemma_pad_keys_keep_bindings(v: PanelView, keys: Seq<u32>, down: Seq<u32>, degree: int)
    ensures
        pad_keys(v, keys, down, degree).0.bindings == v.bindings,
    decreases keys.len(),
{
    if keys.len() > 0 {
        lemma_pad_keys_keep_bindings(v, keys.drop_last(), down, degree);
    }
}

/// Nothing the keys do this frame touches the bindings.
proof fn lemma_actions_keep_bindings(
    v: PanelView,
    bindings: Seq<Seq<u32>>,
    presses: Seq<u32>,
    down: Seq<u32>,
    n: int,
)
    ensures
        actions_keyed(v, bindings, presses, down, n).0.bindings == v.bindings,
    decreases n,
{
    if n > 0 {
        lemma_actions_keep_bindings(v, bindings, presses, down, n - 1);
        let w = actions_keyed(v, bindings, presses, down, n - 1).0;
        match action_spec(n - 1) {
            Action::Pad(d) => lemma_pad_keys_keep_bindings(w, bindings[n - 1], down, d as int),
            _ => {},
        }
    }
}

/// `a` followed by `b`, then `c`, is `a` followed by `b` and `c`.
proof fn lemma_sent_assoc(a: Seq<Sent>, b: Seq<Sent>, c: Seq<Sent>)
    ensures
        a + b + c == a + (b + c),
{
    assert(a + b + c =~= a + (b + c));
}

impl Panel {
    /// Every key-held pad let go.
    fn lift_keys(&mut self, out: &mut Vec<Msg>)
        requires
            old(self).wf(),
        ensures
            final(self).wf(),
            (final(self)@, sent(final(out)@)) == then(
                (old(self)@, sent(old(out)@)),
                |v: PanelView| lifted_each(v, keyed(v.held)),
            ),
    {
        let ghost v0 = self@;
        let ghost m0 = sent(out@);
        let mut ks: Vec<(Source, usize)> = Vec::new();
        let mut i: usize = 0;
        while i < self.held.len()
            invariant
                self@ == v0,
                self.wf(),
                i <= self.held@.len(),
                ks@ == keyed(self.held@.take(i as int)),
                forall|k: int| 0 <= k < ks@.len() ==> (#[trigger] ks@[k]).1 < PAD_COUNT,
            decreases self.held@.len() - i,
        {
            let h = self.held[i];
            proof {
                assert(self.held@.take(i + 1).drop_last() =~= self.held@.take(i as int));
                assert(self.held@.take(i + 1).last() == h);
                assert(h.1 < PAD_COUNT);
            }
            match h.0 {
                Source::Key(_) => ks.push(h),
                _ => {},
            }
            i = i + 1;
        }
        assert(self.held@.take(self.held@.len() as int) =~= self.held@);
        let mut j: usize = 0;
        while j < ks.len()
            invariant
                self.wf(),
                j <= ks@.len(),
                ks@ == keyed(v0.held),
                forall|k: int| 0 <= k < ks@.len() ==> (#[trigger] ks@[k]).1 < PAD_COUNT,
                self@ == lifted_each(v0, ks@.take(j as int)).0,
                sent(out@) == m0 + lifted_each(v0, ks@.take(j as int)).1,
            decreases ks@.len() - j,
        {
            let (s, d) = ks[j];
            let ghost before = sent(out@);
            let ghost pf = lifted_each(v0, ks@.take(j as int));
            assert(ks@[j as int].1 < PAD_COUNT);
            self.note_off(s, d, out);
            proof {
                assert(ks@.take(j + 1).drop_last() =~= ks@.take(j as int));
                assert(ks@.take(j + 1).last() == (s, d));
                lemma_sent_assoc(m0, pf.1, noted_off(pf.0, s, d as int).1);
            }
            j = j + 1;
        }
        assert(ks@.take(ks@.len() as int) =~= ks@);
    }

    /// Key presses while rebinding.
    fn rebind_keys(&mut self, presses: &Vec<u32>, escape: u32, out: &mut Vec<Msg>)
        requires
            old(self).wf(),
        ensures
            final(self).wf(),
            (final(self)@, sent(final(out)@)) == then(
                (old(self)@, sent(old(out)@)),
                |v: PanelView| rebind_presses(v, presses@, escape),
            ),
    {
        let ghost v0 = self@;
        let ghost m0 = sent(out@);
        let mut i: usize = 0;
        assert(presses@.skip(0) =~= presses@);
        while i < presses.len()
            invariant
                self.wf(),
                i <= presses@.len(),
                v0 == old(self)@,
                m0 == sent(old(out)@),
                sent(out@) == m0,
                rebind_presses(v0, presses@, escape) == rebind_presses(self@, presses@.skip(i as int), escape),
            decreases presses@.len() - i,
        {
            let key = presses[i];
            let ghost rest = presses@.skip(i as int);
            assert(rest[0] == key);
            assert(rest.drop_first() =~= presses@.skip(i + 1));
            if key == escape {
                assert(rebind_presses(self@, rest, escape) == rebinding_set(self@, false));
                let ghost before = self@;
                self.set_rebinding(false, out);
                return;
            }
            match self.binding_target {
                Some(t) => {
                    let ghost bs = self@.bindings;
                    bind(&mut self.bindings, t, key);
                    self.binding_target = None;
                    self.dirty = true;
                    proof {
                        let nb = bound(bs, t as int, key);
                        assert(self@.bindings.len() == nb.len());
                        assert forall|k: int| 0 <= k < nb.len() implies self@.bindings[k] == nb[k] by {
                            assert(self@.bindings[k] == self.bindings@[k]@);
                        }
                        assert(self@.bindings =~= nb);
                    }
                },
                None => {},
            }
            i = i + 1;
        }
        assert(presses@.skip(i as int) =~= Seq::<u32>::empty());
        assert(m0 + seq![] =~= m0);
    }

    /// The keys of pad `degree`, held or not.
    fn pad_keys_exec(&mut self, keys: &Vec<u32>, down: &Vec<u32>, degree: usize, out: &mut Vec<Msg>)
        requires
            old(self).wf(),
            degree < PAD_COUNT,
        ensures
            final(self).wf(),
            (final(self)@, sent(final(out)@)) == then(
                (old(self)@, sent(old(out)@)),
                |v: PanelView| pad_keys(v, keys@, down@, degree as int),
            ),
    {
        let ghost v0 = self@;
        let ghost m0 = sent(out@);
        let mut j: usize = 0;
        while j < keys.len()
            invariant
                self.wf(),
                degree < PAD_COUNT,
                j <= keys@.len(),
                self@ == pad_keys(v0, keys@.take(j as int), down@, degree as int).0,
                sent(out@) == m0 + pad_keys(v0, keys@.take(j as int), down@, degree as int).1,
            decreases keys@.len() - j,
        {
            let key = keys[j];
            let ghost pf = pad_keys(v0, keys@.take(j as int), down@, degree as int);
            proof {
                assert(keys@.take(j + 1).drop_last() =~= keys@.take(j as int));
                assert(keys@.take(j + 1).last() == key);
            }
            if has_key(down, key) {
                self.note_on(Source::Key(key), degree, out);
                proof {
                    lemma_sent_assoc(m0, pf.1, noted_on(pf.0, Source::Key(key), degree as int).1);
                }
            } else {
                self.note_off(Source::Key(key), degree, out);
                proof {
                    lemma_sent_assoc(m0, pf.1, noted_off(pf.0, Source::Key(key), degree as int).1);
                }
            }
            j = j + 1;
        }
        assert(keys@.take(keys@.len() as int) =~= keys@);
    }

    /// Every action's keys this frame.
    fn play_keys(&mut self, presses: &Vec<u32>, down: &Vec<u32>, out: &mut Vec<Msg>)
        requires
            old(self).wf(),
        ensures
            final(self).wf(),
            (final(self)@, sent(final(out)@)) == then(
                (old(self)@, sent(old(out)@)),
                |v: PanelView| actions_keyed(v, v.bindings, presses@, down@, ACTION_COUNT as int),
            ),
    {
        let ghost v0 = self@;
        let ghost m0 = sent(out@);
        let mut i: usize = 0;
        while i < ACTION_COUNT
            invariant
                self.wf(),
                i <= ACTION_COUNT,
                self@.bindings == v0.bindings,
                self@ == actions_keyed(v0, v0.bindings, presses@, down@, i as int).0,
                sent(out@) == m0 + actions_keyed(v0, v0.bindings, presses@, down@, i as int).1,
            decreases ACTION_COUNT - i,
        {
            let ghost pf = actions_keyed(v0, v0.bindings, presses@, down@, i as int);
            let keys = copy_keys(&self.bindings[i]);
            assert(keys@ == v0.bindings[i as int]);
            let action = action_at(i);
            match action {
                Action::Pad(d) => {
                    self.pad_keys_exec(&keys, down, d, out);
                    proof {
                        lemma_sent_assoc(m0, pf.1, pad_keys(pf.0, keys@, down@, d as int).1);
                    }
                },
                _ => {
                    if any_key_pressed(&keys, presses) {
                        self.do_action(action, out);
                        proof {
                            lemma_sent_assoc(m0, pf.1, acted(pf.0, action).1);
                        }
                    } else {
                        assert(sent(out@) =~= m0 + (pf.1 + seq![]));
                    }
                },
            }
            i = i + 1;
            proof {
                lemma_actions_keep_bindings(v0, v0.bindings, presses@, down@, i as int);
            }
        }
    }

    /// One frame of the keyboard: `presses` are the keys that went down
    /// this frame (shortcuts left out), `down` every key held, `escape` the
    /// code that ends rebinding.
    pub fn handle_keys(
        &mut self,
        focused: bool,
        presses: &Vec<u32>,
        down: &Vec<u32>,
        escape: u32,
        out: &mut Vec<Msg>,
    )
        requires
            old(self).wf(),
        ensures
            final(self).wf(),
            (final(self)@, sent(final(out)@)) == then(
                (old(self)@, sent(old(out)@)),
                |v: PanelView| keys_handled(v, focused, presses@, down@, escape),
            ),
    {
        if !focused {
            self.lift_keys(out);
        } else if self.rebinding {
            self.rebind_keys(presses, escape, out);
        } else {
            self.play_keys(presses, down, out);
        }
    }
}


/// Whether two pads-or-nothing are the same.
fn same_pad(a: Option<usize>, b: Option<usize>) -> (same: bool)
    ensures
        same == (a == b),
{
    match (a, b) {
        (Some(x), Some(y)) => x == y,
        (None, None) => true,
        _ => false,
    }
}

proof fn lemma_touch_slot(ts: Seq<(u64, usize)>, id: u64, from: int)
    requires
        0 <= from <= ts.len(),
    ensures
        from <= touch_slot(ts, id, from) <= ts.len(),
        touch_slot(ts, id, from) < ts.len() ==> ts[touch_slot(ts, id, from)].0 == id,
        forall|j: int| from <= j < touch_slot(ts, id, from) ==> ts[j].0 != id,
    decreases ts.len() - from,
{
    if from < ts.len() && ts[from].0 != id {
        lemma_touch_slot(ts, id, from + 1);
    }
}

impl Panel {
    fn touch_index(&self, id: u64) -> (slot: usize)
        ensures
            slot == touch_slot(self.touches@, id, 0),
            slot <= self.touches@.len(),
    {
        let mut i: usize = 0;
        proof {
            lemma_touch_slot(self.touches@, id, 0);
        }
        while i < self.touches.len() && self.touches[i].0 != id
            invariant
                i <= self.touches@.len(),
                touch_slot(self.touches@, id, 0) == touch_slot(self.touches@, id, i as int),
            decreases self.touches@.len() - i,
        {
            i = i + 1;
        }
        i
    }

    /// One touch event; `over` is the pad under the finger, if any.
    #[verifier::rlimit(40)]
    fn touch(&mut self, id: u64, phase: TouchPhase, over: Option<usize>, out: &mut Vec<Msg>)
        requires
            old(self).wf(),
            over matches Some(d) ==> d < PAD_COUNT,
        ensures
            final(self).wf(),
            (final(self)@, sent(final(out)@)) == then(
                (old(self)@, sent(old(out)@)),
                |v: PanelView| touched(v, id, phase, over),
            ),
    {
        let ghost v0 = self@;
        let ghost m0 = sent(out@);
        let slot = self.touch_index(id);
        proof {
            lemma_touch_slot(v0.touches, id, 0);
        }
        let n = self.touches.len();
        match phase {
            TouchPhase::Start | TouchPhase::Move => {
                if self.rebinding {
                    match phase {
                        TouchPhase::Start => match over {
                            Some(d) => {
                                self.binding_target = Some(d);
                            },
                            None => {},
                        },
                        _ => {},
                    }
                    assert(m0 + seq![] =~= m0);
                    return;
                }
                let was = if slot < n {
                    Some(self.touches[slot].1)
                } else {
                    None
                };
                if same_pad(was, over) {
                    assert(m0 + seq![] =~= m0);
                    return;
                }
                if slot < n {
                    self.touches.remove(slot);
                    proof {
                        assert forall|i: int, j: int|
                            0 <= i < j < self.touches@.len() implies (#[trigger] self.touches@[i]).0
                            != (#[trigger] self.touches@[j]).0 by {
                            let oi = if i < slot { i } else { i + 1 };
                            let oj = if j < slot { j } else { j + 1 };
                            assert(self.touches@[i] == v0.touches[oi]);
                            assert(self.touches@[j] == v0.touches[oj]);
                        }
                        assert forall|i: int| 0 <= i < self.touches@.len() implies (
                        #[trigger] self.touches@[i]).0 != id by {
                            let oi = if i < slot { i } else { i + 1 };
                            assert(self.touches@[i] == v0.touches[oi]);
                        }
                    }
                } else {
                    assert(forall|i: int| 0 <= i < self.touches@.len() ==> (
                    #[trigger] self.touches@[i]).0 != id);
                }
                let ghost v1 = self@;
                match was {
                    Some(d) => {
                        self.note_off(Source::Touch(id), d, out);
                    },
                    None => {
                        assert(m0 + seq![] =~= m0);
                    },
                }
                let ghost s1 = (self@, sent(out@));
                match over {
                    Some(d) => {
                        self.note_on(Source::Touch(id), d, out);
                        let ghost before_push = self@;
                        self.touches.push((id, d));
                        proof {
                            assert(self@ =~= PanelView {
                                touches: before_push.touches.push((id, d)),
                                ..before_push
                            });
                            assert forall|i: int, j: int|
                                0 <= i < j < self.touches@.len() implies (
                                #[trigger] self.touches@[i]).0 != (#[trigger] self.touches@[j]).0 by {
                                if j == self.touches@.len() - 1 {
                                    assert(self.touches@[i] == v1.touches[i]);
                                }
                            }
                            lemma_sent_assoc(m0, s1.1.subrange(m0.len() as int, s1.1.len() as int),
                                noted_on(s1.0, Source::Touch(id), d as int).1);
                            assert(s1.1 =~= m0 + s1.1.subrange(m0.len() as int, s1.1.len() as int));
                        }
                    },
                    None => {},
                }
                proof {
                    if slot < n {
                        assert(v1 == (PanelView { touches: v0.touches.remove(slot as int), ..v0 }));
                    } else {
                        assert(v1 == v0);
                    }
                }
            },
            TouchPhase::End | TouchPhase::Cancel => {
                if slot < n {
                    let d = self.touches[slot].1;
                    self.touches.remove(slot);
                    proof {
                        assert forall|i: int, j: int|
                            0 <= i < j < self.touches@.len() implies (#[trigger] self.touches@[i]).0
                            != (#[trigger] self.touches@[j]).0 by {
                            let oi = if i < slot { i } else { i + 1 };
                            let oj = if j < slot { j } else { j + 1 };
                            assert(self.touches@[i] == v0.touches[oi]);
                            assert(self.touches@[j] == v0.touches[oj]);
                        }
                        assert(self@ == (PanelView { touches: v0.touches.remove(slot as int), ..v0 }));
                    }
                    self.note_off(Source::Touch(id), d, out);
                } else {
                    assert(m0 + seq![] =~= m0);
                }
            },
        }
    }

    /// The fingers on a touchscreen, each its own voice. `events` are this
    /// frame's touch events, each with the pad under the finger if any.
    /// Returns whether any finger is involved, in which case the mouse is to
    /// be ignored: the first finger also arrives as mouse events.
    pub fn handle_touches(&mut self, events: &Vec<(u64, TouchPhase, Option<usize>)>, out: &mut Vec<Msg>) -> (fingers: bool)
        requires
            old(self).wf(),
            forall|i: int| 0 <= i < events@.len() ==> ((#[trigger] events@[i]).2 matches Some(d) ==> d < PAD_COUNT),
        ensures
            final(self).wf(),
            (final(self)@, sent(final(out)@)) == then(
                (old(self)@, sent(old(out)@)),
                |v: PanelView| touches_handled(v, events@),
            ),
            fingers == (events@.len() > 0 || final(self)@.touches.len() > 0),
    {
        let ghost v0 = self@;
        let ghost m0 = sent(out@);
        let mut i: usize = 0;
        while i < events.len()
            invariant
                self.wf(),
                i <= events@.len(),
                forall|k: int| 0 <= k < events@.len() ==> ((#[trigger] events@[k]).2 matches Some(d) ==> d < PAD_COUNT),
                self@ == touches_handled(v0, events@.take(i as int)).0,
                sent(out@) == m0 + touches_handled(v0, events@.take(i as int)).1,
            decreases events@.len() - i,
        {
            let (id, phase, over) = events[i];
            let ghost pf = touches_handled(v0, events@.take(i as int));
            proof {
                assert(events@.take(i + 1).drop_last() =~= events@.take(i as int));
                assert(events@.take(i + 1).last() == (id, phase, over));
                assert(events@[i as int].2 == over);
            }
            self.touch(id, phase, over, out);
            proof {
                lemma_sent_assoc(m0, pf.1, touched(pf.0, id, phase, over).1);
            }
            i = i + 1;
        }
        assert(events@.take(events@.len() as int) =~= events@);
        events.len() > 0 || self.touches.len() > 0
    }

    fn pointer_index(&self) -> (r: Option<usize>)
        requires
            self.wf(),
        ensures
            r == pointer_pad(self.held@),
            r matches Some(d) ==> d < PAD_COUNT,
    {
        let mut i: usize = 0;
        assert(self.held@.skip(0) =~= self.held@);
        while i < self.held.len()
            invariant
                self.wf(),
                i <= self.held@.len(),
                pointer_pad(self.held@) == pointer_pad(self.held@.skip(i as int)),
            decreases self.held@.len() - i,
        {
            let ghost rest = self.held@.skip(i as int);
            assert(rest[0] == self.held@[i as int]);
            assert(rest.drop_first() =~= self.held@.skip(i + 1));
            if self.held[i].0 == Source::Pointer {
                return Some(self.held[i].1);
            }
            i = i + 1;
        }
        None
    }

    /// One frame of the mouse: whether its button is `down`, whether it was
    /// `pressed` this frame, and the pad it is over (if nothing is drawn on
    /// top of the pads there).
    pub fn handle_pointer(&mut self, down: bool, pressed: bool, over: Option<usize>, out: &mut Vec<Msg>)
        requires
            old(self).wf(),
            over matches Some(d) ==> d < PAD_COUNT,
        ensures
            final(self).wf(),
            (final(self)@, sent(final(out)@)) == then(
                (old(self)@, sent(old(out)@)),
                |v: PanelView| pointed(v, down, pressed, over),
            ),
    {
        let ghost v0 = self@;
        let ghost m0 = sent(out@);
        if pressed {
            self.pointer_on_pads = over.is_some();
        }
        if !down {
            self.pointer_on_pads = false;
        }
        if self.rebinding {
            if pressed {
                match over {
                    Some(d) => self.binding_target = Some(d),
                    None => {},
                }
            }
            assert(m0 + seq![] =~= m0);
            return;
        }
        let target = if down && self.pointer_on_pads {
            over
        } else {
            None
        };
        let current = self.pointer_index();
        if same_pad(current, target) {
            assert(m0 + seq![] =~= m0);
            return;
        }
        match current {
            Some(d) => self.note_off(Source::Pointer, d, out),
            None => {
                assert(m0 + seq![] =~= m0);
            },
        }
        let ghost s1 = (self@, sent(out@));
        match target {
            Some(d) => {
                self.note_on(Source::Pointer, d, out);
                proof {
                    lemma_sent_assoc(m0, s1.1.subrange(m0.len() as int, s1.1.len() as int),
                        noted_on(s1.0, Source::Pointer, d as int).1);
                    assert(s1.1 =~= m0 + s1.1.subrange(m0.len() as int, s1.1.len() as int));
                }
            },
            None => {},
        }
    }
}


/// Holding a pad with two fingers and lifting one does not stop the chord:
/// letting go of one source leaves every other source's hold in place.
pub proof fn lemma_lifting_one_source_keeps_the_others(
    v: PanelView,
    source: Source,
    degree: int,
    other: (Source, usize),
)
    requires
        v.wf(),
        v.held.contains(other),
        other != (source, degree as usize),
    ensures
        noted_off(v, source, degree).0.held.contains(other),
        noted_off(v, source, degree).0.lit(other.1),
{
    let h = (source, degree as usize);
    if v.held.contains(h) {
        v.held.index_of_first_ensures(h);
        let i = v.held.index_of_first(h)->0;
        let j = choose|j: int| 0 <= j < v.held.len() && v.held[j] == other;
        let r = v.held.remove(i);
        let k = if j < i { j } else { j - 1 };
        assert(j != i);
        assert(r[k] == other);
        assert(noted_off(v, source, degree).0.held == r);
    } else {
        let j = choose|j: int| 0 <= j < v.held.len() && v.held[j] == other;
        assert(v.held[j] == other);
    }
    let w = noted_off(v, source, degree).0;
    let k = choose|k: int| 0 <= k < w.held.len() && w.held[k] == other;
    assert(w.held[k].1 == other.1);
}

/// A source pressing a pad it already holds sends nothing more: every
/// frame a held key is seen down, and it must sound once.
pub proof fn lemma_pressing_twice_is_pressing_once(v: PanelView, source: Source, degree: int)
    ensures
        noted_on(noted_on(v, source, degree).0, source, degree) == (
            noted_on(v, source, degree).0,
            Seq::<Sent>::empty(),
        ),
{
    let h = (source, degree as usize);
    if !v.held.contains(h) {
        let w = noted_on(v, source, degree).0;
        assert(w.held[w.held.len() - 1] == h);
    }
}

/// What holding and letting go of a pad sends carries one id, so the audio
/// thread stops exactly the chord that source started.
pub proof fn lemma_note_off_matches_note_on(v: PanelView, source: Source, degree: int)
    requires
        !v.held.contains((source, degree as usize)),
        0 <= degree < PAD_COUNT,
    ensures
        ({
            let on = noted_on(v, source, degree);
            let off = noted_off(on.0, source, degree);
            &&& on.1.len() == 1
            &&& off.1.len() == 1
            &&& on.1[0] matches Sent::NoteOn { id, .. } && off.1[0] == Sent::NoteOff { id }
            &&& off.0.held == v.held
        }),
{
    let h = (source, degree as usize);
    let on = noted_on(v, source, degree);
    let held = v.held.push(h);
    assert(held[held.len() - 1] == h);
    assert(held.contains(h));
    held.index_of_first_ensures(h);
    let i = held.index_of_first(h)->0;
    assert forall|j: int| 0 <= j < v.held.len() implies held[j] != h by {
        assert(held[j] == v.held[j]);
    }
    assert(i == held.len() - 1);
    assert(held.remove(i) =~= v.held);
}

/// A key lifted while the window had no focus never sounds on: when focus
/// goes, no key is left holding a pad.
pub proof fn lemma_losing_focus_lets_every_key_go(v: PanelView, presses: Seq<u32>, down: Seq<u32>, escape: u32)
    requires
        v.wf(),
    ensures
        forall|i: int|
            0 <= i < keys_handled(v, false, presses, down, escape).0.held.len() ==> !((
            #[trigger] keys_handled(v, false, presses, down, escape).0.held[i]).0 is Key),
{
    lemma_keyed_holds_every_key(v.held);
    lemma_lifted_each(v, keyed(v.held));
    let w = keys_handled(v, false, presses, down, escape).0;
    assert forall|i: int| 0 <= i < w.held.len() implies !((#[trigger] w.held[i]).0 is Key) by {
        assert(w.held.contains(w.held[i]));
    }
}

/// Every held pad a key is holding is in `keyed`.
proof fn lemma_keyed_holds_every_key(held: Seq<(Source, usize)>)
    ensures
        forall|x: (Source, usize)| held.contains(x) && x.0 is Key ==> #[trigger] keyed(held).contains(x),
        forall|x: (Source, usize)| #[trigger] keyed(held).contains(x) ==> held.contains(x),
    decreases held.len(),
{
    if held.len() > 0 {
        let init = held.drop_last();
        lemma_keyed_holds_every_key(init);
        assert forall|x: (Source, usize)| held.contains(x) && x.0 is Key implies #[trigger] keyed(held).contains(x) by {
            let j = choose|j: int| 0 <= j < held.len() && held[j] == x;
            if j < held.len() - 1 {
                assert(init[j] == x);
                assert(init.contains(x));
                assert(keyed(init).contains(x));
                let k = choose|k: int| 0 <= k < keyed(init).len() && keyed(init)[k] == x;
                if held.last().0 is Key {
                    assert(keyed(held) == keyed(init).push(held.last()));
                    assert(keyed(held)[k] == x);
                } else {
                    assert(keyed(held) == keyed(init));
                }
            } else {
                assert(keyed(held)[keyed(held).len() - 1] == x);
            }
        }
        assert forall|x: (Source, usize)| #[trigger] keyed(held).contains(x) implies held.contains(x) by {
            let k = choose|k: int| 0 <= k < keyed(held).len() && keyed(held)[k] == x;
            if k < keyed(init).len() {
                assert(keyed(held)[k] == keyed(init)[k]);
                assert(keyed(init).contains(x));
                let j = choose|j: int| 0 <= j < init.len() && init[j] == x;
                assert(held[j] == x);
            } else {
                assert(held[held.len() - 1] == x);
            }
        }
    }
}

/// After letting go of each of `hs`, what is still held was held before,
/// is none of `hs`, and is held once.
proof fn lemma_lifted_each(v: PanelView, hs: Seq<(Source, usize)>)
    requires
        v.held.no_duplicates(),
    ensures
        lifted_each(v, hs).0.held.no_duplicates(),
        forall|x: (Source, usize)|
            #[trigger] lifted_each(v, hs).0.held.contains(x) ==> v.held.contains(x) && !hs.contains(x),
    decreases hs.len(),
{
    if hs.len() > 0 {
        let init = hs.drop_last();
        let y = hs.last();
        lemma_lifted_each(v, init);
        let w = lifted_each(v, init).0;
        let r = noted_off(w, y.0, y.1 as int).0;
        assert(y.1 as int as usize == y.1);
        if w.held.contains(y) {
            w.held.index_of_first_ensures(y);
            let i = w.held.index_of_first(y)->0;
            assert(r.held == w.held.remove(i));
            assert forall|a: int, b: int| 0 <= a < r.held.len() && 0 <= b < r.held.len() && a != b implies r.held[a] != r.held[b] by {
                let oa = if a < i { a } else { a + 1 };
                let ob = if b < i { b } else { b + 1 };
                assert(r.held[a] == w.held[oa]);
                assert(r.held[b] == w.held[ob]);
            }
            assert forall|x: (Source, usize)| #[trigger] r.held.contains(x) implies v.held.contains(x) && !hs.contains(x) by {
                let k = choose|k: int| 0 <= k < r.held.len() && r.held[k] == x;
                let ok = if k < i { k } else { k + 1 };
                assert(w.held[ok] == x);
                assert(w.held.contains(x));
                assert(x != y);
                if hs.contains(x) {
                    let m = choose|m: int| 0 <= m < hs.len() && hs[m] == x;
                    assert(m != hs.len() - 1);
                    assert(init[m] == x);
                }
            }
        } else {
            assert forall|x: (Source, usize)| #[trigger] r.held.contains(x) implies v.held.contains(x) && !hs.contains(x) by {
                assert(x != y);
                if hs.contains(x) {
                    let m = choose|m: int| 0 <= m < hs.len() && hs[m] == x;
                    assert(m != hs.len() - 1);
                    assert(init[m] == x);
                }
            }
        }
    }
}

} // verus!
