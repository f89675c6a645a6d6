//! The audio thread's decisions, made one sample at a time: which notes
//! start and stop on which sample, for fingers, for the loop and for the
//! arpeggiator. There is exactly one clock - a count of samples - and the
//! looper and arpeggiator both run on it, so a looped chord or an arpeggio
//! step lands on its exact sample every time. What a note sounds like is not
//! decided here: each decision goes out as a `Voicing` for the mixer to play.

use vstd::prelude::*;

use crate::arp::{Arp, ArpNote, ArpView};
use crate::engine::{looping_mask, mask_of, Msg, AUTO_ID_BASE};
use crate::looper::{
    find_id, Layer, LoopEvent, LoopModel, LoopState, Looper, MAX_LAYERS, MAX_STEP, MAX_TIME,
};
use crate::theory::Chord;

verus! {

/// Notes started on any one sample, at most.
pub const MAX_VOICES: usize = 64;

/// Notes the conductor has started and must stop at a known sample.
pub const MAX_PENDING_OFFS: usize = 256;

/// Pads lit by the loop at once, at most.
pub const MAX_FLASHES: usize = 128;

/// What the mixer is to do with its voices.
#[derive(Clone, Copy, Debug, PartialEq, Eq, Structural)]
pub enum Voicing {
    /// Start a voice: `pitch`, note `index` of a `count`-note chord (its place
    /// in the stereo field), with sound `patch`, under `id`.
    Start { id: u64, pitch: i32, index: usize, count: usize, patch: u8 },
    /// Let go of every voice with this id.
    Release { id: u64 },
    /// Let go of every voice a finger started (id below `AUTO_ID_BASE`).
    ReleaseLive,
}

/// The conductor as values.
pub struct ConductorView {
    pub looper: LoopModel,
    pub arp: ArpView,
    pub patch: usize,
    pub patch_count: usize,
    pub clock: u64,
    pub next_auto_id: u64,
    pub pending_offs: Seq<(u64, u64)>,
    pub flashes: Seq<(u8, u64)>,
}

pub type Played = (ConductorView, Seq<Voicing>);

/// The id after `id`; past the last one they start again from the base.
pub open spec fn next_id(id: u64) -> u64 {
    if id < u64::MAX {
        (id + 1) as u64
    } else {
        AUTO_ID_BASE
    }
}

/// `now + dur`, or the end of time if that does not fit.
pub open spec fn until_of(now: u64, dur: u64) -> u64 {
    if dur <= u64::MAX - now {
        (now + dur) as u64
    } else {
        u64::MAX
    }
}

/// One voice per note of `chord`, all under `id`.
pub open spec fn chord_starts(chord: Seq<i32>, id: u64, patch: u8) -> Seq<Voicing> {
    Seq::new(
        chord.len(),
        |i: int|
            Voicing::Start {
                id,
                pitch: chord[i],
                index: i as usize,
                count: chord.len() as usize,
                patch,
            },
    )
}

/// `more` appended to `out`, as far as the per-sample cap allows.
pub open spec fn capped(out: Seq<Voicing>, more: Seq<Voicing>) -> Seq<Voicing> {
    let room: int = if out.len() < MAX_VOICES {
        MAX_VOICES - out.len()
    } else {
        0
    };
    out + more.take(if more.len() < room {
        more.len() as int
    } else {
        room
    })
}

/// A message from the controls, handled at the current sample. `c` is the
/// chord a `NoteOn` carries.
pub open spec fn handled(v: ConductorView, msg: Msg, c: Chord) -> Played {
    let now = v.clock;
    let p = v.patch as u8;
    match msg {
        Msg::NoteOn { id, chord: _, degree } => {
            let arp = if v.arp.on {
                v.arp.added(now, Some(id), c, u64::MAX, p)
            } else {
                v.arp
            };
            let out = if v.arp.on {
                seq![]
            } else {
                chord_starts(c@, id, p)
            };
            let looper = if v.looper.time_ok(now) && v.looper.rec_notes < usize::MAX {
                v.looper.noted_on(now, id, c, degree, p, v.arp.on)
            } else {
                v.looper
            };
            (ConductorView { arp, looper, ..v }, out)
        },
        Msg::NoteOff { id } => {
            let ok = v.looper.time_ok(now) && (find_id(v.looper.open, id, 0) < 32
                ==> v.looper.finish_ok(now, v.looper.open[find_id(v.looper.open, id, 0)]->0));
            (
                ConductorView {
                    arp: v.arp.let_go_of(Some(id), now),
                    looper: if ok {
                        v.looper.noted_off(now, id)
                    } else {
                        v.looper
                    },
                    ..v
                },
                seq![Voicing::Release { id }],
            )
        },
        Msg::ReleaseLive => {
            let ok = v.looper.time_ok(now) && v.looper.release_ok(now);
            (
                ConductorView {
                    arp: v.arp.let_go_of(None, now),
                    looper: if ok {
                        v.looper.released_all(now)
                    } else {
                        v.looper
                    },
                    ..v
                },
                seq![Voicing::ReleaseLive],
            )
        },
        Msg::SetPatch(i) => (
            ConductorView {
                patch: if i < v.patch_count {
                    i
                } else {
                    (v.patch_count - 1) as usize
                },
                ..v
            },
            seq![],
        ),
        Msg::Pedal => (
            ConductorView {
                looper: if v.looper.time_ok(now) {
                    v.looper.pedaled(now)
                } else {
                    v.looper
                },
                ..v
            },
            seq![],
        ),
        Msg::PlayStop => (
            ConductorView {
                looper: if v.looper.time_ok(now) {
                    v.looper.play_stopped(now)
                } else {
                    v.looper
                },
                ..v
            },
            seq![],
        ),
        Msg::Undo => (ConductorView { looper: v.looper.undone(), ..v }, seq![]),
        Msg::ClearLoop => (ConductorView { looper: v.looper.cleared(), ..v }, seq![]),
        Msg::SetArp(on) => if on != v.arp.on {
            (ConductorView { arp: ArpView { on, holds: seq![], ..v.arp }, ..v }, seq![Voicing::ReleaseLive])
        } else {
            (v, seq![])
        },
        Msg::SetArpPattern(pattern) => (ConductorView { arp: ArpView { pattern, ..v.arp }, ..v }, seq![]),
        Msg::SetStep(step) => {
            let s: u64 = if step > MAX_STEP {
                MAX_STEP
            } else {
                step
            };
            let len: u64 = if s < 1 {
                1
            } else {
                s
            };
            (
                ConductorView {
                    arp: ArpView {
                        step_len: len,
                        gate: crate::arp::gate_for(len, v.arp.min_gate),
                        ..v.arp
                    },
                    looper: v.looper.with_step(s),
                    ..v
                },
                seq![],
            )
        },
        Msg::SetBars(bars) => (ConductorView { looper: LoopModel { bars, ..v.looper }, ..v }, seq![]),
        Msg::ToggleMute(k) => (ConductorView { looper: v.looper.toggled(k as int), ..v }, seq![]),
        Msg::RemoveLayer(k) => (ConductorView { looper: v.looper.layer_removed(k as int), ..v }, seq![]),
    }
}

/// A looped event fired at the current sample: its pad lights for as long
/// as it lasts, and it either feeds the arpeggiator or sounds as a block,
/// its release booked for when it ends.
pub open spec fn played_event(s: Played, e: LoopEvent) -> Played {
    let v = s.0;
    let now = v.clock;
    let until = until_of(now, e.dur);
    let flashes = if v.flashes.len() < MAX_FLASHES {
        v.flashes.push((e.degree, until))
    } else {
        v.flashes
    };
    if v.arp.on {
        (ConductorView { flashes, arp: v.arp.added(now, None, e.chord, until, e.patch), ..v }, s.1)
    } else {
        let id = v.next_auto_id;
        let pending = if v.pending_offs.len() < MAX_PENDING_OFFS {
            v.pending_offs.push((id, until))
        } else {
            v.pending_offs
        };
        (
            ConductorView { flashes, next_auto_id: next_id(id), pending_offs: pending, ..v },
            capped(s.1, chord_starts(e.chord@, id, e.patch)),
        )
    }
}

/// Each layer keeps the sound it was recorded with: a looped chord fired
/// while the arpeggiator is off starts voices that all carry the event's own
/// patch and one of its pitches, whatever the live sound is; with the
/// arpeggiator on, the hold it adds carries that patch. What was already
/// decided on this sample stays as it was.
pub proof fn lemma_loop_keeps_its_sound(s: Played, e: LoopEvent)
    ensures
        ({
            let r = played_event(s, e);
            &&& r.1.len() >= s.1.len()
            &&& r.1.subrange(0, s.1.len() as int) == s.1
            &&& forall|i: int|
                s.1.len() <= i < r.1.len() ==> (#[trigger] r.1[i] matches Voicing::Start {
                    pitch,
                    patch,
                    ..
                } && patch == e.patch && e.chord@.contains(pitch))
            &&& s.0.arp.on ==> r.1 == s.1 && r.0.arp.holds.len() >= s.0.arp.holds.len()
                && forall|k: int|
                s.0.arp.holds.len() <= k < r.0.arp.holds.len() ==> (#[trigger] r.0.arp.holds[k]).patch
                    == e.patch
        }),
{
    let r = played_event(s, e);
    if !s.0.arp.on {
        let id = s.0.next_auto_id;
        let more = chord_starts(e.chord@, id, e.patch);
        assert(r.1.subrange(0, s.1.len() as int) =~= s.1);
        assert forall|i: int| s.1.len() <= i < r.1.len() implies (#[trigger] r.1[i] matches Voicing::Start {
            pitch,
            patch,
            ..
        } && patch == e.patch && e.chord@.contains(pitch)) by {
            let j = i - s.1.len();
            assert(r.1[i] == more[j]);
            assert(e.chord@[j] == e.chord@[j]);
        }
    }
}

/// Switching the arpeggiator on or off lets go of every live voice and
/// drops every chord it held, so nothing is arpeggiated until a new chord
/// goes down; asking for the state it is already in changes nothing.
pub proof fn lemma_arp_switch_drops_holds(v: ConductorView, on: bool, c: Chord, t: u64)
    ensures
        on != v.arp.on ==> {
            let r = handled(v, Msg::SetArp(on), c);
            &&& r.0.arp.on == on
            &&& r.0.arp.holds.len() == 0
            &&& r.1 == seq![Voicing::ReleaseLive]
            &&& r.0.arp.notes(t).len() == 0
            &&& !r.0.arp.sounding_at(t)
            &&& r.0.looper == v.looper
        },
        on == v.arp.on ==> handled(v, Msg::SetArp(on), c) == (v, Seq::<Voicing>::empty()),
{
}

/// Every looped event fired at the current sample, in order.
pub open spec fn played_events(s: Played, es: Seq<LoopEvent>) -> Played
    decreases es.len(),
{
    if es.len() == 0 {
        s
    } else {
        played_event(played_events(s, es.drop_last()), es.last())
    }
}

/// An arpeggiated note starting at the current sample, its release booked.
pub open spec fn played_note(s: Played, n: ArpNote) -> Played {
    let v = s.0;
    let id = v.next_auto_id;
    let pending = if v.pending_offs.len() < MAX_PENDING_OFFS {
        v.pending_offs.push((id, (v.clock + n.gate) as u64))
    } else {
        v.pending_offs
    };
    (
        ConductorView { next_auto_id: next_id(id), pending_offs: pending, ..v },
        capped(
            s.1,
            seq![
                Voicing::Start {
                    id,
                    pitch: n.pitch,
                    index: n.index,
                    count: n.count,
                    patch: n.patch,
                },
            ],
        ),
    )
}

pub open spec fn played_notes(s: Played, ns: Seq<ArpNote>) -> Played
    decreases ns.len(),
{
    if ns.len() == 0 {
        s
    } else {
        played_note(played_notes(s, ns.drop_last()), ns.last())
    }
}

/// The booked releases that fall due at `now`, in order.
pub open spec fn due(p: Seq<(u64, u64)>, now: u64) -> Seq<(u64, u64)>
    decreases p.len(),
{
    if p.len() == 0 {
        p
    } else if p.last().1 <= now {
        due(p.drop_last(), now).push(p.last())
    } else {
        due(p.drop_last(), now)
    }
}

/// The booked releases still to come after `now`, in order.
pub open spec fn not_due(p: Seq<(u64, u64)>, now: u64) -> Seq<(u64, u64)>
    decreases p.len(),
{
    if p.len() == 0 {
        p
    } else if p.last().1 > now {
        not_due(p.drop_last(), now).push(p.last())
    } else {
        not_due(p.drop_last(), now)
    }
}

pub open spec fn releases(p: Seq<(u64, u64)>) -> Seq<Voicing> {
    p.map_values(|r: (u64, u64)| Voicing::Release { id: r.0 })
}

/// Whether the looper can be ticked at `now`.
pub open spec fn tick_ok(l: LoopModel, now: u64) -> bool {
    l.time_ok(now) && (l.closing_due(now) ==> l.release_ok(now))
}

/// One sample: the looper fires what is due, the arpeggiator plays its
/// step, and every booked release that has come due goes out after `base`.
pub open spec fn sampled(v: ConductorView, base: Seq<Voicing>) -> Played {
    let now = v.clock;
    let ok = tick_ok(v.looper, now);
    let looper = if ok {
        v.looper.ticked(now)
    } else {
        v.looper
    };
    let fired = if ok {
        v.looper.fired(now)
    } else {
        Seq::empty()
    };
    let s1 = played_events((ConductorView { looper, ..v }, base), fired);
    let arp_ok = s1.0.arp.steps_fit();
    let notes = if arp_ok {
        s1.0.arp.notes(now)
    } else {
        Seq::empty()
    };
    let arp = if arp_ok {
        s1.0.arp.ticked(now)
    } else {
        s1.0.arp
    };
    let s2 = played_notes((ConductorView { arp, ..s1.0 }, s1.1), notes);
    (
        ConductorView {
            pending_offs: not_due(s2.0.pending_offs, now),
            clock: (now + 1) as u64,
            ..s2.0
        },
        s2.1 + releases(due(s2.0.pending_offs, now)),
    )
}

/// The pads the loop still lights after `now`.
pub open spec fn still_lit(f: Seq<(u8, u64)>, now: u64) -> Seq<(u8, u64)>
    decreases f.len(),
{
    if f.len() == 0 {
        f
    } else if f.last().1 > now {
        still_lit(f.drop_last(), now).push(f.last())
    } else {
        still_lit(f.drop_last(), now)
    }
}

/// Where the loop is, scaled to 0..=65535 for one position in the loop.
pub open spec fn scaled_position(done: u64, of: u64) -> u32 {
    let x = if of == 0 {
        0
    } else {
        done as int * 65535 / of as int
    };
    if x > u32::MAX {
        u32::MAX
    } else {
        x as u32
    }
}

/// Everything the audio thread decides.
pub struct Conductor {
    pub looper: Looper,
    pub arp: Arp,
    /// The sound live notes start with.
    pub patch: usize,
    pub patch_count: usize,
    /// Samples written since the stream started. The only clock there is.
    pub clock: u64,
    pub next_auto_id: u64,
    /// (voice id, sample to release it on).
    pub pending_offs: Vec<(u64, u64)>,
    /// (pad, sample it stops being lit on).
    pub flashes: Vec<(u8, u64)>,
}

impl View for Conductor {
    type V = ConductorView;

    open spec fn view(&self) -> ConductorView {
        ConductorView {
            looper: self.looper@,
            arp: self.arp@,
            patch: self.patch,
            patch_count: self.patch_count,
            clock: self.clock,
            next_auto_id: self.next_auto_id,
            pending_offs: self.pending_offs@,
            flashes: self.flashes@,
        }
    }
}

impl ConductorView {
    pub open spec fn wf(self) -> bool {
        &&& self.looper.wf()
        &&& AUTO_ID_BASE <= self.next_auto_id
        &&& self.pending_offs.len() <= MAX_PENDING_OFFS
        &&& self.flashes.len() <= MAX_FLASHES
        &&& 1 <= self.patch_count <= 256
        &&& self.patch < self.patch_count
        &&& self.clock <= MAX_TIME
    }
}

impl Conductor {
    pub open spec fn wf(&self) -> bool {
        self@.wf() && self.arp.wf()
    }
}


/// One voice per note of `c`, all under `id`.
fn push_chord(out: &mut Vec<Voicing>, c: Chord, id: u64, patch: u8)
    ensures
        final(out)@ == old(out)@ + chord_starts(c@, id, patch),
{
    let n = c.len();
    let mut i: usize = 0;
    while i < n
        invariant
            i <= n,
            n == c@.len(),
            out@ == old(out)@ + chord_starts(c@, id, patch).take(i as int),
        decreases n - i,
    {
        out.push(Voicing::Start { id, pitch: c.note(i), index: i, count: n, patch });
        i = i + 1;
        assert(out@ =~= old(out)@ + chord_starts(c@, id, patch).take(i as int));
    }
    assert(chord_starts(c@, id, patch).take(n as int) =~= chord_starts(c@, id, patch));
}

/// One voice per note of `c`, as far as the per-sample cap allows.
fn push_chord_capped(out: &mut Vec<Voicing>, c: Chord, id: u64, patch: u8)
    ensures
        final(out)@ == capped(old(out)@, chord_starts(c@, id, patch)),
{
    let ghost more = chord_starts(c@, id, patch);
    let ghost room: int = if old(out)@.len() < MAX_VOICES {
        MAX_VOICES - old(out)@.len()
    } else {
        0
    };
    let n = c.len();
    let mut i: usize = 0;
    while i < n
        invariant
            i <= n,
            n == c@.len(),
            more == chord_starts(c@, id, patch),
            room == (if old(out)@.len() < MAX_VOICES {
                MAX_VOICES - old(out)@.len()
            } else {
                0int
            }),
            out@ == old(out)@ + more.take(if (i as int) < room {
                i as int
            } else {
                room
            }),
        decreases n - i,
    {
        if out.len() < MAX_VOICES {
            out.push(Voicing::Start { id, pitch: c.note(i), index: i, count: n, patch });
        }
        i = i + 1;
        assert(out@ =~= old(out)@ + more.take(if (i as int) < room {
            i as int
        } else {
            room
        }));
    }
}

impl Conductor {
    /// A conductor whose notes last at least `min_note` samples, on a grid of
    /// `step` samples, starting with sound `patch` of `patch_count`.
    pub fn new(min_note: u64, step: u64, patch: usize, patch_count: usize) -> (c: Conductor)
        requires
            step <= MAX_STEP,
            1 <= patch_count <= 256,
        ensures
            c.wf(),
            c@.looper == LoopModel::fresh(min_note, step),
            !c@.arp.on,
            c@.arp.holds.len() == 0,
            c@.patch == if patch < patch_count { patch } else { (patch_count - 1) as usize },
            c@.clock == 0,
            c@.next_auto_id == AUTO_ID_BASE,
            c@.pending_offs.len() == 0,
            c@.flashes.len() == 0,
    {
        Conductor {
            looper: Looper::new(min_note, step),
            arp: Arp::new(min_note, step),
            patch: if patch < patch_count {
                patch
            } else {
                patch_count - 1
            },
            patch_count,
            clock: 0,
            next_auto_id: AUTO_ID_BASE,
            pending_offs: Vec::with_capacity(MAX_PENDING_OFFS),
            flashes: Vec::with_capacity(MAX_FLASHES),
        }
    }

    /// A message from the controls, handled at the current sample.
    pub fn handle(&mut self, msg: Msg, out: &mut Vec<Voicing>)
        requires
            old(self).wf(),
        ensures
            final(self).wf(),
            match msg {
                Msg::NoteOn { chord, .. } => exists|c: Chord|
                    c@ == chord@ && #[trigger] handled(old(self)@, msg, c) == (
                        final(self)@,
                        final(out)@.subrange(old(out)@.len() as int, final(out)@.len() as int),
                    ) && final(out)@.subrange(0, old(out)@.len() as int) == old(out)@,
                _ => forall|c: Chord|
                    #[trigger] handled(old(self)@, msg, c) == (
                        final(self)@,
                        final(out)@.subrange(old(out)@.len() as int, final(out)@.len() as int),
                    ) && final(out)@.subrange(0, old(out)@.len() as int) == old(out)@,
            },
    {
        let ghost v0 = self@;
        let ghost o0 = out@;
        let now = self.clock;
        let p = self.patch as u8;
        match msg {
            Msg::NoteOn { id, chord, degree } => {
                let notes: &[i32] = chord.as_slice();
                let c = Chord::new(notes);
                assert(notes@.take(3) =~= chord@);
                let arp_on = self.arp.on;
                if arp_on {
                    self.arp.hold_on(now, id, c, p);
                    assert(self.arp@ == v0.arp.added(now, Some(id), c, u64::MAX, p));
                } else {
                    push_chord(out, c, id, p);
                }
                if self.looper.time_ok_at(now) && self.looper.rec_notes < usize::MAX {
                    self.looper.note_on(now, id, c, degree, p, arp_on);
                }
                proof {
                    let h = handled(v0, msg, c);
                    assert(self@ == h.0);
                    assert(out@.subrange(o0.len() as int, out@.len() as int) =~= h.1);
                    assert(out@.subrange(0, o0.len() as int) =~= o0);
                }
            },
            Msg::NoteOff { id } => {
                out.push(Voicing::Release { id });
                self.arp.hold_off(now, id);
                if self.looper.time_ok_at(now) {
                    if self.looper.note_off_ok_at(now, id) {
                        self.looper.note_off(now, id);
                    }
                }
                proof {
                    assert forall|c: Chord| #[trigger] handled(v0, msg, c) == (self@, out@.subrange(o0.len() as int, out@.len() as int)) by {
                        assert(out@.subrange(o0.len() as int, out@.len() as int) =~= seq![Voicing::Release { id }]);
                    }
                    assert(out@.subrange(0, o0.len() as int) =~= o0);
                }
            },
            Msg::ReleaseLive => {
                out.push(Voicing::ReleaseLive);
                self.arp.release_live(now);
                if self.looper.time_ok_at(now) {
                    if self.looper.release_ok_at(now) {
                        self.looper.release_all(now);
                    }
                }
                proof {
                    assert forall|c: Chord| #[trigger] handled(v0, msg, c) == (self@, out@.subrange(o0.len() as int, out@.len() as int)) by {
                        assert(out@.subrange(o0.len() as int, out@.len() as int) =~= seq![Voicing::ReleaseLive]);
                    }
                    assert(out@.subrange(0, o0.len() as int) =~= o0);
                }
            },
            Msg::SetPatch(i) => {
                // Voices already sounding keep the sound they were born with.
                self.patch = if i < self.patch_count {
                    i
                } else {
                    self.patch_count - 1
                };
            },
            Msg::Pedal => {
                if self.looper.time_ok_at(now) {
                    self.looper.pedal(now);
                }
            },
            Msg::PlayStop => {
                if self.looper.time_ok_at(now) {
                    self.looper.play_stop(now);
                }
            },
            Msg::Undo => self.looper.undo(),
            Msg::ClearLoop => self.looper.clear(),
            Msg::SetArp(on) => {
                if on != self.arp.on {
                    // A chord that started as a block would end as an
                    // arpeggio, or the other way round: let held notes go.
                    out.push(Voicing::ReleaseLive);
                    self.arp.holds.clear();
                    self.arp.on = on;
                    proof {
                        assert forall|c: Chord| #[trigger] handled(v0, msg, c) == (self@, out@.subrange(o0.len() as int, out@.len() as int)) by {
                            assert(out@.subrange(o0.len() as int, out@.len() as int) =~= seq![Voicing::ReleaseLive]);
                            assert(self.arp@.holds =~= Seq::<crate::arp::Hold>::empty());
                        }
                        assert(out@.subrange(0, o0.len() as int) =~= o0);
                    }
                }
            },
            Msg::SetArpPattern(pattern) => self.arp.pattern = pattern,
            Msg::SetStep(step) => {
                let s: u64 = if step > MAX_STEP {
                    MAX_STEP
                } else {
                    step
                };
                self.arp.set_step_len(s);
                self.looper.set_step(s);
            },
            Msg::SetBars(bars) => self.looper.bars = bars,
            Msg::ToggleMute(k) => self.looper.toggle_mute(k as usize),
            Msg::RemoveLayer(k) => self.looper.remove_layer(k as usize),
        }
        proof {
            match msg {
                Msg::NoteOn { .. } => {},
                Msg::NoteOff { .. } => {},
                Msg::ReleaseLive => {},
                Msg::SetArp(on) => {
                    if on == v0.arp.on {
                        assert(out@ =~= o0);
                        assert(out@.subrange(o0.len() as int, out@.len() as int) =~= Seq::<Voicing>::empty());
                        assert(out@.subrange(0, o0.len() as int) =~= o0);
                    }
                },
                _ => {
                    assert(out@ =~= o0);
                    assert(out@.subrange(o0.len() as int, out@.len() as int) =~= Seq::<Voicing>::empty());
                    assert(out@.subrange(0, o0.len() as int) =~= o0);
                },
            }
        }
    }
}


impl Conductor {
    /// A looped event fired at the current sample.
    fn play_event(&mut self, e: LoopEvent, out: &mut Vec<Voicing>)
        requires
            old(self).wf(),
        ensures
            final(self).wf(),
            final(self)@.looper == old(self)@.looper,
            final(self)@.clock == old(self)@.clock,
            (final(self)@, final(out)@) == played_event((old(self)@, old(out)@), e),
    {
        let now = self.clock;
        let until = if e.dur <= u64::MAX - now {
            now + e.dur
        } else {
            u64::MAX
        };
        if self.flashes.len() < MAX_FLASHES {
            self.flashes.push((e.degree, until));
        }
        if self.arp.on {
            let ghost a0 = self.arp@;
            self.arp.schedule(now, e.chord, until, e.patch);
            assert(self.arp@ == a0.added(now, None, e.chord, until, e.patch));
        } else {
            let id = self.next_auto_id;
            self.next_auto_id = if id < u64::MAX {
                id + 1
            } else {
                AUTO_ID_BASE
            };
            push_chord_capped(out, e.chord, id, e.patch);
            if self.pending_offs.len() < MAX_PENDING_OFFS {
                self.pending_offs.push((id, until));
            }
        }
    }

    /// An arpeggiated note starting at the current sample.
    fn play_note(&mut self, n: ArpNote, out: &mut Vec<Voicing>)
        requires
            old(self).wf(),
            n.gate <= MAX_STEP,
        ensures
            final(self).wf(),
            final(self)@.looper == old(self)@.looper,
            final(self)@.arp == old(self)@.arp,
            final(self)@.clock == old(self)@.clock,
            (final(self)@, final(out)@) == played_note((old(self)@, old(out)@), n),
    {
        let id = self.next_auto_id;
        self.next_auto_id = if id < u64::MAX {
            id + 1
        } else {
            AUTO_ID_BASE
        };
        if out.len() < MAX_VOICES {
            out.push(Voicing::Start { id, pitch: n.pitch, index: n.index, count: n.count, patch: n.patch });
        }
        let ghost one = seq![Voicing::Start { id, pitch: n.pitch, index: n.index, count: n.count, patch: n.patch }];
        assert(out@ =~= capped(old(out)@, one));
        if self.pending_offs.len() < MAX_PENDING_OFFS {
            self.pending_offs.push((id, self.clock + n.gate));
        }
    }

    /// Every booked release that has come due at the current sample goes
    /// out; the rest stay booked, in order.
    fn release_due(&mut self, out: &mut Vec<Voicing>)
        requires
            old(self).wf(),
        ensures
            final(self).wf(),
            final(self)@ == (ConductorView {
                pending_offs: not_due(old(self)@.pending_offs, old(self).clock),
                ..old(self)@
            }),
            final(out)@ == old(out)@ + releases(due(old(self)@.pending_offs, old(self).clock)),
    {
        let now = self.clock;
        let ghost s = self.pending_offs@;
        let n = self.pending_offs.len();
        let mut w: usize = 0;
        let mut r: usize = 0;
        while r < n
            invariant
                w <= r <= n,
                n == s.len(),
                self.pending_offs@.len() == n,
                self.pending_offs@.take(w as int) == not_due(s.take(r as int), now),
                self.pending_offs@.skip(r as int) == s.skip(r as int),
                out@ == old(out)@ + releases(due(s.take(r as int), now)),
                now == self.clock,
                self@ == (ConductorView { pending_offs: self.pending_offs@, ..old(self)@ }),
                s == old(self)@.pending_offs,
                old(self).wf(),
            decreases n - r,
        {
            let ghost before = self.pending_offs@;
            let ghost done = releases(due(s.take(r as int), now));
            let (id, at) = self.pending_offs[r];
            proof {
                assert(before[r as int] == before.skip(r as int)[0]);
                assert(s[r as int] == s.skip(r as int)[0]);
                assert(s.take(r + 1).drop_last() =~= s.take(r as int));
                assert(s.take(r + 1).last() == (id, at));
            }
            if at <= now {
                out.push(Voicing::Release { id });
                proof {
                    assert(releases(due(s.take(r + 1), now)) =~= done.push(Voicing::Release { id }));
                }
            } else {
                self.pending_offs.set(w, (id, at));
                w = w + 1;
                assert(releases(due(s.take(r + 1), now)) =~= done);
            }
            proof {
                assert(self.pending_offs@.take(w as int) =~= not_due(s.take(r + 1), now));
                assert forall|k: int| 0 <= k < s.len() - (r + 1) implies #[trigger] self.pending_offs@.skip(r + 1)[k]
                    == s.skip(r + 1)[k] by {
                    assert(self.pending_offs@[r + 1 + k] == before[r + 1 + k]);
                    assert(before[r + 1 + k] == before.skip(r as int)[k + 1]);
                    assert(s[r + 1 + k] == s.skip(r as int)[k + 1]);
                }
                assert(self.pending_offs@.skip(r + 1) =~= s.skip(r + 1));
            }
            r = r + 1;
        }
        assert(s.take(n as int) =~= s);
        self.pending_offs.truncate(w);
        assert(self.pending_offs@ =~= not_due(s, now));
        proof {
            lemma_not_due_len(s, now);
        }
    }

    /// One sample. What starts and stops on it is appended to `out`; the
    /// per-sample cap on new voices counts what `out` already holds.
    pub fn step(&mut self, out: &mut Vec<Voicing>)
        requires
            old(self).wf(),
            old(self).clock < MAX_TIME,
        ensures
            final(self).wf(),
            (final(self)@, final(out)@) == sampled(old(self)@, old(out)@),
    {
        let now = self.clock;
        let ghost v0 = self@;
        let mut fired: Vec<LoopEvent> = Vec::new();
        let ok = self.looper.tick_ok_at(now);
        if ok {
            self.looper.tick(now, &mut fired);
        }
        assert(fired@ == (if ok { v0.looper.fired(now) } else { Seq::<LoopEvent>::empty() }));
        let ghost v1 = self@;
        let ghost o1 = out@;
        let mut i: usize = 0;
        while i < fired.len()
            invariant
                self.wf(),
                i <= fired@.len(),
                self.clock == now,
                self@.looper == v1.looper,
                (self@, out@) == played_events((v1, o1), fired@.take(i as int)),
            decreases fired@.len() - i,
        {
            let e = fired[i];
            proof {
                assert(fired@.take(i + 1).drop_last() =~= fired@.take(i as int));
                assert(fired@.take(i + 1).last() == e);
            }
            self.play_event(e, out);
            i = i + 1;
        }
        assert(fired@.take(fired@.len() as int) =~= fired@);
        let ghost s1 = (self@, out@);
        let mut notes: Vec<ArpNote> = Vec::new();
        if self.arp.steps_fit() {
            self.arp.tick(now, &mut notes);
            assert(notes@ =~= s1.0.arp.notes(now));
            assert(self.arp@ == s1.0.arp.ticked(now));
        } else {
            assert(notes@ =~= Seq::<ArpNote>::empty());
        }
        let ghost v2 = self@;
        let ghost o2 = out@;
        proof {
            lemma_notes_gate(v2.arp, s1.0.arp, now, notes@);
        }
        let mut j: usize = 0;
        while j < notes.len()
            invariant
                self.wf(),
                j <= notes@.len(),
                self.clock == now,
                forall|k: int| 0 <= k < notes@.len() ==> (#[trigger] notes@[k]).gate <= MAX_STEP,
                (self@, out@) == played_notes((v2, o2), notes@.take(j as int)),
            decreases notes@.len() - j,
        {
            let n = notes[j];
            proof {
                assert(notes@.take(j + 1).drop_last() =~= notes@.take(j as int));
                assert(notes@.take(j + 1).last() == n);
            }
            self.play_note(n, out);
            j = j + 1;
        }
        assert(notes@.take(notes@.len() as int) =~= notes@);
        self.release_due(out);
        self.clock = now + 1;
    }

    /// What the controls are shown once a buffer is done: the loop's state,
    /// where the loop is (scaled to 0..=65535) and the byte of pads the loop
    /// is lighting. Pads whose chord has ended go dark here.
    pub fn report(&mut self) -> (r: (LoopState, u32, u8))
        requires
            old(self).wf(),
        ensures
            final(self).wf(),
            final(self)@ == (ConductorView {
                flashes: still_lit(old(self)@.flashes, old(self).clock),
                ..old(self)@
            }),
            r.0 == old(self)@.looper.state,
            r.1 == (if old(self)@.looper.time_ok(old(self).clock) {
                scaled_position(
                    old(self)@.looper.progress_at(old(self).clock).0,
                    old(self)@.looper.progress_at(old(self).clock).1,
                )
            } else {
                0
            }),
            r.2 == mask_of(still_lit(old(self)@.flashes, old(self).clock)),
    {
        let now = self.clock;
        let ghost s = self.flashes@;
        let n = self.flashes.len();
        let mut w: usize = 0;
        let mut r: usize = 0;
        while r < n
            invariant
                w <= r <= n,
                n == s.len(),
                self.flashes@.len() == n,
                self.flashes@.take(w as int) == still_lit(s.take(r as int), now),
                self.flashes@.skip(r as int) == s.skip(r as int),
                now == self.clock,
                self@ == (ConductorView { flashes: self.flashes@, ..old(self)@ }),
                s == old(self)@.flashes,
                old(self).wf(),
            decreases n - r,
        {
            let ghost before = self.flashes@;
            let f = self.flashes[r];
            proof {
                assert(before[r as int] == before.skip(r as int)[0]);
                assert(s[r as int] == s.skip(r as int)[0]);
                assert(s.take(r + 1).drop_last() =~= s.take(r as int));
                assert(s.take(r + 1).last() == f);
            }
            if f.1 > now {
                self.flashes.set(w, f);
                w = w + 1;
            }
            proof {
                assert(self.flashes@.take(w as int) =~= still_lit(s.take(r + 1), now));
                assert forall|k: int| 0 <= k < s.len() - (r + 1) implies #[trigger] self.flashes@.skip(r + 1)[k]
                    == s.skip(r + 1)[k] by {
                    assert(self.flashes@[r + 1 + k] == before[r + 1 + k]);
                    assert(before[r + 1 + k] == before.skip(r as int)[k + 1]);
                    assert(s[r + 1 + k] == s.skip(r as int)[k + 1]);
                }
                assert(self.flashes@.skip(r + 1) =~= s.skip(r + 1));
            }
            r = r + 1;
        }
        assert(s.take(n as int) =~= s);
        self.flashes.truncate(w);
        assert(self.flashes@ =~= still_lit(s, now));
        proof {
            lemma_still_lit_len(s, now);
        }
        let mask = looping_mask(&self.flashes);
        let position: u32 = if self.looper.time_ok_at(now) {
            let (done, of) = self.looper.progress(now);
            if of == 0 {
                0
            } else {
                let x: u128 = done as u128 * 65535 / of as u128;
                if x > u32::MAX as u128 {
                    u32::MAX
                } else {
                    x as u32
                }
            }
        } else {
            0
        };
        (self.looper.state, position, mask)
    }
}

proof fn lemma_not_due_len(p: Seq<(u64, u64)>, now: u64)
    ensures
        not_due(p, now).len() <= p.len(),
    decreases p.len(),
{
    if p.len() > 0 {
        lemma_not_due_len(p.drop_last(), now);
    }
}

proof fn lemma_still_lit_len(f: Seq<(u8, u64)>, now: u64)
    ensures
        still_lit(f, now).len() <= f.len(),
    decreases f.len(),
{
    if f.len() > 0 {
        lemma_still_lit_len(f.drop_last(), now);
    }
}

/// An arpeggiated note lasts no longer than a step.
proof fn lemma_notes_gate(a: ArpView, before: ArpView, now: u64, notes: Seq<ArpNote>)
    requires
        before.gate <= before.step_len <= MAX_STEP,
        notes == (if before.steps_fit() {
            before.notes(now)
        } else {
            Seq::<ArpNote>::empty()
        }),
    ensures
        forall|k: int| 0 <= k < notes.len() ==> (#[trigger] notes[k]).gate <= MAX_STEP,
{
    if before.steps_fit() && before.step_due(now) {
        lemma_notes_at_gate(before.holds, before.pattern, before.gate, now);
    }
}

proof fn lemma_notes_at_gate(holds: Seq<crate::arp::Hold>, pattern: crate::theory::ArpPattern, gate: u64, now: u64)
    ensures
        forall|k: int|
            0 <= k < crate::arp::notes_at(holds, pattern, gate, now).len() ==> (
            #[trigger] crate::arp::notes_at(holds, pattern, gate, now)[k]).gate == gate,
    decreases holds.len(),
{
    if holds.len() > 0 {
        lemma_notes_at_gate(holds.drop_last(), pattern, gate, now);
        let rest = crate::arp::notes_at(holds.drop_last(), pattern, gate, now);
        let all = crate::arp::notes_at(holds, pattern, gate, now);
        assert forall|k: int| 0 <= k < all.len() implies (#[trigger] all[k]).gate == gate by {
            if k < rest.len() {
                assert(all[k] == rest[k]);
            }
        }
    }
}


/// Every voice started in `out` from position `from` on has an id the
/// conductor gave it, at or above `AUTO_ID_BASE`.
pub open spec fn automatic(out: Seq<Voicing>, from: int) -> bool {
    forall|k: int|
        from <= k < out.len() ==> ((#[trigger] out[k]) matches Voicing::Start { id, .. } ==> id
            >= AUTO_ID_BASE)
}

proof fn lemma_capped_automatic(out: Seq<Voicing>, more: Seq<Voicing>, from: int)
    requires
        0 <= from <= out.len(),
        automatic(out, from),
        automatic(more, 0),
    ensures
        automatic(capped(out, more), from),
        capped(out, more).len() >= out.len(),
{
    let c = capped(out, more);
    assert forall|k: int| from <= k < c.len() implies ((#[trigger] c[k]) matches Voicing::Start {
        id,
        ..
    } ==> id >= AUTO_ID_BASE) by {
        if k >= out.len() {
            assert(c[k] == more[k - out.len()]);
        } else {
            assert(c[k] == out[k]);
        }
    }
}

proof fn lemma_events_automatic(s: Played, es: Seq<LoopEvent>, from: int)
    requires
        AUTO_ID_BASE <= s.0.next_auto_id,
        0 <= from <= s.1.len(),
        automatic(s.1, from),
    ensures
        AUTO_ID_BASE <= played_events(s, es).0.next_auto_id,
        played_events(s, es).1.len() >= s.1.len(),
        automatic(played_events(s, es).1, from),
        played_events(s, es).0.clock == s.0.clock,
    decreases es.len(),
{
    if es.len() > 0 {
        lemma_events_automatic(s, es.drop_last(), from);
        let t = played_events(s, es.drop_last());
        let e = es.last();
        if !t.0.arp.on {
            let more = chord_starts(e.chord@, t.0.next_auto_id, e.patch);
            lemma_capped_automatic(t.1, more, from);
        }
    }
}

proof fn lemma_notes_automatic(s: Played, ns: Seq<ArpNote>, from: int)
    requires
        AUTO_ID_BASE <= s.0.next_auto_id,
        0 <= from <= s.1.len(),
        automatic(s.1, from),
    ensures
        AUTO_ID_BASE <= played_notes(s, ns).0.next_auto_id,
        played_notes(s, ns).1.len() >= s.1.len(),
        automatic(played_notes(s, ns).1, from),
    decreases ns.len(),
{
    if ns.len() > 0 {
        lemma_notes_automatic(s, ns.drop_last(), from);
        let t = played_notes(s, ns.drop_last());
        let n = ns.last();
        let one = seq![
            Voicing::Start {
                id: t.0.next_auto_id,
                pitch: n.pitch,
                index: n.index,
                count: n.count,
                patch: n.patch,
            },
        ];
        lemma_capped_automatic(t.1, one, from);
    }
}

/// The conductor never starts a voice under an id a finger could hold: what
/// the loop and the arpeggiator play is always at or above `AUTO_ID_BASE`,
/// so letting go of every live input leaves it sounding.
pub proof fn lemma_sample_starts_are_automatic(v: ConductorView, base: Seq<Voicing>)
    requires
        v.wf(),
    ensures
        automatic(sampled(v, base).1, base.len() as int),
        sampled(v, base).0.next_auto_id >= AUTO_ID_BASE,
{
    let now = v.clock;
    let ok = tick_ok(v.looper, now);
    let looper = if ok {
        v.looper.ticked(now)
    } else {
        v.looper
    };
    let fired = if ok {
        v.looper.fired(now)
    } else {
        Seq::empty()
    };
    let s0 = (ConductorView { looper, ..v }, base);
    lemma_events_automatic(s0, fired, base.len() as int);
    let s1 = played_events(s0, fired);
    let arp_ok = s1.0.arp.steps_fit();
    let notes = if arp_ok {
        s1.0.arp.notes(now)
    } else {
        Seq::empty()
    };
    let arp = if arp_ok {
        s1.0.arp.ticked(now)
    } else {
        s1.0.arp
    };
    let s1b = (ConductorView { arp, ..s1.0 }, s1.1);
    lemma_notes_automatic(s1b, notes, base.len() as int);
    let s2 = played_notes(s1b, notes);
    let all = s2.1 + releases(due(s2.0.pending_offs, now));
    assert forall|k: int| base.len() <= k < all.len() implies ((#[trigger] all[k]) matches Voicing::Start {
        id,
        ..
    } ==> id >= AUTO_ID_BASE) by {
        if k < s2.1.len() {
            assert(all[k] == s2.1[k]);
        }
    }
}

/// Nothing booked to stop is kept past its sample: after each sample, every
/// release still waiting is for a later one.
pub proof fn lemma_no_release_is_late(v: ConductorView, base: Seq<Voicing>)
    requires
        v.wf(),
    ensures
        forall|i: int|
            0 <= i < sampled(v, base).0.pending_offs.len() ==> (#[trigger] sampled(
                v,
                base,
            ).0.pending_offs[i]).1 > v.clock,
{
    let now = v.clock;
    let ok = tick_ok(v.looper, now);
    let looper = if ok {
        v.looper.ticked(now)
    } else {
        v.looper
    };
    let fired = if ok {
        v.looper.fired(now)
    } else {
        Seq::empty()
    };
    let s1 = played_events((ConductorView { looper, ..v }, base), fired);
    let arp_ok = s1.0.arp.steps_fit();
    let notes = if arp_ok {
        s1.0.arp.notes(now)
    } else {
        Seq::empty()
    };
    let arp = if arp_ok {
        s1.0.arp.ticked(now)
    } else {
        s1.0.arp
    };
    let s2 = played_notes((ConductorView { arp, ..s1.0 }, s1.1), notes);
    lemma_not_due_later(s2.0.pending_offs, now);
}

/// Every release still booked after `now` is for a later sample.
proof fn lemma_not_due_later(p: Seq<(u64, u64)>, now: u64)
    ensures
        forall|i: int| 0 <= i < not_due(p, now).len() ==> (#[trigger] not_due(p, now)[i]).1 > now,
    decreases p.len(),
{
    if p.len() > 0 {
        lemma_not_due_later(p.drop_last(), now);
        let rest = not_due(p.drop_last(), now);
        let all = not_due(p, now);
        assert forall|i: int| 0 <= i < all.len() implies (#[trigger] all[i]).1 > now by {
            if i < rest.len() {
                assert(all[i] == rest[i]);
            }
        }
    }
}


impl Conductor {
    /// How long the loop is in bars - or, while the first layer records,
    /// how long it is going to be.
    pub fn loop_bars(&self) -> (n: u8)
        requires
            self.wf(),
        ensures
            n == self@.looper.bars_long(),
    {
        self.looper.loop_bars()
    }

    /// Every layer there is, in order, each with whether it is the one being
    /// recorded right now.
    pub fn layers(&self) -> (ls: Vec<(Layer, bool)>)
        requires
            self.wf(),
        ensures
            forall|k: int| 0 <= k < ls@.len() ==> self@.looper.layer_at(k) == Some(#[trigger] ls@[k]),
            self@.looper.layer_at(ls@.len() as int) is None,
    {
        let mut ls: Vec<(Layer, bool)> = Vec::new();
        let mut k: usize = 0;
        while k < MAX_LAYERS
            invariant
                self.wf(),
                k <= MAX_LAYERS,
                ls@.len() == k,
                forall|j: int| 0 <= j < k ==> self@.looper.layer_at(j) == Some(#[trigger] ls@[j]),
            decreases MAX_LAYERS - k,
        {
            match self.looper.layer(k) {
                Some(l) => ls.push(l),
                None => return ls,
            }
            k = k + 1;
        }
        assert(self@.looper.layer_count <= MAX_LAYERS);
        ls
    }
}

} // verus!
