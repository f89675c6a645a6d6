//! Record what you play, loop it, and stack layers on top: a state machine
//! over sample numbers. What is recorded is not audio but events - "these
//! pitches started this many samples into the loop and were held this long,
//! with this sound" - and playback performs them again on the exact sample.

use vstd::prelude::*;

use crate::theory::Chord;

verus! {

/// Most events one loop can hold; anything past this is quietly not recorded.
pub const MAX_EVENTS: usize = 2048;

/// Layers one loop can stack.
pub const MAX_LAYERS: usize = 8;

/// Loop lengths on offer, in bars.
pub const BAR_CHOICES: [u8; 4] = [1, 2, 4, 8];

/// Notes snap to eighth notes: two grid steps to a beat.
pub const STEPS_PER_BEAT: u64 = 2;

/// Four beats to a bar.
pub const STEPS_PER_BAR: u64 = 8;

/// How many chords can be held down at once while recording.
pub const MAX_OPEN: usize = 32;

/// The longest grid step the looper keeps exact arithmetic for, in samples
/// (a day of eighth notes at 48kHz).
pub const MAX_STEP: u64 = 0x1_0000_0000;

/// The latest sample the looper keeps exact arithmetic for.
pub const MAX_TIME: u64 = 0x4000_0000_0000_0000;

#[derive(Clone, Copy, Debug, PartialEq, Eq, Structural)]
pub enum LoopState {
    /// Nothing recorded.
    Idle,
    /// Record pressed; recording starts on the first chord.
    Armed,
    /// The first layer, which ends by itself once its bars are up.
    Recording,
    Playing,
    /// Playing, and recording one more layer on top - for one pass.
    Overdub,
    /// A loop exists but is not playing.
    Stopped,
}

pub open spec fn state_from_u8(v: u8) -> LoopState {
    if v == 1 {
        LoopState::Armed
    } else if v == 2 {
        LoopState::Recording
    } else if v == 3 {
        LoopState::Playing
    } else if v == 4 {
        LoopState::Overdub
    } else if v == 5 {
        LoopState::Stopped
    } else {
        LoopState::Idle
    }
}

pub open spec fn state_to_u8(s: LoopState) -> u8 {
    match s {
        LoopState::Idle => 0,
        LoopState::Armed => 1,
        LoopState::Recording => 2,
        LoopState::Playing => 3,
        LoopState::Overdub => 4,
        LoopState::Stopped => 5,
    }
}

impl LoopState {
    /// For reading the state back out of the byte the UI watches.
    pub fn from_u8(v: u8) -> (s: LoopState)
        ensures
            s == state_from_u8(v),
    {
        match v {
            1 => LoopState::Armed,
            2 => LoopState::Recording,
            3 => LoopState::Playing,
            4 => LoopState::Overdub,
            5 => LoopState::Stopped,
            _ => LoopState::Idle,
        }
    }

    /// The byte a state is published as.
    pub fn to_u8(self) -> (v: u8)
        ensures
            v == state_to_u8(self),
    {
        match self {
            LoopState::Idle => 0,
            LoopState::Armed => 1,
            LoopState::Recording => 2,
            LoopState::Playing => 3,
            LoopState::Overdub => 4,
            LoopState::Stopped => 5,
        }
    }

    pub open spec fn running(self) -> bool {
        self == LoopState::Playing || self == LoopState::Overdub
    }

    pub open spec fn exists_loop(self) -> bool {
        !(self == LoopState::Idle || self == LoopState::Armed)
    }

    pub open spec fn recording(self) -> bool {
        self == LoopState::Recording || self == LoopState::Overdub
    }

    pub fn is_running(self) -> (b: bool)
        ensures
            b == self.running(),
    {
        match self {
            LoopState::Playing | LoopState::Overdub => true,
            _ => false,
        }
    }

    /// Whether a loop exists at all - and so its tempo is locked in.
    pub fn has_loop(self) -> (b: bool)
        ensures
            b == self.exists_loop(),
    {
        match self {
            LoopState::Idle | LoopState::Armed => false,
            _ => true,
        }
    }
}

/// A state survives being published as a byte and read back.
pub proof fn lemma_state_byte_round_trip(s: LoopState)
    ensures
        state_from_u8(state_to_u8(s)) == s,
{
}

#[derive(Clone, Copy, Debug, PartialEq)]
pub struct LoopEvent {
    /// Samples from the start of the loop.
    pub t: u64,
    /// Samples it was held for.
    pub dur: u64,
    pub chord: Chord,
    /// Which pad it was, so that pad can light when the loop plays it.
    pub degree: u8,
    /// The sound it was played with.
    pub patch: u8,
    /// Whether it was arpeggiated when it was played.
    pub arp: bool,
    pub layer: u8,
}

/// What a layer was recorded with, for its button in the UI.
#[derive(Clone, Copy, Debug, PartialEq, Eq)]
pub struct Layer {
    pub patch: u8,
    pub arp: bool,
    pub muted: bool,
}

impl Layer {
    pub open spec fn blank() -> Layer {
        Layer { patch: 0, arp: false, muted: false }
    }
}

impl Default for Layer {
    fn default() -> (l: Layer)
        ensures
            l == Layer::blank(),
    {
        Layer { patch: 0, arp: false, muted: false }
    }
}

/// A chord that has gone down while recording and not come back up yet.
#[derive(Clone, Copy, Debug)]
pub struct Open {
    pub id: u64,
    pub start: u64,
    pub chord: Chord,
    pub degree: u8,
    pub patch: u8,
    pub arp: bool,
}

pub struct Looper {
    pub state: LoopState,
    /// The length the next recording will be, in bars.
    pub bars: u8,
    pub events: Vec<LoopEvent>,
    /// Recorded during an overdub pass, folded into `events` at the next wrap.
    pub pending: Vec<LoopEvent>,
    pub open: [Option<Open>; 32],
    pub layers: [Layer; 8],
    /// Finished layers. The one being recorded, if any, is `layers[layer_count]`.
    pub layer_count: usize,
    /// Chords played into the layer being recorded.
    pub rec_notes: usize,
    /// One eighth note, in samples.
    pub step: u64,
    pub len: u64,
    pub rec_start: u64,
    /// Where the first recording will end.
    pub rec_len: u64,
    pub play_start: u64,
    /// When the current overdub pass began; it ends one loop later.
    pub pass_start: u64,
    /// Index of the next event due in the current cycle.
    pub next: usize,
    /// Loop position on the previous tick; `None` means a fresh cycle starts
    /// on the next tick.
    pub last_pos: Option<u64>,
    pub min_dur: u64,
}

/// The looper as values: the model every operation is stated over.
pub struct LoopModel {
    pub state: LoopState,
    pub bars: u8,
    pub events: Seq<LoopEvent>,
    pub pending: Seq<LoopEvent>,
    pub open: Seq<Option<Open>>,
    pub layers: Seq<Layer>,
    pub layer_count: usize,
    pub rec_notes: usize,
    pub step: u64,
    pub len: u64,
    pub rec_start: u64,
    pub rec_len: u64,
    pub play_start: u64,
    pub pass_start: u64,
    pub next: usize,
    pub last_pos: Option<u64>,
    pub min_dur: u64,
}

impl View for Looper {
    type V = LoopModel;

    open spec fn view(&self) -> LoopModel {
        LoopModel {
            state: self.state,
            bars: self.bars,
            events: self.events@,
            pending: self.pending@,
            open: self.open@,
            layers: self.layers@,
            layer_count: self.layer_count,
            rec_notes: self.rec_notes,
            step: self.step,
            len: self.len,
            rec_start: self.rec_start,
            rec_len: self.rec_len,
            play_start: self.play_start,
            pass_start: self.pass_start,
            next: self.next,
            last_pos: self.last_pos,
            min_dur: self.min_dur,
        }
    }
}

/// Events in order of their start.
pub open spec fn sorted_by_time(s: Seq<LoopEvent>) -> bool {
    forall|i: int, j: int| 0 <= i < j < s.len() ==> s[i].t <= s[j].t
}

/// The first `next` events start at or before `p`, the rest after it.
pub open spec fn split_at_time(s: Seq<LoopEvent>, next: int, p: int) -> bool {
    &&& 0 <= next <= s.len()
    &&& forall|i: int| 0 <= i < next ==> #[trigger] s[i].t <= p
    &&& forall|i: int| next <= i < s.len() ==> #[trigger] s[i].t > p
}

/// Rounded to the nearest multiple of `step`, halves rounding up.
pub open spec fn snap(x: int, step: int) -> int {
    (x + step / 2) / step * step
}

impl LoopModel {
    pub open spec fn bar_len(self) -> int {
        self.step * STEPS_PER_BAR
    }

    /// Every event lies on the grid, inside the loop once there is one, and
    /// belongs to one of the layers there is room for.
    pub open spec fn events_ok(self, s: Seq<LoopEvent>) -> bool {
        forall|i: int|
            0 <= i < s.len() ==> {
                &&& (#[trigger] s[i]).layer < MAX_LAYERS
                &&& s[i].t as int % self.step as int == 0
                &&& self.state.exists_loop() && self.state != LoopState::Recording ==> s[i].t
                    < self.len
            }
    }

    pub open spec fn no_open(self) -> bool {
        forall|i: int| 0 <= i < self.open.len() ==> #[trigger] self.open[i] is None
    }

    /// The looper's invariant.
    pub open spec fn wf(self) -> bool {
        &&& 1 <= self.step <= MAX_STEP
        &&& 1 <= self.min_dur
        &&& self.open.len() == MAX_OPEN
        &&& self.layers.len() == MAX_LAYERS
        &&& self.events.len() <= MAX_EVENTS
        &&& self.pending.len() <= MAX_EVENTS
        &&& self.layer_count <= MAX_LAYERS
        &&& self.len as int % self.bar_len() == 0
        &&& self.len <= 255 * self.bar_len()
        &&& self.next <= self.events.len()
        &&& self.events_ok(self.events)
        &&& self.events_ok(self.pending)
        &&& forall|i: int|
            0 <= i < self.open.len() && (#[trigger] self.open[i]) is Some
                ==> self.open[i]->0.start <= MAX_TIME
        &&& match self.state {
            LoopState::Idle | LoopState::Armed => {
                &&& self.len == 0
                &&& self.events.len() == 0
                &&& self.pending.len() == 0
                &&& self.layer_count == 0
                &&& self.rec_notes == 0
                &&& self.last_pos is None
                &&& self.no_open()
            },
            LoopState::Recording => {
                &&& self.len == 0
                &&& self.pending.len() == 0
                &&& self.layer_count == 0
                &&& self.last_pos is None
                &&& 0 < self.rec_len <= 255 * self.bar_len()
                &&& self.rec_len as int % self.bar_len() == 0
            },
            LoopState::Playing | LoopState::Stopped => {
                &&& self.len > 0
                &&& sorted_by_time(self.events)
                &&& self.no_open()
            },
            LoopState::Overdub => {
                &&& self.len > 0
                &&& sorted_by_time(self.events)
                &&& self.layer_count < MAX_LAYERS
                &&& self.rec_notes == 0 ==> self.no_open()
                &&& forall|i: int|
                    0 <= i < self.open.len() && (#[trigger] self.open[i]) is Some
                        ==> self.open[i]->0.start < self.len
            },
        }
        &&& self.last_pos matches Some(p) ==> {
            &&& p < self.len
            &&& split_at_time(self.events, self.next as int, p as int)
        }
    }

    /// `now` is no earlier than the moments the current recording, cycle and
    /// pass began, and within the range the arithmetic is exact for.
    pub open spec fn time_ok(self, now: u64) -> bool {
        &&& now <= MAX_TIME
        &&& self.state == LoopState::Recording ==> self.rec_start <= now
        &&& self.len > 0 ==> self.play_start <= now
        &&& self.state == LoopState::Overdub ==> self.pass_start <= now
    }

    /// Samples into the loop at `now`; while the first layer records, there is
    /// no loop to wrap round yet, so it simply counts up.
    pub open spec fn pos(self, now: u64) -> int {
        if self.state == LoopState::Recording {
            now - self.rec_start
        } else if self.len > 0 {
            (now - self.play_start) % (self.len as int)
        } else {
            0
        }
    }
}


/// How many events start at or before `t`: where an event starting at `t`
/// goes in a time-sorted list, after the ones already there.
pub open spec fn count_le(s: Seq<LoopEvent>, t: int) -> nat
    decreases s.len(),
{
    if s.len() == 0 {
        0
    } else {
        count_le(s.drop_last(), t) + if s.last().t <= t {
            1nat
        } else {
            0nat
        }
    }
}

/// `e` placed into a time-sorted list after every event starting no later.
pub open spec fn insert_sorted(s: Seq<LoopEvent>, e: LoopEvent) -> Seq<LoopEvent> {
    s.insert(count_le(s, e.t as int) as int, e)
}

/// Each event of `extra`, in order, placed into `s` by `insert_sorted`.
pub open spec fn insert_all(s: Seq<LoopEvent>, extra: Seq<LoopEvent>) -> Seq<LoopEvent>
    decreases extra.len(),
{
    if extra.len() == 0 {
        s
    } else {
        insert_sorted(insert_all(s, extra.drop_last()), extra.last())
    }
}

/// The events of unmuted layers, in order.
pub open spec fn audible(s: Seq<LoopEvent>, layers: Seq<Layer>) -> Seq<LoopEvent>
    decreases s.len(),
{
    if s.len() == 0 {
        s
    } else if layers[s.last().layer as int].muted {
        audible(s.drop_last(), layers)
    } else {
        audible(s.drop_last(), layers).push(s.last())
    }
}

/// A recorded event once the first layer has become a loop of `len`
/// samples: wrapped into the loop and cut at its end.
pub open spec fn fit_to_loop(e: LoopEvent, len: u64, min_dur: u64) -> LoopEvent {
    let t = e.t as int % len as int;
    let clipped = if e.dur < len - t {
        e.dur as int
    } else {
        len - t
    };
    LoopEvent {
        t: t as u64,
        dur: if clipped < min_dur {
            min_dur
        } else {
            clipped as u64
        },
        ..e
    }
}

/// The events of layer `k` gone, and the layers above it moved down one.
pub open spec fn without_layer(s: Seq<LoopEvent>, k: int) -> Seq<LoopEvent>
    decreases s.len(),
{
    if s.len() == 0 {
        s
    } else {
        let rest = without_layer(s.drop_last(), k);
        let e = s.last();
        if e.layer == k {
            rest
        } else if e.layer > k {
            rest.push(LoopEvent { layer: (e.layer - 1) as u8, ..e })
        } else {
            rest.push(e)
        }
    }
}

/// The first free slot for a chord going down, or `len` if there is none.
pub open spec fn first_free(open: Seq<Option<Open>>, i: int) -> int
    decreases open.len() - i,
{
    if i >= open.len() || i < 0 {
        open.len() as int
    } else if open[i] is None {
        i
    } else {
        first_free(open, i + 1)
    }
}

/// The first slot holding the chord with this id, or `len` if none does.
pub open spec fn find_id(open: Seq<Option<Open>>, id: u64, i: int) -> int
    decreases open.len() - i,
{
    if i >= open.len() || i < 0 {
        open.len() as int
    } else if open[i] matches Some(o) && o.id == id {
        i
    } else {
        find_id(open, id, i + 1)
    }
}

impl LoopModel {
    /// The looper a fresh `Looper::new` builds.
    pub open spec fn fresh(min_dur: u64, step: u64) -> LoopModel {
        LoopModel {
            state: LoopState::Idle,
            bars: 4,
            events: Seq::empty(),
            pending: Seq::empty(),
            open: Seq::new(MAX_OPEN as nat, |i: int| None),
            layers: Seq::new(MAX_LAYERS as nat, |i: int| Layer::blank()),
            layer_count: 0,
            rec_notes: 0,
            step: if step < 1 {
                1
            } else {
                step
            },
            len: 0,
            rec_start: 0,
            rec_len: 0,
            play_start: 0,
            pass_start: 0,
            next: 0,
            last_pos: None,
            min_dur: if min_dur < 1 {
                1
            } else {
                min_dur
            },
        }
    }

    /// Everything forgotten; only the tempo, bar count and shortest note stay.
    pub open spec fn cleared(self) -> LoopModel {
        LoopModel {
            events: Seq::empty(),
            pending: Seq::empty(),
            open: Seq::new(MAX_OPEN as nat, |i: int| None),
            layers: Seq::new(MAX_LAYERS as nat, |i: int| Layer::blank()),
            layer_count: 0,
            rec_notes: 0,
            len: 0,
            next: 0,
            last_pos: None,
            state: LoopState::Idle,
            ..self
        }
    }

    /// A new tempo takes effect only while no loop exists.
    pub open spec fn with_step(self, step: u64) -> LoopModel {
        if self.state.exists_loop() {
            self
        } else {
            LoopModel {
                step: if step < 1 {
                    1
                } else {
                    step
                },
                ..self
            }
        }
    }

    pub open spec fn toggled(self, k: int) -> LoopModel {
        if 0 <= k < MAX_LAYERS {
            LoopModel {
                layers: self.layers.update(k, Layer { muted: !self.layers[k].muted, ..self.layers[k] }),
                ..self
            }
        } else {
            self
        }
    }

    /// Length of the loop in bars - or, while the first layer records, the
    /// length it is going to be.
    pub open spec fn bars_long(self) -> int {
        if self.state == LoopState::Recording {
            self.rec_len as int / self.bar_len()
        } else {
            self.len as int / self.bar_len()
        }
    }

    /// Layer `k` and whether it is the one being recorded right now.
    pub open spec fn layer_at(self, k: int) -> Option<(Layer, bool)> {
        if 0 <= k < self.layer_count {
            Some((self.layers[k], false))
        } else if k == self.layer_count && self.state.recording() && self.rec_notes > 0 {
            Some((self.layers[k], true))
        } else {
            None
        }
    }

    /// The metronome's cue while recording: `Some(true)` on the first beat of
    /// a bar, `Some(false)` on the other beats, `None` between beats.
    pub open spec fn beat_at(self, now: u64) -> Option<bool> {
        if !self.state.recording() {
            None
        } else if self.pos(now) % (self.step * STEPS_PER_BEAT) as int == 0 {
            Some(self.pos(now) % self.bar_len() == 0)
        } else {
            None
        }
    }

    /// How far through the loop, or through the first recording, `now` is:
    /// `(done, of)`, with `(0, 1)` when nothing is under way.
    pub open spec fn progress_at(self, now: u64) -> (u64, u64) {
        if self.state == LoopState::Recording && self.rec_len > 0 {
            ((now - self.rec_start) as u64, self.rec_len)
        } else if self.state.running() && self.len > 0 {
            (self.pos(now) as u64, self.len)
        } else {
            (0, 1)
        }
    }

    /// The event a chord held since `o` becomes when it is let go at `now`:
    /// both ends snapped to the grid, cut at the loop's end, never shorter
    /// than `min_dur`.
    pub open spec fn finished_event(self, now: u64, o: Open) -> LoopEvent {
        let cycle: int = if self.state == LoopState::Recording {
            self.rec_len as int
        } else {
            self.len as int
        };
        let pos = self.pos(now);
        let end = if pos >= o.start {
            pos
        } else {
            cycle
        };
        let start = snap(o.start as int, self.step as int);
        let snapped_end = snap(end, self.step as int);
        let dur = if snapped_end > start {
            snapped_end - start
        } else {
            end - o.start
        };
        let t = if cycle > 0 && start >= cycle {
            start - cycle
        } else {
            start
        };
        LoopEvent {
            t: t as u64,
            dur: if dur < self.min_dur {
                self.min_dur
            } else {
                dur as u64
            },
            chord: o.chord,
            degree: o.degree,
            patch: o.patch,
            arp: o.arp,
            layer: self.layer_count as u8,
        }
    }

    /// Whether letting go of `o` at `now` keeps its length non-negative.
    pub open spec fn finish_ok(self, now: u64, o: Open) -> bool {
        let cycle: int = if self.state == LoopState::Recording {
            self.rec_len as int
        } else {
            self.len as int
        };
        let pos = self.pos(now);
        let end = if pos >= o.start {
            pos
        } else {
            cycle
        };
        end >= o.start || snap(end, self.step as int) > snap(o.start as int, self.step as int)
    }

    /// The chord `o` let go at `now`: its event is stored with the loop while
    /// the first layer records, and set aside for the next wrap during an
    /// overdub - unless the storage is full.
    pub open spec fn finished(self, now: u64, o: Open) -> LoopModel {
        let e = self.finished_event(now, o);
        if self.state == LoopState::Recording {
            if self.events.len() < MAX_EVENTS {
                LoopModel { events: self.events.push(e), ..self }
            } else {
                self
            }
        } else {
            if self.pending.len() < MAX_EVENTS {
                LoopModel { pending: self.pending.push(e), ..self }
            } else {
                self
            }
        }
    }

    /// Slot `i` let go at `now`, if it holds a chord.
    pub open spec fn released_slot(self, now: u64, i: int) -> LoopModel {
        match self.open[i] {
            Some(o) => LoopModel { open: self.open.update(i, None), ..self }.finished(now, o),
            None => self,
        }
    }

    /// Slots `i..` let go at `now`, in order.
    pub open spec fn released_from(self, now: u64, i: int) -> LoopModel
        decreases MAX_OPEN - i,
    {
        if i >= MAX_OPEN || i < 0 {
            self
        } else {
            self.released_slot(now, i).released_from(now, i + 1)
        }
    }

    /// Every chord still held let go at `now`.
    pub open spec fn released_all(self, now: u64) -> LoopModel {
        self.released_from(now, 0)
    }

    /// Whether every held chord can be let go at `now`.
    pub open spec fn release_ok(self, now: u64) -> bool {
        forall|i: int|
            0 <= i < self.open.len() && (#[trigger] self.open[i]) is Some ==> self.finish_ok(
                now,
                self.open[i]->0,
            )
    }

    /// A chord going down at `now`.
    pub open spec fn noted_on(
        self,
        now: u64,
        id: u64,
        chord: Chord,
        degree: u8,
        patch: u8,
        arp: bool,
    ) -> LoopModel {
        let m1 = if self.state == LoopState::Armed {
            LoopModel {
                state: LoopState::Recording,
                rec_start: now,
                rec_len: ((if self.bars < 1 {
                    1
                } else {
                    self.bars
                }) * self.bar_len()) as u64,
                ..self
            }
        } else {
            self
        };
        if !m1.state.recording() {
            m1
        } else {
            let m2 = if m1.rec_notes == 0 {
                LoopModel {
                    layers: m1.layers.update(
                        m1.layer_count as int,
                        Layer { patch, arp, muted: false },
                    ),
                    ..m1
                }
            } else {
                m1
            };
            let m3 = LoopModel { rec_notes: (m2.rec_notes + 1) as usize, ..m2 };
            let slot = first_free(m3.open, 0);
            if slot < MAX_OPEN {
                LoopModel {
                    open: m3.open.update(
                        slot,
                        Some(
                            Open {
                                id,
                                start: m3.pos(now) as u64,
                                chord,
                                degree,
                                patch,
                                arp,
                            },
                        ),
                    ),
                    ..m3
                }
            } else {
                m3
            }
        }
    }

    /// The chord with this id let go at `now`, if it is held.
    pub open spec fn noted_off(self, now: u64, id: u64) -> LoopModel {
        let i = find_id(self.open, id, 0);
        if i < MAX_OPEN {
            self.released_slot(now, i)
        } else {
            self
        }
    }
}


/// With no loop, the loop's length trivially fits any grid.
proof fn lemma_empty_loop_fits(step: u64)
    requires
        step >= 1,
    ensures
        0int % (step * STEPS_PER_BAR) as int == 0,
        0 <= 255 * (step * STEPS_PER_BAR),
{
    assert(0int % (step * STEPS_PER_BAR) as int == 0) by (nonlinear_arith)
        requires
            step >= 1,
    ;
}

/// A multiple of a bar is a multiple of the grid step.
proof fn lemma_bar_multiple(a: int, step: int)
    requires
        step >= 1,
        a % (step * STEPS_PER_BAR) == 0,
    ensures
        a % step == 0,
{
    vstd::arithmetic::div_mod::lemma_mod_mod(a, step, STEPS_PER_BAR as int);
}

/// The difference of two multiples of `s` is a multiple of `s`.
proof fn lemma_sub_multiples(a: int, b: int, s: int)
    requires
        s >= 1,
        a % s == 0,
        b % s == 0,
    ensures
        (a - b) % s == 0,
{
    vstd::arithmetic::div_mod::lemma_fundamental_div_mod(a, s);
    vstd::arithmetic::div_mod::lemma_fundamental_div_mod(b, s);
    assert(a - b == s * (a / s - b / s)) by (nonlinear_arith)
        requires
            a == s * (a / s) + a % s,
            b == s * (b / s) + b % s,
            a % s == 0,
            b % s == 0,
    ;
    vstd::arithmetic::div_mod::lemma_mod_multiples_basic(a / s - b / s, s);
    assert(s * (a / s - b / s) == (a / s - b / s) * s) by (nonlinear_arith);
}

/// Snapping lands on the grid, no more than half a step later, and never
/// past a grid point that lies beyond the value snapped.
proof fn lemma_snap(x: int, step: int, l: int)
    requires
        0 <= x,
        1 <= step,
        0 <= l,
        l % step == 0,
    ensures
        snap(x, step) % step == 0,
        0 <= snap(x, step) <= x + step / 2,
        x < l ==> snap(x, step) <= l,
{
    let h = step / 2;
    let q = (x + h) / step;
    vstd::arithmetic::div_mod::lemma_fundamental_div_mod(x + h, step);
    vstd::arithmetic::div_mod::lemma_mod_bound(x + h, step);
    vstd::arithmetic::div_mod::lemma_div_pos_is_pos(x + h, step);
    vstd::arithmetic::div_mod::lemma_mod_multiples_basic(q, step);
    assert(snap(x, step) == q * step);
    assert(q * step == step * q) by (nonlinear_arith);
    vstd::arithmetic::div_mod::lemma_fundamental_div_mod(l, step);
    let m = l / step;
    if x < l {
        assert(q <= m) by (nonlinear_arith)
            requires
                x + h == step * q + (x + h) % step,
                0 <= (x + h) % step,
                l == step * m + l % step,
                l % step == 0,
                x < l,
                h < step,
                step >= 1,
        ;
        assert(q * step <= m * step) by (nonlinear_arith)
            requires
                q <= m,
                step >= 1,
        ;
        assert(m * step == l) by (nonlinear_arith)
            requires
                l == step * m,
        ;
    }
    assert(0 <= q * step) by (nonlinear_arith)
        requires
            0 <= q,
            1 <= step,
    ;
}

impl LoopModel {
    /// Letting go of a chord keeps the invariant.
    proof fn lemma_finished_wf(self, now: u64, o: Open)
        requires
            self.wf(),
            self.time_ok(now),
            self.finish_ok(now, o),
            self.state.recording(),
            o.start <= MAX_TIME,
            self.state == LoopState::Overdub ==> o.start < self.len,
        ensures
            self.finished(now, o).wf(),
            self.finished(now, o).time_ok(now),
    {
        let e = self.finished_event(now, o);
        let step = self.step as int;
        let cycle: int = if self.state == LoopState::Recording {
            self.rec_len as int
        } else {
            self.len as int
        };
        lemma_bar_multiple(cycle, step);
        let pos = self.pos(now);
        let end = if pos >= o.start {
            pos
        } else {
            cycle
        };
        if self.state == LoopState::Overdub {
            assert(0 <= pos < cycle);
        }
        lemma_snap(o.start as int, step, cycle);
        lemma_snap(end, step, cycle);
        let start = snap(o.start as int, step);
        if cycle > 0 && start >= cycle {
            lemma_sub_multiples(start, cycle, step);
        }
        assert(e.t as int % step == 0);
        assert(e.layer < MAX_LAYERS);
        let m = self.finished(now, o);
        if self.state == LoopState::Recording {
            if self.events.len() < MAX_EVENTS {
                assert(m.events == self.events.push(e));
                assert forall|i: int| 0 <= i < m.events.len() implies {
                    &&& (#[trigger] m.events[i]).layer < MAX_LAYERS
                    &&& m.events[i].t as int % m.step as int == 0
                    &&& m.state.exists_loop() && m.state != LoopState::Recording ==> m.events[i].t
                        < m.len
                } by {
                    if i < self.events.len() {
                        assert(m.events[i] == self.events[i]);
                    }
                }
            }
        } else {
            assert(e.t < self.len);
            if self.pending.len() < MAX_EVENTS {
                assert forall|i: int| 0 <= i < m.pending.len() implies {
                    &&& (#[trigger] m.pending[i]).layer < MAX_LAYERS
                    &&& m.pending[i].t as int % m.step as int == 0
                    &&& m.state.exists_loop() && m.state != LoopState::Recording
                        ==> m.pending[i].t < m.len
                } by {
                    if i < self.pending.len() {
                        assert(m.pending[i] == self.pending[i]);
                    }
                }
            }
        }
    }

    /// Emptying a slot keeps the invariant.
    proof fn lemma_cleared_slot_wf(self, i: int)
        requires
            self.wf(),
            0 <= i < MAX_OPEN,
        ensures
            (LoopModel { open: self.open.update(i, None), ..self }).wf(),
    {
        let m = LoopModel { open: self.open.update(i, None), ..self };
        assert forall|j: int| 0 <= j < m.open.len() && (#[trigger] m.open[j] is Some) implies (m.open[j]
            == self.open[j]) by {}
    }
}

impl Looper {
    /// `min_dur` is the shortest note a recording will keep, in samples;
    /// `step` is one eighth note in samples.
    pub fn new(min_dur: u64, step: u64) -> (l: Looper)
        requires
            step <= MAX_STEP,
        ensures
            l@ == LoopModel::fresh(min_dur, step),
            l@.wf(),
    {
        let l = Looper {
            state: LoopState::Idle,
            bars: 4,
            events: Vec::with_capacity(MAX_EVENTS),
            pending: Vec::with_capacity(MAX_EVENTS),
            open: [None; 32],
            layers: [Layer { patch: 0, arp: false, muted: false }; 8],
            layer_count: 0,
            rec_notes: 0,
            step: if step < 1 {
                1
            } else {
                step
            },
            len: 0,
            rec_start: 0,
            rec_len: 0,
            play_start: 0,
            pass_start: 0,
            next: 0,
            last_pos: None,
            min_dur: if min_dur < 1 {
                1
            } else {
                min_dur
            },
        };
        assert(l@.open =~= Seq::new(MAX_OPEN as nat, |i: int| None::<Open>));
        assert(l@.layers =~= Seq::new(MAX_LAYERS as nat, |i: int| Layer::blank()));
        proof {
            lemma_empty_loop_fits(l.step);
        }
        l
    }

    /// Length of the loop in samples.
    pub fn len(&self) -> (n: u64)
        ensures
            n == self@.len,
    {
        self.len
    }

    /// Events recorded, including those waiting for the next wrap.
    pub fn event_count(&self) -> (n: usize)
        requires
            self@.wf(),
        ensures
            n == self@.events.len() + self@.pending.len(),
    {
        self.events.len() + self.pending.len()
    }

    /// A new tempo. Ignored once a loop exists: its notes sit on the old grid.
    pub fn set_step(&mut self, step: u64)
        requires
            old(self)@.wf(),
            step <= MAX_STEP,
        ensures
            final(self)@ == old(self)@.with_step(step),
            final(self)@.wf(),
    {
        if !self.state.has_loop() {
            self.step = if step < 1 {
                1
            } else {
                step
            };
            proof {
                lemma_empty_loop_fits(self.step);
            }
        }
    }

    pub fn bar_len(&self) -> (n: u64)
        requires
            self@.wf(),
        ensures
            n == self@.bar_len(),
    {
        self.step * STEPS_PER_BAR
    }

    /// Length of the loop in bars - or, while the first layer records, the
    /// length it is going to be.
    pub fn loop_bars(&self) -> (n: u8)
        requires
            self@.wf(),
        ensures
            n == self@.bars_long(),
    {
        let len = if self.state == LoopState::Recording {
            self.rec_len
        } else {
            self.len
        };
        let bar = self.bar_len();
        assert(len <= 255 * bar);
        assert(len / bar <= 255) by (nonlinear_arith)
            requires
                len <= 255 * bar,
                bar > 0,
        ;
        (len / bar) as u8
    }

    /// Layer `k` and whether it is the one being recorded right now.
    pub fn layer(&self, k: usize) -> (r: Option<(Layer, bool)>)
        requires
            self@.wf(),
        ensures
            r == self@.layer_at(k as int),
    {
        let recording = self.state == LoopState::Recording || self.state == LoopState::Overdub;
        if k < self.layer_count {
            Some((self.layers[k], false))
        } else if k == self.layer_count && recording && self.rec_notes > 0 {
            Some((self.layers[k], true))
        } else {
            None
        }
    }

    /// Samples into the loop at `now`.
    fn pos(&self, now: u64) -> (p: u64)
        requires
            self@.wf(),
            self@.time_ok(now),
        ensures
            p == self@.pos(now),
    {
        if self.state == LoopState::Recording {
            now - self.rec_start
        } else if self.len > 0 {
            (now - self.play_start) % self.len
        } else {
            0
        }
    }

    /// How far round the loop playback is - or how much of the first
    /// recording is done - as a fraction `(done, of)`.
    pub fn progress(&self, now: u64) -> (r: (u64, u64))
        requires
            self@.wf(),
            self@.time_ok(now),
        ensures
            r == self@.progress_at(now),
    {
        if self.state == LoopState::Recording && self.rec_len > 0 {
            (now - self.rec_start, self.rec_len)
        } else if self.state.is_running() && self.len > 0 {
            (self.pos(now), self.len)
        } else {
            (0, 1)
        }
    }

    /// While recording, `Some(true)` on the first beat of a bar, `Some(false)`
    /// on the other beats - the metronome's cue. `None` otherwise.
    pub fn beat(&self, now: u64) -> (b: Option<bool>)
        requires
            self@.wf(),
            self@.time_ok(now),
        ensures
            b == self@.beat_at(now),
    {
        if !(self.state == LoopState::Recording || self.state == LoopState::Overdub) {
            return None;
        }
        let pos = self.pos(now);
        if pos % (self.step * STEPS_PER_BEAT) == 0 {
            Some(pos % self.bar_len() == 0)
        } else {
            None
        }
    }

    pub fn toggle_mute(&mut self, k: usize)
        requires
            old(self)@.wf(),
        ensures
            final(self)@ == old(self)@.toggled(k as int),
            final(self)@.wf(),
    {
        if k < MAX_LAYERS {
            let layer = self.layers[k];
            self.layers[k] = Layer { muted: !layer.muted, ..layer };
        }
        proof {
            if k < MAX_LAYERS {
                assert(self@.layers =~= old(self)@.toggled(k as int).layers);
            }
        }
    }

    /// Forget the loop and every layer.
    pub fn clear(&mut self)
        requires
            old(self)@.wf(),
        ensures
            final(self)@ == old(self)@.cleared(),
            final(self)@.wf(),
    {
        self.forget();
    }

    fn forget(&mut self)
        requires
            1 <= old(self)@.step <= MAX_STEP,
            1 <= old(self)@.min_dur,
        ensures
            final(self)@ == old(self)@.cleared(),
            final(self)@.wf(),
    {
        self.events.clear();
        self.pending.clear();
        self.open = [None; 32];
        self.layers = [Layer { patch: 0, arp: false, muted: false }; 8];
        self.layer_count = 0;
        self.rec_notes = 0;
        self.len = 0;
        self.next = 0;
        self.last_pos = None;
        self.state = LoopState::Idle;
        assert(self@.open =~= Seq::new(MAX_OPEN as nat, |i: int| None::<Open>));
        assert(self@.layers =~= Seq::new(MAX_LAYERS as nat, |i: int| Layer::blank()));
        assert(self@ == old(self)@.cleared());
        proof {
            lemma_empty_loop_fits(self.step);
        }
    }
}

impl Looper {
    /// A chord going down. While armed this starts the first recording;
    /// while recording it opens a note of the layer being recorded.
    pub fn note_on(&mut self, now: u64, id: u64, chord: Chord, degree: u8, patch: u8, arp: bool)
        requires
            old(self)@.wf(),
            old(self)@.time_ok(now),
            old(self)@.rec_notes < usize::MAX,
        ensures
            final(self)@ == old(self)@.noted_on(now, id, chord, degree, patch, arp),
            final(self)@.wf(),
            final(self)@.time_ok(now),
    {
        let ghost m0 = self@;
        if self.state == LoopState::Armed {
            let bars: u64 = if self.bars < 1 {
                1
            } else {
                self.bars as u64
            };
            let bar = self.bar_len();
            assert(bars * bar <= 255 * (MAX_STEP * STEPS_PER_BAR)) by (nonlinear_arith)
                requires
                    bars <= 255,
                    bar <= MAX_STEP * STEPS_PER_BAR,
            ;
            self.state = LoopState::Recording;
            self.rec_start = now;
            self.rec_len = bars * bar;
            proof {
                assert(bars * bar <= 255 * bar) by (nonlinear_arith)
                    requires
                        bars <= 255,
                ;
                vstd::arithmetic::div_mod::lemma_mod_multiples_basic(bars as int, bar as int);
                assert(bars * bar > 0) by (nonlinear_arith)
                    requires
                        bars >= 1,
                        bar >= 1,
                ;
            }
        }
        let ghost m1 = self@;
        assert(m1.wf());
        if !(self.state == LoopState::Recording || self.state == LoopState::Overdub) {
            return;
        }
        if self.rec_notes == 0 {
            self.layers[self.layer_count] = Layer { patch, arp, muted: false };
        }
        self.rec_notes = self.rec_notes + 1;
        let start = self.pos(now);
        let ghost m3 = self@;
        let mut i: usize = 0;
        while i < MAX_OPEN && self.open[i].is_some()
            invariant
                self@ == m3,
                i <= MAX_OPEN,
                first_free(m3.open, 0) == first_free(m3.open, i as int),
            decreases MAX_OPEN - i,
        {
            i = i + 1;
        }
        assert(first_free(m3.open, i as int) == i as int);
        if i < MAX_OPEN {
            self.open[i] = Some(Open { id, start, chord, degree, patch, arp });
        }
        proof {
            assert(self@.layers =~= m0.noted_on(now, id, chord, degree, patch, arp).layers);
            assert(self@.open =~= m0.noted_on(now, id, chord, degree, patch, arp).open);
            let m = self@;
            assert forall|j: int| 0 <= j < m.open.len() && (#[trigger] m.open[j] is Some) implies (
            m.open[j]->0.start <= MAX_TIME && (m.state == LoopState::Overdub ==> m.open[j]->0.start
                < m.len)) by {
                if j != i {
                    assert(m.open[j] == m3.open[j]);
                }
            }
        }
    }

    /// Whether slot `i` holds the chord with this id.
    fn slot_holds(&self, i: usize, id: u64) -> (b: bool)
        requires
            self@.wf(),
            i < MAX_OPEN,
        ensures
            b == (self@.open[i as int] matches Some(o) && o.id == id),
    {
        match self.open[i] {
            Some(o) => o.id == id,
            None => false,
        }
    }

    /// The chord `open` let go at `now`, stored as an event.
    fn finish(&mut self, now: u64, open: Open)
        requires
            old(self)@.wf(),
            old(self)@.time_ok(now),
            old(self)@.finish_ok(now, open),
            old(self)@.state.recording(),
            open.start <= MAX_TIME,
            old(self)@.state == LoopState::Overdub ==> open.start < old(self)@.len,
        ensures
            final(self)@ == old(self)@.finished(now, open),
            final(self)@.wf(),
    {
        proof {
            self@.lemma_finished_wf(now, open);
            let cycle: int = if self.state == LoopState::Recording {
                self.rec_len as int
            } else {
                self.len as int
            };
            lemma_bar_multiple(cycle, self.step as int);
            lemma_snap(open.start as int, self.step as int, cycle);
            let pos = self@.pos(now);
            lemma_snap(if pos >= open.start { pos } else { cycle }, self.step as int, cycle);
        }
        let cycle = if self.state == LoopState::Recording {
            self.rec_len
        } else {
            self.len
        };
        let pos = self.pos(now);
        let end = if pos >= open.start {
            pos
        } else {
            cycle
        };
        let step = self.step;
        let start = (open.start + step / 2) / step * step;
        let snapped_end = (end + step / 2) / step * step;
        let dur = if snapped_end > start {
            snapped_end - start
        } else {
            end - open.start
        };
        let t = if cycle > 0 && start >= cycle {
            start - cycle
        } else {
            start
        };
        let event = LoopEvent {
            t,
            dur: if dur < self.min_dur {
                self.min_dur
            } else {
                dur
            },
            chord: open.chord,
            degree: open.degree,
            patch: open.patch,
            arp: open.arp,
            layer: self.layer_count as u8,
        };
        assert(event == self@.finished_event(now, open));
        if self.state == LoopState::Recording {
            if self.events.len() < MAX_EVENTS {
                self.events.push(event);
            }
        } else {
            if self.pending.len() < MAX_EVENTS {
                self.pending.push(event);
            }
        }
    }

    /// Let go of the chord in slot `i`, if there is one.
    fn release_slot(&mut self, now: u64, i: usize)
        requires
            old(self)@.wf(),
            old(self)@.time_ok(now),
            i < MAX_OPEN,
            old(self)@.open[i as int] matches Some(o) ==> old(self)@.finish_ok(now, o),
        ensures
            final(self)@ == old(self)@.released_slot(now, i as int),
            final(self)@.wf(),
    {
        let taken = self.open[i];
        match taken {
            Some(o) => {
                proof {
                    self@.lemma_cleared_slot_wf(i as int);
                }
                self.open[i] = None;
                assert(self@ == (LoopModel { open: old(self)@.open.update(i as int, None), ..old(self)@ }));
                self.finish(now, o);
            },
            None => {},
        }
    }

    pub fn note_off(&mut self, now: u64, id: u64)
        requires
            old(self)@.wf(),
            old(self)@.time_ok(now),
            find_id(old(self)@.open, id, 0) < MAX_OPEN ==> old(self)@.finish_ok(
                now,
                old(self)@.open[find_id(old(self)@.open, id, 0)]->0,
            ),
        ensures
            final(self)@ == old(self)@.noted_off(now, id),
            final(self)@.wf(),
    {
        let ghost m0 = self@;
        let mut i: usize = 0;
        while i < MAX_OPEN && !self.slot_holds(i, id)
            invariant
                self@ == m0,
                m0.wf(),
                i <= MAX_OPEN,
                find_id(m0.open, id, 0) == find_id(m0.open, id, i as int),
            decreases MAX_OPEN - i,
        {
            i = i + 1;
        }
        if i < MAX_OPEN {
            assert(find_id(m0.open, id, i as int) == i as int);
            self.release_slot(now, i);
        }
    }

    /// Every live input let go at once. Chords still open in a recording end
    /// here rather than ringing on to the end of the pass.
    pub fn release_all(&mut self, now: u64)
        requires
            old(self)@.wf(),
            old(self)@.time_ok(now),
            old(self)@.release_ok(now),
        ensures
            final(self)@ == old(self)@.released_all(now),
            final(self)@.wf(),
    {
        let ghost m0 = self@;
        let mut i: usize = 0;
        while i < MAX_OPEN
            invariant
                i <= MAX_OPEN,
                self@.wf(),
                self@.released_from(now, i as int) == m0.released_all(now),
                self@.state == m0.state,
                self@.len == m0.len,
                self@.rec_len == m0.rec_len,
                self@.rec_start == m0.rec_start,
                self@.play_start == m0.play_start,
                self@.pass_start == m0.pass_start,
                self@.step == m0.step,
                forall|j: int| i <= j < MAX_OPEN ==> self@.open[j] == m0.open[j],
                m0.release_ok(now),
                m0.time_ok(now),
                m0.open.len() == MAX_OPEN,
            decreases MAX_OPEN - i,
        {
            assert(self@.open[i as int] == m0.open[i as int]);
            self.release_slot(now, i);
            i = i + 1;
        }
    }
}

/// Counting the events at or before `t` finds the split point, whenever
/// there is one.
pub proof fn lemma_split_is_count(s: Seq<LoopEvent>, n: int, t: int)
    requires
        split_at_time(s, n, t),
    ensures
        count_le(s, t) == n,
    decreases s.len(),
{
    if s.len() > 0 {
        let d = s.drop_last();
        if n == s.len() {
            assert(split_at_time(d, n - 1, t));
            lemma_split_is_count(d, n - 1, t);
        } else {
            assert(split_at_time(d, n, t));
            lemma_split_is_count(d, n, t);
        }
    }
}

/// In a time-sorted list, the events at or before `t` come first.
pub proof fn lemma_sorted_split(s: Seq<LoopEvent>, t: int)
    requires
        sorted_by_time(s),
    ensures
        split_at_time(s, count_le(s, t) as int, t),
    decreases s.len(),
{
    if s.len() > 0 {
        let d = s.drop_last();
        assert(sorted_by_time(d));
        lemma_sorted_split(d, t);
        let c = count_le(d, t) as int;
        if s.last().t <= t {
            assert forall|i: int| 0 <= i < d.len() implies #[trigger] d[i].t <= t by {
                assert(s[i].t <= s[s.len() - 1].t);
            }
            assert(split_at_time(d, d.len() as int, t));
            lemma_split_is_count(d, d.len() as int, t);
            assert forall|i: int| 0 <= i < s.len() implies #[trigger] s[i].t <= t by {
                if i < d.len() {
                    assert(s[i] == d[i]);
                }
            }
        } else {
            assert forall|i: int| 0 <= i < c implies #[trigger] s[i].t <= t by {
                assert(s[i] == d[i]);
            }
            assert forall|i: int| c <= i < s.len() implies #[trigger] s[i].t > t by {
                if i < d.len() {
                    assert(s[i] == d[i]);
                }
            }
        }
    }
}

/// Placing an event after all those starting no later keeps a list sorted.
pub proof fn lemma_insert_sorted(s: Seq<LoopEvent>, e: LoopEvent)
    requires
        sorted_by_time(s),
    ensures
        sorted_by_time(insert_sorted(s, e)),
        insert_sorted(s, e).len() == s.len() + 1,
        forall|i: int|
            0 <= i < insert_sorted(s, e).len() ==> (#[trigger] insert_sorted(s, e)[i] == e
                || s.contains(insert_sorted(s, e)[i])),
{
    lemma_sorted_split(s, e.t as int);
    let c = count_le(s, e.t as int) as int;
    let r = insert_sorted(s, e);
    assert forall|i: int| 0 <= i < r.len() implies (#[trigger] r[i] == e || s.contains(r[i])) by {
        if i < c {
            assert(r[i] == s[i]);
        } else if i > c {
            assert(r[i] == s[i - 1]);
        }
    }
    assert forall|i: int, j: int| 0 <= i < j < r.len() implies r[i].t <= r[j].t by {
        if i < c && j < c {
            assert(r[i] == s[i] && r[j] == s[j]);
        } else if i < c && j == c {
            assert(r[i] == s[i]);
        } else if i < c {
            assert(r[i] == s[i] && r[j] == s[j - 1]);
        } else if i == c {
            assert(r[j] == s[j - 1]);
        } else {
            assert(r[i] == s[i - 1] && r[j] == s[j - 1]);
        }
    }
}

/// Inserting a list of events one by one keeps a list sorted, adds their
/// number to its length, and brings in nothing that was not in either list.
pub proof fn lemma_insert_all(s: Seq<LoopEvent>, extra: Seq<LoopEvent>, p: spec_fn(LoopEvent) -> bool)
    requires
        sorted_by_time(s),
        forall|i: int| 0 <= i < s.len() ==> p(#[trigger] s[i]),
        forall|i: int| 0 <= i < extra.len() ==> p(#[trigger] extra[i]),
    ensures
        sorted_by_time(insert_all(s, extra)),
        insert_all(s, extra).len() == s.len() + extra.len(),
        forall|i: int| 0 <= i < insert_all(s, extra).len() ==> p(#[trigger] insert_all(s, extra)[i]),
    decreases extra.len(),
{
    if extra.len() > 0 {
        let d = extra.drop_last();
        assert forall|i: int| 0 <= i < d.len() implies p(#[trigger] d[i]) by {
            assert(d[i] == extra[i]);
        }
        lemma_insert_all(s, d, p);
        let a = insert_all(s, d);
        let e = extra.last();
        assert(p(e)) by {
            assert(e == extra[extra.len() - 1]);
        }
        lemma_insert_sorted(a, e);
        let r = insert_sorted(a, e);
        assert forall|i: int| 0 <= i < r.len() implies p(#[trigger] r[i]) by {
            if r[i] != e {
                assert(a.contains(r[i]));
                let j = choose|j: int| 0 <= j < a.len() && a[j] == r[i];
                assert(p(a[j]));
            }
        }
    }
}

/// Taking out a layer keeps the times of the events that stay, never
/// raises a layer number, and keeps a sorted list sorted.
pub proof fn lemma_without_layer(s: Seq<LoopEvent>, k: int)
    requires
        0 <= k,
    ensures
        without_layer(s, k).len() <= s.len(),
        forall|j: int|
            0 <= j < without_layer(s, k).len() ==> exists|i: int|
                0 <= i < s.len() && (#[trigger] without_layer(s, k)[j]).t == s[i].t
                    && without_layer(s, k)[j].layer <= s[i].layer,
        sorted_by_time(s) ==> sorted_by_time(without_layer(s, k)),
    decreases s.len(),
{
    if s.len() > 0 {
        let d = s.drop_last();
        lemma_without_layer(d, k);
        let rest = without_layer(d, k);
        let r = without_layer(s, k);
        assert forall|j: int| 0 <= j < r.len() implies exists|i: int|
            0 <= i < s.len() && (#[trigger] r[j]).t == s[i].t && r[j].layer <= s[i].layer by {
            if j < rest.len() {
                assert(r[j] == rest[j]);
                let i = choose|i: int|
                    0 <= i < d.len() && (#[trigger] rest[j]).t == d[i].t && rest[j].layer
                        <= d[i].layer;
                assert(s[i] == d[i]);
                assert(r[j].t == s[i].t && r[j].layer <= s[i].layer);
            } else {
                let i = s.len() - 1;
                let e = s.last();
                assert(e == s[i]);
                if e.layer == k {
                    assert(r == rest);
                } else if e.layer > k {
                    assert(r == rest.push(LoopEvent { layer: (e.layer - 1) as u8, ..e }));
                    assert(r[j] == LoopEvent { layer: (e.layer - 1) as u8, ..e });
                } else {
                    assert(r == rest.push(e));
                    assert(r[j] == e);
                }
                assert(r[j].t == s[i].t && r[j].layer <= s[i].layer);
            }
        }
        if sorted_by_time(s) {
            assert(sorted_by_time(d));
            assert forall|i: int, j: int| 0 <= i < j < r.len() implies r[i].t <= r[j].t by {
                if j < rest.len() {
                    assert(r[i] == rest[i] && r[j] == rest[j]);
                } else {
                    assert(r[i] == rest[i]);
                    let m = choose|m: int|
                        0 <= m < d.len() && (#[trigger] rest[i]).t == d[m].t && rest[i].layer
                            <= d[m].layer;
                    assert(s[m] == d[m]);
                    assert(s[m].t <= s[s.len() - 1].t);
                }
            }
        }
    }
}

/// `d / b` rounded up.
pub open spec fn ceil_div(d: int, b: int) -> int {
    d / b + if d % b != 0 {
        1int
    } else {
        0int
    }
}

impl LoopModel {
    /// A fresh cycle of the loop from `now`, in `state`.
    pub open spec fn cycle_started(self, now: u64, state: LoopState) -> LoopModel {
        LoopModel { play_start: now, last_pos: None, next: 0, state, ..self }
    }

    /// An overdub pass begun at `now`: one more layer, one loop long.
    pub open spec fn pass_begun(self, now: u64) -> LoopModel {
        LoopModel {
            state: LoopState::Overdub,
            pass_start: now,
            rec_notes: 0,
            layers: self.layers.update(self.layer_count as int, Layer::blank()),
            ..self
        }
    }

    /// The first layer finished at `now`: it becomes the loop, every event
    /// wrapped into it, cut at its end, and in order of time.
    pub open spec fn closed_first(self, now: u64) -> LoopModel {
        let r = self.released_all(now);
        let len = r.rec_len;
        let fitted = Seq::new(r.events.len(), |i: int| fit_to_loop(r.events[i], len, r.min_dur));
        LoopModel {
            events: insert_all(Seq::empty(), fitted),
            len,
            layer_count: 1,
            rec_notes: 0,
            ..r
        }.cycle_started(now, LoopState::Playing)
    }

    /// An overdub pass over: a layer if anything was played into it.
    pub open spec fn pass_ended(self, now: u64) -> LoopModel {
        let r = self.released_all(now);
        LoopModel {
            layer_count: if r.rec_notes > 0 {
                (r.layer_count + 1) as usize
            } else {
                r.layer_count
            },
            rec_notes: 0,
            state: LoopState::Playing,
            ..r
        }
    }

    /// The record button at `now`.
    pub open spec fn pedaled(self, now: u64) -> LoopModel {
        let room = self.layer_count < MAX_LAYERS;
        match self.state {
            LoopState::Idle => LoopModel { state: LoopState::Armed, ..self },
            LoopState::Armed => LoopModel { state: LoopState::Idle, ..self },
            LoopState::Recording => {
                let bar = self.bar_len();
                let d = ceil_div(now - self.rec_start, bar);
                let bars = if d < 1 {
                    1
                } else {
                    d
                };
                LoopModel {
                    rec_len: if self.rec_len <= bars * bar {
                        self.rec_len
                    } else {
                        (bars * bar) as u64
                    },
                    ..self
                }
            },
            LoopState::Playing => if room {
                self.pass_begun(now)
            } else {
                self
            },
            LoopState::Overdub => self.pass_ended(now),
            LoopState::Stopped => if room {
                self.cycle_started(now, LoopState::Playing).pass_begun(now)
            } else {
                self
            },
        }
    }

    /// The play / stop button at `now`.
    pub open spec fn play_stopped(self, now: u64) -> LoopModel {
        match self.state {
            LoopState::Armed => LoopModel { state: LoopState::Idle, ..self },
            LoopState::Overdub => LoopModel { state: LoopState::Stopped, ..self.pass_ended(now) },
            LoopState::Playing => LoopModel { state: LoopState::Stopped, ..self },
            LoopState::Stopped => self.cycle_started(now, LoopState::Playing),
            _ => self,
        }
    }

    /// Layer `k` deleted, the others left exactly where they were.
    pub open spec fn layer_removed(self, k: int) -> LoopModel {
        if self.state == LoopState::Armed || self.state == LoopState::Recording {
            self.cleared()
        } else if k > self.layer_count || (k == self.layer_count && self.state
            != LoopState::Overdub) {
            self
        } else {
            let m1 = LoopModel {
                events: without_layer(self.events, k),
                pending: without_layer(self.pending, k),
                layers: self.layers.remove(k).push(Layer::blank()),
                ..self
            };
            let m2 = if k == self.layer_count {
                LoopModel {
                    open: Seq::new(MAX_OPEN as nat, |i: int| None),
                    rec_notes: 0,
                    state: LoopState::Playing,
                    ..m1
                }
            } else {
                LoopModel { layer_count: (m1.layer_count - 1) as usize, ..m1 }
            };
            let still_recording = m2.state == LoopState::Overdub && m2.rec_notes > 0;
            if m2.layer_count == 0 && !still_recording {
                m2.cleared()
            } else {
                LoopModel {
                    next: match m2.last_pos {
                        Some(p) => count_le(m2.events, p as int) as usize,
                        None => 0,
                    },
                    ..m2
                }
            }
        }
    }

    /// The newest layer taken back - the one being recorded, if there is one.
    pub open spec fn undone(self) -> LoopModel {
        if self.state == LoopState::Armed || self.state == LoopState::Recording {
            self.cleared()
        } else if self.state == LoopState::Overdub && self.rec_notes > 0 {
            self.layer_removed(self.layer_count as int)
        } else {
            let m = if self.state == LoopState::Overdub {
                LoopModel { state: LoopState::Playing, ..self }
            } else {
                self
            };
            if m.layer_count > 0 {
                m.layer_removed(m.layer_count - 1)
            } else {
                m
            }
        }
    }

    /// Whether the first recording is due to close at `now`.
    pub open spec fn closing_due(self, now: u64) -> bool {
        self.state == LoopState::Recording && now - self.rec_start >= self.rec_len
    }

    /// Whether the overdub pass is due to end at `now`.
    pub open spec fn pass_due(self, now: u64) -> bool {
        self.state == LoopState::Overdub && now - self.pass_start >= self.len
    }

    /// The recording that ends by itself at `now`, if one is due to.
    pub open spec fn advanced(self, now: u64) -> LoopModel {
        if self.closing_due(now) {
            self.closed_first(now)
        } else if self.pass_due(now) {
            self.pass_ended(now)
        } else {
            self
        }
    }

    /// Whether playback is moving at all.
    pub open spec fn playing_back(self) -> bool {
        self.state.running() && self.len > 0
    }

    /// The loop position at `now` while playback moves.
    pub open spec fn play_pos(self, now: u64) -> int {
        (now - self.play_start) % (self.len as int)
    }

    /// Layers played during the last pass, folded into the loop - in order of
    /// time, and only as many as there is room for.
    pub open spec fn merged(self) -> LoopModel {
        let room = MAX_EVENTS - self.events.len();
        let take = if self.pending.len() <= room {
            self.pending.len() as int
        } else {
            room
        };
        LoopModel {
            events: insert_all(self.events, self.pending.take(take)),
            pending: Seq::empty(),
            ..self
        }
    }

    /// At the start of each cycle (the one moment the playback cursor resets)
    /// the last pass's events are folded in and the cursor goes to the top.
    pub open spec fn cued(self, now: u64) -> LoopModel {
        let pos = self.play_pos(now);
        let wrapped = match self.last_pos {
            None => true,
            Some(prev) => pos < prev,
        };
        if wrapped {
            let b = if self.pending.len() > 0 {
                self.merged()
            } else {
                self
            };
            LoopModel { next: 0, ..b }
        } else {
            self
        }
    }

    /// The looper after one sample at `now`.
    pub open spec fn ticked(self, now: u64) -> LoopModel {
        let a = self.advanced(now);
        if !a.playing_back() {
            a
        } else {
            let c = a.cued(now);
            let pos = a.play_pos(now);
            LoopModel { last_pos: Some(pos as u64), next: count_le(c.events, pos) as usize, ..c }
        }
    }

    /// The events that fire on the sample at `now`: those of unmuted layers
    /// from the cursor up to the current position.
    pub open spec fn fired(self, now: u64) -> Seq<LoopEvent> {
        let a = self.advanced(now);
        if !a.playing_back() {
            Seq::empty()
        } else {
            let c = a.cued(now);
            let pos = a.play_pos(now);
            audible(c.events.subrange(c.next as int, count_le(c.events, pos) as int), c.layers)
        }
    }
}

impl LoopModel {
    /// Everything but the stored events and the held chords is the same.
    pub open spec fn same_control(self, other: LoopModel) -> bool {
        &&& self.state == other.state
        &&& self.bars == other.bars
        &&& self.layers == other.layers
        &&& self.layer_count == other.layer_count
        &&& self.rec_notes == other.rec_notes
        &&& self.step == other.step
        &&& self.len == other.len
        &&& self.rec_start == other.rec_start
        &&& self.rec_len == other.rec_len
        &&& self.play_start == other.play_start
        &&& self.pass_start == other.pass_start
        &&& self.next == other.next
        &&& self.last_pos == other.last_pos
        &&& self.min_dur == other.min_dur
    }

    /// During an overdub every held chord can be let go at any time.
    pub proof fn lemma_overdub_release_ok(self, now: u64)
        requires
            self.wf(),
            self.time_ok(now),
            self.state == LoopState::Overdub,
        ensures
            self.release_ok(now),
    {
        assert forall|i: int|
            0 <= i < self.open.len() && (#[trigger] self.open[i]) is Some implies self.finish_ok(
            now,
            self.open[i]->0,
        ) by {
            assert(self.open[i]->0.start < self.len);
        }
    }

    /// Letting go of the chords in slots `i..` keeps the invariant, empties
    /// those slots, and touches nothing but the stored events and the slots.
    pub proof fn lemma_released_from(self, now: u64, i: int)
        requires
            self.wf(),
            self.time_ok(now),
            self.release_ok(now),
            0 <= i <= MAX_OPEN,
        ensures
            self.released_from(now, i).wf(),
            self.released_from(now, i).time_ok(now),
            self.released_from(now, i).same_control(self),
            forall|j: int| i <= j < MAX_OPEN ==> #[trigger] self.released_from(now, i).open[j] is None,
            forall|j: int| 0 <= j < i ==> #[trigger] self.released_from(now, i).open[j] == self.open[j],
            self.state != LoopState::Recording ==> self.released_from(now, i).events == self.events,
        decreases MAX_OPEN - i,
    {
        if i < MAX_OPEN {
            let m = self.released_slot(now, i);
            match self.open[i] {
                Some(o) => {
                    self.lemma_cleared_slot_wf(i);
                    let c = LoopModel { open: self.open.update(i, None), ..self };
                    assert(c.finish_ok(now, o) == self.finish_ok(now, o));
                    c.lemma_finished_wf(now, o);
                },
                None => {},
            }
            assert forall|j: int|
                0 <= j < m.open.len() && (#[trigger] m.open[j]) is Some implies m.finish_ok(
                now,
                m.open[j]->0,
            ) by {
                assert(m.open[j] == self.open[j]);
                assert(m.finish_ok(now, m.open[j]->0) == self.finish_ok(now, self.open[j]->0));
            }
            m.lemma_released_from(now, i + 1);
        }
    }

    /// Letting go of every held chord.
    pub proof fn lemma_released_all(self, now: u64)
        requires
            self.wf(),
            self.time_ok(now),
            self.release_ok(now),
        ensures
            self.released_all(now).wf(),
            self.released_all(now).time_ok(now),
            self.released_all(now).same_control(self),
            self.released_all(now).no_open(),
            self.state != LoopState::Recording ==> self.released_all(now).events == self.events,
    {
        self.lemma_released_from(now, 0);
        let r = self.released_all(now);
        assert forall|j: int| 0 <= j < r.open.len() implies #[trigger] r.open[j] is None by {
            assert(0 <= j < MAX_OPEN);
        }
    }
}

/// Where an event starting at `t` goes among the first `hi` events.
fn upper_bound(events: &Vec<LoopEvent>, hi: usize, t: u64) -> (i: usize)
    requires
        hi <= events@.len(),
        sorted_by_time(events@.take(hi as int)),
    ensures
        i == count_le(events@.take(hi as int), t as int),
        i <= hi,
{
    let ghost s = events@.take(hi as int);
    let mut i: usize = 0;
    while i < hi && events[i].t <= t
        invariant
            i <= hi,
            hi <= events@.len(),
            s == events@.take(hi as int),
            forall|j: int| 0 <= j < i ==> #[trigger] s[j].t <= t,
        decreases hi - i,
    {
        i = i + 1;
    }
    proof {
        assert forall|j: int| i <= j < s.len() implies #[trigger] s[j].t > t by {
            assert(s[i as int].t > t);
            assert(s[i as int].t <= s[j].t);
        }
        lemma_split_is_count(s, i as int, t as int);
    }
    i
}

/// Put `e` into time-sorted `events` after every event starting no later.
fn insert_event(events: &mut Vec<LoopEvent>, e: LoopEvent)
    requires
        sorted_by_time(old(events)@),
    ensures
        final(events)@ == insert_sorted(old(events)@, e),
{
    let n = events.len();
    assert(old(events)@.take(n as int) =~= old(events)@);
    let i = upper_bound(events, n, e.t);
    events.insert(i, e);
}

/// A recorded event fitted into a loop of `len` samples keeps the grid.
proof fn lemma_fit_to_loop(e: LoopEvent, len: u64, min_dur: u64, step: int)
    requires
        len > 0,
        step >= 1,
        len as int % step == 0,
        e.t as int % step == 0,
    ensures
        fit_to_loop(e, len, min_dur).t < len,
        fit_to_loop(e, len, min_dur).t as int % step == 0,
        fit_to_loop(e, len, min_dur).layer == e.layer,
{
    vstd::arithmetic::div_mod::lemma_fundamental_div_mod(len as int, step);
    let k = len as int / step;
    assert(k >= 1) by (nonlinear_arith)
        requires
            len == step * k + len as int % step,
            len as int % step == 0,
            len > 0,
            step >= 1,
    ;
    assert(len == step * k);
    vstd::arithmetic::div_mod::lemma_mod_mod(e.t as int, step, k);
}

impl Looper {
    fn start_cycle(&mut self, now: u64, state: LoopState)
        ensures
            final(self)@ == old(self)@.cycle_started(now, state),
    {
        self.play_start = now;
        self.last_pos = None;
        self.next = 0;
        self.state = state;
    }

    fn begin_pass(&mut self, now: u64)
        requires
            old(self)@.wf(),
            old(self)@.layer_count < MAX_LAYERS,
        ensures
            final(self)@ == old(self)@.pass_begun(now),
    {
        self.state = LoopState::Overdub;
        self.pass_start = now;
        self.rec_notes = 0;
        self.layers[self.layer_count] = Layer { patch: 0, arp: false, muted: false };
        assert(self@.layers =~= old(self)@.pass_begun(now).layers);
    }

    /// The first layer is finished: it becomes the loop.
    fn close_first_layer(&mut self, now: u64)
        requires
            old(self)@.wf(),
            old(self)@.time_ok(now),
            old(self)@.state == LoopState::Recording,
            old(self)@.release_ok(now),
        ensures
            final(self)@ == old(self)@.closed_first(now),
            final(self)@.wf(),
            final(self)@.time_ok(now),
    {
        proof {
            self@.lemma_released_all(now);
        }
        self.release_all(now);
        let ghost r = self@;
        let len = self.rec_len;
        let min_dur = self.min_dur;
        let n = self.events.len();
        let ghost fitted = Seq::new(r.events.len(), |i: int| fit_to_loop(r.events[i], len, min_dur));
        let mut i: usize = 0;
        while i < n
            invariant
                i <= n,
                n == r.events.len(),
                len == r.rec_len,
                len > 0,
                min_dur == r.min_dur,
                self.events@.len() == n,
                self@ == (LoopModel { events: self@.events, ..r }),
                fitted == Seq::new(r.events.len(), |i: int| fit_to_loop(r.events[i], len, min_dur)),
                forall|j: int| 0 <= j < i ==> #[trigger] self.events@[j] == fitted[j],
                forall|j: int| i <= j < n ==> #[trigger] self.events@[j] == r.events[j],
            decreases n - i,
        {
            let e = self.events[i];
            let t = e.t % len;
            let clipped = if e.dur < len - t {
                e.dur
            } else {
                len - t
            };
            self.events.set(
                i,
                LoopEvent {
                    t,
                    dur: if clipped < min_dur {
                        min_dur
                    } else {
                        clipped
                    },
                    ..e
                },
            );
            i = i + 1;
        }
        assert(self.events@ =~= fitted);
        let ghost step = r.step as int;
        let ghost p = |e: LoopEvent| e.layer < MAX_LAYERS && e.t as int % step == 0 && e.t < len;
        proof {
            lemma_bar_multiple(len as int, step);
            assert forall|j: int| 0 <= j < fitted.len() implies p(#[trigger] fitted[j]) by {
                assert(r.events[j].layer < MAX_LAYERS);
                lemma_fit_to_loop(r.events[j], len, min_dur, step);
            }
        }
        let mut i: usize = 0;
        while i < n
            invariant
                i <= n,
                n == fitted.len(),
                self.events@.len() == n,
                self@ == (LoopModel { events: self@.events, ..r }),
                self.events@.take(i as int) == insert_all(Seq::empty(), fitted.take(i as int)),
                self.events@.skip(i as int) == fitted.skip(i as int),
                sorted_by_time(self.events@.take(i as int)),
            decreases n - i,
        {
            let ghost before = self.events@;
            proof {
                assert(before[i as int] == before.skip(i as int)[0]);
                assert(fitted[i as int] == fitted.skip(i as int)[0]);
            }
            let e = self.events.remove(i);
            assert(e == fitted[i as int]);
            assert(self.events@ =~= before.take(i as int) + before.skip(i + 1));
            assert(self.events@.take(i as int) =~= before.take(i as int));
            let at = upper_bound(&self.events, i, e.t);
            self.events.insert(at, e);
            proof {
                let prefix = before.take(i as int);
                assert(self.events@ =~= prefix.insert(at as int, e) + before.skip(i + 1));
                assert(before.skip(i + 1) =~= fitted.skip(i + 1)) by {
                    assert forall|j: int| 0 <= j < before.skip(i + 1).len() implies #[trigger] before.skip(i + 1)[j]
                        == fitted.skip(i + 1)[j] by {
                        assert(before.skip(i + 1)[j] == before.skip(i as int)[j + 1]);
                        assert(fitted.skip(i + 1)[j] == fitted.skip(i as int)[j + 1]);
                    }
                }
                assert(fitted.take(i + 1).drop_last() =~= fitted.take(i as int));
                assert(fitted.take(i + 1).last() == e);
                lemma_insert_sorted(prefix, e);
                assert(self.events@.take(i + 1) =~= insert_sorted(prefix, e));
                assert(self.events@.skip(i + 1) =~= fitted.skip(i + 1));
            }
            i = i + 1;
        }
        proof {
            assert(fitted.take(n as int) =~= fitted);
            assert(self.events@ =~= self.events@.take(n as int));
            lemma_insert_all(Seq::empty(), fitted, p);
        }
        self.len = len;
        self.layer_count = 1;
        self.rec_notes = 0;
        self.start_cycle(now, LoopState::Playing);
        proof {
            let m = self@;
            assert(m.events == insert_all(Seq::<LoopEvent>::empty(), fitted));
            assert forall|j: int| 0 <= j < m.events.len() implies {
                &&& (#[trigger] m.events[j]).layer < MAX_LAYERS
                &&& m.events[j].t as int % m.step as int == 0
                &&& m.state.exists_loop() && m.state != LoopState::Recording ==> m.events[j].t
                    < m.len
            } by {
                let x = insert_all(Seq::<LoopEvent>::empty(), fitted)[j];
                assert(p(x));
                assert(x.layer < MAX_LAYERS && x.t as int % step == 0 && x.t < len);
                assert(m.events[j] == x);
            }
            let c = old(self)@.closed_first(now);
            assert(c.events == m.events);
            assert(c.state == m.state);
            assert(c.len == m.len);
            assert(c.open == m.open);
            assert(c.pending == m.pending);
            assert(c.layers == m.layers);
            assert(c.next == m.next);
            assert(c.last_pos == m.last_pos);
            assert(c.play_start == m.play_start);
            assert(m == c);
        }
    }

    /// An overdub pass is over.
    fn end_pass(&mut self, now: u64)
        requires
            old(self)@.wf(),
            old(self)@.time_ok(now),
            old(self)@.state == LoopState::Overdub,
        ensures
            final(self)@ == old(self)@.pass_ended(now),
            final(self)@.wf(),
            final(self)@.time_ok(now),
    {
        proof {
            self@.lemma_overdub_release_ok(now);
            self@.lemma_released_all(now);
        }
        self.release_all(now);
        if self.rec_notes > 0 {
            self.layer_count = self.layer_count + 1;
        }
        self.rec_notes = 0;
        self.state = LoopState::Playing;
    }

    /// The record button.
    pub fn pedal(&mut self, now: u64)
        requires
            old(self)@.wf(),
            old(self)@.time_ok(now),
        ensures
            final(self)@ == old(self)@.pedaled(now),
            final(self)@.wf(),
            final(self)@.time_ok(now),
    {
        let room = self.layer_count < MAX_LAYERS;
        match self.state {
            LoopState::Idle => self.state = LoopState::Armed,
            LoopState::Armed => self.state = LoopState::Idle,
            LoopState::Recording => {
                let bar = self.bar_len();
                let d = now - self.rec_start;
                let whole = d / bar + if d % bar != 0 {
                    1
                } else {
                    0
                };
                let bars = if whole < 1 {
                    1
                } else {
                    whole
                };
                proof {
                    assert(bars * bar <= d + bar) by (nonlinear_arith)
                        requires
                            bars == (if d / bar + (if d % bar != 0 { 1int } else { 0 }) < 1 {
                                1
                            } else {
                                d / bar + (if d % bar != 0 { 1int } else { 0 })
                            }),
                            bar >= 1,
                            d >= 0,
                    ;
                    vstd::arithmetic::div_mod::lemma_mod_multiples_basic(bars as int, bar as int);
                    assert(bars * bar >= bar) by (nonlinear_arith)
                        requires
                            bars >= 1,
                            bar >= 1,
                    ;
                }
                let whole_bars = bars * bar;
                if whole_bars < self.rec_len {
                    self.rec_len = whole_bars;
                }
            },
            LoopState::Playing => {
                if room {
                    self.begin_pass(now);
                }
            },
            LoopState::Overdub => self.end_pass(now),
            LoopState::Stopped => {
                if room {
                    self.start_cycle(now, LoopState::Playing);
                    self.begin_pass(now);
                }
            },
        }
    }

    /// The play / stop button.
    pub fn play_stop(&mut self, now: u64)
        requires
            old(self)@.wf(),
            old(self)@.time_ok(now),
        ensures
            final(self)@ == old(self)@.play_stopped(now),
            final(self)@.wf(),
            final(self)@.time_ok(now),
    {
        match self.state {
            LoopState::Armed => self.state = LoopState::Idle,
            LoopState::Overdub => {
                self.end_pass(now);
                self.state = LoopState::Stopped;
            },
            LoopState::Playing => self.state = LoopState::Stopped,
            LoopState::Stopped => self.start_cycle(now, LoopState::Playing),
            _ => {},
        }
    }
}

/// Take the events of layer `k` out of `events`, moving the layers above it
/// down one, in place.
fn drop_layer(events: &mut Vec<LoopEvent>, k: u8)
    ensures
        final(events)@ == without_layer(old(events)@, k as int),
{
    let ghost orig = events@;
    let n = events.len();
    let mut w: usize = 0;
    let mut r: usize = 0;
    while r < n
        invariant
            w <= r <= n,
            n == orig.len(),
            events@.len() == n,
            events@.take(w as int) == without_layer(orig.take(r as int), k as int),
            events@.skip(r as int) == orig.skip(r as int),
        decreases n - r,
    {
        let ghost before = events@;
        let e = events[r];
        proof {
            assert(before[r as int] == before.skip(r as int)[0]);
            assert(orig[r as int] == orig.skip(r as int)[0]);
            assert(orig.take(r + 1).drop_last() =~= orig.take(r as int));
            assert(orig.take(r + 1).last() == e);
        }
        if e.layer == k {
        } else if e.layer > k {
            events.set(w, LoopEvent { layer: e.layer - 1, ..e });
            w = w + 1;
        } else {
            events.set(w, e);
            w = w + 1;
        }
        proof {
            assert(events@.take(w as int) =~= without_layer(orig.take(r + 1), k as int));
            assert forall|j: int| 0 <= j < events@.skip(r + 1).len() implies #[trigger] events@.skip(
                r + 1,
            )[j] == orig.skip(r + 1)[j] by {
                assert(events@.skip(r + 1)[j] == before.skip(r as int)[j + 1]);
                assert(orig.skip(r + 1)[j] == orig.skip(r as int)[j + 1]);
            }
            assert(events@.skip(r + 1) =~= orig.skip(r + 1));
        }
        r = r + 1;
    }
    events.truncate(w);
    assert(orig.take(n as int) =~= orig);
}

impl Looper {
    /// Delete one layer, leaving the others exactly where they were.
    pub fn remove_layer(&mut self, k: usize)
        requires
            old(self)@.wf(),
        ensures
            final(self)@ == old(self)@.layer_removed(k as int),
            final(self)@.wf(),
    {
        if self.state == LoopState::Armed || self.state == LoopState::Recording {
            self.clear();
            return;
        }
        let recording = self.state == LoopState::Overdub;
        if k > self.layer_count || (k == self.layer_count && !recording) {
            return;
        }
        let ghost m0 = self@;
        proof {
            lemma_without_layer(m0.events, k as int);
            lemma_without_layer(m0.pending, k as int);
        }
        drop_layer(&mut self.events, k as u8);
        drop_layer(&mut self.pending, k as u8);
        let mut j: usize = k;
        while j + 1 < MAX_LAYERS
            invariant
                k <= j < MAX_LAYERS,
                self@ == (LoopModel { layers: self@.layers, ..self@ }),
                self.events@ == without_layer(m0.events, k as int),
                self.pending@ == without_layer(m0.pending, k as int),
                self@ == (LoopModel {
                    events: without_layer(m0.events, k as int),
                    pending: without_layer(m0.pending, k as int),
                    layers: self@.layers,
                    ..m0
                }),
                forall|i: int| 0 <= i < k ==> #[trigger] self@.layers[i] == m0.layers[i],
                forall|i: int| k <= i < j ==> #[trigger] self@.layers[i] == m0.layers[i + 1],
                forall|i: int| j <= i < MAX_LAYERS ==> #[trigger] self@.layers[i] == m0.layers[i],
            decreases MAX_LAYERS - j,
        {
            self.layers[j] = self.layers[j + 1];
            j = j + 1;
        }
        self.layers[MAX_LAYERS - 1] = Layer { patch: 0, arp: false, muted: false };
        assert(self@.layers =~= m0.layers.remove(k as int).push(Layer::blank()));
        if k == self.layer_count {
            self.open = [None; 32];
            self.rec_notes = 0;
            self.state = LoopState::Playing;
            assert(self@.open =~= Seq::new(MAX_OPEN as nat, |i: int| None::<Open>));
        } else {
            self.layer_count = self.layer_count - 1;
        }
        let still_recording = self.state == LoopState::Overdub && self.rec_notes > 0;
        if self.layer_count == 0 && !still_recording {
            self.forget();
            return;
        }
        let ghost m2 = self@;
        proof {
            let m = self@;
            assert forall|i: int| 0 <= i < m.events.len() implies {
                &&& (#[trigger] m.events[i]).layer < MAX_LAYERS
                &&& m.events[i].t as int % m.step as int == 0
                &&& m.state.exists_loop() && m.state != LoopState::Recording ==> m.events[i].t
                    < m.len
            } by {
                let w = choose|w: int|
                    0 <= w < m0.events.len() && (#[trigger] m.events[i]).t == m0.events[w].t
                        && m.events[i].layer <= m0.events[w].layer;
                assert(m0.events[w].layer < MAX_LAYERS);
            }
            assert forall|i: int| 0 <= i < m.pending.len() implies {
                &&& (#[trigger] m.pending[i]).layer < MAX_LAYERS
                &&& m.pending[i].t as int % m.step as int == 0
                &&& m.state.exists_loop() && m.state != LoopState::Recording ==> m.pending[i].t
                    < m.len
            } by {
                let w = choose|w: int|
                    0 <= w < m0.pending.len() && (#[trigger] m.pending[i]).t == m0.pending[w].t
                        && m.pending[i].layer <= m0.pending[w].layer;
                assert(m0.pending[w].layer < MAX_LAYERS);
            }
        }
        match self.last_pos {
            Some(p) => {
                let n = self.events.len();
                assert(self.events@.take(n as int) =~= self.events@);
                self.next = upper_bound(&self.events, n, p);
                proof {
                    lemma_sorted_split(self.events@, p as int);
                }
            },
            None => {
                self.next = 0;
            },
        }
    }

    /// Take back the newest layer - the one being recorded, if there is one.
    pub fn undo(&mut self)
        requires
            old(self)@.wf(),
        ensures
            final(self)@ == old(self)@.undone(),
            final(self)@.wf(),
    {
        if self.state == LoopState::Armed || self.state == LoopState::Recording {
            self.clear();
        } else if self.state == LoopState::Overdub && self.rec_notes > 0 {
            self.remove_layer(self.layer_count);
        } else {
            // An overdub pass with nothing played yet ends with the undo.
            if self.state == LoopState::Overdub {
                self.state = LoopState::Playing;
            }
            if self.layer_count > 0 {
                self.remove_layer(self.layer_count - 1);
            }
        }
    }
}

impl Looper {
    /// Fold the last pass's events into the loop, in order of time and only
    /// as many as there is room for.
    fn merge_pending(&mut self)
        requires
            old(self)@.wf(),
            old(self)@.playing_back(),
        ensures
            final(self)@ == (LoopModel { next: final(self)@.next, ..old(self)@.merged() }),
            sorted_by_time(final(self)@.events),
            final(self)@.events.len() <= MAX_EVENTS,
            final(self)@.events_ok(final(self)@.events),
    {
        let ghost m0 = self@;
        let room = MAX_EVENTS - self.events.len();
        self.pending.truncate(room);
        let ghost extra = self.pending@;
        assert(extra =~= m0.pending.take(
            if m0.pending.len() <= room { m0.pending.len() as int } else { room as int },
        ));
        let ghost step = m0.step as int;
        let ghost len = m0.len;
        let ghost p = |e: LoopEvent| e.layer < MAX_LAYERS && e.t as int % step == 0 && e.t < len;
        let n = self.pending.len();
        let mut j: usize = 0;
        while j < n
            invariant
                j <= n,
                n == extra.len(),
                n <= room,
                room == MAX_EVENTS - m0.events.len(),
                self.pending@ == extra,
                self.events@ == insert_all(m0.events, extra.take(j as int)),
                self.events@.len() == m0.events.len() + j,
                sorted_by_time(self.events@),
                self@ == (LoopModel { events: self@.events, pending: extra, ..m0 }),
            decreases n - j,
        {
            let e = self.pending[j];
            proof {
                assert(extra.take(j + 1).drop_last() =~= extra.take(j as int));
                assert(extra.take(j + 1).last() == e);
                lemma_insert_sorted(self.events@, e);
            }
            insert_event(&mut self.events, e);
            j = j + 1;
        }
        assert(extra.take(n as int) =~= extra);
        proof {
            assert forall|i: int| 0 <= i < m0.events.len() implies p(#[trigger] m0.events[i]) by {}
            assert forall|i: int| 0 <= i < extra.len() implies p(#[trigger] extra[i]) by {
                assert(extra[i] == m0.pending[i]);
            }
            lemma_insert_all(m0.events, extra, p);
            let m = self@;
            assert forall|i: int| 0 <= i < m.events.len() implies {
                &&& (#[trigger] m.events[i]).layer < MAX_LAYERS
                &&& m.events[i].t as int % m.step as int == 0
                &&& m.state.exists_loop() && m.state != LoopState::Recording ==> m.events[i].t
                    < m.len
            } by {
                assert(p(insert_all(m0.events, extra)[i]));
            }
        }
        self.pending.clear();
    }

    /// Call once per sample. Every event that starts on this exact sample is
    /// appended to `out`.
    pub fn tick(&mut self, now: u64, out: &mut Vec<LoopEvent>)
        requires
            old(self)@.wf(),
            old(self)@.time_ok(now),
            old(self)@.closing_due(now) ==> old(self)@.release_ok(now),
        ensures
            final(self)@ == old(self)@.ticked(now),
            final(out)@ == old(out)@ + old(self)@.fired(now),
            final(self)@.wf(),
    {
        if self.state == LoopState::Recording && now - self.rec_start >= self.rec_len {
            self.close_first_layer(now);
        } else if self.state == LoopState::Overdub && now - self.pass_start >= self.len {
            self.end_pass(now);
        }
        let ghost a = self@;
        assert(a == old(self)@.advanced(now));
        if !self.state.is_running() || self.len == 0 {
            assert(old(self)@.fired(now) =~= Seq::<LoopEvent>::empty());
            assert(out@ =~= old(out)@ + old(self)@.fired(now));
            return;
        }
        let pos = (now - self.play_start) % self.len;
        let wrapped = match self.last_pos {
            None => true,
            Some(prev) => pos < prev,
        };
        if wrapped {
            if self.pending.len() > 0 {
                self.merge_pending();
            }
            self.next = 0;
        }
        let ghost c = self@;
        assert(c == a.cued(now));
        proof {
            assert forall|j: int| 0 <= j < c.next implies #[trigger] c.events[j].t <= pos by {
                assert(a.last_pos is Some);
                assert(c.events == a.events);
            }
        }
        self.last_pos = Some(pos);
        let ghost out0 = out@;
        let ghost lo = c.next as int;
        assert(c.events.subrange(lo, lo) =~= Seq::<LoopEvent>::empty());
        while self.next < self.events.len() && self.events[self.next].t <= pos
            invariant
                self@ == (LoopModel { last_pos: Some(pos), next: self@.next, ..c }),
                lo == c.next as int,
                lo <= self.next <= c.events.len(),
                c.events_ok(c.events),
                c.layers.len() == MAX_LAYERS,
                forall|j: int| 0 <= j < self.next ==> #[trigger] c.events[j].t <= pos,
                out@ == out0 + audible(c.events.subrange(lo, self.next as int), c.layers),
            decreases c.events.len() - self.next,
        {
            let e = self.events[self.next];
            let i = self.next;
            proof {
                assert(self@.events == c.events);
                assert(self.events@ == c.events);
                assert(e == c.events[i as int]);
                assert(lo <= i as int);
                assert((i as int) < c.events.len());
                let sub = c.events.subrange(lo, i + 1);
                assert(sub.drop_last() =~= c.events.subrange(lo, i as int));
                assert(sub.last() == e);
            }
            if !self.layers[e.layer as usize].muted {
                out.push(e);
            }
            self.next = self.next + 1;
            proof {
                assert(out@ =~= out0 + audible(c.events.subrange(lo, self.next as int), c.layers));
            }
        }
        proof {
            let n = self.next as int;
            assert forall|j: int| n <= j < c.events.len() implies #[trigger] c.events[j].t > pos by {
                assert(c.events[n].t > pos);
                assert(c.events[n].t <= c.events[j].t);
            }
            lemma_split_is_count(c.events, n, pos as int);
            assert(out@ =~= old(out)@ + old(self)@.fired(now));
        }
    }
}

/// A loop is always a whole number of bars, never more than 255 of them.
pub proof fn lemma_loop_is_whole_bars(m: LoopModel)
    requires
        m.wf(),
    ensures
        m.len as int % m.bar_len() == 0,
        m.len <= 255 * m.bar_len(),
        m.events.len() <= MAX_EVENTS,
        m.layer_count <= MAX_LAYERS,
{
}

/// Muting a layer twice leaves the looper as it was.
pub proof fn lemma_mute_twice(m: LoopModel, k: int)
    requires
        m.wf(),
    ensures
        m.toggled(k).toggled(k) == m,
{
    if 0 <= k < MAX_LAYERS {
        assert(m.toggled(k).toggled(k).layers =~= m.layers);
    }
}

/// Pressing record twice without playing anything cancels.
pub proof fn lemma_pedal_twice_cancels(m: LoopModel, a: u64, b: u64)
    requires
        m.wf(),
        m.state == LoopState::Idle,
    ensures
        m.pedaled(a).pedaled(b) == m,
{
}

/// Clearing forgets everything: no events, no layers, nothing playing.
pub proof fn lemma_clear_forgets(m: LoopModel, k: int)
    requires
        m.wf(),
    ensures
        m.cleared().state == LoopState::Idle,
        m.cleared().events.len() == 0,
        m.cleared().pending.len() == 0,
        m.cleared().layer_at(k) is None,
{
}

/// The tempo is locked once a loop exists.
pub proof fn lemma_tempo_locked(m: LoopModel, step: u64)
    requires
        m.state.exists_loop(),
    ensures
        m.with_step(step) == m,
{
}

/// With all eight layers taken, record starts no new pass.
pub proof fn lemma_no_ninth_layer(m: LoopModel, now: u64)
    requires
        m.wf(),
        m.layer_count == MAX_LAYERS,
    ensures
        m.pedaled(now).state != LoopState::Overdub,
        m.pedaled(now).layer_count == MAX_LAYERS,
{
}

/// The first recording stops itself exactly when its bars are up: one
/// sample earlier it is still recording, and on that sample it becomes a
/// playing loop of exactly the recorded length.
pub proof fn lemma_recording_closes_on_time(m: LoopModel, now: u64)
    requires
        m.wf(),
        m.time_ok(now),
        m.state == LoopState::Recording,
        m.release_ok(now),
    ensures
        now - m.rec_start < m.rec_len ==> m.ticked(now) == m,
        now - m.rec_start >= m.rec_len ==> m.ticked(now).state == LoopState::Playing
            && m.ticked(now).len == m.rec_len && m.ticked(now).layer_count == 1,
{
    if now - m.rec_start >= m.rec_len {
        m.lemma_released_all(now);
    }
}

/// A pass with nothing played into it leaves no layer behind; one with
/// something played adds exactly one.
pub proof fn lemma_pass_adds_at_most_one_layer(m: LoopModel, now: u64)
    requires
        m.wf(),
        m.time_ok(now),
        m.state == LoopState::Overdub,
    ensures
        m.pass_ended(now).layer_count == m.layer_count + if m.rec_notes > 0 {
            1int
        } else {
            0int
        },
        m.pass_ended(now).state == LoopState::Playing,
{
    m.lemma_overdub_release_ok(now);
    m.lemma_released_all(now);
}

/// Undo while playing takes back the newest layer only: its events go,
/// every other layer keeps its events, sound and mute setting.
pub proof fn lemma_undo_takes_newest_only(m: LoopModel)
    requires
        m.wf(),
        m.state == LoopState::Playing,
        m.layer_count >= 2,
    ensures
        m.undone().events == without_layer(m.events, m.layer_count - 1),
        m.undone().layer_count == m.layer_count - 1,
        m.undone().state == LoopState::Playing,
        forall|i: int| 0 <= i < m.layer_count - 1 ==> #[trigger] m.undone().layers[i] == m.layers[i],
{
}

/// Deleting a finished layer moves the ones above it down one and leaves
/// the ones below it alone.
pub proof fn lemma_remove_keeps_other_layers(m: LoopModel, k: int)
    requires
        m.wf(),
        m.state == LoopState::Playing || m.state == LoopState::Stopped,
        0 <= k < m.layer_count,
        m.layer_count >= 2,
    ensures
        m.layer_removed(k).layer_count == m.layer_count - 1,
        forall|i: int| 0 <= i < k ==> #[trigger] m.layer_removed(k).layers[i] == m.layers[i],
        forall|i: int| k <= i < MAX_LAYERS - 1 ==> #[trigger] m.layer_removed(k).layers[i] == m.layers[i + 1],
        m.layer_removed(k).events == without_layer(m.events, k),
{
}

/// An event is audible exactly when it is in the list and its layer is not
/// muted.
pub proof fn lemma_audible(s: Seq<LoopEvent>, layers: Seq<Layer>)
    ensures
        forall|x: LoopEvent|
            #[trigger] audible(s, layers).contains(x) <==> (s.contains(x)
                && !layers[x.layer as int].muted),
    decreases s.len(),
{
    if s.len() > 0 {
        let d = s.drop_last();
        lemma_audible(d, layers);
        assert forall|x: LoopEvent| #[trigger] audible(s, layers).contains(x) <==> (s.contains(x)
            && !layers[x.layer as int].muted) by {
            if s.contains(x) {
                let i = choose|i: int| 0 <= i < s.len() && s[i] == x;
                if i < d.len() {
                    assert(d[i] == x);
                }
            }
            if d.contains(x) {
                let i = choose|i: int| 0 <= i < d.len() && d[i] == x;
                assert(s[i] == x);
            }
            if audible(s, layers).contains(x) && !audible(d, layers).contains(x) {
                let r = audible(s, layers);
                let i = choose|i: int| 0 <= i < r.len() && r[i] == x;
                assert(!layers[s.last().layer as int].muted);
                assert(r == audible(d, layers).push(s.last()));
                assert(x == s.last());
                assert(s[s.len() - 1] == x);
            }
            if !layers[s.last().layer as int].muted {
                assert(audible(s, layers) == audible(d, layers).push(s.last()));
                assert(audible(s, layers)[audible(d, layers).len() as int] == s.last());
                if audible(d, layers).contains(x) {
                    let i = choose|i: int| 0 <= i < audible(d, layers).len() && audible(d, layers)[i] == x;
                    assert(audible(s, layers)[i] == x);
                }
            }
        }
    }
}

impl LoopModel {
    /// The position after which events are still to fire at `now`: the
    /// previous sample's position, or just before the top when the loop has
    /// wrapped round or playback has only now begun.
    pub open spec fn window_floor(self, now: u64) -> int {
        let pos = self.play_pos(now);
        match self.last_pos {
            Some(prev) => if pos < prev {
                -1
            } else {
                prev as int
            },
            None => -1,
        }
    }

    /// Ending an overdub pass keeps the invariant and leaves the playback
    /// cursor where it was.
    pub proof fn lemma_pass_ended_wf(self, now: u64)
        requires
            self.wf(),
            self.time_ok(now),
            self.state == LoopState::Overdub,
        ensures
            self.pass_ended(now).wf(),
            self.pass_ended(now).time_ok(now),
            self.pass_ended(now).state == LoopState::Playing,
            self.pass_ended(now).play_start == self.play_start,
            self.pass_ended(now).pass_start == self.pass_start,
            self.pass_ended(now).len == self.len,
            self.pass_ended(now).last_pos == self.last_pos,
            self.pass_ended(now).next == self.next,
    {
        self.lemma_overdub_release_ok(now);
        self.lemma_released_all(now);
    }
}

/// Leaving out the events of muted layers keeps a time-sorted list sorted.
pub proof fn lemma_audible_sorted(s: Seq<LoopEvent>, layers: Seq<Layer>)
    requires
        sorted_by_time(s),
    ensures
        sorted_by_time(audible(s, layers)),
    decreases s.len(),
{
    if s.len() > 0 {
        let d = s.drop_last();
        assert(sorted_by_time(d));
        lemma_audible_sorted(d, layers);
        lemma_audible(d, layers);
        if !layers[s.last().layer as int].muted {
            let a = audible(d, layers);
            let r = a.push(s.last());
            assert forall|i: int, j: int| 0 <= i < j < r.len() implies r[i].t <= r[j].t by {
                if j == r.len() - 1 {
                    assert(a.contains(r[i]));
                    let k = choose|k: int| 0 <= k < d.len() && d[k] == r[i];
                    assert(s[k] == d[k]);
                } else {
                    assert(r[i] == a[i] && r[j] == a[j]);
                }
            }
        }
    }
}

/// With no loop playing - idle, armed or stopped - a tick fires nothing and
/// changes nothing.
pub proof fn lemma_quiet_tick(m: LoopModel, now: u64)
    requires
        m.wf(),
        m.state == LoopState::Idle || m.state == LoopState::Armed || m.state
            == LoopState::Stopped,
    ensures
        m.ticked(now) == m,
        m.fired(now).len() == 0,
{
}

/// The window for a looper that is not due to end its pass on this sample.
proof fn lemma_window(m: LoopModel, now: u64)
    requires
        m.wf(),
        m.time_ok(now),
        m.state.running(),
        !m.pass_due(now),
    ensures
        m.advanced(now) == m,
        forall|x: LoopEvent|
            #[trigger] m.fired(now).contains(x) <==> (exists|i: int|
                0 <= i < m.cued(now).events.len() && m.cued(now).events[i] == x
                    && m.window_floor(now) < x.t <= m.play_pos(now))
                && !m.cued(now).layers[x.layer as int].muted,
        sorted_by_time(m.fired(now)),
{
    let c = m.cued(now);
    let pos = m.play_pos(now);
    let lo = m.window_floor(now);
    let wrapped = match m.last_pos {
        None => true,
        Some(prev) => pos < prev,
    };
    if wrapped && m.pending.len() > 0 {
        let room = MAX_EVENTS - m.events.len();
        let take = if m.pending.len() <= room {
            m.pending.len() as int
        } else {
            room
        };
        lemma_insert_all(m.events, m.pending.take(take), |e: LoopEvent| true);
    }
    assert(sorted_by_time(c.events));
    assert(split_at_time(c.events, c.next as int, lo));
    lemma_split_is_count(c.events, c.next as int, lo);
    lemma_sorted_split(c.events, pos);
    let hi = count_le(c.events, pos) as int;
    if c.next > hi {
        assert(c.events[hi].t <= lo);
    }
    assert(c.next <= hi);
    assert(m.fired(now) == audible(c.events.subrange(c.next as int, hi), c.layers));
    let sub = c.events.subrange(c.next as int, hi);
    lemma_audible(sub, c.layers);
    assert(sorted_by_time(sub)) by {
        assert forall|i: int, j: int| 0 <= i < j < sub.len() implies sub[i].t <= sub[j].t by {
            assert(sub[i] == c.events[c.next + i] && sub[j] == c.events[c.next + j]);
        }
    }
    lemma_audible_sorted(sub, c.layers);
    assert forall|x: LoopEvent| #[trigger] m.fired(now).contains(x) <==> (exists|i: int|
        0 <= i < c.events.len() && c.events[i] == x && lo < x.t <= pos)
        && !c.layers[x.layer as int].muted by {
        if sub.contains(x) {
            let j = choose|j: int| 0 <= j < sub.len() && sub[j] == x;
            assert(c.events[c.next + j] == x);
        }
        if exists|i: int| 0 <= i < c.events.len() && c.events[i] == x && lo < x.t <= pos {
            let i = choose|i: int| 0 <= i < c.events.len() && c.events[i] == x && lo < x.t <= pos;
            assert(c.next <= i < hi);
            assert(sub[i - c.next] == x);
        }
    }
}

/// Playback is exact: on each sample while the loop plays, what fires is
/// every event of an unmuted layer that starts after the previous sample's
/// position (or from the top, when the loop has just wrapped) and no later
/// than this one's - and nothing else. This holds while overdubbing too, and
/// on the sample that ends a pass. A stopped loop fires nothing.
pub proof fn lemma_fired_window(m: LoopModel, now: u64)
    requires
        m.wf(),
        m.time_ok(now),
        m.state.running() || m.state == LoopState::Stopped,
    ensures
        m.state.running() ==> ({
            let a = m.advanced(now);
            &&& a.state.running()
            &&& a.play_start == m.play_start
            &&& a.len == m.len
            &&& a.last_pos == m.last_pos
            &&& forall|x: LoopEvent|
                #[trigger] m.fired(now).contains(x) <==> (exists|i: int|
                    0 <= i < a.cued(now).events.len() && a.cued(now).events[i] == x
                        && m.window_floor(now) < x.t <= m.play_pos(now))
                    && !a.cued(now).layers[x.layer as int].muted
            &&& sorted_by_time(m.fired(now))
        }),
        m.state == LoopState::Stopped ==> m.fired(now).len() == 0,
{
    if m.state.running() {
        if m.pass_due(now) {
            let a = m.pass_ended(now);
            m.lemma_pass_ended_wf(now);
            lemma_window(a, now);
            assert(m.advanced(now) == a);
            assert(m.fired(now) == a.fired(now));
        } else {
            lemma_window(m, now);
        }
    }
}

/// One sample on, the position in a loop of `len` samples moves up by one,
/// or wraps from the last sample back to the top.
proof fn lemma_next_position(q: int, len: int)
    requires
        0 <= q,
        1 <= len,
    ensures
        0 <= q % len < len,
        q % len + 1 < len ==> (q + 1) % len == q % len + 1,
        q % len + 1 == len ==> (q + 1) % len == 0,
{
    vstd::arithmetic::div_mod::lemma_fundamental_div_mod(q, len);
    vstd::arithmetic::div_mod::lemma_mod_pos_bound(q, len);
    let k = q / len;
    let r = q % len;
    assert(len * k == k * len) by (nonlinear_arith);
    if r + 1 < len {
        vstd::arithmetic::div_mod::lemma_fundamental_div_mod_converse(q + 1, len, k, r + 1);
    } else if r + 1 == len {
        assert((k + 1) * len == k * len + len) by (nonlinear_arith);
        vstd::arithmetic::div_mod::lemma_fundamental_div_mod_converse(q + 1, len, k + 1, 0);
    }
}

/// Each event fires on its own sample. When the previous tick was the
/// sample just before this one (or playback starts at the top on this
/// sample), what fires is exactly the events of unmuted layers that start at
/// the current position; and the tick leaves the looper playing the same
/// loop from the same start, with its cursor on this position, so the next
/// sample meets the same condition.
pub proof fn lemma_fires_on_its_sample(m: LoopModel, now: u64)
    requires
        m.wf(),
        m.time_ok(now),
        m.state.running(),
        match m.last_pos {
            Some(p) => m.play_start < now && p == m.play_pos((now - 1) as u64),
            None => m.play_pos(now) == 0,
        },
    ensures
        forall|x: LoopEvent|
            #[trigger] m.fired(now).contains(x) <==> m.advanced(now).cued(now).events.contains(x)
                && x.t == m.play_pos(now) && !m.advanced(now).cued(now).layers[x.layer as int].muted,
        m.ticked(now).state.running(),
        m.ticked(now).play_start == m.play_start,
        m.ticked(now).len == m.len,
        m.ticked(now).last_pos == Some(m.play_pos(now) as u64),
{
    lemma_fired_window(m, now);
    let a = m.advanced(now);
    let c = a.cued(now);
    let pos = m.play_pos(now);
    let lo = m.window_floor(now);
    assert(m.len >= 8) by {
        if m.len < m.bar_len() {
            vstd::arithmetic::div_mod::lemma_small_mod(m.len as nat, m.bar_len() as nat);
        }
    }
    vstd::arithmetic::div_mod::lemma_mod_pos_bound(now - m.play_start, m.len as int);
    match m.last_pos {
        Some(p) => {
            lemma_next_position(now - 1 - m.play_start, m.len as int);
            assert(lo == pos - 1 || (lo == -1 && pos == 0));
        },
        None => {},
    }
    assert forall|x: LoopEvent| #[trigger] m.fired(now).contains(x) <==> c.events.contains(x)
        && x.t == pos && !c.layers[x.layer as int].muted by {
        if c.events.contains(x) && x.t == pos {
            let i = choose|i: int| 0 <= i < c.events.len() && c.events[i] == x;
            assert(0 <= i < c.events.len() && c.events[i] == x && lo < x.t <= pos);
        }
    }
}


impl LoopModel {
    /// A tick while the loop plays keeps the invariant, and keeps the loop,
    /// its start and the start of the pass.
    pub proof fn lemma_ticked_wf(self, now: u64)
        requires
            self.wf(),
            self.time_ok(now),
            self.state.running(),
        ensures
            self.ticked(now).wf(),
            self.ticked(now).state.running(),
            self.ticked(now).state == LoopState::Overdub ==> self.state == LoopState::Overdub,
            self.ticked(now).play_start == self.play_start,
            self.ticked(now).pass_start == self.pass_start,
            self.ticked(now).len == self.len,
            self.ticked(now).last_pos == Some(self.play_pos(now) as u64),
    {
        let a = self.advanced(now);
        if self.pass_due(now) {
            self.lemma_pass_ended_wf(now);
        }
        assert(a.wf());
        let pos = a.play_pos(now);
        let c = a.cued(now);
        let wrapped = match a.last_pos {
            None => true,
            Some(prev) => pos < prev,
        };
        if wrapped && a.pending.len() > 0 {
            let room = MAX_EVENTS - a.events.len();
            let take = if a.pending.len() <= room {
                a.pending.len() as int
            } else {
                room
            };
            let extra = a.pending.take(take);
            let step = a.step as int;
            let len = a.len;
            let p = |e: LoopEvent| e.layer < MAX_LAYERS && e.t as int % step == 0 && e.t < len;
            assert forall|i: int| 0 <= i < a.events.len() implies p(#[trigger] a.events[i]) by {}
            assert forall|i: int| 0 <= i < extra.len() implies p(#[trigger] extra[i]) by {
                assert(extra[i] == a.pending[i]);
            }
            lemma_insert_all(a.events, extra, p);
            assert forall|i: int| 0 <= i < c.events.len() implies {
                &&& (#[trigger] c.events[i]).layer < MAX_LAYERS
                &&& c.events[i].t as int % c.step as int == 0
                &&& c.state.exists_loop() && c.state != LoopState::Recording ==> c.events[i].t
                    < c.len
            } by {
                assert(p(c.events[i]));
            }
        }
        assert(sorted_by_time(c.events));
        vstd::arithmetic::div_mod::lemma_mod_pos_bound(now - a.play_start, a.len as int);
        lemma_sorted_split(c.events, pos);
    }
}

/// The looper after ticking the `n` samples from `start` on, one by one.
pub open spec fn ticked_run(m: LoopModel, start: u64, n: nat) -> LoopModel
    decreases n,
{
    if n == 0 {
        m
    } else {
        ticked_run(m, start, (n - 1) as nat).ticked((start + n - 1) as u64)
    }
}

/// Over a run of consecutive samples, every event fires on the sample
/// whose place in the loop is the event's start - so once each time round
/// the loop - if its layer is unmuted, and never if it is muted. The run
/// starts where playback began at the top, or on the sample after the last
/// tick; the loop, its start and its length stay the same throughout, also
/// when an overdub pass ends on the way.
pub proof fn lemma_run_fires_each_on_its_sample(m: LoopModel, start: u64, n: nat)
    requires
        m.wf(),
        m.time_ok(start),
        m.state.running(),
        start + n <= MAX_TIME,
        match m.last_pos {
            Some(p) => m.play_start < start && p == m.play_pos((start - 1) as u64),
            None => m.play_pos(start) == 0,
        },
    ensures
        forall|k: nat|
            k < n ==> {
                let s = #[trigger] ticked_run(m, start, k);
                let now = (start + k) as u64;
                &&& s.wf()
                &&& s.state.running()
                &&& s.play_start == m.play_start
                &&& s.len == m.len
                &&& forall|x: LoopEvent|
                    #[trigger] s.fired(now).contains(x) <==> s.advanced(now).cued(
                        now,
                    ).events.contains(x) && x.t == (now - m.play_start) % (m.len as int)
                        && !s.advanced(now).cued(now).layers[x.layer as int].muted
            },
    decreases n,
{
    if n > 0 {
        lemma_run_fires_each_on_its_sample(m, start, (n - 1) as nat);
        let k = (n - 1) as nat;
        let now = (start + k) as u64;
        let s = ticked_run(m, start, k);
        if k == 0 {
            lemma_fires_on_its_sample(m, start);
        } else {
            lemma_run_state(m, start, k);
            lemma_fires_on_its_sample(s, now);
        }
        assert forall|i: nat| i < n implies {
            let s = #[trigger] ticked_run(m, start, i);
            let now = (start + i) as u64;
            &&& s.wf()
            &&& s.state.running()
            &&& s.play_start == m.play_start
            &&& s.len == m.len
            &&& forall|x: LoopEvent|
                #[trigger] s.fired(now).contains(x) <==> s.advanced(now).cued(
                    now,
                ).events.contains(x) && x.t == (now - m.play_start) % (m.len as int)
                    && !s.advanced(now).cued(now).layers[x.layer as int].muted
        } by {}
    }
}

/// Along a run the looper keeps its invariant, keeps playing the same loop
/// from the same start, and is on time for the next sample.
proof fn lemma_run_state(m: LoopModel, start: u64, n: nat)
    requires
        m.wf(),
        m.time_ok(start),
        m.state.running(),
        start + n <= MAX_TIME,
    ensures
        ticked_run(m, start, n).wf(),
        ticked_run(m, start, n).state.running(),
        ticked_run(m, start, n).play_start == m.play_start,
        ticked_run(m, start, n).len == m.len,
        ticked_run(m, start, n).pass_start == m.pass_start,
        ticked_run(m, start, n).state == LoopState::Overdub ==> m.state == LoopState::Overdub,
        ticked_run(m, start, n).time_ok((start + n) as u64),
        n > 0 ==> ticked_run(m, start, n).last_pos == Some(
            ticked_run(m, start, n).play_pos((start + n - 1) as u64) as u64,
        ),
    decreases n,
{
    if n > 0 {
        let j = (n - 1) as nat;
        let prev = ticked_run(m, start, j);
        lemma_run_state(m, start, j);
        prev.lemma_ticked_wf((start + j) as u64);
    }
}

/// The ids of the chords held in slots `i..`, in the order of their slots.
pub open spec fn open_ids(open: Seq<Option<Open>>, i: int) -> Seq<u64>
    decreases open.len() - i,
{
    if i >= open.len() || i < 0 {
        Seq::empty()
    } else {
        match open[i] {
            Some(o) => seq![o.id] + open_ids(open, i + 1),
            None => open_ids(open, i + 1),
        }
    }
}

impl LoopModel {
    /// The chords with these ids let go at `now`, one after another.
    pub open spec fn noted_off_each(self, now: u64, ids: Seq<u64>) -> LoopModel
        decreases ids.len(),
    {
        if ids.len() == 0 {
            self
        } else {
            self.noted_off(now, ids[0]).noted_off_each(now, ids.drop_first())
        }
    }
}

/// Past empty slots, the search for an id goes on from the first one that
/// is not.
proof fn lemma_find_id_skips(open: Seq<Option<Open>>, id: u64, i: int, k: int)
    requires
        0 <= i <= k <= open.len(),
        forall|j: int| i <= j < k ==> #[trigger] open[j] is None,
    ensures
        find_id(open, id, i) == find_id(open, id, k),
    decreases k - i,
{
    if i < k {
        lemma_find_id_skips(open, id, i + 1, k);
    }
}

/// Only the slots from `i` on decide the ids listed from `i`.
proof fn lemma_open_ids_from(a: Seq<Option<Open>>, b: Seq<Option<Open>>, i: int)
    requires
        0 <= i,
        a.len() == b.len(),
        forall|j: int| i <= j < a.len() ==> #[trigger] a[j] == b[j],
    ensures
        open_ids(a, i) == open_ids(b, i),
    decreases a.len() - i,
{
    if i < a.len() {
        lemma_open_ids_from(a, b, i + 1);
    }
}

/// Letting go of slots `i..` empties exactly those slots.
proof fn lemma_released_from_slots(m: LoopModel, now: u64, i: int)
    requires
        m.open.len() == MAX_OPEN,
        0 <= i <= MAX_OPEN,
    ensures
        m.released_from(now, i).open.len() == MAX_OPEN,
        forall|j: int| i <= j < MAX_OPEN ==> #[trigger] m.released_from(now, i).open[j] is None,
        forall|j: int| 0 <= j < i ==> #[trigger] m.released_from(now, i).open[j] == m.open[j],
    decreases MAX_OPEN - i,
{
    if i < MAX_OPEN {
        lemma_released_from_slots(m.released_slot(now, i), now, i + 1);
    }
}

/// From slot `i` on, letting go of every held chord is letting go of each
/// one by its id, in slot order, when the slots before `i` are empty.
proof fn lemma_released_from_each(m: LoopModel, now: u64, i: int)
    requires
        m.open.len() == MAX_OPEN,
        0 <= i <= MAX_OPEN,
        forall|j: int| 0 <= j < i ==> #[trigger] m.open[j] is None,
    ensures
        m.noted_off_each(now, open_ids(m.open, i)) == m.released_from(now, i),
    decreases MAX_OPEN - i,
{
    if i < MAX_OPEN {
        let r = m.released_slot(now, i);
        match m.open[i] {
            Some(o) => {
                let ids = open_ids(m.open, i);
                assert(ids[0] == o.id);
                assert(ids.drop_first() =~= open_ids(m.open, i + 1));
                lemma_find_id_skips(m.open, o.id, 0, i);
                assert(m.noted_off(now, o.id) == r);
                assert forall|j: int| i + 1 <= j < MAX_OPEN implies #[trigger] r.open[j]
                    == m.open[j] by {}
                lemma_open_ids_from(r.open, m.open, i + 1);
                assert forall|j: int| 0 <= j < i + 1 implies #[trigger] r.open[j] is None by {
                    if j < i {
                        assert(r.open[j] == m.open[j]);
                    }
                }
                lemma_released_from_each(r, now, i + 1);
            },
            None => {
                assert(r == m);
                lemma_released_from_each(m, now, i + 1);
            },
        }
    }
}

/// Letting go of everything at once is letting go of each held chord in
/// turn, by its id, in the order of the slots they are held in: each ends
/// at `now` as it would on its own. Afterwards no chord is held, so a later
/// release of any id records nothing, and the looper's state, loop and
/// cursor are as before.
pub proof fn lemma_release_all_is_each_note_off(m: LoopModel, now: u64, later: u64, id: u64)
    requires
        m.wf(),
        m.time_ok(now),
        m.release_ok(now),
    ensures
        m.noted_off_each(now, open_ids(m.open, 0)) == m.released_all(now),
        m.released_all(now).no_open(),
        m.released_all(now).noted_off(later, id) == m.released_all(now),
        m.released_all(now).same_control(m),
{
    lemma_released_from_each(m, now, 0);
    m.lemma_released_all(now);
    let r = m.released_all(now);
    lemma_released_from_slots(m, now, 0);
    lemma_find_id_skips(r.open, id, 0, MAX_OPEN as int);
}

/// What the record button does, state by state, in terms of what the
/// looper shows: `n` is the number of finished layers (the ones
/// `layer_at` reports as not being recorded).
/// - idle: arms; armed: disarms;
/// - while the first layer records: it goes on recording, and its length
///   becomes the bars begun so far (at least one), if that is shorter than
///   the length chosen;
/// - playing or stopped with room for a layer: an overdub pass starts now,
///   with nothing played into it yet; from stopped, playback restarts at
///   the top now, while playing it carries on where it is;
/// - overdubbing: playback goes on, and the pass becomes one more finished
///   layer exactly when a chord was played into it;
/// - playing or stopped with every layer taken: nothing changes.
pub proof fn lemma_record_button(m: LoopModel, now: u64)
    requires
        m.wf(),
        m.time_ok(now),
    ensures
        forall|k: int|
            (#[trigger] m.layer_at(k) matches Some((_, rec)) && !rec) <==> 0 <= k < m.layer_count,
        m.state == LoopState::Idle ==> m.pedaled(now).state == LoopState::Armed,
        m.state == LoopState::Armed ==> m.pedaled(now).state == LoopState::Idle,
        m.state == LoopState::Recording ==> {
            let p = m.pedaled(now);
            let begun = ceil_div(now - m.rec_start, m.bar_len());
            let bars = if begun < 1 {
                1
            } else {
                begun
            };
            &&& p.state == LoopState::Recording
            &&& p.rec_start == m.rec_start
            &&& p.bars_long() == if m.bars_long() <= bars {
                m.bars_long()
            } else {
                bars
            }
        },
        (m.state == LoopState::Playing || m.state == LoopState::Stopped) && m.layer_count
            < MAX_LAYERS ==> {
            let p = m.pedaled(now);
            &&& p.state == LoopState::Overdub
            &&& p.pass_start == now
            &&& p.layer_count == m.layer_count
            &&& p.layer_at(m.layer_count as int) is None
            &&& p.len == m.len
            &&& p.events == m.events
        },
        m.state == LoopState::Stopped && m.layer_count < MAX_LAYERS ==> {
            let p = m.pedaled(now);
            &&& p.play_start == now
            &&& p.last_pos is None
            &&& p.play_pos(now) == 0
        },
        m.state == LoopState::Playing && m.layer_count < MAX_LAYERS ==> {
            let p = m.pedaled(now);
            &&& p.play_start == m.play_start
            &&& p.last_pos == m.last_pos
        },
        m.state == LoopState::Overdub ==> {
            let p = m.pedaled(now);
            &&& p.state == LoopState::Playing
            &&& p.layer_count == m.layer_count + if m.layer_at(m.layer_count as int) is Some {
                1int
            } else {
                0int
            }
            &&& p.no_open()
            &&& p.play_start == m.play_start
            &&& p.len == m.len
        },
        (m.state == LoopState::Playing || m.state == LoopState::Stopped) && m.layer_count
            == MAX_LAYERS ==> m.pedaled(now) == m,
{
    if m.state == LoopState::Recording {
        let bar = m.bar_len();
        let begun = ceil_div(now - m.rec_start, bar);
        let bars = if begun < 1 {
            1
        } else {
            begun
        };
        let big_l = m.rec_len as int / bar;
        vstd::arithmetic::div_mod::lemma_fundamental_div_mod(m.rec_len as int, bar);
        assert(m.rec_len == big_l * bar) by (nonlinear_arith)
            requires
                m.rec_len as int == bar * big_l + m.rec_len as int % bar,
                m.rec_len as int % bar == 0,
        ;
        assert(m.rec_len <= bars * bar <==> big_l <= bars) by (nonlinear_arith)
            requires
                m.rec_len == big_l * bar,
                bar > 0,
        ;
        vstd::arithmetic::div_mod::lemma_div_multiples_vanish(bars, bar);
        vstd::arithmetic::div_mod::lemma_div_multiples_vanish(big_l, bar);
        assert(bar * bars == bars * bar && bar * big_l == big_l * bar) by (nonlinear_arith);
        assert(bars * bar >= bar) by (nonlinear_arith)
            requires
                bars >= 1,
                bar >= 1,
        ;
    }
    if m.state == LoopState::Overdub {
        m.lemma_pass_ended_wf(now);
        m.lemma_overdub_release_ok(now);
        m.lemma_released_all(now);
    }
    if m.state == LoopState::Stopped {
        vstd::arithmetic::div_mod::lemma_small_mod(0, m.len as nat);
    }
}

/// The play / stop button. A running loop stops: an overdub pass ends first,
/// becoming one more layer exactly when a chord was played into it, the loop
/// keeps its events and its length, and from then on every tick fires
/// nothing and changes nothing. A stopped loop plays again from the top,
/// now. Armed disarms; idle and the first recording are left alone.
pub proof fn lemma_play_stop_button(m: LoopModel, now: u64, later: u64)
    requires
        m.wf(),
        m.time_ok(now),
    ensures
        m.state.running() ==> {
            let p = m.play_stopped(now);
            &&& p.state == LoopState::Stopped
            &&& p.wf()
            &&& p.len == m.len
            &&& p.events == m.events
            &&& p.no_open()
            &&& p.layer_count == m.layer_count + if m.state == LoopState::Overdub
                && m.layer_at(m.layer_count as int) is Some {
                1int
            } else {
                0int
            }
            &&& p.fired(later).len() == 0
            &&& p.ticked(later) == p
        },
        m.state == LoopState::Stopped ==> {
            let p = m.play_stopped(now);
            &&& p.state == LoopState::Playing
            &&& p.play_start == now
            &&& p.last_pos is None
            &&& p.play_pos(now) == 0
            &&& p.events == m.events
        },
        m.state == LoopState::Armed ==> m.play_stopped(now).state == LoopState::Idle,
        m.state == LoopState::Idle || m.state == LoopState::Recording ==> m.play_stopped(now)
            == m,
{
    if m.state == LoopState::Overdub {
        m.lemma_pass_ended_wf(now);
        m.lemma_overdub_release_ok(now);
        m.lemma_released_all(now);
    }
    if m.state.running() {
        let p = m.play_stopped(now);
        assert(p.wf());
        lemma_quiet_tick(p, later);
    }
    if m.state == LoopState::Stopped {
        vstd::arithmetic::div_mod::lemma_small_mod(0, m.len as nat);
    }
}

/// `snap` in machine integers.
fn snap_exec(x: u64, step: u64) -> (r: u128)
    requires
        step >= 1,
    ensures
        r == snap(x as int, step as int),
{
    let s = step as u128;
    let z: u128 = x as u128 + s / 2;
    let y = z / s;
    assert(y * s <= z) by (nonlinear_arith)
        requires
            y == z / s,
            s >= 1,
    ;
    y * s
}

impl Looper {
    /// Whether `now` is a time the looper can be told about.
    pub fn time_ok_at(&self, now: u64) -> (b: bool)
        ensures
            b == self@.time_ok(now),
    {
        now <= MAX_TIME && (self.state != LoopState::Recording || self.rec_start <= now) && (
        self.len == 0 || self.play_start <= now) && (self.state != LoopState::Overdub
            || self.pass_start <= now)
    }

    fn finish_ok_at(&self, now: u64, o: &Open) -> (b: bool)
        requires
            self@.wf(),
            self@.time_ok(now),
        ensures
            b == self@.finish_ok(now, *o),
    {
        let cycle: u64 = if self.state == LoopState::Recording {
            self.rec_len
        } else {
            self.len
        };
        let pos = self.pos(now);
        let end = if pos >= o.start {
            pos
        } else {
            cycle
        };
        end >= o.start || snap_exec(end, self.step) > snap_exec(o.start, self.step)
    }

    /// Whether every chord still open can be let go at `now`.
    pub fn release_ok_at(&self, now: u64) -> (b: bool)
        requires
            self@.wf(),
            self@.time_ok(now),
        ensures
            b == self@.release_ok(now),
    {
        let mut i: usize = 0;
        while i < MAX_OPEN
            invariant
                i <= MAX_OPEN,
                self@.wf(),
                self@.time_ok(now),
                forall|j: int|
                    0 <= j < i && (#[trigger] self@.open[j]) is Some ==> self@.finish_ok(
                        now,
                        self@.open[j]->0,
                    ),
            decreases MAX_OPEN - i,
        {
            match self.open[i] {
                Some(o) => {
                    if !self.finish_ok_at(now, &o) {
                        assert(self@.open[i as int] is Some);
                        return false;
                    }
                },
                None => {},
            }
            i = i + 1;
        }
        true
    }

    /// Whether the chord `id` can be let go at `now`.
    pub fn note_off_ok_at(&self, now: u64, id: u64) -> (b: bool)
        requires
            self@.wf(),
            self@.time_ok(now),
        ensures
            b == (find_id(self@.open, id, 0) < MAX_OPEN ==> self@.finish_ok(
                now,
                self@.open[find_id(self@.open, id, 0)]->0,
            )),
    {
        let mut i: usize = 0;
        while i < MAX_OPEN && !self.slot_holds(i, id)
            invariant
                self@.wf(),
                i <= MAX_OPEN,
                find_id(self@.open, id, 0) == find_id(self@.open, id, i as int),
            decreases MAX_OPEN - i,
        {
            i = i + 1;
        }
        if i < MAX_OPEN {
            assert(find_id(self@.open, id, i as int) == i as int);
            match self.open[i] {
                Some(o) => self.finish_ok_at(now, &o),
                None => true,
            }
        } else {
            true
        }
    }

    /// Whether the looper can be ticked at `now`.
    pub fn tick_ok_at(&self, now: u64) -> (b: bool)
        requires
            self@.wf(),
        ensures
            b == (self@.time_ok(now) && (self@.closing_due(now) ==> self@.release_ok(now))),
    {
        if !self.time_ok_at(now) {
            return false;
        }
        if self.state == LoopState::Recording && now - self.rec_start >= self.rec_len {
            self.release_ok_at(now)
        } else {
            true
        }
    }
}

} // verus!
