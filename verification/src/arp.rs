//! The arpeggiator: instead of a chord sounding as a block, its notes take
//! turns, one per step, for as long as the chord is held. Chords reach it as
//! HOLDS - "these pitches are down over this span of samples" - whether from
//! a finger (which ends when it lets go) or from the looper (which knows its
//! end in advance). It decides which pitch starts on which sample; the
//! engine turns that into sound.

use vstd::prelude::*;

use crate::looper::{MAX_STEP, MAX_TIME};
use crate::theory::{arp_index, arp_index_spec, ArpPattern, Chord};

verus! {

/// Preallocated and never grown past this many holds.
pub const MAX_HOLDS: usize = 64;

/// A chord that is down over a span of samples.
#[derive(Clone, Copy, Debug)]
pub struct Hold {
    /// `Some` for a finger, which is released by id; `None` for a looped
    /// chord, which knows its own end.
    pub id: Option<u64>,
    pub chord: Chord,
    pub from: u64,
    pub until: u64,
    /// Counts from the moment this chord went down, so every chord starts
    /// its pattern on its own first note.
    pub step: usize,
    /// The sound its notes play with.
    pub patch: u8,
}

/// One arpeggiated note: position `index` of a `count`-note chord, held for
/// `gate` samples.
#[derive(Clone, Copy, Debug, PartialEq, Eq)]
pub struct ArpNote {
    pub pitch: i32,
    pub index: usize,
    pub count: usize,
    pub gate: u64,
    pub patch: u8,
}

pub struct Arp {
    pub on: bool,
    pub pattern: ArpPattern,
    /// One step (an eighth note) in samples - also the looper's grid.
    pub step_len: u64,
    /// How long each note sounds: a little shorter than a step.
    pub gate: u64,
    pub next_step: u64,
    pub holds: Vec<Hold>,
    /// The shortest note it will play, in samples.
    pub min_gate: u64,
}

/// Whether `h` is down on the sample at `now`.
pub open spec fn sounds_at(h: Hold, now: u64) -> bool {
    h.from <= now < h.until
}

/// How long each note sounds: four fifths of a step, but never shorter
/// than `min_gate` nor longer than the step.
pub open spec fn gate_for(step_len: u64, min_gate: u64) -> u64 {
    let g = step_len * 4 / 5;
    let g = if g < min_gate {
        min_gate as int
    } else {
        g
    };
    if g > step_len {
        step_len
    } else {
        g as u64
    }
}

/// The note each hold sounding at `now` plays, in order of the holds.
pub open spec fn notes_at(holds: Seq<Hold>, pattern: ArpPattern, gate: u64, now: u64) -> Seq<ArpNote>
    decreases holds.len(),
{
    if holds.len() == 0 {
        Seq::empty()
    } else {
        let rest = notes_at(holds.drop_last(), pattern, gate, now);
        let h = holds.last();
        if sounds_at(h, now) {
            let n = h.chord@.len();
            let i = arp_index_spec(pattern, n, h.step as nat);
            rest.push(ArpNote { pitch: h.chord@[i as int], index: i as usize, count: n as usize, gate, patch: h.patch })
        } else {
            rest
        }
    }
}

/// Every hold sounding at `now` moved on one step.
pub open spec fn stepped(holds: Seq<Hold>, now: u64) -> Seq<Hold> {
    Seq::new(
        holds.len(),
        |i: int|
            if sounds_at(holds[i], now) {
                Hold { step: (holds[i].step + 1) as usize, ..holds[i] }
            } else {
                holds[i]
            },
    )
}

/// The holds still down after `now`, in order.
pub open spec fn unexpired(holds: Seq<Hold>, now: u64) -> Seq<Hold>
    decreases holds.len(),
{
    if holds.len() == 0 {
        holds
    } else if holds.last().until > now {
        unexpired(holds.drop_last(), now).push(holds.last())
    } else {
        unexpired(holds.drop_last(), now)
    }
}

/// The holds of a finger with this id, let go at `now`.
pub open spec fn let_go(holds: Seq<Hold>, id: Option<u64>, now: u64) -> Seq<Hold> {
    Seq::new(
        holds.len(),
        |i: int|
            if (id is Some && holds[i].id == id) || (id is None && holds[i].id is Some) {
                Hold {
                    until: if holds[i].until < now {
                        holds[i].until
                    } else {
                        now
                    },
                    ..holds[i]
                }
            } else {
                holds[i]
            },
    )
}


/// The arpeggiator as values.
pub struct ArpView {
    pub on: bool,
    pub pattern: ArpPattern,
    pub step_len: u64,
    pub gate: u64,
    pub next_step: u64,
    pub holds: Seq<Hold>,
    pub min_gate: u64,
}

impl View for Arp {
    type V = ArpView;

    open spec fn view(&self) -> ArpView {
        ArpView {
            on: self.on,
            pattern: self.pattern,
            step_len: self.step_len,
            gate: self.gate,
            next_step: self.next_step,
            holds: self.holds@,
            min_gate: self.min_gate,
        }
    }
}

impl ArpView {
    /// Whether anything is down on the sample at `now`.
    pub open spec fn sounding_at(self, now: u64) -> bool {
        exists|i: int| 0 <= i < self.holds.len() && sounds_at(#[trigger] self.holds[i], now)
    }

    /// A chord held from `now` until `until`: a finger's by `id`, or the
    /// looper's. Nothing sounding: the grid starts on this press.
    pub open spec fn added(self, now: u64, id: Option<u64>, chord: Chord, until: u64, patch: u8) -> ArpView {
        if chord@.len() == 0 || self.holds.len() >= MAX_HOLDS {
            self
        } else {
            ArpView {
                holds: self.holds.push(Hold { id, chord, from: now, until, step: 0, patch }),
                next_step: if self.sounding_at(now) {
                    self.next_step
                } else {
                    now
                },
                ..self
            }
        }
    }

    /// The finger `id` (every finger, for `None`) let go at `now`.
    pub open spec fn let_go_of(self, id: Option<u64>, now: u64) -> ArpView {
        ArpView { holds: let_go(self.holds, id, now), ..self }
    }

    /// Whether a step falls on the sample at `now`.
    pub open spec fn step_due(self, now: u64) -> bool {
        !(self.holds.len() == 0 || now < self.next_step)
    }

    /// The arpeggiator after the sample at `now`.
    pub open spec fn ticked(self, now: u64) -> ArpView {
        if !self.step_due(now) {
            self
        } else {
            ArpView {
                holds: unexpired(stepped(self.holds, now), now),
                next_step: (if self.next_step + self.step_len <= now {
                    now + self.step_len
                } else {
                    self.next_step + self.step_len
                }) as u64,
                ..self
            }
        }
    }

    /// The notes that start on the sample at `now`.
    pub open spec fn notes(self, now: u64) -> Seq<ArpNote> {
        if !self.step_due(now) {
            Seq::empty()
        } else {
            notes_at(self.holds, self.pattern, self.gate, now)
        }
    }

    /// Whether every hold's step count can move on once more.
    pub open spec fn steps_fit(self) -> bool {
        forall|i: int| 0 <= i < self.holds.len() ==> (#[trigger] self.holds[i]).step < usize::MAX
    }
}

impl Arp {
    /// Whether every hold's step count can move on once more.
    pub fn steps_fit(&self) -> (b: bool)
        ensures
            b == self@.steps_fit(),
    {
        let mut i: usize = 0;
        while i < self.holds.len()
            invariant
                i <= self.holds@.len(),
                forall|j: int| 0 <= j < i ==> (#[trigger] self.holds@[j]).step < usize::MAX,
            decreases self.holds@.len() - i,
        {
            if self.holds[i].step == usize::MAX {
                assert(self@.holds[i as int].step == usize::MAX);
                return false;
            }
            i = i + 1;
        }
        true
    }

    /// The arpeggiator's invariant.
    pub open spec fn wf(&self) -> bool {
        &&& 1 <= self.step_len <= MAX_STEP
        &&& 1 <= self.min_gate
        &&& self.gate == gate_for(self.step_len, self.min_gate)
        &&& self.holds@.len() <= MAX_HOLDS
        &&& self.next_step <= MAX_TIME + MAX_STEP
        &&& forall|i: int| 0 <= i < self.holds@.len() ==> (#[trigger] self.holds@[i]).chord@.len() > 0
    }

    /// Whether anything is down on the sample at `now`.
    pub open spec fn sounding_at(&self, now: u64) -> bool {
        exists|i: int| 0 <= i < self.holds@.len() && sounds_at(#[trigger] self.holds@[i], now)
    }

    /// `min_gate` is the shortest note it will play, in samples; `step_len`
    /// is one step, in samples.
    pub fn new(min_gate: u64, step_len: u64) -> (a: Arp)
        requires
            step_len <= MAX_STEP,
        ensures
            a.wf(),
            !a.on,
            a.pattern == ArpPattern::Up,
            a.holds@.len() == 0,
            a.next_step == 0,
            a.min_gate == if min_gate < 1 { 1 } else { min_gate },
            a.step_len == if step_len < 1 { 1 } else { step_len },
    {
        let mut arp = Arp {
            on: false,
            pattern: ArpPattern::Up,
            step_len: 1,
            gate: 1,
            next_step: 0,
            holds: Vec::with_capacity(MAX_HOLDS),
            min_gate: if min_gate < 1 {
                1
            } else {
                min_gate
            },
        };
        arp.set_step_len(step_len);
        arp
    }

    /// A new step length; the note length follows it.
    pub fn set_step_len(&mut self, step_len: u64)
        requires
            step_len <= MAX_STEP,
            1 <= old(self).min_gate,
            old(self).holds@.len() <= MAX_HOLDS,
            old(self).next_step <= MAX_TIME + MAX_STEP,
            forall|i: int| 0 <= i < old(self).holds@.len() ==> (#[trigger] old(self).holds@[i]).chord@.len() > 0,
        ensures
            final(self).wf(),
            final(self).step_len == if step_len < 1 { 1 } else { step_len },
            final(self).gate == gate_for(final(self).step_len, old(self).min_gate),
            final(self).holds@ == old(self).holds@,
            final(self).next_step == old(self).next_step,
            final(self).min_gate == old(self).min_gate,
            final(self).on == old(self).on,
            final(self).pattern == old(self).pattern,
    {
        let step: u64 = if step_len < 1 {
            1
        } else {
            step_len
        };
        self.step_len = step;
        let g = step * 4 / 5;
        let g = if g < self.min_gate {
            self.min_gate
        } else {
            g
        };
        self.gate = if g > step {
            step
        } else {
            g
        };
    }

    /// One step in samples.
    pub fn step_len(&self) -> (n: u64)
        ensures
            n == self.step_len,
    {
        self.step_len
    }

    /// How long each note sounds, in samples.
    pub fn gate(&self) -> (n: u64)
        ensures
            n == self.gate,
    {
        self.gate
    }

    fn sounding(&self, now: u64) -> (b: bool)
        ensures
            b == self.sounding_at(now),
    {
        let mut i: usize = 0;
        while i < self.holds.len()
            invariant
                i <= self.holds@.len(),
                forall|j: int| 0 <= j < i ==> !sounds_at(#[trigger] self.holds@[j], now),
            decreases self.holds@.len() - i,
        {
            let h = self.holds[i];
            if h.from <= now && now < h.until {
                assert(sounds_at(self.holds@[i as int], now));
                return true;
            }
            i = i + 1;
        }
        false
    }

    fn add(&mut self, now: u64, id: Option<u64>, chord: Chord, until: u64, patch: u8)
        requires
            old(self).wf(),
            now <= MAX_TIME,
        ensures
            final(self).wf(),
            final(self).on == old(self).on,
            final(self).pattern == old(self).pattern,
            final(self).step_len == old(self).step_len,
            final(self).gate == old(self).gate,
            final(self).min_gate == old(self).min_gate,
            chord@.len() == 0 || old(self).holds@.len() >= MAX_HOLDS ==> final(self).holds@
                == old(self).holds@ && final(self).next_step == old(self).next_step,
            !(chord@.len() == 0 || old(self).holds@.len() >= MAX_HOLDS) ==> {
                &&& final(self).holds@ == old(self).holds@.push(
                    Hold { id, chord, from: now, until, step: 0, patch },
                )
                &&& final(self).next_step == if old(self).sounding_at(now) {
                    old(self).next_step
                } else {
                    now
                }
            },
    {
        if chord.is_empty() || self.holds.len() >= MAX_HOLDS {
            return;
        }
        // Nothing sounding: start the grid on this press, so the first note
        // lands now. Something already going: join its grid.
        if !self.sounding(now) {
            self.next_step = now;
        }
        self.holds.push(Hold { id, chord, from: now, until, step: 0, patch });
    }

    /// A finger went down. It holds until `hold_off`.
    pub fn hold_on(&mut self, now: u64, id: u64, chord: Chord, patch: u8)
        requires
            old(self).wf(),
            now <= MAX_TIME,
        ensures
            final(self).wf(),
            final(self).on == old(self).on,
            final(self).pattern == old(self).pattern,
            final(self).step_len == old(self).step_len,
            final(self).gate == old(self).gate,
            final(self).min_gate == old(self).min_gate,
            chord@.len() == 0 || old(self).holds@.len() >= MAX_HOLDS ==> final(self).holds@
                == old(self).holds@ && final(self).next_step == old(self).next_step,
            !(chord@.len() == 0 || old(self).holds@.len() >= MAX_HOLDS) ==> {
                &&& final(self).holds@ == old(self).holds@.push(
                    Hold { id: Some(id), chord, from: now, until: u64::MAX, step: 0, patch },
                )
                &&& final(self).next_step == if old(self).sounding_at(now) {
                    old(self).next_step
                } else {
                    now
                }
            },
    {
        self.add(now, Some(id), chord, u64::MAX, patch);
    }

    /// A chord whose whole span is already known - the looper's.
    pub fn schedule(&mut self, now: u64, chord: Chord, until: u64, patch: u8)
        requires
            old(self).wf(),
            now <= MAX_TIME,
        ensures
            final(self).wf(),
            final(self).on == old(self).on,
            final(self).pattern == old(self).pattern,
            final(self).step_len == old(self).step_len,
            final(self).gate == old(self).gate,
            final(self).min_gate == old(self).min_gate,
            chord@.len() == 0 || old(self).holds@.len() >= MAX_HOLDS ==> final(self).holds@
                == old(self).holds@ && final(self).next_step == old(self).next_step,
            !(chord@.len() == 0 || old(self).holds@.len() >= MAX_HOLDS) ==> {
                &&& final(self).holds@ == old(self).holds@.push(
                    Hold { id: None, chord, from: now, until, step: 0, patch },
                )
                &&& final(self).next_step == if old(self).sounding_at(now) {
                    old(self).next_step
                } else {
                    now
                }
            },
    {
        self.add(now, None, chord, until, patch);
    }

    fn let_go_where(&mut self, now: u64, id: Option<u64>)
        requires
            old(self).wf(),
        ensures
            final(self).wf(),
            final(self).holds@ == let_go(old(self).holds@, id, now),
            final(self).next_step == old(self).next_step,
            final(self).on == old(self).on,
            final(self).pattern == old(self).pattern,
            final(self).step_len == old(self).step_len,
            final(self).gate == old(self).gate,
            final(self).min_gate == old(self).min_gate,
    {
        let ghost h0 = self.holds@;
        let mut i: usize = 0;
        while i < self.holds.len()
            invariant
                i <= self.holds@.len(),
                self.holds@.len() == h0.len(),
                forall|j: int| 0 <= j < i ==> #[trigger] self.holds@[j] == let_go(h0, id, now)[j],
                forall|j: int| i <= j < h0.len() ==> #[trigger] self.holds@[j] == h0[j],
                self.next_step == old(self).next_step,
                self.on == old(self).on,
                self.pattern == old(self).pattern,
                self.step_len == old(self).step_len,
                self.gate == old(self).gate,
                self.min_gate == old(self).min_gate,
                h0 == old(self).holds@,
            decreases h0.len() - i,
        {
            let h = self.holds[i];
            let hit = match id {
                Some(x) => match h.id {
                    Some(y) => x == y,
                    None => false,
                },
                None => h.id.is_some(),
            };
            if hit {
                let until = if h.until < now {
                    h.until
                } else {
                    now
                };
                self.holds.set(i, Hold { until, ..h });
            }
            i = i + 1;
        }
        assert(self.holds@ =~= let_go(h0, id, now));
    }

    /// The finger with this id let go at `now`.
    pub fn hold_off(&mut self, now: u64, id: u64)
        requires
            old(self).wf(),
        ensures
            final(self).wf(),
            final(self).holds@ == let_go(old(self).holds@, Some(id), now),
            final(self).next_step == old(self).next_step,
            final(self).on == old(self).on,
            final(self).pattern == old(self).pattern,
            final(self).step_len == old(self).step_len,
            final(self).gate == old(self).gate,
            final(self).min_gate == old(self).min_gate,
    {
        self.let_go_where(now, Some(id));
    }

    /// Let go of every finger, leaving the looper's chords alone.
    pub fn release_live(&mut self, now: u64)
        requires
            old(self).wf(),
        ensures
            final(self).wf(),
            final(self).holds@ == let_go(old(self).holds@, None, now),
            final(self).next_step == old(self).next_step,
            final(self).on == old(self).on,
            final(self).pattern == old(self).pattern,
            final(self).step_len == old(self).step_len,
            final(self).gate == old(self).gate,
            final(self).min_gate == old(self).min_gate,
    {
        self.let_go_where(now, None);
    }

    /// Call once per sample. Every note that starts on this sample is
    /// appended to `out`.
    pub fn tick(&mut self, now: u64, out: &mut Vec<ArpNote>)
        requires
            old(self).wf(),
            now <= MAX_TIME,
            forall|i: int| 0 <= i < old(self).holds@.len() ==> (#[trigger] old(self).holds@[i]).step < usize::MAX,
        ensures
            final(self).wf(),
            final(self).on == old(self).on,
            final(self).pattern == old(self).pattern,
            final(self).step_len == old(self).step_len,
            final(self).gate == old(self).gate,
            final(self).min_gate == old(self).min_gate,
            old(self).holds@.len() == 0 || now < old(self).next_step ==> final(self).holds@
                == old(self).holds@ && final(self).next_step == old(self).next_step && final(out)@
                == old(out)@,
            !(old(self).holds@.len() == 0 || now < old(self).next_step) ==> {
                &&& final(out)@ == old(out)@ + notes_at(old(self).holds@, old(self).pattern, old(self).gate, now)
                &&& final(self).holds@ == unexpired(stepped(old(self).holds@, now), now)
                &&& final(self).next_step == if old(self).next_step + old(self).step_len <= now {
                    now + old(self).step_len
                } else {
                    old(self).next_step + old(self).step_len
                }
            },
    {
        if self.holds.len() == 0 || now < self.next_step {
            return;
        }
        let ghost h0 = self.holds@;
        let ghost out0 = out@;
        let pattern = self.pattern;
        let gate = self.gate;
        let mut i: usize = 0;
        while i < self.holds.len()
            invariant
                i <= self.holds@.len(),
                self.holds@.len() == h0.len(),
                forall|j: int| 0 <= j < i ==> #[trigger] self.holds@[j] == stepped(h0, now)[j],
                forall|j: int| i <= j < h0.len() ==> #[trigger] self.holds@[j] == h0[j],
                forall|j: int| 0 <= j < h0.len() ==> (#[trigger] h0[j]).step < usize::MAX,
                forall|j: int| 0 <= j < h0.len() ==> (#[trigger] h0[j]).chord@.len() > 0,
                out@ == out0 + notes_at(h0.take(i as int), pattern, gate, now),
                self.next_step == old(self).next_step,
                self.next_step <= now,
                self.on == old(self).on,
                self.pattern == pattern,
                self.step_len == old(self).step_len,
                self.gate == gate,
                self.min_gate == old(self).min_gate,
                old(self).wf(),
                h0 == old(self).holds@,
            decreases h0.len() - i,
        {
            let h = self.holds[i];
            proof {
                assert(h0.take(i + 1).drop_last() =~= h0.take(i as int));
                assert(h0.take(i + 1).last() == h);
            }
            if h.from <= now && now < h.until {
                let n = h.chord.len();
                let k = arp_index(pattern, n, h.step);
                proof {
                    crate::theory::lemma_arp_index_follows_sequence(pattern, n as nat, h.step as nat);
                }
                out.push(ArpNote { pitch: h.chord.note(k), index: k, count: n, gate, patch: h.patch });
                self.holds.set(i, Hold { step: h.step + 1, ..h });
            }
            proof {
                assert(out@ =~= out0 + notes_at(h0.take(i + 1), pattern, gate, now));
            }
            i = i + 1;
        }
        assert(h0.take(h0.len() as int) =~= h0);
        assert(self.holds@ =~= stepped(h0, now));
        assert forall|j: int| 0 <= j < self.holds@.len() implies (#[trigger] self.holds@[j]).chord@.len() > 0 by {
            assert(self.holds@[j].chord == h0[j].chord);
        }
        self.next_step = self.next_step + self.step_len;
        if self.next_step <= now {
            self.next_step = now + self.step_len;
        }
        // Retire finished holds on the step, in place.
        let ghost s = self.holds@;
        let n = self.holds.len();
        let mut w: usize = 0;
        let mut r: usize = 0;
        while r < n
            invariant
                w <= r <= n,
                n == s.len(),
                self.holds@.len() == n,
                self.holds@.take(w as int) == unexpired(s.take(r as int), now),
                self.holds@.skip(r as int) == s.skip(r as int),
                forall|j: int| 0 <= j < s.len() ==> (#[trigger] s[j]).chord@.len() > 0,
                self.next_step <= MAX_TIME + MAX_STEP,
                self.next_step == if old(self).next_step + old(self).step_len <= now {
                    now + old(self).step_len
                } else {
                    old(self).next_step + old(self).step_len
                },
                self.on == old(self).on,
                self.pattern == old(self).pattern,
                self.step_len == old(self).step_len,
                self.gate == old(self).gate,
                self.min_gate == old(self).min_gate,
                old(self).wf(),
                s == stepped(old(self).holds@, now),
            decreases n - r,
        {
            let ghost before = self.holds@;
            let h = self.holds[r];
            proof {
                assert(before[r as int] == before.skip(r as int)[0]);
                assert(s[r as int] == s.skip(r as int)[0]);
                assert(s.take(r + 1).drop_last() =~= s.take(r as int));
                assert(s.take(r + 1).last() == h);
            }
            if h.until > now {
                self.holds.set(w, h);
                w = w + 1;
            }
            proof {
                assert(self.holds@.take(w as int) =~= unexpired(s.take(r + 1), now));
                assert forall|j: int| 0 <= j < self.holds@.skip(r + 1).len() implies #[trigger] self.holds@.skip(
                    r + 1,
                )[j] == s.skip(r + 1)[j] by {
                    assert(self.holds@.skip(r + 1)[j] == before.skip(r as int)[j + 1]);
                    assert(s.skip(r + 1)[j] == s.skip(r as int)[j + 1]);
                }
                assert(self.holds@.skip(r + 1) =~= s.skip(r + 1));
            }
            r = r + 1;
        }
        self.holds.truncate(w);
        assert(s.take(n as int) =~= s);
        proof {
            lemma_unexpired_from(s, now);
            assert forall|j: int| 0 <= j < self.holds@.len() implies (#[trigger] self.holds@[j]).chord@.len() > 0 by {
                assert(s.contains(self.holds@[j]));
            }
        }
    }
}

/// The holds that stay are holds that were there.
pub proof fn lemma_unexpired_from(s: Seq<Hold>, now: u64)
    ensures
        unexpired(s, now).len() <= s.len(),
        forall|j: int| 0 <= j < unexpired(s, now).len() ==> s.contains(#[trigger] unexpired(s, now)[j]),
        forall|j: int| 0 <= j < unexpired(s, now).len() ==> (#[trigger] unexpired(s, now)[j]).until > now,
    decreases s.len(),
{
    if s.len() > 0 {
        let d = s.drop_last();
        lemma_unexpired_from(d, now);
        let r = unexpired(s, now);
        assert forall|j: int| 0 <= j < r.len() implies s.contains(#[trigger] r[j]) && r[j].until > now by {
            if j < unexpired(d, now).len() {
                assert(r[j] == unexpired(d, now)[j]);
                let i = choose|i: int| 0 <= i < d.len() && d[i] == r[j];
                assert(s[i] == r[j]);
            } else {
                assert(r[j] == s[s.len() - 1]);
            }
        }
    }
}

/// Notes are always a little shorter than a step whenever the shortest note
/// allowed is: a note never outlasts its step and, given room, ends before it.
pub proof fn lemma_gate_separates_notes(step_len: u64, min_gate: u64)
    requires
        1 <= step_len,
    ensures
        gate_for(step_len, min_gate) <= step_len,
        min_gate < step_len ==> gate_for(step_len, min_gate) < step_len,
        min_gate <= step_len * 4 / 5 ==> gate_for(step_len, min_gate) == step_len * 4 / 5,
{
}

/// A chord pressed with nothing else sounding plays its pattern's first note
/// on the very sample it goes down.
pub proof fn lemma_first_note_on_press(
    holds: Seq<Hold>,
    pattern: ArpPattern,
    gate: u64,
    now: u64,
    h: Hold,
)
    requires
        sounds_at(h, now),
        h.step == 0,
        h.chord@.len() > 0,
    ensures
        notes_at(holds.push(h), pattern, gate, now).last() == (ArpNote {
            pitch: h.chord@[arp_index_spec(pattern, h.chord@.len(), 0) as int],
            index: arp_index_spec(pattern, h.chord@.len(), 0) as usize,
            count: h.chord@.len() as usize,
            gate,
            patch: h.patch,
        }),
        arp_index_spec(pattern, h.chord@.len(), 0) == (if pattern == ArpPattern::Down {
            (h.chord@.len() - 1) as nat
        } else {
            0nat
        }),
{
    assert(holds.push(h).drop_last() =~= holds);
}

/// Every note played names a position inside its chord.
pub proof fn lemma_notes_in_chord(holds: Seq<Hold>, pattern: ArpPattern, gate: u64, now: u64)
    requires
        forall|i: int| 0 <= i < holds.len() ==> (#[trigger] holds[i]).chord@.len() > 0,
    ensures
        forall|j: int|
            0 <= j < notes_at(holds, pattern, gate, now).len() ==> (#[trigger] notes_at(
                holds,
                pattern,
                gate,
                now,
            )[j]).index < notes_at(holds, pattern, gate, now)[j].count,
    decreases holds.len(),
{
    if holds.len() > 0 {
        let d = holds.drop_last();
        assert forall|i: int| 0 <= i < d.len() implies (#[trigger] d[i]).chord@.len() > 0 by {
            assert(d[i] == holds[i]);
        }
        lemma_notes_in_chord(d, pattern, gate, now);
        let h = holds.last();
        assert(h == holds[holds.len() - 1]);
        Chord::lemma_at_most_four(h.chord);
        crate::theory::lemma_arp_index_follows_sequence(pattern, h.chord@.len(), h.step as nat);
        let rest = notes_at(d, pattern, gate, now);
        let r = notes_at(holds, pattern, gate, now);
        assert forall|j: int| 0 <= j < r.len() implies (#[trigger] r[j]).index < r[j].count by {
            if j < rest.len() {
                assert(r[j] == rest[j]);
            }
        }
    }
}

/// Letting go of a finger silences it from that sample on, and leaves every
/// other hold - the looper's above all - exactly as it was.
pub proof fn lemma_let_go_silences(holds: Seq<Hold>, id: Option<u64>, now: u64, later: u64)
    requires
        now <= later,
    ensures
        let_go(holds, id, now).len() == holds.len(),
        forall|i: int|
            0 <= i < holds.len() && ((id is Some && holds[i].id == id) || (id is None
                && holds[i].id is Some)) ==> !sounds_at(#[trigger] let_go(holds, id, now)[i], later),
        forall|i: int|
            0 <= i < holds.len() && holds[i].id is None ==> #[trigger] let_go(holds, id, now)[i]
                == holds[i],
{
}

} // verus!
