//! The music theory layer: a pitch is a MIDI note number, a scale is a
//! pattern of semitone offsets, a chord is every other note of a scale.

use vstd::prelude::*;

verus! {

/// Major scale: gaps of 2,2,1,2,2,2,1 semitones.
pub const MAJOR_SCALE: [i32; 7] = [0, 2, 4, 5, 7, 9, 11];

/// Natural minor: gaps of 2,1,2,2,1,2,2 semitones.
pub const MINOR_SCALE: [i32; 7] = [0, 2, 3, 5, 7, 8, 10];

/// The pitch at scale position `index`, in exact integers: positions past
/// either end wrap round the pattern and move by an octave per wrap.
pub open spec fn scale_note_spec(root_midi: int, pattern: Seq<i32>, index: int) -> int {
    root_midi + pattern[index % 7] + 12 * (index / 7)
}

/// Whether `scale_note` stays within `i32` at every step of its arithmetic.
pub open spec fn scale_note_fits(root_midi: int, pattern: Seq<i32>, index: int) -> bool {
    &&& i32::MIN <= root_midi + pattern[index % 7] <= i32::MAX
    &&& i32::MIN <= 12 * (index / 7) <= i32::MAX
    &&& i32::MIN <= scale_note_spec(root_midi, pattern, index) <= i32::MAX
}

/// The note at a given position in the scale, as a MIDI number.
pub fn scale_note(root_midi: i32, pattern: &[i32; 7], index: i32) -> (note: i32)
    requires
        scale_note_fits(root_midi as int, pattern@, index as int),
    ensures
        note == scale_note_spec(root_midi as int, pattern@, index as int),
{
    let mut octave: i32 = index / 7;
    let mut step: i32 = index % 7;
    if step < 0 {
        step = step + 7;
        octave = octave - 1;
    }
    assert(octave == index as int / 7 && step == index as int % 7);
    root_midi + pattern[step as usize] + 12 * octave
}


/// The triad qualities a pair of stacked gaps can name.
#[derive(Debug, Clone, Copy, PartialEq, Eq, Structural)]
pub enum Quality {
    Major,
    Minor,
    Diminished,
    Augmented,
    Unknown,
}

#[derive(Debug, Clone, Copy, PartialEq, Eq, Structural)]
pub enum Mode {
    Major,
    Minor,
}

impl Mode {
    pub fn pattern(self) -> (p: [i32; 7])
        ensures
            p@ == (match self {
                Mode::Major => MAJOR_SCALE@,
                Mode::Minor => MINOR_SCALE@,
            }),
    {
        match self {
            Mode::Major => MAJOR_SCALE,
            Mode::Minor => MINOR_SCALE,
        }
    }

    pub fn name(self) -> (n: &'static str)
        ensures
            n@ == (match self {
                Mode::Major => "major"@,
                Mode::Minor => "minor"@,
            }),
    {
        match self {
            Mode::Major => "major",
            Mode::Minor => "minor",
        }
    }
}

/// Whether `triad` stays within `i32` on a degree.
pub open spec fn triad_fits(root_midi: int, pattern: Seq<i32>, degree: int) -> bool {
    &&& scale_note_fits(root_midi, pattern, degree)
    &&& scale_note_fits(root_midi, pattern, degree + 2)
    &&& scale_note_fits(root_midi, pattern, degree + 4)
    &&& i32::MIN <= degree + 4 <= i32::MAX
}

/// Scale positions n, n+2 and n+4: every other note of the scale.
pub open spec fn triad_spec(root_midi: int, pattern: Seq<i32>, degree: int) -> Seq<int> {
    seq![
        scale_note_spec(root_midi, pattern, degree),
        scale_note_spec(root_midi, pattern, degree + 2),
        scale_note_spec(root_midi, pattern, degree + 4),
    ]
}

/// Build a triad on a scale degree by stacking thirds.
pub fn triad(root_midi: i32, pattern: &[i32; 7], degree: i32) -> (t: [i32; 3])
    requires
        triad_fits(root_midi as int, pattern@, degree as int),
    ensures
        forall|i: int| 0 <= i < 3 ==> t@[i] == #[trigger] triad_spec(root_midi as int, pattern@, degree as int)[i],
{
    [
        scale_note(root_midi, pattern, degree),
        scale_note(root_midi, pattern, degree + 2),
        scale_note(root_midi, pattern, degree + 4),
    ]
}

/// The quality named by the two gaps between a triad's notes.
pub open spec fn quality_of_gaps(lower: int, upper: int) -> Quality {
    if lower == 4 && upper == 3 {
        Quality::Major
    } else if lower == 3 && upper == 4 {
        Quality::Minor
    } else if lower == 3 && upper == 3 {
        Quality::Diminished
    } else if lower == 4 && upper == 4 {
        Quality::Augmented
    } else {
        Quality::Unknown
    }
}

pub open spec fn quality_spec(notes: Seq<i32>) -> Quality {
    quality_of_gaps(notes[1] - notes[0], notes[2] - notes[1])
}

/// Whether both gaps of a triad fit in an `i32`.
pub open spec fn gaps_fit(notes: Seq<i32>) -> bool {
    &&& i32::MIN <= notes[1] - notes[0] <= i32::MAX
    &&& i32::MIN <= notes[2] - notes[1] <= i32::MAX
}

/// Name the flavour of a triad from the two gaps between its three notes.
pub fn quality(notes: &[i32; 3]) -> (q: Quality)
    requires
        gaps_fit(notes@),
    ensures
        q == quality_spec(notes@),
{
    let lower = notes[1] - notes[0];
    let upper = notes[2] - notes[1];
    if lower == 4 && upper == 3 {
        Quality::Major
    } else if lower == 3 && upper == 4 {
        Quality::Minor
    } else if lower == 3 && upper == 3 {
        Quality::Diminished
    } else if lower == 4 && upper == 4 {
        Quality::Augmented
    } else {
        Quality::Unknown
    }
}

/// Every triad in the key, in order - the seven chords the instrument plays.
pub fn chords_in_key(root_midi: i32, pattern: &[i32; 7]) -> (chords: [[i32; 3]; 7])
    requires
        forall|d: int| 0 <= d < 7 ==> #[trigger] triad_fits(root_midi as int, pattern@, d),
    ensures
        forall|d: int, i: int|
            0 <= d < 7 && 0 <= i < 3 ==> #[trigger] chords@[d]@[i] == triad_spec(
                root_midi as int,
                pattern@,
                d,
            )[i],
{
    let mut out = [[0i32; 3]; 7];
    let mut degree: usize = 0;
    while degree < 7
        invariant
            0 <= degree <= 7,
            forall|d: int| 0 <= d < 7 ==> #[trigger] triad_fits(root_midi as int, pattern@, d),
            forall|d: int, i: int|
                0 <= d < degree && 0 <= i < 3 ==> #[trigger] out@[d]@[i] == triad_spec(
                    root_midi as int,
                    pattern@,
                    d,
                )[i],
        decreases 7 - degree,
    {
        assert(triad_fits(root_midi as int, pattern@, degree as int));
        let t = triad(root_midi, pattern, degree as i32);
        out[degree] = t;
        proof {
            assert forall|d: int, i: int|
                0 <= d < degree + 1 && 0 <= i < 3 implies #[trigger] out@[d]@[i] == triad_spec(
                root_midi as int,
                pattern@,
                d,
            )[i] by {
                if d == degree {
                    assert(t@[i] == triad_spec(root_midi as int, pattern@, degree as int)[i]);
                }
            }
        }
        degree = degree + 1;
    }
    out
}


/// The order a chord's notes are played in when arpeggiated.
#[derive(Debug, Clone, Copy, PartialEq, Eq, Structural)]
pub enum ArpPattern {
    Up,
    Down,
    UpDown,
}

/// The readable definition of each pattern, as chord indices:
/// up `0 1 .. n-1`, down `n-1 .. 1 0`, up-down `0 1 .. n-1 n-2 .. 1`
/// (up for chords of fewer than three notes).
pub open spec fn arp_sequence_spec(pattern: ArpPattern, n: nat) -> Seq<nat> {
    let up = Seq::new(n, |i: int| i as nat);
    match pattern {
        ArpPattern::Up => up,
        ArpPattern::Down => Seq::new(n, |i: int| (n - 1 - i) as nat),
        ArpPattern::UpDown => if n < 3 {
            up
        } else {
            up + Seq::new((n - 2) as nat, |j: int| (n - 2 - j) as nat)
        },
    }
}

/// `arp_index` in closed form: up-down is a triangle wave of period 2n-2.
pub open spec fn arp_index_spec(pattern: ArpPattern, n: nat, step: nat) -> nat {
    if n == 0 {
        0
    } else {
        match pattern {
            ArpPattern::Up => step % n,
            ArpPattern::Down => (n - 1 - step % n) as nat,
            ArpPattern::UpDown => if n < 3 {
                step % n
            } else {
                let period = (2 * n - 2) as nat;
                let p = step % period;
                if p < n {
                    p
                } else {
                    (period - p) as nat
                }
            },
        }
    }
}

/// Whether `arp_index` stays within `usize`.
pub open spec fn arp_index_fits(pattern: ArpPattern, n: nat) -> bool {
    pattern == ArpPattern::UpDown && n >= 3 ==> 2 * n <= usize::MAX
}

/// The readable definition of the patterns, built as a vector.
pub fn arp_sequence(pattern: ArpPattern, length: usize) -> (seq: Vec<usize>)
    ensures
        seq@.len() == arp_sequence_spec(pattern, length as nat).len(),
        forall|i: int|
            0 <= i < seq@.len() ==> seq@[i] as nat == #[trigger] arp_sequence_spec(
                pattern,
                length as nat,
            )[i],
{
    let ghost spec_seq = arp_sequence_spec(pattern, length as nat);
    let mut seq: Vec<usize> = Vec::new();
    let mut i: usize = 0;
    while i < length
        invariant
            i <= length,
            spec_seq == arp_sequence_spec(pattern, length as nat),
            seq@.len() == i,
            forall|k: int|
                0 <= k < i ==> seq@[k] as nat == #[trigger] spec_seq[k],
        decreases length - i,
    {
        match pattern {
            ArpPattern::Down => seq.push(length - 1 - i),
            _ => seq.push(i),
        }
        i = i + 1;
    }
    if pattern == ArpPattern::UpDown && length >= 3 {
        let mut j: usize = 0;
        while j < length - 2
            invariant
                length >= 3,
                pattern == ArpPattern::UpDown,
                j <= length - 2,
                spec_seq == arp_sequence_spec(pattern, length as nat),
                spec_seq.len() == 2 * length - 2,
                seq@.len() == length + j,
                forall|k: int|
                    0 <= k < length + j ==> seq@[k] as nat == #[trigger] spec_seq[k],
            decreases length - 2 - j,
        {
            seq.push(length - 2 - j);
            j = j + 1;
        }
    }
    seq
}

/// Which note of an `n`-note chord to play on step `step` of a pattern.
pub fn arp_index(pattern: ArpPattern, n: usize, step: usize) -> (i: usize)
    requires
        arp_index_fits(pattern, n as nat),
    ensures
        i as nat == arp_index_spec(pattern, n as nat, step as nat),
{
    if n == 0 {
        return 0;
    }
    match pattern {
        ArpPattern::Up => step % n,
        ArpPattern::Down => n - 1 - step % n,
        ArpPattern::UpDown => {
            if n < 3 {
                step % n
            } else {
                let period = 2 * n - 2;
                let p = step % period;
                if p < n {
                    p
                } else {
                    period - p
                }
            }
        },
    }
}

/// Every step of every pattern on a non-empty chord names a note of that
/// chord, and `arp_index` is the readable sequence read cyclically.
pub proof fn lemma_arp_index_follows_sequence(pattern: ArpPattern, n: nat, step: nat)
    requires
        n > 0,
    ensures
        arp_sequence_spec(pattern, n).len() > 0,
        arp_index_spec(pattern, n, step) < n,
        arp_index_spec(pattern, n, step) == arp_sequence_spec(pattern, n)[(step
            % arp_sequence_spec(pattern, n).len()) as int],
{
    let len = arp_sequence_spec(pattern, n).len();
    match pattern {
        ArpPattern::Up => {},
        ArpPattern::Down => {},
        ArpPattern::UpDown => {
            if n >= 3 {
                assert(len == 2 * n - 2);
                let p = step % len;
                if p >= n {
                    assert(arp_sequence_spec(pattern, n)[p as int] == (n - 2 - (p - n)) as nat);
                }
            }
        },
    }
}

/// Each pattern plays every note of the chord: every index below `n`
/// appears in its sequence, and nothing else does.
pub proof fn lemma_arp_sequence_covers_chord(pattern: ArpPattern, n: nat)
    ensures
        forall|i: int| 0 <= i < arp_sequence_spec(pattern, n).len() ==> #[trigger] arp_sequence_spec(pattern, n)[i] < n,
        forall|j: nat| j < n ==> #[trigger] arp_sequence_spec(pattern, n).contains(j),
{
    let s = arp_sequence_spec(pattern, n);
    assert forall|j: nat| j < n implies #[trigger] s.contains(j) by {
        match pattern {
            ArpPattern::Down => {
                assert(s[(n - 1 - j) as int] == j);
            },
            _ => {
                assert(s[j as int] == j);
            },
        }
    }
}


/// A handful of pitches that sound together - a triad, with room for a 7th.
/// A fixed-size value rather than a `Vec`, so passing one never allocates.
#[derive(Clone, Copy, Debug, PartialEq, Eq)]
pub struct Chord {
    notes: [i32; 4],
    len: u8,
}

impl Chord {
    #[verifier::type_invariant]
    spec fn inv(self) -> bool {
        self.len <= 4
    }

    /// The pitches of the chord, lowest first as given.
    pub closed spec fn view(&self) -> Seq<i32> {
        self.notes@.take(if self.len <= 4 { self.len as int } else { 4 })
    }

    /// A chord holds at most four pitches.
    pub proof fn lemma_at_most_four(c: Chord)
        ensures
            c@.len() <= 4,
    {
    }

    /// Keeps the first four pitches given.
    pub fn new(notes: &[i32]) -> (c: Chord)
        ensures
            c@ == notes@.take(if notes@.len() < 4 { notes@.len() as int } else { 4 }),
    {
        let n: usize = if notes.len() < 4 { notes.len() } else { 4 };
        let mut array = [0i32; 4];
        let mut i: usize = 0;
        while i < n
            invariant
                n <= 4,
                n <= notes@.len(),
                i <= n,
                forall|k: int| 0 <= k < i ==> array@[k] == notes@[k],
            decreases n - i,
        {
            array[i] = notes[i];
            i = i + 1;
        }
        let c = Chord { notes: array, len: n as u8 };
        assert(c@ =~= notes@.take(n as int));
        c
    }

    pub fn len(&self) -> (n: usize)
        ensures
            n == self@.len(),
            n <= 4,
    {
        proof {
            use_type_invariant(self);
        }
        self.len as usize
    }

    pub fn is_empty(&self) -> (b: bool)
        ensures
            b == (self@.len() == 0),
    {
        proof {
            use_type_invariant(self);
        }
        self.len == 0
    }

    pub fn as_slice(&self) -> (s: &[i32])
        ensures
            s@ == self@,
    {
        proof {
            use_type_invariant(self);
        }
        let n = self.len as usize;
        let all: &[i32] = self.notes.as_slice();
        let s = &all[0..n];
        assert(s@ =~= self@);
        s
    }

    /// The pitch at position `i` of the chord.
    pub fn note(&self, i: usize) -> (pitch: i32)
        requires
            i < self@.len(),
        ensures
            pitch == self@[i as int],
    {
        proof {
            use_type_invariant(self);
        }
        self.notes[i]
    }
}

/// Sharps throughout: the name of pitch class 0 (C) to 11 (B).
pub open spec fn note_name_spec(pitch_class: int) -> Seq<char> {
    if pitch_class == 0 {
        "C"@
    } else if pitch_class == 1 {
        "C#"@
    } else if pitch_class == 2 {
        "D"@
    } else if pitch_class == 3 {
        "D#"@
    } else if pitch_class == 4 {
        "E"@
    } else if pitch_class == 5 {
        "F"@
    } else if pitch_class == 6 {
        "F#"@
    } else if pitch_class == 7 {
        "G"@
    } else if pitch_class == 8 {
        "G#"@
    } else if pitch_class == 9 {
        "A"@
    } else if pitch_class == 10 {
        "A#"@
    } else {
        "B"@
    }
}

/// The name of a MIDI note's pitch class, in any octave.
pub fn note_name(midi: i32) -> (name: &'static str)
    ensures
        name@ == note_name_spec(midi as int % 12),
{
    let mut pc: i32 = midi % 12;
    if pc < 0 {
        pc = pc + 12;
    }
    assert(pc == midi as int % 12);
    if pc == 0 {
        "C"
    } else if pc == 1 {
        "C#"
    } else if pc == 2 {
        "D"
    } else if pc == 3 {
        "D#"
    } else if pc == 4 {
        "E"
    } else if pc == 5 {
        "F"
    } else if pc == 6 {
        "F#"
    } else if pc == 7 {
        "G"
    } else if pc == 8 {
        "G#"
    } else if pc == 9 {
        "A"
    } else if pc == 10 {
        "A#"
    } else {
        "B"
    }
}

/// What sheet music appends to the root's name for each quality.
pub open spec fn quality_suffix(q: Quality) -> Seq<char> {
    match q {
        Quality::Major => ""@,
        Quality::Minor => "m"@,
        Quality::Diminished => "dim"@,
        Quality::Augmented => "aug"@,
        Quality::Unknown => ""@,
    }
}

/// How sheet music writes the chord: "C", "Dm", "Bdim".
pub fn chord_name(notes: &[i32; 3]) -> (name: String)
    requires
        gaps_fit(notes@),
    ensures
        name@ == note_name_spec(notes@[0] as int % 12) + quality_suffix(quality_spec(notes@)),
{
    let root = String::from_str(note_name(notes[0]));
    let suffix = match quality(notes) {
        Quality::Major => "",
        Quality::Minor => "m",
        Quality::Diminished => "dim",
        Quality::Augmented => "aug",
        Quality::Unknown => "",
    };
    root.concat(suffix)
}

/// The upper-case roman numeral of degree 0 to 6.
pub open spec fn upper_numeral(degree: int) -> Seq<char> {
    if degree == 0 {
        "I"@
    } else if degree == 1 {
        "II"@
    } else if degree == 2 {
        "III"@
    } else if degree == 3 {
        "IV"@
    } else if degree == 4 {
        "V"@
    } else if degree == 5 {
        "VI"@
    } else {
        "VII"@
    }
}

/// The lower-case roman numeral of degree 0 to 6.
pub open spec fn lower_numeral(degree: int) -> Seq<char> {
    if degree == 0 {
        "i"@
    } else if degree == 1 {
        "ii"@
    } else if degree == 2 {
        "iii"@
    } else if degree == 3 {
        "iv"@
    } else if degree == 4 {
        "v"@
    } else if degree == 5 {
        "vi"@
    } else {
        "vii"@
    }
}

/// The numeral a degree is written with, its casing carrying the quality:
/// upper for major (and augmented), lower for minor, lower with a ring for
/// diminished.
pub open spec fn roman_numeral_spec(q: Quality, degree: int) -> Seq<char> {
    match q {
        Quality::Major | Quality::Augmented | Quality::Unknown => upper_numeral(degree),
        Quality::Minor => lower_numeral(degree),
        Quality::Diminished => lower_numeral(degree) + "°"@,
    }
}

fn upper_numeral_str(degree: usize) -> (s: &'static str)
    requires
        degree < 7,
    ensures
        s@ == upper_numeral(degree as int),
{
    if degree == 0 {
        "I"
    } else if degree == 1 {
        "II"
    } else if degree == 2 {
        "III"
    } else if degree == 3 {
        "IV"
    } else if degree == 4 {
        "V"
    } else if degree == 5 {
        "VI"
    } else {
        "VII"
    }
}

fn lower_numeral_str(degree: usize) -> (s: &'static str)
    requires
        degree < 7,
    ensures
        s@ == lower_numeral(degree as int),
{
    if degree == 0 {
        "i"
    } else if degree == 1 {
        "ii"
    } else if degree == 2 {
        "iii"
    } else if degree == 3 {
        "iv"
    } else if degree == 4 {
        "v"
    } else if degree == 5 {
        "vi"
    } else {
        "vii"
    }
}

/// Roman numeral for a degree, carrying the quality in its casing.
pub fn roman_numeral(notes: &[i32; 3], degree: usize) -> (numeral: String)
    requires
        degree < 7,
        gaps_fit(notes@),
    ensures
        numeral@ == roman_numeral_spec(quality_spec(notes@), degree as int),
{
    match quality(notes) {
        Quality::Major | Quality::Augmented | Quality::Unknown => String::from_str(
            upper_numeral_str(degree),
        ),
        Quality::Minor => String::from_str(lower_numeral_str(degree)),
        Quality::Diminished => String::from_str(lower_numeral_str(degree)).concat("°"),
    }
}


/// The quality of the triad on a degree, read from the triad's own gaps.
pub open spec fn degree_quality(root_midi: int, pattern: Seq<i32>, degree: int) -> Quality {
    let t = triad_spec(root_midi, pattern, degree);
    quality_of_gaps(t[1] - t[0], t[2] - t[1])
}

/// The chords of a major key: I ii iii IV V vi vii°.
pub open spec fn major_key_quality(degree: int) -> Quality {
    if degree == 0 || degree == 3 || degree == 4 {
        Quality::Major
    } else if degree == 6 {
        Quality::Diminished
    } else {
        Quality::Minor
    }
}

/// The chords of a natural minor key: i ii° III iv v VI VII.
pub open spec fn minor_key_quality(degree: int) -> Quality {
    if degree == 0 || degree == 3 || degree == 4 {
        Quality::Minor
    } else if degree == 1 {
        Quality::Diminished
    } else {
        Quality::Major
    }
}

/// A scale position seven places on is the same letter an octave higher.
pub proof fn lemma_scale_wraps_by_octave(root_midi: int, pattern: Seq<i32>, index: int)
    ensures
        scale_note_spec(root_midi, pattern, index + 7) == scale_note_spec(root_midi, pattern, index)
            + 12,
{
    assert((index + 7) % 7 == index % 7);
    assert((index + 7) / 7 == index / 7 + 1);
}

/// Changing key moves every chord by the same number of semitones.
pub proof fn lemma_triads_transpose(root_midi: int, shift: int, pattern: Seq<i32>, degree: int)
    ensures
        forall|i: int|
            0 <= i < 3 ==> #[trigger] triad_spec(root_midi + shift, pattern, degree)[i]
                == triad_spec(root_midi, pattern, degree)[i] + shift,
{
}

/// In every key, the seven chords of a major scale come out
/// major, minor, minor, major, major, minor, diminished.
pub proof fn lemma_major_key_qualities(root_midi: int)
    ensures
        forall|d: int|
            0 <= d < 7 ==> #[trigger] degree_quality(root_midi, MAJOR_SCALE@, d)
                == major_key_quality(d),
{
    assert forall|d: int| 0 <= d < 7 implies #[trigger] degree_quality(root_midi, MAJOR_SCALE@, d)
        == major_key_quality(d) by {
        reveal_with_fuel(scale_note_spec, 1);
        assert((d + 2) % 7 == if d + 2 < 7 { d + 2 } else { d - 5 });
        assert((d + 2) / 7 == if d + 2 < 7 { 0int } else { 1int });
        assert((d + 4) % 7 == if d + 4 < 7 { d + 4 } else { d - 3 });
        assert((d + 4) / 7 == if d + 4 < 7 { 0int } else { 1int });
    }
}

/// In every key, the seven chords of a natural minor scale come out
/// minor, diminished, major, minor, minor, major, major.
pub proof fn lemma_minor_key_qualities(root_midi: int)
    ensures
        forall|d: int|
            0 <= d < 7 ==> #[trigger] degree_quality(root_midi, MINOR_SCALE@, d)
                == minor_key_quality(d),
{
    assert forall|d: int| 0 <= d < 7 implies #[trigger] degree_quality(root_midi, MINOR_SCALE@, d)
        == minor_key_quality(d) by {
        assert((d + 2) % 7 == if d + 2 < 7 { d + 2 } else { d - 5 });
        assert((d + 2) / 7 == if d + 2 < 7 { 0int } else { 1int });
        assert((d + 4) % 7 == if d + 4 < 7 { d + 4 } else { d - 3 });
        assert((d + 4) / 7 == if d + 4 < 7 { 0int } else { 1int });
    }
}

} // verus!
