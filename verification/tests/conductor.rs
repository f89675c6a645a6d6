use musika::conductor::{Conductor, Voicing, MAX_VOICES};
use musika::engine::{layer_byte, layer_from_byte, layers_from_bytes, Msg, AUTO_ID_BASE};
use musika::looper::{Layer, LoopState};
use musika::theory::ArpPattern;

/// 48 kHz at 120 bpm: an eighth note is 12,000 samples, a bar 96,000. The
/// shortest note is 8 ms.
fn conductor() -> Conductor {
    Conductor::new(384, 12_000, 0, 5)
}

fn send(c: &mut Conductor, msg: Msg) -> Vec<Voicing> {
    let mut out = Vec::new();
    c.handle(msg, &mut out);
    out
}

/// Run `n` samples; every decision with the sample it was made on.
fn run(c: &mut Conductor, n: u64) -> Vec<(u64, Voicing)> {
    let mut all = Vec::new();
    let mut out = Vec::new();
    for _ in 0..n {
        out.clear();
        let now = c.clock;
        c.step(&mut out);
        for v in &out {
            all.push((now, *v));
        }
    }
    all
}

fn starts(decisions: &[(u64, Voicing)]) -> Vec<(u64, i32)> {
    decisions
        .iter()
        .filter_map(|(t, v)| match v {
            Voicing::Start { pitch, .. } => Some((*t, *pitch)),
            _ => None,
        })
        .collect()
}

const TRIAD: [i32; 3] = [60, 64, 67];

#[test]
fn a_finger_sounds_its_chord_at_once_and_releases_it_by_id() {
    let mut c = conductor();
    let on = send(&mut c, Msg::NoteOn { id: 7, chord: TRIAD, degree: 0 });
    assert_eq!(
        on,
        vec![
            Voicing::Start { id: 7, pitch: 60, index: 0, count: 3, patch: 0 },
            Voicing::Start { id: 7, pitch: 64, index: 1, count: 3, patch: 0 },
            Voicing::Start { id: 7, pitch: 67, index: 2, count: 3, patch: 0 },
        ]
    );
    assert_eq!(send(&mut c, Msg::NoteOff { id: 7 }), vec![Voicing::Release { id: 7 }]);
    assert_eq!(send(&mut c, Msg::ReleaseLive), vec![Voicing::ReleaseLive]);
}

#[test]
fn switching_patch_changes_only_what_starts_next() {
    let mut c = conductor();
    assert!(send(&mut c, Msg::SetPatch(2)).is_empty());
    assert_eq!(c.patch, 2);
    assert!(send(&mut c, Msg::SetPatch(99)).is_empty());
    assert_eq!(c.patch, 4, "clamped to the last sound");
    let on = send(&mut c, Msg::NoteOn { id: 1, chord: TRIAD, degree: 0 });
    assert!(on.iter().all(|v| matches!(v, Voicing::Start { patch: 4, .. })));
}

#[test]
fn the_arpeggiator_plays_a_held_chord_one_note_per_step() {
    let mut c = conductor();
    // Held notes are let go when the arpeggiator switches.
    assert_eq!(send(&mut c, Msg::SetArp(true)), vec![Voicing::ReleaseLive]);
    assert!(send(&mut c, Msg::NoteOn { id: 1, chord: TRIAD, degree: 0 }).is_empty());
    let d = run(&mut c, 12_000 * 3);
    assert_eq!(starts(&d), vec![(0, 60), (12_000, 64), (24_000, 67)]);
}

#[test]
fn tempo_and_pattern_reach_the_arpeggiator() {
    let mut c = conductor();
    send(&mut c, Msg::SetArp(true));
    send(&mut c, Msg::SetStep(24_000)); // 60 bpm
    send(&mut c, Msg::SetArpPattern(ArpPattern::Down));
    send(&mut c, Msg::NoteOn { id: 1, chord: TRIAD, degree: 0 });
    let d = run(&mut c, 24_000 * 2);
    assert_eq!(starts(&d), vec![(0, 67), (24_000, 64)]);
}

#[test]
fn arpeggiated_notes_are_released_a_gate_later() {
    let mut c = conductor();
    send(&mut c, Msg::SetArp(true));
    send(&mut c, Msg::NoteOn { id: 1, chord: TRIAD, degree: 0 });
    let d = run(&mut c, 12_000);
    // Four fifths of a step.
    let released: Vec<u64> =
        d.iter().filter(|(_, v)| matches!(v, Voicing::Release { .. })).map(|(t, _)| *t).collect();
    assert_eq!(released, vec![9_600]);
    assert!(d.iter().all(|(_, v)| match v {
        Voicing::Start { id, .. } | Voicing::Release { id } => *id >= AUTO_ID_BASE,
        Voicing::ReleaseLive => false,
    }));
}

/// Record one chord held 10,000 samples into a one-bar loop.
fn record_one_chord(c: &mut Conductor) {
    send(c, Msg::SetBars(1));
    send(c, Msg::Pedal);
    send(c, Msg::NoteOn { id: 1, chord: TRIAD, degree: 0 });
    run(c, 10_000);
    send(c, Msg::NoteOff { id: 1 });
}

#[test]
fn a_one_bar_loop_comes_back_round_on_the_exact_sample() {
    let mut c = conductor();
    record_one_chord(&mut c);
    let d = run(&mut c, 96_000 * 3 - 10_000 + 1);
    let times: Vec<u64> = starts(&d).iter().map(|s| s.0).collect();
    assert_eq!(times, vec![96_000, 96_000, 96_000, 192_000, 192_000, 192_000, 288_000, 288_000, 288_000]);
    // Snapped to one eighth note, so each comes back released 12,000 later.
    let released: Vec<u64> =
        d.iter().filter(|(_, v)| matches!(v, Voicing::Release { .. })).map(|(t, _)| *t).collect();
    assert_eq!(released, vec![108_000, 204_000]);
    assert_eq!(c.report().0, LoopState::Playing);
}

#[test]
fn the_pad_the_loop_plays_lights_up_while_its_chord_sounds() {
    let mut c = conductor();
    record_one_chord(&mut c);
    run(&mut c, 86_000 + 256);
    let (_, _, pads) = c.report();
    assert_eq!(pads & 1, 1, "pad 0 should be lit by the loop");
    assert_eq!(pads & (1 << 4), 0);
    run(&mut c, 20_000); // past the 12,000-sample chord
    let (_, _, pads) = c.report();
    assert_eq!(pads, 0, "pad stayed lit after the chord ended");
}

#[test]
fn letting_go_of_fingers_leaves_the_looped_chord_sounding() {
    let mut c = conductor();
    record_one_chord(&mut c);
    run(&mut c, 86_000 + 1_000); // the loop's chord is sounding again
    // A key change lets go of fingers only; the loop's voices carry ids the
    // fingers never use.
    assert_eq!(send(&mut c, Msg::ReleaseLive), vec![Voicing::ReleaseLive]);
    let d = run(&mut c, 10_000);
    assert!(d.iter().all(|(t, v)| !matches!(v, Voicing::Release { .. }) || *t == 108_000));
}

#[test]
fn the_loop_position_runs_round_as_it_plays() {
    let mut c = conductor();
    record_one_chord(&mut c);
    run(&mut c, 86_000);
    let (state, pos, _) = c.report();
    assert_eq!(state, LoopState::Recording);
    assert_eq!(pos, 65_535, "the recording is complete");
    run(&mut c, 48_000 + 1);
    let (state, pos, _) = c.report();
    assert_eq!(state, LoopState::Playing);
    assert_eq!(pos, 32_768, "half way round: 48,001 of 96,000 samples");
}

#[test]
fn no_more_voices_start_on_one_sample_than_the_cap() {
    let mut c = conductor();
    send(&mut c, Msg::SetBars(1));
    send(&mut c, Msg::Pedal);
    // Thirty chords held together: ninety notes due on one sample.
    for id in 0..30u64 {
        send(&mut c, Msg::NoteOn { id, chord: TRIAD, degree: (id % 7) as u8 });
    }
    run(&mut c, 10_000);
    for id in 0..30u64 {
        send(&mut c, Msg::NoteOff { id });
    }
    let d = run(&mut c, 86_001);
    let at_loop_start = starts(&d).iter().filter(|s| s.0 == 96_000).count();
    assert_eq!(at_loop_start, MAX_VOICES);
}

#[test]
fn a_block_chord_loop_arpeggiates_once_the_arp_is_on() {
    let mut c = conductor();
    // Recorded as a block chord held 24,000 samples, in a one-bar loop.
    send(&mut c, Msg::SetBars(1));
    send(&mut c, Msg::Pedal);
    send(&mut c, Msg::NoteOn { id: 1, chord: TRIAD, degree: 0 });
    run(&mut c, 24_000);
    send(&mut c, Msg::NoteOff { id: 1 });
    run(&mut c, 72_000);
    send(&mut c, Msg::SetArp(true));
    let d = run(&mut c, 24_000);
    // Steps at the loop start and one step later; the hold ends at 120,000.
    assert_eq!(starts(&d), vec![(96_000, 60), (108_000, 64)]);
}

#[test]
fn layers_published_as_bytes_read_back_the_same() {
    let a = Layer { patch: 3, arp: true, muted: false };
    let b = Layer { patch: 15, arp: false, muted: true };
    assert_eq!(layer_byte(a, false), 0x80 | 0x10 | 3);
    assert_eq!(layer_from_byte(layer_byte(b, true)), Some((b, true)));
    assert_eq!(layer_from_byte(0x7F), None);
    let bytes = vec![layer_byte(a, false), layer_byte(b, true), 0, layer_byte(a, true)];
    assert_eq!(layers_from_bytes(&bytes), vec![(a, false), (b, true)]);
}
