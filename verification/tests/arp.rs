use musika::arp::{Arp, ArpNote, MAX_HOLDS};
use musika::theory::{ArpPattern, Chord};

/// At 120bpm and 48kHz an eighth note is 12,000 samples.
const STEP: u64 = 12_000;

fn c_major() -> Chord {
    Chord::new(&[60, 64, 67])
}

fn arp() -> Arp {
    Arp::new(400, STEP)
}

/// Run from `from` to `to` and collect (sample, pitch).
fn run(a: &mut Arp, from: u64, to: u64) -> Vec<(u64, i32)> {
    let mut out = vec![];
    let mut notes: Vec<ArpNote> = Vec::new();
    for now in from..to {
        notes.clear();
        a.tick(now, &mut notes);
        out.extend(notes.iter().map(|n| (now, n.pitch)));
    }
    out
}

#[test]
fn the_first_note_plays_on_the_press_not_a_step_later() {
    let mut a = arp();
    run(&mut a, 0, 5_000); // time passes with nothing held
    a.hold_on(5_000, 1, c_major(), 0);
    assert_eq!(run(&mut a, 5_000, 5_001), vec![(5_000, 60)]);
}

#[test]
fn up_plays_the_chord_in_order_one_step_apart() {
    let mut a = arp();
    a.hold_on(0, 1, c_major(), 0);
    assert_eq!(
        run(&mut a, 0, 12_000 * 4),
        vec![(0, 60), (12_000, 64), (24_000, 67), (36_000, 60)]
    );
}

#[test]
fn down_and_up_down_follow_their_patterns() {
    let mut a = arp();
    a.pattern = ArpPattern::Down;
    a.hold_on(0, 1, c_major(), 0);
    let got: Vec<i32> = run(&mut a, 0, 12_000 * 3).iter().map(|x| x.1).collect();
    assert_eq!(got, vec![67, 64, 60]);

    let mut a = arp();
    a.pattern = ArpPattern::UpDown;
    a.hold_on(0, 1, c_major(), 0);
    let got: Vec<i32> = run(&mut a, 0, 12_000 * 6).iter().map(|x| x.1).collect();
    assert_eq!(got, vec![60, 64, 67, 64, 60, 64]);
}

#[test]
fn a_second_chord_joins_the_first_one_s_grid() {
    let mut a = arp();
    a.hold_on(0, 1, c_major(), 0);
    run(&mut a, 0, 5_000);
    a.hold_on(5_000, 2, Chord::new(&[67, 71, 74]), 0);
    // Nothing at 5000 - it waits for the shared step at 12000.
    let got = run(&mut a, 5_000, 12_001);
    assert_eq!(got, vec![(12_000, 64), (12_000, 67)]);
}

#[test]
fn letting_go_stops_the_notes() {
    let mut a = arp();
    a.hold_on(0, 1, c_major(), 0);
    run(&mut a, 0, 13_000);
    a.hold_off(13_000, 1);
    assert!(run(&mut a, 13_000, 100_000).is_empty());
}

#[test]
fn a_looped_chord_plays_only_inside_its_span() {
    let mut a = arp();
    a.schedule(1_000, c_major(), 30_000, 0);
    let got = run(&mut a, 0, 100_000);
    assert_eq!(got, vec![(1_000, 60), (13_000, 64), (25_000, 67)]);
}

#[test]
fn releasing_fingers_leaves_the_loop_running() {
    let mut a = arp();
    a.hold_on(0, 1, c_major(), 0);
    a.schedule(0, Chord::new(&[48]), 100_000, 0);
    run(&mut a, 0, 1);
    a.release_live(1);
    let got = run(&mut a, 1, 50_000);
    assert!(got.iter().all(|&(_, p)| p == 48), "a finger kept playing: {got:?}");
    assert!(!got.is_empty(), "the looped chord stopped too");
}

#[test]
fn holds_never_grow_past_the_preallocated_storage() {
    let mut a = arp();
    let cap = a.holds.capacity();
    for id in 0..(MAX_HOLDS as u64 * 3) {
        a.hold_on(0, id, c_major(), 0);
    }
    assert_eq!(a.holds.len(), MAX_HOLDS);
    assert_eq!(a.holds.capacity(), cap, "holds reallocated");
}

// --- further cases ----------------------------------------------------------

#[test]
fn the_gate_is_four_fifths_of_a_step_and_separates_notes() {
    let a = arp();
    assert_eq!(a.step_len(), 12_000);
    assert_eq!(a.gate(), 9_600);
    assert!(a.gate() < a.step_len(), "notes must separate");
    let mut fast = Arp::new(400, 450);
    assert_eq!(fast.gate(), 400, "never shorter than the minimum");
    fast.set_step_len(300);
    assert_eq!(fast.gate(), 300, "never longer than the step");
    fast.set_step_len(0);
    assert_eq!(fast.step_len(), 1);
}

#[test]
fn notes_carry_their_place_in_the_chord_and_their_sound() {
    let mut a = arp();
    a.pattern = ArpPattern::Down;
    a.hold_on(0, 1, c_major(), 5);
    let mut notes = Vec::new();
    a.tick(0, &mut notes);
    assert_eq!(notes, vec![ArpNote { pitch: 67, index: 2, count: 3, gate: 9_600, patch: 5 }]);
}

#[test]
fn an_empty_chord_is_not_held() {
    let mut a = arp();
    a.hold_on(0, 1, Chord::new(&[]), 0);
    assert!(a.holds.is_empty());
}

#[test]
fn a_late_tick_restarts_the_grid_from_now() {
    let mut a = arp();
    a.hold_on(0, 1, c_major(), 0);
    run(&mut a, 0, 1);
    // Ticks skipped far past the next step: the grid picks up from the late tick.
    let mut notes = Vec::new();
    a.tick(50_000, &mut notes);
    assert_eq!(notes.len(), 1);
    assert_eq!(a.next_step, 62_000);
}
