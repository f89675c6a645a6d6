use musika::looper::{Layer, LoopEvent, LoopState, Looper, MAX_EVENTS, MAX_LAYERS};
use musika::theory::Chord;

const MIN: u64 = 10;
/// An eighth note of 100 samples: a beat is 200, a bar 800.
const STEP: u64 = 100;
const BAR: u64 = 800;

fn c(root: i32) -> Chord {
    Chord::new(&[root, root + 4, root + 7])
}

fn looper(bars: u8) -> Looper {
    let mut l = Looper::new(MIN, STEP);
    l.bars = bars;
    l
}

/// Run the looper from `from` to `to` (exclusive) and collect (sample, degree)
/// for everything it fires.
fn run(l: &mut Looper, from: u64, to: u64) -> Vec<(u64, u8)> {
    let mut out = vec![];
    let mut fired: Vec<LoopEvent> = Vec::new();
    for now in from..to {
        fired.clear();
        l.tick(now, &mut fired);
        out.extend(fired.iter().map(|e| (now, e.degree)));
    }
    out
}

fn play(l: &mut Looper, on: u64, off: u64, id: u64, degree: u8) {
    l.note_on(on, id, c(60 + degree as i32), degree, 0, false);
    l.note_off(off, id);
}

/// One bar: chord 0 at 0..200, chord 4 at 400..600. Loops from sample 800.
fn one_bar_loop() -> Looper {
    let mut l = looper(1);
    l.pedal(0);
    play(&mut l, 0, 200, 1, 0);
    play(&mut l, 400, 600, 2, 4);
    run(&mut l, 0, 801);
    l
}

fn position(l: &Looper, now: u64) -> f32 {
    let (done, of) = l.progress(now);
    done as f32 / of as f32
}

#[test]
fn nothing_is_recorded_until_record_is_pressed() {
    let mut l = looper(1);
    play(&mut l, 10, 50, 1, 0);
    assert_eq!(l.state, LoopState::Idle);
    assert_eq!(l.event_count(), 0);
}

#[test]
fn recording_starts_on_the_first_chord_and_stops_itself_after_the_bars() {
    let mut l = looper(2);
    l.pedal(0);
    assert_eq!(l.state, LoopState::Armed);
    run(&mut l, 0, 5000);
    l.note_on(5000, 1, c(60), 0, 0, false);
    assert_eq!(l.state, LoopState::Recording);
    l.note_off(5200, 1);
    run(&mut l, 5000, 5000 + 2 * BAR);
    assert_eq!(l.state, LoopState::Recording, "closed a sample early");
    run(&mut l, 5000 + 2 * BAR, 5000 + 2 * BAR + 1);
    assert_eq!(l.state, LoopState::Playing);
    assert_eq!(l.len(), 2 * BAR);
}

#[test]
fn pressing_record_twice_without_playing_cancels() {
    let mut l = looper(1);
    l.pedal(0);
    l.pedal(10);
    assert_eq!(l.state, LoopState::Idle);
}

#[test]
fn pressing_record_early_finishes_at_the_end_of_that_bar() {
    let mut l = looper(8);
    l.pedal(0);
    play(&mut l, 0, 100, 1, 0);
    l.pedal(BAR + 250); // a quarter of the way into bar two
    run(&mut l, 0, 2 * BAR);
    assert_eq!(l.state, LoopState::Recording);
    run(&mut l, 2 * BAR, 2 * BAR + 1);
    assert_eq!(l.len(), 2 * BAR);
}

#[test]
fn notes_snap_to_the_nearest_eighth_note() {
    let mut l = looper(1);
    l.pedal(0);
    play(&mut l, 0, 190, 1, 0); // ends 10 early
    play(&mut l, 240, 395, 2, 4); // starts 40 late, ends 5 early
    run(&mut l, 0, 801);
    assert_eq!((l.events[0].t, l.events[0].dur), (0, 200));
    assert_eq!((l.events[1].t, l.events[1].dur), (200, 200));
}

#[test]
fn events_store_the_pitches_and_sound_they_were_played_with() {
    let mut l = looper(1);
    l.pedal(0);
    l.note_on(0, 1, c(67), 4, 7, true);
    l.note_off(200, 1);
    run(&mut l, 0, 801);
    let e = l.events[0];
    assert_eq!((e.chord, e.patch, e.arp), (c(67), 7, true));
    assert_eq!(l.layer(0), Some((Layer { patch: 7, arp: true, muted: false }, false)));
}

#[test]
fn playback_lands_on_the_exact_recorded_sample_every_cycle() {
    let mut l = one_bar_loop(); // playing from sample 800
    let fired = run(&mut l, 801, 800 + BAR * 3);
    assert_eq!(fired, vec![(1200, 4), (1600, 0), (2000, 4), (2400, 0), (2800, 4)]);
}

#[test]
fn a_chord_held_when_recording_ends_ends_with_it() {
    let mut l = looper(1);
    l.pedal(0);
    play(&mut l, 0, 100, 1, 0);
    l.note_on(400, 2, c(67), 4, 0, false);
    run(&mut l, 0, 801); // still held when the bar is up
    assert_eq!(l.events[1].dur, 400);
}

#[test]
fn a_layer_is_one_pass_heard_from_the_next_time_round() {
    let mut l = one_bar_loop();
    run(&mut l, 801, 1300);
    l.pedal(1300); // -> overdub, at loop position 500
    assert_eq!(l.state, LoopState::Overdub);
    play(&mut l, 1400, 1500, 9, 3); // position 600

    // Not heard in the cycle it was played in...
    let rest = run(&mut l, 1300, 1600);
    assert!(rest.iter().all(|&(_, d)| d != 3), "layer played early: {rest:?}");

    // ...the pass ends by itself one loop after it began...
    run(&mut l, 1600, 2100);
    assert_eq!(l.state, LoopState::Overdub);
    run(&mut l, 2100, 2101);
    assert_eq!(l.state, LoopState::Playing);

    // ...and it plays in order, at its recorded position, from then on.
    let next = run(&mut l, 2400, 3200);
    assert_eq!(next, vec![(2400, 0), (2800, 4), (3000, 3)]);
    assert_eq!(l.layer(1).map(|(_, rec)| rec), Some(false));
}

#[test]
fn a_pass_with_nothing_played_leaves_no_layer() {
    let mut l = one_bar_loop();
    l.pedal(900);
    run(&mut l, 900, 900 + BAR + 1);
    assert_eq!(l.state, LoopState::Playing);
    assert_eq!(l.layer(1), None);
}

#[test]
fn a_note_held_over_the_loop_end_is_cut_at_the_boundary() {
    let mut l = one_bar_loop(); // wraps every 800 from 800
    run(&mut l, 801, 1400);
    l.pedal(1400); // overdub at position 600
    l.note_on(1400, 9, c(65), 3, 0, false);
    run(&mut l, 1400, 1700); // wraps at 1600
    l.note_off(1700, 9); // position 100, after the wrap
    run(&mut l, 1700, 2401); // pass ends at 2200, merged at the wrap at 2400
    let ev = l.events.iter().find(|e| e.degree == 3).expect("layer kept");
    assert_eq!(ev.t, 600);
    assert_eq!(ev.dur, 200, "should stop at the loop end, 800 - 600");
}

#[test]
fn undo_takes_back_the_newest_layer_only() {
    let mut l = one_bar_loop();
    l.pedal(800);
    play(&mut l, 900, 1000, 9, 3);
    run(&mut l, 801, 1601);
    assert!(l.layer(1).is_some());

    l.undo();
    assert_eq!(l.layer(1), None);
    assert_eq!(l.state, LoopState::Playing, "the first layer should keep playing");
    assert_eq!(run(&mut l, 1601, 2400), vec![(2000, 4)]);
    assert!(l.events.iter().all(|e| e.degree != 3));
}

#[test]
fn undo_while_recording_a_layer_throws_that_pass_away() {
    let mut l = one_bar_loop();
    l.pedal(900);
    l.note_on(1000, 9, c(65), 3, 0, false); // still held
    l.undo();
    assert_eq!(l.state, LoopState::Playing);
    l.note_off(1100, 9); // the finger lifts later: nothing to record into
    run(&mut l, 801, 3000);
    assert_eq!(l.event_count(), 2);
    assert!(l.layer(0).is_some(), "the loop underneath was lost");
}

#[test]
fn undoing_the_only_layer_clears_the_loop() {
    let mut l = one_bar_loop();
    l.undo();
    assert_eq!(l.state, LoopState::Idle);
    assert!(run(&mut l, 801, 5000).is_empty());
}

#[test]
fn deleting_a_middle_layer_keeps_the_ones_above_it() {
    let mut l = one_bar_loop(); // layer 0: pads 0 and 4
    run(&mut l, 801, 1600);
    for (i, degree, start) in [(1u64, 1u8, 1600u64), (2, 2, 2401)] {
        l.pedal(start);
        l.note_on(start + 100, 10 + i, c(62), degree, i as u8, false);
        l.note_off(start + 200, 10 + i);
        run(&mut l, start, start + BAR + 1); // the pass ends on the last tick
    }
    assert_eq!(l.layer(2).map(|(layer, _)| layer.patch), Some(2));

    l.remove_layer(1);
    assert_eq!(l.layer(1).map(|(layer, _)| layer.patch), Some(2), "layer 2 moved down");
    assert_eq!(l.layer(2), None);
    run(&mut l, 3202, 4000);
    let fired: Vec<u8> = run(&mut l, 4000, 4800).iter().map(|x| x.1).collect();
    assert_eq!(fired, vec![0, 2, 4]);
}

#[test]
fn a_muted_layer_is_silent_until_unmuted() {
    let mut l = one_bar_loop();
    l.toggle_mute(0);
    assert!(run(&mut l, 801, 2400).is_empty());
    l.toggle_mute(0);
    assert_eq!(run(&mut l, 2400, 3200), vec![(2400, 0), (2800, 4)]);
}

#[test]
fn layers_stop_at_the_limit() {
    let mut l = one_bar_loop();
    let mut now = 800;
    for i in 1..MAX_LAYERS as u64 + 3 {
        l.pedal(now);
        l.note_on(now, 100 + i, c(60), 1, 0, false);
        l.note_off(now + 100, 100 + i);
        run(&mut l, now, now + BAR + 1);
        now += BAR + 1;
    }
    assert!(l.layer(MAX_LAYERS - 1).is_some());
    assert_eq!(l.layer_count, MAX_LAYERS);
    l.pedal(now);
    assert_eq!(l.state, LoopState::Playing, "a ninth layer started recording");
}

#[test]
fn the_click_counts_beats_while_recording_and_accents_each_bar() {
    let mut l = looper(1);
    l.pedal(0);
    l.note_on(0, 1, c(60), 0, 0, false);
    let mut beats = vec![];
    let mut fired: Vec<LoopEvent> = Vec::new();
    for now in 0..BAR + 400 {
        l.tick(now, &mut fired);
        if let Some(accent) = l.beat(now) {
            beats.push((now, accent));
        }
    }
    // The loop closed at 800, and a playing loop does not click.
    assert_eq!(beats, vec![(0, true), (200, false), (400, false), (600, false)]);
}

#[test]
fn tempo_is_locked_once_a_loop_exists() {
    let mut l = one_bar_loop();
    l.set_step(50);
    assert_eq!(l.loop_bars(), 1);
    l.clear();
    l.set_step(50);
    assert_eq!(l.bar_len(), 400);
}

#[test]
fn stop_silences_and_play_restarts_from_the_top() {
    let mut l = one_bar_loop();
    run(&mut l, 801, 1400);
    l.play_stop(1400);
    assert_eq!(l.state, LoopState::Stopped);
    assert!(run(&mut l, 1400, 5000).is_empty(), "a stopped loop played");

    l.play_stop(5000);
    assert_eq!(run(&mut l, 5000, 5800), vec![(5000, 0), (5400, 4)]);
}

#[test]
fn clear_forgets_everything() {
    let mut l = one_bar_loop();
    l.clear();
    assert_eq!(l.state, LoopState::Idle);
    assert_eq!(l.event_count(), 0);
    assert_eq!(l.layer(0), None);
    assert!(run(&mut l, 0, 5000).is_empty());
}

#[test]
fn position_runs_zero_to_one_round_the_loop_and_through_the_recording() {
    let mut l = looper(1);
    l.pedal(0);
    l.note_on(0, 1, c(60), 0, 0, false);
    assert!((position(&l, 400) - 0.5).abs() < 1e-6, "recording progress");
    let l = one_bar_loop();
    assert_eq!(position(&l, 800), 0.0);
    assert!((position(&l, 1200) - 0.5).abs() < 1e-6);
}

#[test]
fn recording_never_grows_past_the_preallocated_storage() {
    let mut l = Looper::new(1, 1);
    l.bars = 8;
    let cap = l.events.capacity();
    l.pedal(0);
    for i in 0..(MAX_EVENTS as u64 * 2) {
        l.note_on(i * 3, i, c(60), 0, 0, false);
        l.note_off(i * 3 + 1, i);
    }
    assert_eq!(l.events.len(), MAX_EVENTS);
    assert_eq!(l.events.capacity(), cap, "events reallocated");
}

// --- further cases ----------------------------------------------------------

#[test]
fn loop_states_survive_being_published_as_bytes() {
    for s in [
        LoopState::Idle,
        LoopState::Armed,
        LoopState::Recording,
        LoopState::Playing,
        LoopState::Overdub,
        LoopState::Stopped,
    ] {
        assert_eq!(LoopState::from_u8(s.to_u8()), s);
    }
    assert_eq!(LoopState::from_u8(200), LoopState::Idle);
    assert!(LoopState::Overdub.is_running());
    assert!(!LoopState::Stopped.is_running());
    assert!(LoopState::Stopped.has_loop());
    assert!(!LoopState::Armed.has_loop());
}

#[test]
fn muting_twice_is_no_change_at_all() {
    let mut l = one_bar_loop();
    let before = l.layer(0);
    l.toggle_mute(0);
    l.toggle_mute(0);
    assert_eq!(l.layer(0), before);
}

#[test]
fn play_stop_while_armed_disarms() {
    let mut l = looper(1);
    l.pedal(0);
    l.play_stop(5);
    assert_eq!(l.state, LoopState::Idle);
}

#[test]
fn release_all_ends_every_chord_held_while_recording() {
    let mut l = looper(1);
    l.pedal(0);
    l.note_on(0, 1, c(60), 0, 0, false);
    l.note_on(100, 2, c(62), 1, 0, false);
    l.release_all(300);
    assert_eq!(l.event_count(), 2);
    assert_eq!((l.events[0].t, l.events[0].dur), (0, 300));
    assert_eq!((l.events[1].t, l.events[1].dur), (100, 200));
}

#[test]
fn recording_progress_is_exact() {
    let mut l = looper(2);
    l.pedal(0);
    l.note_on(10, 1, c(60), 0, 0, false);
    assert_eq!(l.progress(410), (400, 1600));
    assert_eq!(l.loop_bars(), 2);
    assert_eq!(Looper::new(1, 1).progress(5), (0, 1));
}

#[test]
fn each_event_fires_once_per_cycle_while_overdubbing_and_after() {
    let mut l = one_bar_loop(); // playing from sample 800
    run(&mut l, 801, 1000);
    l.pedal(1000); // a pass with nothing played into it; it ends at 1800
    assert_eq!(l.state, LoopState::Overdub);
    let fired = run(&mut l, 1000, 800 + BAR * 4);
    assert_eq!(fired, vec![(1200, 4), (1600, 0), (2000, 4), (2400, 0), (2800, 4), (3200, 0), (3600, 4)]);
    assert_eq!(l.state, LoopState::Playing);
}

#[test]
fn release_all_is_each_held_chord_let_go_in_turn() {
    let mut a = looper(1);
    a.pedal(0);
    a.note_on(0, 1, c(60), 0, 0, false);
    a.note_on(100, 2, c(62), 1, 0, false);
    let mut b = looper(1);
    b.pedal(0);
    b.note_on(0, 1, c(60), 0, 0, false);
    b.note_on(100, 2, c(62), 1, 0, false);
    a.release_all(300);
    b.note_off(300, 1);
    b.note_off(300, 2);
    assert_eq!(a.events, b.events);
    assert!(a.open.iter().all(|o| o.is_none()));
    assert!(b.open.iter().all(|o| o.is_none()));
    assert_eq!(a.state, b.state);
    // Nothing is held any more: letting go again records nothing.
    a.note_off(400, 1);
    assert_eq!(a.event_count(), 2);
}

#[test]
fn record_while_stopped_restarts_at_the_top_with_a_pass() {
    let mut l = one_bar_loop();
    l.play_stop(900);
    assert_eq!(l.state, LoopState::Stopped);
    l.pedal(1000);
    assert_eq!(l.state, LoopState::Overdub);
    assert_eq!(l.play_start, 1000);
    assert_eq!(l.progress(1000), (0, BAR));
    let fired = run(&mut l, 1000, 1000 + BAR);
    assert_eq!(fired, vec![(1000, 0), (1400, 4)]);
}

#[test]
fn record_while_recording_shortens_to_the_bars_begun() {
    let mut l = looper(4);
    l.pedal(0);
    l.note_on(0, 1, c(60), 0, 0, false);
    l.pedal(BAR + 10); // two bars begun
    assert_eq!(l.state, LoopState::Recording);
    assert_eq!(l.loop_bars(), 2);
}
