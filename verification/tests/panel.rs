use musika::controls::{Action, Source, ACTION_COUNT};
use musika::engine::Msg;
use musika::panel::{Panel, TouchPhase};
use musika::theory::{ArpPattern, Mode};

// Key codes for the tests: A=0, S=1, ... for the pads, 50 record, 51 arp,
// 52 octave down, 53 octave up, 99 escape.
const ESC: u32 = 99;

fn bindings() -> Vec<Vec<u32>> {
    let mut b: Vec<Vec<u32>> = (0..7).map(|k| vec![k]).collect();
    b.push(vec![50]); // record
    b.push(vec![]); // play / stop
    b.push(vec![]); // undo
    b.push(vec![]); // clear
    b.push(vec![51]); // arp
    b.push(vec![52]); // octave down
    b.push(vec![53]); // octave up
    assert_eq!(b.len(), ACTION_COUNT);
    b
}

fn panel() -> Panel {
    Panel::new(0, Mode::Major, -1, 1, 5, false, ArpPattern::Up, 4, bindings())
}

#[test]
fn the_pads_hold_the_chords_of_the_key() {
    let p = panel();
    // C major, an octave below middle C.
    assert_eq!(p.chords[0], [48, 52, 55]);
    assert_eq!(p.chords[4], [55, 59, 62]);
    assert_eq!(p.chords[6], [59, 62, 65]);
    // Keys past F# drop an octave rather than climbing.
    let g = Panel::new(7, Mode::Major, 0, 0, 5, false, ArpPattern::Up, 4, bindings());
    assert_eq!(g.chords[0], [55, 59, 62]);
}

#[test]
fn a_held_key_sounds_once_and_lets_go_once() {
    let mut p = panel();
    let mut out = Vec::new();
    p.handle_keys(true, &vec![0], &vec![0], ESC, &mut out);
    p.handle_keys(true, &vec![], &vec![0], ESC, &mut out);
    assert_eq!(out.len(), 1, "a key still down must not sound again");
    let id = Source::Key(0).id(0);
    assert_eq!(out[0], Msg::NoteOn { id, chord: [48, 52, 55], degree: 0 });
    assert!(p.is_lit(0));
    p.handle_keys(true, &vec![], &vec![], ESC, &mut out);
    assert_eq!(out[1], Msg::NoteOff { id });
    p.handle_keys(true, &vec![], &vec![], ESC, &mut out);
    assert_eq!(out.len(), 2, "nothing for a key that is already up");
    assert!(!p.is_lit(0));
}

#[test]
fn holding_a_pad_two_ways_and_lifting_one_keeps_it_sounding() {
    let mut p = panel();
    let mut out = Vec::new();
    p.note_on(Source::Key(2), 2, &mut out);
    p.note_on(Source::Pointer, 2, &mut out);
    p.note_off(Source::Key(2), 2, &mut out);
    assert!(p.is_lit(2));
    assert_eq!(out.len(), 3);
}

#[test]
fn control_keys_do_their_jobs() {
    let mut p = panel();
    let mut out = Vec::new();
    p.handle_keys(true, &vec![50], &vec![50], ESC, &mut out);
    assert_eq!(out, vec![Msg::Pedal]);
    out.clear();
    p.handle_keys(true, &vec![51], &vec![51], ESC, &mut out);
    assert_eq!(out, vec![Msg::SetArp(true)]);
    assert!(p.arp_on && p.dirty);
    out.clear();
    p.handle_keys(true, &vec![53], &vec![53], ESC, &mut out);
    assert_eq!(out, vec![Msg::ReleaseLive]);
    assert_eq!(p.octave, 0);
    assert_eq!(p.chords[0], [60, 64, 67], "the chords follow the octave");
    out.clear();
    p.handle_keys(true, &vec![53], &vec![53], ESC, &mut out);
    p.handle_keys(true, &vec![53], &vec![53], ESC, &mut out);
    assert_eq!(p.octave, 1, "clamped at the top");
    assert_eq!(out, vec![Msg::ReleaseLive], "nothing changes past the top");
}

#[test]
fn losing_focus_lets_go_of_every_key() {
    let mut p = panel();
    let mut out = Vec::new();
    p.handle_keys(true, &vec![0, 3], &vec![0, 3], ESC, &mut out);
    p.handle_pointer(true, true, Some(5), &mut out);
    out.clear();
    p.handle_keys(false, &vec![], &vec![0, 3], ESC, &mut out);
    assert_eq!(
        out,
        vec![Msg::NoteOff { id: Source::Key(0).id(0) }, Msg::NoteOff { id: Source::Key(3).id(3) }]
    );
    assert!(p.is_lit(5), "the mouse still holds its pad");
    assert!(!p.is_lit(0) && !p.is_lit(3));
}

#[test]
fn rebinding_takes_the_next_key_and_escape_ends_it() {
    let mut p = panel();
    let mut out = Vec::new();
    p.set_rebinding(true, &mut out);
    assert_eq!(out, vec![Msg::ReleaseLive]);
    // Clicking a pad picks it as the thing to rebind.
    p.handle_pointer(true, true, Some(2), &mut out);
    assert_eq!(p.binding_target, Some(2));
    p.handle_keys(true, &vec![0, 7], &vec![0, 7], ESC, &mut out);
    assert_eq!(p.bindings[2], vec![0], "the first key goes to the pad");
    assert_eq!(p.bindings[0], Vec::<u32>::new(), "and is taken off pad 1");
    assert_eq!(p.binding_target, None);
    assert!(p.dirty);
    out.clear();
    p.handle_keys(true, &vec![ESC], &vec![ESC], ESC, &mut out);
    assert!(!p.rebinding);
    assert_eq!(out, vec![Msg::ReleaseLive]);
}

#[test]
fn a_finger_sliding_across_the_pads_moves_the_chord_with_it() {
    let mut p = panel();
    let mut out = Vec::new();
    let busy = p.handle_touches(&vec![(9, TouchPhase::Start, Some(1))], &mut out);
    assert!(busy);
    p.handle_touches(&vec![(9, TouchPhase::Move, Some(1)), (9, TouchPhase::Move, Some(2))], &mut out);
    let id1 = Source::Touch(9).id(1);
    let id2 = Source::Touch(9).id(2);
    assert_eq!(
        out,
        vec![
            Msg::NoteOn { id: id1, chord: [50, 53, 57], degree: 1 },
            Msg::NoteOff { id: id1 },
            Msg::NoteOn { id: id2, chord: [52, 55, 59], degree: 2 },
        ]
    );
    out.clear();
    let busy = p.handle_touches(&vec![(9, TouchPhase::End, None)], &mut out);
    assert!(busy, "a frame with a touch in it is still a touch frame");
    assert_eq!(out, vec![Msg::NoteOff { id: id2 }]);
    assert!(!p.handle_touches(&vec![], &mut out), "no finger left");
}

#[test]
fn a_drag_that_started_off_the_pads_plays_nothing() {
    let mut p = panel();
    let mut out = Vec::new();
    p.handle_pointer(true, true, None, &mut out);
    p.handle_pointer(true, false, Some(3), &mut out);
    assert!(out.is_empty());
    p.handle_pointer(false, false, Some(3), &mut out);
    p.handle_pointer(true, true, Some(3), &mut out);
    p.handle_pointer(true, false, Some(4), &mut out);
    p.handle_pointer(false, false, Some(4), &mut out);
    let id3 = Source::Pointer.id(3);
    let id4 = Source::Pointer.id(4);
    assert_eq!(
        out,
        vec![
            Msg::NoteOn { id: id3, chord: [53, 57, 60], degree: 3 },
            Msg::NoteOff { id: id3 },
            Msg::NoteOn { id: id4, chord: [55, 59, 62], degree: 4 },
            Msg::NoteOff { id: id4 },
        ]
    );
}

#[test]
fn changing_key_or_sound_lets_go_and_is_remembered() {
    let mut p = panel();
    let mut out = Vec::new();
    p.note_on(Source::Pointer, 0, &mut out);
    out.clear();
    p.set_key(9, Mode::Minor, &mut out);
    assert_eq!(out, vec![Msg::ReleaseLive]);
    assert!(!p.is_lit(0) && p.dirty);
    // A minor, an octave down: 60 + (9 - 12) - 12.
    assert_eq!(p.chords[0], [45, 48, 52]);
    out.clear();
    p.set_key(9, Mode::Minor, &mut out);
    assert!(out.is_empty(), "the same key changes nothing");
    p.set_patch(3, &mut out);
    assert_eq!(out, vec![Msg::ReleaseLive, Msg::SetPatch(3)]);
    out.clear();
    p.do_action(Action::Record, &mut out);
    p.do_action(Action::Clear, &mut out);
    p.do_action(Action::Pad(2), &mut out);
    assert_eq!(out, vec![Msg::Pedal, Msg::ClearLoop]);
}
