use eframe::egui::Key;
use musika::controls::{
    action_at, bars_label, bind, decimal_string, pattern_label, Action, Source, ACTION_COUNT,
};
use musika::keymap::{
    bindings_for_file, bindings_from, default_bindings, key_label, key_name, keys_label, names_of,
};
use musika::engine::{looping_mask, mask_lights, Status, AUTO_ID_BASE};
use musika::looper::LoopState;
use musika::settings::{pattern_from, pattern_name, Settings};
use musika::theory::ArpPattern;

#[test]
fn every_action_has_a_binding_slot_and_finds_it() {
    for i in 0..ACTION_COUNT {
        assert_eq!(action_at(i).index(), i);
    }
}

#[test]
fn actions_are_named_for_the_file_and_labelled_for_people() {
    assert_eq!(Action::Pad(0).name(), "pad1");
    assert_eq!(Action::Pad(6).name(), "pad7");
    assert_eq!(Action::OctaveDown.name(), "octave_down");
    assert_eq!(Action::Pad(3).label(), "pad 4");
    assert_eq!(Action::PlayStop.label(), "play / stop");
    assert_eq!(Action::Undo.label(), "undo layer");
}

fn code(key: Key) -> u32 {
    key as u32
}

fn key_of(code: u32) -> Key {
    *Key::ALL.iter().find(|k| **k as u32 == code).expect("a key's code")
}

#[test]
fn every_action_has_a_default_binding_slot() {
    assert_eq!(default_bindings().len(), ACTION_COUNT);
}

#[test]
fn no_key_starts_bound_to_two_things() {
    let all: Vec<u32> = default_bindings().into_iter().flatten().collect();
    let mut unique = all.clone();
    unique.sort();
    unique.dedup();
    assert_eq!(all.len(), unique.len(), "a default key is bound twice");
}

#[test]
fn default_keys_survive_being_saved_by_name() {
    // Bindings are stored as key names; one that did not read back would
    // silently vanish on the next launch.
    for c in default_bindings().into_iter().flatten() {
        let key = key_of(c);
        assert_eq!(Key::from_name(key.name()), Some(key), "{key:?} does not round-trip");
    }
}

#[test]
fn the_default_keys_are_the_home_row_and_the_number_row() {
    let b = default_bindings();
    assert_eq!(b[0], vec![code(Key::A), code(Key::Num1)]);
    assert_eq!(b[6], vec![code(Key::J), code(Key::Num7)]);
    assert_eq!(b[Action::Record.index()], vec![code(Key::Space)]);
    assert_eq!(b[Action::PlayStop.index()], vec![code(Key::Escape)]);
    assert_eq!(b[Action::Undo.index()], vec![code(Key::Backspace)]);
    assert!(b[Action::Clear.index()].is_empty(), "clear starts unbound");
    assert_eq!(b[Action::OctaveDown.index()], vec![code(Key::Minus)]);
}

#[test]
fn rebinding_steals_the_key_from_whatever_had_it() {
    let mut b = default_bindings();
    let arp = Action::Arp.index();
    bind(&mut b, arp, code(Key::A)); // A was pad 1's
    assert_eq!(b[arp], vec![code(Key::A)]);
    assert_eq!(b[0], vec![code(Key::Num1)], "pad 1 should have lost A but kept 1");
}

#[test]
fn bindings_saved_and_loaded_come_back_the_same() {
    let mut s = Settings::default();
    let mut b = default_bindings();
    bind(&mut b, Action::Clear.index(), code(Key::Delete));
    s.bindings = bindings_for_file(&b);
    let reloaded = bindings_from(&Settings::parse(&s.to_text(120)));
    assert_eq!(reloaded, b);
}

#[test]
fn a_file_binding_overrides_only_its_own_action() {
    let s = Settings::parse("bind.arp = W, NoSuchKey\nbind.clear =\n");
    let b = bindings_from(&s);
    let d = default_bindings();
    assert_eq!(b[Action::Arp.index()], vec![code(Key::W)], "a name that is no key is dropped");
    assert!(b[Action::Clear.index()].is_empty());
    assert_eq!(b[0], d[0]);
    assert_eq!(b[Action::Record.index()], d[Action::Record.index()]);
}

#[test]
fn input_ids_never_collide_with_the_engine_s_own() {
    let sources = [
        Source::Key(code(Key::Z)),
        Source::Key(code(Key::Num9)),
        Source::Pointer,
        Source::Touch(u64::MAX),
    ];
    let mut seen = std::collections::HashSet::new();
    for s in sources {
        for degree in 0..7 {
            let id = s.id(degree);
            assert!(id < AUTO_ID_BASE, "{s:?} id {id} is in the engine's range");
            assert!(seen.insert(id), "{s:?} pad {degree} collides");
        }
    }
}

#[test]
fn labels_for_bars_and_patterns() {
    assert_eq!(bars_label(1), "1 bar");
    assert_eq!(bars_label(8), "8 bars");
    assert_eq!(bars_label(16), "16 bars");
    assert_eq!(pattern_label(ArpPattern::UpDown), "up-down");
    assert_eq!(pattern_label(ArpPattern::Down), "down");
    assert_eq!(decimal_string(0), "0");
    assert_eq!(decimal_string(1234567890), "1234567890");
}

#[test]
fn pattern_names_round_trip() {
    for p in [ArpPattern::Up, ArpPattern::Down, ArpPattern::UpDown] {
        assert_eq!(pattern_from(pattern_name(p)), Some(p));
    }
    assert_eq!(pattern_name(ArpPattern::UpDown), "updown");
    assert_eq!(pattern_from("diagonal"), None);
    assert_eq!(pattern_from("up-down"), None);
}

#[test]
fn the_pad_mask_lights_exactly_the_listed_pads() {
    let flashes = vec![(0u8, 100u64), (4, 200), (11, 300)];
    let mask = looping_mask(&flashes);
    assert_eq!(mask, 0b1001_0001);
    assert!(mask_lights(mask, 0));
    assert!(mask_lights(mask, 4));
    assert!(mask_lights(mask, 7), "pads past the eighth light the eighth");
    assert!(!mask_lights(mask, 1));
    assert!(!mask_lights(mask, 8));
}

#[test]
fn status_reports_what_was_published() {
    let s = Status::default();
    assert_eq!(s.loop_state(), LoopState::Idle);
    assert!(!s.pad_looping(0));
    s.publish(LoopState::Overdub, 32768, 0b0000_0101);
    assert_eq!(s.loop_state(), LoopState::Overdub);
    assert_eq!(s.loop_position_scaled(), 32768);
    assert!(s.pad_looping(0));
    assert!(s.pad_looping(2));
    assert!(!s.pad_looping(1));
    assert!(!s.pad_looping(9));
}

#[test]
fn a_code_is_named_as_the_windowing_library_names_its_key() {
    assert_eq!(key_name(code(Key::A)), Some("A"));
    assert_eq!(key_name(code(Key::Num1)), Some("1"));
    assert_eq!(key_name(code(Key::Space)), Some("Space"));
    assert_eq!(key_name(u32::MAX), None);
    assert_eq!(names_of(&vec![code(Key::Q), u32::MAX, code(Key::Minus)]), vec!["Q", "Minus"]);
}

#[test]
fn bindings_are_saved_by_action_and_key_name() {
    let saved = bindings_for_file(&default_bindings());
    assert_eq!(saved.len(), ACTION_COUNT);
    assert_eq!(saved[0], ("pad1".to_string(), strings(&["A", "1"])));
    assert_eq!(saved[Action::Record.index()], ("record".to_string(), strings(&["Space"])));
    assert_eq!(saved[Action::Clear.index()], ("clear".to_string(), vec![]));
}

#[test]
fn keys_are_labelled_short_on_the_face() {
    assert_eq!(key_label(code(Key::Space)), "space");
    assert_eq!(key_label(code(Key::Escape)), "esc");
    assert_eq!(key_label(code(Key::Backspace)), "bksp");
    assert_eq!(key_label(code(Key::Minus)), "-");
    assert_eq!(key_label(code(Key::Equals)), "=");
    assert_eq!(key_label(code(Key::Num7)), "7");
    assert_eq!(key_label(code(Key::W)), "W");
    assert_eq!(keys_label(&vec![code(Key::A), code(Key::Num1)]), "A · 1");
    assert_eq!(keys_label(&vec![]), "");
}

fn strings(v: &[&str]) -> Vec<String> {
    v.iter().map(|s| s.to_string()).collect()
}
