use musika::legend::{hint, rebind_prompt, title, transport};
use musika::looper::LoopState;
use musika::theory::Mode;

#[test]
fn the_title_names_the_key_and_what_is_engaged() {
    assert_eq!(title(48, Mode::Major, -1, false), "MUSIKA   —   C major   ·   oct -1");
    assert_eq!(title(57, Mode::Minor, 0, true), "MUSIKA   —   A minor   ·   arp");
    assert_eq!(title(79, Mode::Major, 1, true), "MUSIKA   —   G major   ·   oct +1   ·   arp");
}

#[test]
fn the_legend_always_says_what_to_do_next() {
    let h = |state, layers, last, bars, chosen, pos| hint(state, layers, last, bars, chosen, pos, "space", "esc");
    assert_eq!(h(LoopState::Idle, 0, false, 0, 4, 0), "press space to start a loop");
    assert_eq!(h(LoopState::Armed, 0, false, 0, 2, 0), "play a chord to start recording   ·   2 bars");
    assert_eq!(h(LoopState::Armed, 0, false, 0, 1, 0), "play a chord to start recording   ·   1 bar");
    assert_eq!(h(LoopState::Recording, 0, false, 4, 4, 32_768), "recording layer 1   ·   bar 3 of 4");
    assert_eq!(h(LoopState::Recording, 0, false, 4, 4, 65_535), "recording layer 1   ·   bar 4 of 4");
    assert_eq!(h(LoopState::Recording, 0, false, 0, 4, 0), "recording layer 1   ·   bar 1 of 1");
    assert_eq!(h(LoopState::Playing, 2, false, 4, 4, 0), "looping   ·   space records another layer on top");
    assert_eq!(
        h(LoopState::Playing, 8, false, 4, 4, 0),
        "8 layers, the most there can be   ·   undo one to add another"
    );
    assert_eq!(h(LoopState::Overdub, 2, true, 4, 4, 0), "recording layer 2   ·   until the loop comes round again");
    assert_eq!(h(LoopState::Overdub, 2, false, 4, 4, 0), "recording layer 3   ·   until the loop comes round again");
    assert_eq!(h(LoopState::Stopped, 2, false, 4, 4, 0), "stopped   ·   esc to play");
}

#[test]
fn the_transport_follows_the_loop() {
    let idle = transport(LoopState::Idle, 0);
    assert_eq!((idle.record_label, idle.record_hot, idle.record_enabled), ("record", false, true));
    assert_eq!((idle.play_label, idle.play_enabled), ("▶ play", false));
    assert!(!idle.undo_enabled && !idle.clear_enabled && idle.length_free);

    let armed = transport(LoopState::Armed, 0);
    assert_eq!((armed.record_label, armed.record_hot), ("armed", true));
    assert!(armed.undo_enabled && !armed.clear_enabled && armed.length_free);

    let rec = transport(LoopState::Recording, 0);
    assert_eq!((rec.record_label, rec.record_hot), ("end early", true));
    assert!(rec.clear_enabled && !rec.length_free);

    let playing = transport(LoopState::Playing, 3);
    assert_eq!((playing.record_label, playing.record_enabled), ("add layer", true));
    assert_eq!((playing.play_label, playing.play_enabled), ("■ stop", true));

    let full = transport(LoopState::Stopped, 8);
    assert!(!full.record_enabled, "no room for another layer");
    assert_eq!((full.play_label, full.play_enabled), ("▶ play", true));

    let over = transport(LoopState::Overdub, 8);
    assert_eq!((over.record_label, over.record_hot, over.record_enabled), ("stop recording", true, true));
}

#[test]
fn rebinding_says_what_the_next_key_is_for() {
    assert_eq!(rebind_prompt(Some(3)), "press the key for pad 4   ·   esc to finish");
    assert_eq!(rebind_prompt(Some(8)), "press the key for play / stop   ·   esc to finish");
    assert_eq!(rebind_prompt(None), "click a pad or a control, then press a key   ·   esc to finish");
    assert_eq!(rebind_prompt(Some(99)), "click a pad or a control, then press a key   ·   esc to finish");
}
