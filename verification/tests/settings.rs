use musika::settings::{Settings, OCTAVE_MAX, OCTAVE_MIN};
use musika::theory::{ArpPattern, Mode};

fn strings(v: &[&str]) -> Vec<String> {
    v.iter().map(|s| s.to_string()).collect()
}

#[test]
fn settings_survive_a_round_trip() {
    let s = Settings {
        key_pitch: 9,
        mode: Mode::Minor,
        octave: -2,
        patch: "lo-fi".into(),
        arp_on: true,
        arp_pattern: ArpPattern::UpDown,
        // The tempo comes back as the text of its one line.
        bpm_entries: strings(&["96"]),
        bindings: vec![
            ("pad1".into(), strings(&["A", "1"])),
            ("clear".into(), vec![]),
        ],
    };
    assert_eq!(Settings::parse(&s.to_text(96)), s);
}

#[test]
fn an_empty_or_missing_file_gives_the_defaults() {
    assert_eq!(Settings::parse(""), Settings::default());
}

#[test]
fn garbage_falls_back_one_value_at_a_time() {
    // Every line here is broken in a different way. The good one in the
    // middle must still land; the rest must leave their defaults alone.
    let s = Settings::parse(
        "key = 14\nmode = sideways\nthis line has no equals\noctave = 99\n\
         patch = bell\nbpm = NaN\narp_pattern = diagonal\narp = maybe\n",
    );
    let d = Settings::default();
    assert_eq!(s.key_pitch, d.key_pitch, "key 14 is not a key");
    assert_eq!(s.mode, d.mode);
    assert_eq!(s.octave, OCTAVE_MAX, "octave is clamped, not rejected");
    assert_eq!(s.patch, "bell");
    // The tempo's text is handed over as written, for the caller to reject.
    assert_eq!(s.bpm_entries, strings(&["NaN"]));
    assert!(!"NaN".parse::<f32>().unwrap().is_finite());
    assert_eq!(s.arp_pattern, d.arp_pattern);
    assert_eq!(s.arp_on, d.arp_on);
}

#[test]
fn an_unbound_action_stays_unbound_and_unmentioned_ones_are_not_invented() {
    let s = Settings::parse("bind.clear =\n");
    assert_eq!(s.bindings, vec![("clear".to_string(), vec![])]);
}

#[test]
fn the_defaults_are_c_major_an_octave_down() {
    let d = Settings::defaults();
    assert_eq!(d.key_pitch, 0);
    assert_eq!(d.mode, Mode::Major);
    assert_eq!(d.octave, -1);
    assert_eq!(d.patch, "warm");
    assert!(!d.arp_on);
    assert_eq!(d.arp_pattern, ArpPattern::Up);
    assert!(d.bpm_entries.is_empty());
    assert!(d.bindings.is_empty());
}

#[test]
fn the_written_file_is_plain_lines() {
    let mut s = Settings::defaults();
    s.octave = -3;
    s.bindings = vec![("pad2".into(), strings(&["S", "2", "Num2"]))];
    assert_eq!(
        s.to_text(120),
        "# Musika settings. Safe to edit by hand; delete this file to reset.\n\
         key = 0\nmode = major\noctave = -3\npatch = warm\narp = off\n\
         arp_pattern = up\nbpm = 120\nbind.pad2 = S, 2, Num2\n"
    );
}

#[test]
fn spaces_comments_and_signs_are_read_as_a_person_would() {
    let s = Settings::parse(
        "  # a comment = with an equals\n\tkey=+4  \r\noctave = -9\nmode=minor\n\
         arp_pattern =updown\npatch = soft pad \narp = on",
    );
    assert_eq!(s.key_pitch, 4);
    assert_eq!(s.octave, OCTAVE_MIN, "clamped from below");
    assert_eq!(s.mode, Mode::Minor);
    assert_eq!(s.arp_pattern, ArpPattern::UpDown);
    assert_eq!(s.patch, "soft pad");
    assert!(s.arp_on, "the last line needs no newline");
}

#[test]
fn numbers_that_are_not_numbers_are_ignored() {
    for bad in ["key = ", "key = -", "key = 1.5", "key = 0x3", "key = 99999999999", "key = 12"] {
        assert_eq!(Settings::parse(bad).key_pitch, 0, "{bad}");
    }
    assert_eq!(Settings::parse("key = 11").key_pitch, 11);
    assert_eq!(Settings::parse("octave = -2147483648").octave, OCTAVE_MIN);
    assert_eq!(Settings::parse("octave = 2147483648").octave, -1, "does not fit an i32");
}

#[test]
fn an_empty_patch_keeps_the_old_one() {
    assert_eq!(Settings::parse("patch =   \n").patch, "warm");
    assert_eq!(Settings::parse("patch = a = b\n").patch, "a = b");
}

#[test]
fn a_later_binding_replaces_an_earlier_one_and_moves_to_the_end() {
    let s = Settings::parse("bind.pad1 = A\nbind.arp = Q\nbind.pad1 = , Z ,, X ,\n");
    assert_eq!(
        s.bindings,
        vec![
            ("arp".to_string(), strings(&["Q"])),
            ("pad1".to_string(), strings(&["Z", "X"])),
        ]
    );
    assert_eq!(s.keys_for("pad1"), Some(&strings(&["Z", "X"])));
    assert_eq!(s.keys_for("clear"), None);
}

#[test]
fn every_tempo_line_is_kept_in_order() {
    let s = Settings::parse("bpm = 5\nbpm = 9000\n");
    assert_eq!(s.bpm_entries, strings(&["5", "9000"]));
}

#[test]
fn a_round_trip_keeps_negative_octaves_and_odd_key_names() {
    let s = Settings {
        key_pitch: 11,
        mode: Mode::Major,
        octave: OCTAVE_MIN,
        patch: "a=b # c".into(),
        arp_on: false,
        arp_pattern: ArpPattern::Down,
        bpm_entries: strings(&["240"]),
        bindings: vec![
            ("octave_up".into(), strings(&["=", "Plus"])),
            ("".into(), strings(&["X"])),
        ],
    };
    assert_eq!(Settings::parse(&s.to_text(240)), s);
}
