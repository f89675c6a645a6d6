use musika::theory::Quality::{Augmented, Diminished, Major, Minor};
use musika::theory::{
    note_name, arp_index, arp_sequence, chord_name, chords_in_key, quality, roman_numeral, scale_note, triad,
    ArpPattern, Chord, Mode, Quality, MAJOR_SCALE, MINOR_SCALE,
};

const C4: i32 = 60; // middle C

#[test]
fn major_scale_in_c_is_the_white_keys() {
    let notes: Vec<i32> = (0..7).map(|i| scale_note(C4, &MAJOR_SCALE, i)).collect();
    assert_eq!(notes, vec![60, 62, 64, 65, 67, 69, 71]);
}

#[test]
fn positions_past_the_end_wrap_and_gain_an_octave() {
    assert_eq!(scale_note(C4, &MAJOR_SCALE, 7), 72);
    assert_eq!(scale_note(C4, &MAJOR_SCALE, 8), 74);
    assert_eq!(scale_note(C4, &MAJOR_SCALE, 13), 83);
    assert_eq!(scale_note(C4, &MAJOR_SCALE, 14), 84);
}

#[test]
fn positions_below_zero_wrap_downwards() {
    assert_eq!(scale_note(C4, &MAJOR_SCALE, -1), 59);
    assert_eq!(scale_note(C4, &MAJOR_SCALE, -7), 48);
    assert_eq!(scale_note(C4, &MAJOR_SCALE, -8), 47);
}

#[test]
fn triads_stack_every_other_scale_note() {
    assert_eq!(triad(C4, &MAJOR_SCALE, 0), [60, 64, 67]);
    assert_eq!(triad(C4, &MAJOR_SCALE, 1), [62, 65, 69]);
    assert_eq!(triad(C4, &MAJOR_SCALE, 4), [67, 71, 74]);
}

#[test]
fn last_triad_borrows_its_upper_notes_from_the_octave_above() {
    assert_eq!(triad(C4, &MAJOR_SCALE, 6), [71, 74, 77]);
}

#[test]
fn major_key_yields_the_headline_quality_sequence() {
    let q: Vec<Quality> = chords_in_key(C4, &MAJOR_SCALE).iter().map(quality).collect();
    assert_eq!(q, vec![Major, Minor, Minor, Major, Major, Minor, Diminished]);
}

#[test]
fn that_sequence_holds_in_every_one_of_the_12_keys() {
    let expected = vec![Major, Minor, Minor, Major, Major, Minor, Diminished];
    for root in 48..60 {
        let q: Vec<Quality> = chords_in_key(root, &MAJOR_SCALE).iter().map(quality).collect();
        assert_eq!(q, expected, "broken for root MIDI {root}");
    }
}

#[test]
fn minor_key_yields_minor_dim_major_minor_minor_major_major() {
    let q: Vec<Quality> = chords_in_key(C4, &MINOR_SCALE).iter().map(quality).collect();
    assert_eq!(q, vec![Minor, Diminished, Major, Minor, Minor, Major, Major]);
}

#[test]
fn minor_sequence_also_holds_in_every_key() {
    let expected = vec![Minor, Diminished, Major, Minor, Minor, Major, Major];
    for root in 48..60 {
        let q: Vec<Quality> = chords_in_key(root, &MINOR_SCALE).iter().map(quality).collect();
        assert_eq!(q, expected, "broken for root MIDI {root}");
    }
}

#[test]
fn quality_reads_the_gaps_not_the_pitches() {
    assert_eq!(quality(&[60, 64, 67]), Quality::Major);
    assert_eq!(quality(&[60, 63, 67]), Quality::Minor);
    assert_eq!(quality(&[60, 63, 66]), Quality::Diminished);
    assert_eq!(quality(&[60, 64, 68]), Augmented);
}

#[test]
fn chords_of_c_major_are_named_as_sheet_music_names_them() {
    let names: Vec<String> = chords_in_key(C4, &MAJOR_SCALE).iter().map(chord_name).collect();
    assert_eq!(names, ["C", "Dm", "Em", "F", "G", "Am", "Bdim"]);
}

#[test]
fn a_minor_is_the_white_keys_starting_from_a() {
    let names: Vec<String> = chords_in_key(57, &MINOR_SCALE).iter().map(chord_name).collect();
    assert_eq!(names, ["Am", "Bdim", "C", "Dm", "Em", "F", "G"]);
}

#[test]
fn roman_numerals_carry_the_quality_in_their_casing() {
    let n: Vec<String> = chords_in_key(C4, &MAJOR_SCALE)
        .iter()
        .enumerate()
        .map(|(d, c)| roman_numeral(c, d))
        .collect();
    assert_eq!(n, ["I", "ii", "iii", "IV", "V", "vi", "vii°"]);
}

#[test]
fn arp_patterns_walk_a_triad_in_the_right_order() {
    assert_eq!(arp_sequence(ArpPattern::Up, 3), vec![0, 1, 2]);
    assert_eq!(arp_sequence(ArpPattern::Down, 3), vec![2, 1, 0]);
    assert_eq!(arp_sequence(ArpPattern::UpDown, 3), vec![0, 1, 2, 1]);
}

#[test]
fn up_down_turns_around_correctly_on_a_four_note_chord() {
    assert_eq!(arp_sequence(ArpPattern::UpDown, 4), vec![0, 1, 2, 3, 2, 1]);
}

#[test]
fn arp_patterns_degrade_safely_on_short_chords() {
    assert_eq!(arp_sequence(ArpPattern::UpDown, 2), vec![0, 1]);
    assert_eq!(arp_sequence(ArpPattern::UpDown, 1), vec![0]);
    assert_eq!(arp_sequence(ArpPattern::Down, 1), vec![0]);
    assert!(arp_sequence(ArpPattern::Up, 0).is_empty());
    assert!(arp_sequence(ArpPattern::UpDown, 0).is_empty());
}

#[test]
fn arp_index_agrees_with_the_readable_definition() {
    for pattern in [ArpPattern::Up, ArpPattern::Down, ArpPattern::UpDown] {
        for n in 1..=6usize {
            let seq = arp_sequence(pattern, n);
            for step in 0..seq.len() * 3 {
                assert_eq!(
                    arp_index(pattern, n, step),
                    seq[step % seq.len()],
                    "{pattern:?} n={n} step={step}"
                );
            }
        }
    }
}

#[test]
fn a_chord_keeps_its_pitches_and_caps_at_four() {
    let c = Chord::new(&[60, 64, 67]);
    assert_eq!(c.as_slice(), &[60, 64, 67]);
    assert_eq!(c.len(), 3);
    assert_eq!(Chord::new(&[1, 2, 3, 4, 5]).as_slice(), &[1, 2, 3, 4]);
    assert!(Chord::new(&[]).is_empty());
}

#[test]
fn every_arp_step_indexes_a_note_that_exists() {
    for pattern in [ArpPattern::Up, ArpPattern::Down, ArpPattern::UpDown] {
        for n in 1..=5usize {
            let seq = arp_sequence(pattern, n);
            assert!(seq.iter().all(|&i| i < n), "{pattern:?}/{n} out of range: {seq:?}");
            let unique: std::collections::HashSet<_> = seq.iter().collect();
            assert_eq!(unique.len(), n, "{pattern:?}/{n} never plays every note: {seq:?}");
        }
    }
}

// --- further cases ----------------------------------------------------------

#[test]
fn mode_patterns_and_names() {
    assert_eq!(Mode::Major.pattern(), MAJOR_SCALE);
    assert_eq!(Mode::Minor.pattern(), MINOR_SCALE);
    assert_eq!(Mode::Major.name(), "major");
    assert_eq!(Mode::Minor.name(), "minor");
}

#[test]
fn note_names_wrap_in_both_directions() {
    assert_eq!(note_name(60), "C");
    assert_eq!(note_name(61), "C#");
    assert_eq!(note_name(71), "B");
    assert_eq!(note_name(-1), "B");
    assert_eq!(note_name(-12), "C");
}

#[test]
fn augmented_and_unknown_chords_are_named() {
    assert_eq!(chord_name(&[60, 64, 68]), "Caug");
    assert_eq!(chord_name(&[60, 62, 67]), "C");
    assert_eq!(roman_numeral(&[60, 64, 68], 2), "III");
    assert_eq!(roman_numeral(&[60, 62, 67], 0), "I");
    assert_eq!(quality(&[60, 62, 67]), Quality::Unknown);
}

#[test]
fn arp_index_of_an_empty_chord_is_zero() {
    assert_eq!(arp_index(ArpPattern::Up, 0, 5), 0);
    assert_eq!(arp_index(ArpPattern::UpDown, 0, 5), 0);
    assert_eq!(arp_index(ArpPattern::Down, 4, 0), 3);
    assert_eq!(arp_index(ArpPattern::UpDown, 4, 4), 2);
}

#[test]
fn a_chord_reads_its_notes_by_position() {
    let c = Chord::new(&[48, 52, 55, 59]);
    assert_eq!(c.note(0), 48);
    assert_eq!(c.note(3), 59);
    assert!(!c.is_empty());
}
