//! What the face says: the line across the top that always tells you what to
//! do next, and which transport buttons are live. Someone who has never used
//! a looper should be able to make one by reading the legend and nothing
//! else.

use vstd::prelude::*;

use crate::controls::{
    action_at, action_label_spec, action_spec, bars_label, bars_label_spec, decimal, decimal_string,
    ACTION_COUNT,
};
use crate::looper::{LoopState, MAX_LAYERS};
use crate::settings::mode_text;
use crate::theory::{note_name, note_name_spec, Mode};

verus! {

/// The transport buttons for a loop state: each one's label, whether it is
/// lit red and whether it can be pressed.
#[derive(Clone, Copy, Debug, PartialEq, Eq)]
pub struct Transport {
    pub record_label: &'static str,
    /// Red while armed or recording.
    pub record_hot: bool,
    /// False once every layer is used: undo one to add another.
    pub record_enabled: bool,
    pub play_label: &'static str,
    pub play_enabled: bool,
    pub undo_enabled: bool,
    pub clear_enabled: bool,
    /// Length and tempo belong to the loop: chosen before recording, then
    /// fixed until it is gone.
    pub length_free: bool,
}

pub open spec fn record_label_spec(state: LoopState) -> Seq<char> {
    match state {
        LoopState::Idle => "record"@,
        LoopState::Armed => "armed"@,
        LoopState::Recording => "end early"@,
        LoopState::Playing | LoopState::Stopped => "add layer"@,
        LoopState::Overdub => "stop recording"@,
    }
}

/// The transport for `state` with `layers` layers recorded.
pub fn transport(state: LoopState, layers: usize) -> (t: Transport)
    ensures
        t.record_label@ == record_label_spec(state),
        t.record_hot == (state == LoopState::Armed || state == LoopState::Recording || state
            == LoopState::Overdub),
        t.record_enabled == !((state == LoopState::Playing || state == LoopState::Stopped) && layers
            >= MAX_LAYERS),
        t.play_label@ == (if state.running() {
            "\u{25a0} stop"@
        } else {
            "\u{25b6} play"@
        }),
        t.play_enabled == (state.running() || state == LoopState::Stopped),
        t.undo_enabled == (state != LoopState::Idle),
        t.clear_enabled == state.exists_loop(),
        t.length_free == !state.exists_loop(),
{
    let (record_label, record_hot): (&'static str, bool) = match state {
        LoopState::Idle => ("record", false),
        LoopState::Armed => ("armed", true),
        LoopState::Recording => ("end early", true),
        LoopState::Playing | LoopState::Stopped => ("add layer", false),
        LoopState::Overdub => ("stop recording", true),
    };
    let running = state.is_running();
    let full = (state == LoopState::Playing || state == LoopState::Stopped) && layers >= MAX_LAYERS;
    Transport {
        record_label,
        record_hot,
        record_enabled: !full,
        play_label: if running {
            "\u{25a0} stop"
        } else {
            "\u{25b6} play"
        },
        play_enabled: running || state == LoopState::Stopped,
        undo_enabled: state != LoopState::Idle,
        clear_enabled: state.has_loop(),
        length_free: !state.has_loop(),
    }
}

/// The bar the first recording is in, counting from one, out of `bars`;
/// `position` is how far through it is, scaled to 0..=65535.
pub open spec fn bar_of(position: u32, bars: u8) -> nat {
    let b: nat = if bars < 1 {
        1
    } else {
        bars as nat
    };
    let n = position as nat * b / 65535 + 1;
    if n > b {
        b
    } else {
        n
    }
}

/// What to do next, for a loop in `state`. `layers` are the layers there are,
/// `last_recording` whether the last of them is being recorded; `loop_bars`
/// is the loop's length, `chosen_bars` the length the next one will be;
/// `record` and `play` are what to press for those.
pub open spec fn hint_spec(
    state: LoopState,
    layers: nat,
    last_recording: bool,
    loop_bars: u8,
    chosen_bars: u8,
    position: u32,
    record: Seq<char>,
    play: Seq<char>,
) -> Seq<char> {
    let bars: nat = if loop_bars < 1 {
        1
    } else {
        loop_bars as nat
    };
    match state {
        LoopState::Idle => "press "@ + record + " to start a loop"@,
        LoopState::Armed => "play a chord to start recording   \u{b7}   "@ + bars_label_spec(chosen_bars),
        LoopState::Recording => "recording layer 1   \u{b7}   bar "@ + decimal(bar_of(position, loop_bars))
            + " of "@ + decimal(bars),
        LoopState::Playing => if layers >= MAX_LAYERS {
            decimal(MAX_LAYERS as nat) + " layers, the most there can be   \u{b7}   undo one to add another"@
        } else {
            "looping   \u{b7}   "@ + record + " records another layer on top"@
        },
        LoopState::Overdub => "recording layer "@ + decimal(
            if layers > 0 && last_recording {
                layers
            } else {
                layers + 1
            },
        ) + "   \u{b7}   until the loop comes round again"@,
        LoopState::Stopped => "stopped   \u{b7}   "@ + play + " to play"@,
    }
}

/// What to do next, for the legend.
pub fn hint(
    state: LoopState,
    layers: usize,
    last_recording: bool,
    loop_bars: u8,
    chosen_bars: u8,
    position: u32,
    record: &str,
    play: &str,
) -> (h: String)
    requires
        layers < u64::MAX,
    ensures
        h@ == hint_spec(state, layers as nat, last_recording, loop_bars, chosen_bars, position, record@, play@),
{
    let bars: u64 = if loop_bars < 1 {
        1
    } else {
        loop_bars as u64
    };
    match state {
        LoopState::Idle => String::from_str("press ").concat(record).concat(" to start a loop"),
        LoopState::Armed => {
            let b = bars_label(chosen_bars);
            String::from_str("play a chord to start recording   \u{b7}   ").concat(b.as_str())
        },
        LoopState::Recording => {
            assert(position as u64 * bars <= 0xFFFF_FFFF * 255) by (nonlinear_arith)
                requires
                    bars <= 255,
            ;
            let n: u64 = position as u64 * bars / 65535 + 1;
            let bar: u64 = if n > bars {
                bars
            } else {
                n
            };
            let at = decimal_string(bar);
            let of = decimal_string(bars);
            String::from_str("recording layer 1   \u{b7}   bar ").concat(at.as_str()).concat(" of ").concat(
                of.as_str(),
            )
        },
        LoopState::Playing => {
            if layers >= MAX_LAYERS {
                let most = decimal_string(MAX_LAYERS as u64);
                most.concat(" layers, the most there can be   \u{b7}   undo one to add another")
            } else {
                String::from_str("looping   \u{b7}   ").concat(record).concat(
                    " records another layer on top",
                )
            }
        },
        LoopState::Overdub => {
            let n: u64 = if layers > 0 && last_recording {
                layers as u64
            } else {
                layers as u64 + 1
            };
            let k = decimal_string(n);
            String::from_str("recording layer ").concat(k.as_str()).concat(
                "   \u{b7}   until the loop comes round again",
            )
        },
        LoopState::Stopped => String::from_str("stopped   \u{b7}   ").concat(play).concat(" to play"),
    }
}

/// The key the pads are in, and what else is engaged: "MUSIKA - C major",
/// the octave if it is not the home one, and the arpeggiator if it is on.
pub open spec fn title_spec(root_midi: int, mode: Mode, octave: int, arp_on: bool) -> Seq<char> {
    let head = "MUSIKA   \u{2014}   "@ + note_name_spec(root_midi % 12) + " "@ + mode_text(mode);
    let oct = if octave == 0 {
        Seq::empty()
    } else if octave > 0 {
        "   \u{b7}   oct +"@ + decimal(octave as nat)
    } else {
        "   \u{b7}   oct -"@ + decimal((-octave) as nat)
    };
    head + oct + if arp_on {
        "   \u{b7}   arp"@
    } else {
        Seq::empty()
    }
}

pub fn title(root_midi: i32, mode: Mode, octave: i32, arp_on: bool) -> (t: String)
    ensures
        t@ == title_spec(root_midi as int, mode, octave as int, arp_on),
{
    let mut t = String::from_str("MUSIKA   \u{2014}   ").concat(note_name(root_midi)).concat(" ").concat(
        mode.name(),
    );
    let ghost head = t@;
    if octave > 0 {
        let d = decimal_string(octave as u64);
        t.append("   \u{b7}   oct +");
        t.append(d.as_str());
    } else if octave < 0 {
        let d = decimal_string((-(octave as i64)) as u64);
        t.append("   \u{b7}   oct -");
        t.append(d.as_str());
    }
    let ghost with_octave = t@;
    if arp_on {
        t.append("   \u{b7}   arp");
    }
    proof {
        let oct = if octave == 0 {
            Seq::<char>::empty()
        } else if octave > 0 {
            "   \u{b7}   oct +"@ + decimal(octave as nat)
        } else {
            "   \u{b7}   oct -"@ + decimal((-octave) as nat)
        };
        assert(with_octave =~= head + oct);
        if arp_on {
            assert(t@ =~= head + oct + "   \u{b7}   arp"@);
        } else {
            assert(t@ =~= head + oct + Seq::<char>::empty());
        }
    }
    t
}


/// What the legend says while keys are being rebound: which action the next
/// key goes to, if one has been picked.
pub open spec fn rebind_prompt_spec(target: Option<usize>) -> Seq<char> {
    match target {
        Some(i) => if i < ACTION_COUNT {
            "press the key for "@ + action_label_spec(action_spec(i as int)) + "   \u{b7}   esc to finish"@
        } else {
            "click a pad or a control, then press a key   \u{b7}   esc to finish"@
        },
        None => "click a pad or a control, then press a key   \u{b7}   esc to finish"@,
    }
}

pub fn rebind_prompt(target: Option<usize>) -> (p: String)
    ensures
        p@ == rebind_prompt_spec(target),
{
    match target {
        Some(i) => {
            if i < ACTION_COUNT {
                let label = action_at(i).label();
                String::from_str("press the key for ").concat(label.as_str()).concat(
                    "   \u{b7}   esc to finish",
                )
            } else {
                String::from_str("click a pad or a control, then press a key   \u{b7}   esc to finish")
            }
        },
        None => String::from_str("click a pad or a control, then press a key   \u{b7}   esc to finish"),
    }
}

} // verus!
