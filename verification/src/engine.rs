//! What passes between the controls and the audio thread: the messages the
//! controls send, and what the audio thread reports back - the loop's state,
//! its position and which pads the loop is playing - as atomics, so reading
//! them never blocks either side.

use std::sync::atomic::{AtomicU32, AtomicU8, Ordering};

use vstd::prelude::*;

use crate::looper::{state_from_u8, state_to_u8, Layer, LoopState};
use crate::theory::ArpPattern;

verus! {

/// What the controls ask the audio thread to do.
#[derive(Clone, Copy, Debug, PartialEq)]
pub enum Msg {
    /// A finger went down on pad `degree`, sounding `chord`, until `NoteOff`.
    NoteOn { id: u64, chord: [i32; 3], degree: u8 },
    NoteOff { id: u64 },
    /// Let go of every live input - key, octave and patch changes use this.
    ReleaseLive,
    SetPatch(usize),
    /// The looper's record button: arm, close the loop, overdub.
    Pedal,
    PlayStop,
    Undo,
    ClearLoop,
    SetArp(bool),
    SetArpPattern(ArpPattern),
    /// A new tempo, as one step (an eighth note) in samples.
    SetStep(u64),
    SetBars(u8),
    ToggleMute(u8),
    RemoveLayer(u8),
}

/// A message as values.
pub enum Sent {
    NoteOn { id: u64, chord: Seq<i32>, degree: u8 },
    NoteOff { id: u64 },
    ReleaseLive,
    SetPatch(usize),
    Pedal,
    PlayStop,
    Undo,
    ClearLoop,
    SetArp(bool),
    SetArpPattern(ArpPattern),
    SetStep(u64),
    SetBars(u8),
    ToggleMute(u8),
    RemoveLayer(u8),
}

impl View for Msg {
    type V = Sent;

    open spec fn view(&self) -> Sent {
        match *self {
            Msg::NoteOn { id, chord, degree } => Sent::NoteOn { id, chord: chord@, degree },
            Msg::NoteOff { id } => Sent::NoteOff { id },
            Msg::ReleaseLive => Sent::ReleaseLive,
            Msg::SetPatch(i) => Sent::SetPatch(i),
            Msg::Pedal => Sent::Pedal,
            Msg::PlayStop => Sent::PlayStop,
            Msg::Undo => Sent::Undo,
            Msg::ClearLoop => Sent::ClearLoop,
            Msg::SetArp(on) => Sent::SetArp(on),
            Msg::SetArpPattern(p) => Sent::SetArpPattern(p),
            Msg::SetStep(s) => Sent::SetStep(s),
            Msg::SetBars(b) => Sent::SetBars(b),
            Msg::ToggleMute(k) => Sent::ToggleMute(k),
            Msg::RemoveLayer(k) => Sent::RemoveLayer(k),
        }
    }
}

/// A list of messages as values.
pub open spec fn sent(msgs: Seq<Msg>) -> Seq<Sent> {
    msgs.map_values(|m: Msg| m@)
}

/// Voice ids at or above this belong to notes the engine started itself - the
/// looper's and the arpeggiator's - rather than to a finger.
pub const AUTO_ID_BASE: u64 = 0x1_0000_0000_0000;

/// The bit a pad lights in the mask: pads past the eighth share the top bit.
pub open spec fn pad_bit(degree: u8) -> u8 {
    if degree < 7 {
        (1u8 << degree) as u8
    } else {
        0x80u8
    }
}

/// Every pad in `flashes` lit in one byte.
pub open spec fn mask_of(flashes: Seq<(u8, u64)>) -> u8
    decreases flashes.len(),
{
    if flashes.len() == 0 {
        0
    } else {
        mask_of(flashes.drop_last()) | pad_bit(flashes.last().0)
    }
}

/// Whether pad `degree` is set in a mask.
pub open spec fn mask_has(mask: u8, degree: usize) -> bool {
    degree < 8 && mask & ((1u8 << (degree as u8)) as u8) != 0
}

/// The byte of pads the loop is lighting, from its (pad, until) list.
pub fn looping_mask(flashes: &Vec<(u8, u64)>) -> (mask: u8)
    ensures
        mask == mask_of(flashes@),
{
    let mut mask: u8 = 0;
    let mut i: usize = 0;
    while i < flashes.len()
        invariant
            i <= flashes@.len(),
            mask == mask_of(flashes@.take(i as int)),
        decreases flashes@.len() - i,
    {
        let degree = flashes[i].0;
        let bit: u8 = if degree < 7 {
            1u8 << degree
        } else {
            0x80
        };
        proof {
            assert(flashes@.take(i + 1).drop_last() =~= flashes@.take(i as int));
        }
        mask = mask | bit;
        i = i + 1;
    }
    assert(flashes@.take(flashes@.len() as int) =~= flashes@);
    mask
}

/// Whether pad `degree` is lit in `mask`.
pub fn mask_lights(mask: u8, degree: usize) -> (lit: bool)
    ensures
        lit == mask_has(mask, degree),
{
    if degree < 8 {
        let d = degree as u8;
        mask & (1u8 << d) != 0
    } else {
        false
    }
}

/// A pad is lit exactly when some flash in the list is on it (pads past
/// the eighth lighting the eighth).
pub proof fn lemma_mask_lights_listed_pads(flashes: Seq<(u8, u64)>, degree: usize)
    requires
        degree < 8,
    ensures
        mask_has(mask_of(flashes), degree) <==> exists|i: int|
            0 <= i < flashes.len() && (if flashes[i].0 < 7 {
                flashes[i].0 as int
            } else {
                7
            }) == degree,
    decreases flashes.len(),
{
    let dd = degree as u8;
    if flashes.len() == 0 {
        assert(0u8 & ((1u8 << dd) as u8) == 0) by (bit_vector);
    } else {
        let d = flashes.drop_last();
        lemma_mask_lights_listed_pads(d, degree);
        let m = mask_of(d);
        let g = flashes.last().0;
        let k: u8 = if g < 7 {
            g
        } else {
            7
        };
        assert(pad_bit(g) == (1u8 << k) as u8) by {
            if g >= 7 {
                assert((1u8 << 7u8) as u8 == 0x80u8) by (bit_vector);
            }
        }
        assert(((m | ((1u8 << k) as u8)) & ((1u8 << dd) as u8) != 0) <==> (m & ((1u8 << dd) as u8)
            != 0 || k == dd)) by (bit_vector)
            requires
                k < 8,
                dd < 8,
        ;
        if exists|i: int|
            0 <= i < d.len() && (if d[i].0 < 7 {
                d[i].0 as int
            } else {
                7
            }) == degree {
            let i = choose|i: int|
                0 <= i < d.len() && (if d[i].0 < 7 {
                    d[i].0 as int
                } else {
                    7
                }) == degree;
            assert(flashes[i] == d[i]);
        }
        if k == dd {
            assert(flashes[flashes.len() - 1].0 == g);
        }
        if exists|i: int|
            0 <= i < flashes.len() && (if flashes[i].0 < 7 {
                flashes[i].0 as int
            } else {
                7
            }) == degree {
            let i = choose|i: int|
                0 <= i < flashes.len() && (if flashes[i].0 < 7 {
                    flashes[i].0 as int
                } else {
                    7
                }) == degree;
            if i < d.len() {
                assert(flashes[i] == d[i]);
            }
        }
    }
}

/// A layer as one byte for the controls to read: bit 7 set to say there is
/// a layer, bit 6 whether it is being recorded, bit 5 muted, bit 4 arp, the
/// low four bits its sound.
pub open spec fn layer_byte_spec(layer: Layer, recording: bool) -> u8 {
    0x80u8 | (if recording {
        0x40u8
    } else {
        0u8
    }) | (if layer.muted {
        0x20u8
    } else {
        0u8
    }) | (if layer.arp {
        0x10u8
    } else {
        0u8
    }) | (layer.patch & 0x0Fu8)
}

/// The layer a byte holds, if bit 7 says there is one.
pub open spec fn layer_from_byte_spec(b: u8) -> Option<(Layer, bool)> {
    if b & 0x80u8 == 0 {
        None
    } else {
        Some(
            (
                Layer { patch: b & 0x0Fu8, arp: b & 0x10u8 != 0, muted: b & 0x20u8 != 0 },
                b & 0x40u8 != 0,
            ),
        )
    }
}

/// A layer as one byte.
pub fn layer_byte(layer: Layer, recording: bool) -> (b: u8)
    ensures
        b == layer_byte_spec(layer, recording),
{
    let r: u8 = if recording {
        0x40
    } else {
        0
    };
    let m: u8 = if layer.muted {
        0x20
    } else {
        0
    };
    let a: u8 = if layer.arp {
        0x10
    } else {
        0
    };
    0x80 | r | m | a | (layer.patch & 0x0F)
}

/// The layer a byte holds, if any.
pub fn layer_from_byte(b: u8) -> (l: Option<(Layer, bool)>)
    ensures
        l == layer_from_byte_spec(b),
{
    if b & 0x80 == 0 {
        None
    } else {
        Some((Layer { patch: b & 0x0F, arp: b & 0x10 != 0, muted: b & 0x20 != 0 }, b & 0x40 != 0))
    }
}

proof fn lemma_byte_fields(p: u8, r: u8, m: u8, a: u8)
    by (bit_vector)
    requires
        p < 16,
        r == 0 || r == 0x40,
        m == 0 || m == 0x20,
        a == 0 || a == 0x10,
    ensures
        (0x80u8 | r | m | a | (p & 0x0Fu8)) & 0x80u8 != 0,
        (0x80u8 | r | m | a | (p & 0x0Fu8)) & 0x0Fu8 == p,
        ((0x80u8 | r | m | a | (p & 0x0Fu8)) & 0x10u8 != 0) == (a == 0x10),
        ((0x80u8 | r | m | a | (p & 0x0Fu8)) & 0x20u8 != 0) == (m == 0x20),
        ((0x80u8 | r | m | a | (p & 0x0Fu8)) & 0x40u8 != 0) == (r == 0x40),
{
}

/// A layer read back from its byte is the layer written, whenever its sound
/// fits the four bits it is given.
pub proof fn lemma_layer_byte_round_trip(layer: Layer, recording: bool)
    requires
        layer.patch < 16,
    ensures
        layer_from_byte_spec(layer_byte_spec(layer, recording)) == Some((layer, recording)),
{
    let r: u8 = if recording {
        0x40
    } else {
        0
    };
    let m: u8 = if layer.muted {
        0x20
    } else {
        0
    };
    let a: u8 = if layer.arp {
        0x10
    } else {
        0
    };
    lemma_byte_fields(layer.patch, r, m, a);
}

/// The layers held in these bytes, in order, up to the first byte that
/// holds none.
pub open spec fn layers_from_bytes_spec(bytes: Seq<u8>) -> Seq<(Layer, bool)>
    decreases bytes.len(),
{
    if bytes.len() == 0 {
        seq![]
    } else {
        match layer_from_byte_spec(bytes[0]) {
            Some(l) => seq![l] + layers_from_bytes_spec(bytes.drop_first()),
            None => seq![],
        }
    }
}

/// The layers held in these bytes, in order, up to the first byte that
/// holds none.
pub fn layers_from_bytes(bytes: &Vec<u8>) -> (ls: Vec<(Layer, bool)>)
    ensures
        ls@ == layers_from_bytes_spec(bytes@),
{
    let mut ls: Vec<(Layer, bool)> = Vec::new();
    let mut i: usize = 0;
    assert(bytes@.skip(0) =~= bytes@);
    assert(ls@ + layers_from_bytes_spec(bytes@) =~= layers_from_bytes_spec(bytes@));
    while i < bytes.len()
        invariant
            i <= bytes@.len(),
            ls@ + layers_from_bytes_spec(bytes@.skip(i as int)) == layers_from_bytes_spec(bytes@),
        decreases bytes@.len() - i,
    {
        let ghost rest = bytes@.skip(i as int);
        assert(rest.drop_first() =~= bytes@.skip(i + 1));
        assert(rest[0] == bytes@[i as int]);
        match layer_from_byte(bytes[i]) {
            Some(l) => {
                let ghost before = ls@;
                ls.push(l);
                assert(ls@ + layers_from_bytes_spec(bytes@.skip(i + 1)) =~= before + (seq![l]
                    + layers_from_bytes_spec(bytes@.skip(i + 1))));
            },
            None => {
                assert(ls@ =~= ls@ + layers_from_bytes_spec(rest));
                return ls;
            },
        }
        i = i + 1;
    }
    assert(bytes@.skip(bytes@.len() as int) =~= Seq::<u8>::empty());
    assert(ls@ + Seq::<(Layer, bool)>::empty() =~= ls@);
    ls
}

/// Publishing a list of layers as bytes (a byte with no layer after the
/// last) and reading them back gives the same layers, when each sound fits
/// its four bits.
pub proof fn lemma_layers_round_trip(ls: Seq<(Layer, bool)>, extra: nat)
    requires
        forall|k: int| 0 <= k < ls.len() ==> (#[trigger] ls[k]).0.patch < 16,
    ensures
        layers_from_bytes_spec(
            Seq::new(ls.len(), |k: int| layer_byte_spec(ls[k].0, ls[k].1)) + Seq::new(
                extra,
                |k: int| 0u8,
            ),
        ) == ls,
    decreases ls.len(),
{
    let bytes = Seq::new(ls.len(), |k: int| layer_byte_spec(ls[k].0, ls[k].1)) + Seq::new(
        extra,
        |k: int| 0u8,
    );
    if ls.len() == 0 {
        if extra > 0 {
            assert(bytes[0] == 0u8);
            assert(0u8 & 0x80u8 == 0) by (bit_vector);
        }
    } else {
        let rest = ls.drop_first();
        lemma_layers_round_trip(rest, extra);
        lemma_layer_byte_round_trip(ls[0].0, ls[0].1);
        let rb = Seq::new(rest.len(), |k: int| layer_byte_spec(rest[k].0, rest[k].1)) + Seq::new(
            extra,
            |k: int| 0u8,
        );
        assert(bytes.drop_first() =~= rb);
        assert(seq![ls[0]] + rest =~= ls);
    }
}

/// What the audio thread reports back, as atomics so reading them never blocks.
#[derive(Default)]
pub struct Status {
    loop_state: AtomicU8,
    /// Position round the loop, scaled to 0..=65535.
    loop_pos: AtomicU32,
    /// Bit `n` is set while the loop is playing pad `n`.
    looping_pads: AtomicU8,
}

impl Status {
    /// The loop's state as the audio thread last published it.
    pub fn loop_state(&self) -> (s: LoopState)
        ensures
            exists|v: u8| s == state_from_u8(v),
    {
        let v = self.loop_state.load(Ordering::Relaxed);
        LoopState::from_u8(v)
    }

    /// Position round the loop as last published, scaled to 0..=65535.
    pub fn loop_position_scaled(&self) -> u32 {
        self.loop_pos.load(Ordering::Relaxed)
    }

    /// Whether the loop is playing pad `degree` as last published.
    pub fn pad_looping(&self, degree: usize) -> (lit: bool)
        ensures
            lit ==> degree < 8,
            exists|mask: u8| lit == mask_has(mask, degree),
    {
        let mask = self.looping_pads.load(Ordering::Relaxed);
        mask_lights(mask, degree)
    }

    /// Publish the loop's state, position and lit pads for the UI.
    pub fn publish(&self, state: LoopState, position_scaled: u32, pads: u8) {
        self.loop_state.store(state.to_u8(), Ordering::Relaxed);
        self.loop_pos.store(position_scaled, Ordering::Relaxed);
        self.looping_pads.store(pads, Ordering::Relaxed);
    }
}

} // verus!
