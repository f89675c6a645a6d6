//! Musika's instrument logic: the music theory, the looper, the arpeggiator,
//! the conductor that decides on which sample each note starts and stops, the
//! face's controls and key bindings, and the settings file - each a state
//! machine or a function over integers and text, with what it does stated
//! and proved.

pub mod arp;
pub mod conductor;
pub mod controls;
pub mod engine;
pub mod keymap;
pub mod legend;
pub mod looper;
pub mod panel;
pub mod settings;
pub mod settings_proofs;
pub mod theory;
