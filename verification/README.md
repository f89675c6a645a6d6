# Musika

A seven-chord organ: seven pads, each a whole chord of one key, a looper to
record and stack layers, and an arpeggiator - driven by one sample clock.

- `src/` is the instrument's logic, written in Verus with its behaviour stated
  in contracts and proved: music theory (`theory`), the looper (`looper`), the
  arpeggiator (`arp`), the audio thread's decisions (`conductor`), the face's
  controls, key bindings and words (`panel`, `controls`, `legend`), the
  messages between them (`engine`) and the settings file (`settings`, with the
  proof that a written file reads back in `settings_proofs`).
- `tests/` runs the library on concrete cases.
- `app/` is the program around it: the window (eframe), the sound card (cpal),
  the voices, the reverb and the settings file on disk.
