# vst_viseme

An audio plugin that sends avatar parameters to VRChat over OSC: the loudness
of the input, and MIDI notes and control changes mapped to named parameters.

`src/` is the verified library (Verus):

- `utils` — note names, and the `\uXXXX` escaping of non-ASCII parameter
  names (UTF-16 code units), with the proof that decoding undoes encoding.
- `osc` — parameter addresses, the messages sent for notes and control
  changes, the comparison of a message with the one sent before it (all but
  the float tolerance), and reading parameter updates out of received
  packets.
- `param_map` — the note/controller → parameter tables and what one frame of
  their editor (delete a row, add one) does to them.
- `config` — importing and exporting parameter settings as JSON (serde_json).
- `param_types` — parameter types of received values and name completion.
- `last_sent` — the last message sent per address.
- `address` — the viseme parameter addresses.

`app/` holds the plugin itself (nih_plug), its egui editor, the UDP sender and
receiver threads and the floating-point audio work. `tests/` runs the library.
