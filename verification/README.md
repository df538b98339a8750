# fighting_stick

Turns the controls of an arcade stick into MIDI notes for a drum rack.

- `src/` is the verified library:
  - `input`: the physical controls and their order;
  - `profile`: profiles, their validation, Learn, note names and profile file names;
  - `paths`: where a profile is stored;
  - `midi`: the note on/off state machine, the MIDI bytes of a command, port lookup;
  - `joystick`: raw joystick events (buttons, axes, hats) turned into presses and releases;
  - `session`: what the application decides on each input event and user action;
  - `text`: decimal notation;
  - `keys`: the order of the integer keys of the B-tree collections.
- `app/` is the desktop program around it: SDL2 input, midir output, the
  egui window and the JSON files of the profiles.
- `tests/` exercises the library.
