//! Core logic of a controller that turns arcade-stick inputs into MIDI notes:
//! profiles and their validation, the Learn operation, the note on/off state
//! machine, the normalisation of raw joystick events and the MIDI wire format.

pub mod input;
pub mod text;
pub mod keys;
pub mod profile;
pub mod paths;
pub mod midi;
pub mod joystick;
pub mod session;
