use fighting_stick::input::PhysicalInput;
use fighting_stick::midi::{find_port, MidiCommand, MidiError, MidiState};
use fighting_stick::profile::Profile;

#[test]
fn press_release_and_repeat() {
    let p = Profile::default_for("g", "n");
    let mut s = MidiState::default();
    assert_eq!(
        s.input(&p, PhysicalInput::DPadUp, true),
        vec![MidiCommand::NoteOn {
            note: 36,
            velocity: 100
        }]
    );
    assert!(s.input(&p, PhysicalInput::DPadUp, true).is_empty());
    assert_eq!(
        s.input(&p, PhysicalInput::DPadUp, false),
        vec![MidiCommand::NoteOff { note: 36 }]
    );
}

#[test]
fn disconnect_cleans_all_notes() {
    let p = Profile::default_for("g", "n");
    let mut s = MidiState::default();
    s.input(&p, PhysicalInput::DPadUp, true);
    s.input(&p, PhysicalInput::DPadDown, true);
    assert_eq!(
        s.panic(),
        vec![
            MidiCommand::NoteOff { note: 36 },
            MidiCommand::NoteOff { note: 37 },
            MidiCommand::AllNotesOff
        ]
    );
}

#[test]
fn panic_orders_note_offs_by_input_and_empties_the_state() {
    let p = Profile::default_for("g", "n");
    let mut s = MidiState::new();
    s.input(&p, PhysicalInput::Button(7), true);
    s.input(&p, PhysicalInput::DPadRight, true);
    s.input(&p, PhysicalInput::Button(2), true);
    assert_eq!(
        s.panic(),
        vec![
            MidiCommand::NoteOff { note: 39 },
            MidiCommand::NoteOff { note: 42 },
            MidiCommand::NoteOff { note: 47 },
            MidiCommand::AllNotesOff
        ]
    );
    assert_eq!(s.panic(), vec![MidiCommand::AllNotesOff]);
    assert!(s.input(&p, PhysicalInput::Button(7), false).is_empty());
}

#[test]
fn release_without_press_and_unmapped_inputs_do_nothing() {
    let p = Profile::default_for("g", "n");
    let mut s = MidiState::new();
    assert!(s.input(&p, PhysicalInput::Button(3), false).is_empty());
    assert!(s.input(&p, PhysicalInput::Button(30), true).is_empty());
    assert!(s.input(&p, PhysicalInput::Button(30), false).is_empty());
}

#[test]
fn simultaneous_inputs_are_independent() {
    let p = Profile::default_for("g", "n");
    let mut s = MidiState::new();
    assert_eq!(
        s.input(&p, PhysicalInput::DPadLeft, true),
        vec![MidiCommand::NoteOn { note: 38, velocity: 100 }]
    );
    assert_eq!(
        s.input(&p, PhysicalInput::DPadUp, true),
        vec![MidiCommand::NoteOn { note: 36, velocity: 100 }]
    );
    assert_eq!(
        s.input(&p, PhysicalInput::DPadLeft, false),
        vec![MidiCommand::NoteOff { note: 38 }]
    );
    assert_eq!(
        s.input(&p, PhysicalInput::DPadUp, false),
        vec![MidiCommand::NoteOff { note: 36 }]
    );
}

#[test]
fn release_sends_the_note_held_even_after_a_remap() {
    let mut p = Profile::default_for("g", "n");
    let mut s = MidiState::new();
    s.input(&p, PhysicalInput::Button(0), true);
    p.learn(4, PhysicalInput::Button(0), 90).unwrap();
    assert_eq!(
        s.input(&p, PhysicalInput::Button(0), false),
        vec![MidiCommand::NoteOff { note: 40 }]
    );
    p.velocity = 7;
    assert_eq!(
        s.input(&p, PhysicalInput::Button(0), true),
        vec![MidiCommand::NoteOn { note: 90, velocity: 7 }]
    );
}

#[test]
fn first_row_of_an_input_wins() {
    let mut p = Profile::default_for("g", "n");
    p.assignments[6].input = PhysicalInput::Button(0);
    let mut s = MidiState::new();
    assert_eq!(
        s.input(&p, PhysicalInput::Button(0), true),
        vec![MidiCommand::NoteOn { note: 40, velocity: 100 }]
    );
}

#[test]
fn commands_have_wire_bytes() {
    assert_eq!(MidiCommand::NoteOn { note: 36, velocity: 100 }.to_bytes(), [0x90, 36, 100]);
    assert_eq!(MidiCommand::NoteOff { note: 47 }.to_bytes(), [0x80, 47, 0]);
    assert_eq!(MidiCommand::AllNotesOff.to_bytes(), [0xB0, 123, 0]);
}

#[test]
fn ports_are_found_by_name() {
    let names = vec![
        Some("Microsoft GS".to_string()),
        None,
        Some("Fighting Stick MIDI".to_string()),
        Some("Fighting Stick MIDI".to_string()),
    ];
    assert_eq!(find_port(&names, "Fighting Stick MIDI"), Ok(2));
    assert_eq!(
        find_port(&names, "loopMIDI"),
        Err(MidiError::Port("loopMIDI".to_string()))
    );
    assert_eq!(find_port(&vec![], "x"), Err(MidiError::Port("x".to_string())));
}

#[test]
fn midi_errors_have_messages() {
    assert_eq!(
        MidiError::Init("x".to_string()).to_string(),
        "não foi possível iniciar MIDI: x"
    );
    assert_eq!(
        MidiError::Port("p".to_string()).to_string(),
        "porta MIDI não encontrada: p"
    );
    assert_eq!(
        MidiError::Connect("c".to_string()).to_string(),
        "não foi possível conectar: c"
    );
    assert_eq!(
        MidiError::Send("s".to_string()).to_string(),
        "erro ao enviar MIDI: s"
    );
}
