use fighting_stick::input::PhysicalInput;
use fighting_stick::joystick::InputError;
use fighting_stick::midi::{MidiCommand, MidiError};
use fighting_stick::profile::Profile;
use fighting_stick::session::Session;

fn connected_session() -> Session {
    let mut s = Session::new(None);
    assert_eq!(s.status, "Conecte o Fighting Stick");
    let plan = s.device_connected("guid", "Stick", None);
    assert_eq!(plan.silence, vec![MidiCommand::AllNotesOff]);
    assert_eq!(plan.port, None);
    s.connection_outcome("Stick", None);
    assert_eq!(s.status, "Conectado: Stick");
    assert!(s.connected);
    s
}

#[test]
fn start_status_reports_input_failures() {
    let s = Session::new(Some(&InputError::Sdl("x".to_string())));
    assert_eq!(s.status, "SDL: x");
    assert!(!s.connected);
    assert!(s.profile.is_none());
}

#[test]
fn presses_play_notes_and_fill_the_diagnostic() {
    let mut s = connected_session();
    assert_eq!(
        s.input_changed(PhysicalInput::DPadUp, true),
        vec![MidiCommand::NoteOn { note: 36, velocity: 100 }]
    );
    assert!(s.is_active(PhysicalInput::DPadUp));
    assert_eq!(
        s.input_changed(PhysicalInput::DPadUp, false),
        vec![MidiCommand::NoteOff { note: 36 }]
    );
    assert!(!s.is_active(PhysicalInput::DPadUp));
    assert_eq!(
        s.diagnostic,
        vec!["Direção cima: pressionado".to_string(), "Direção cima: solto".to_string()]
    );
}

#[test]
fn diagnostic_keeps_twelve_changes() {
    let mut s = connected_session();
    for b in 0..20u8 {
        s.input_changed(PhysicalInput::Button(100 + b), b % 2 == 0);
    }
    assert_eq!(s.diagnostic.len(), 12);
    assert_eq!(s.diagnostic[0], "Botão 108: pressionado");
    assert_eq!(s.diagnostic[11], "Botão 119: solto");
}

#[test]
fn learn_captures_the_next_press() {
    let mut s = connected_session();
    s.toggle_learn(2);
    assert_eq!(s.learn_row, Some(2));
    assert!(s.input_changed(PhysicalInput::Button(9), true).is_empty());
    assert_eq!(s.learn_row, None);
    assert_eq!(s.status, "Entrada aprendida");
    let p = s.profile.as_ref().unwrap();
    assert_eq!(p.assignments[2].input, PhysicalInput::Button(9));
    assert_eq!(p.assignments[2].note, 38);
    // The release is not captured.
    assert_eq!(
        s.input_changed(PhysicalInput::Button(9), false),
        vec![]
    );
    assert_eq!(
        s.input_changed(PhysicalInput::Button(9), true),
        vec![MidiCommand::NoteOn { note: 38, velocity: 100 }]
    );
    s.toggle_learn(3);
    s.toggle_learn(3);
    assert_eq!(s.learn_row, None);
}

#[test]
fn learn_failure_is_reported() {
    let mut s = connected_session();
    s.profile.as_mut().unwrap().assignments[1].note = 36;
    s.toggle_learn(0);
    assert!(s.input_changed(PhysicalInput::Button(9), true).is_empty());
    assert_eq!(s.status, "a nota MIDI 36 já está em uso");
}

#[test]
fn disconnection_silences_everything() {
    let mut s = connected_session();
    s.input_changed(PhysicalInput::Button(1), true);
    s.input_changed(PhysicalInput::DPadDown, true);
    assert_eq!(
        s.device_disconnected(),
        vec![
            MidiCommand::NoteOff { note: 37 },
            MidiCommand::NoteOff { note: 41 },
            MidiCommand::AllNotesOff
        ]
    );
    assert!(!s.connected);
    assert!(!s.is_active(PhysicalInput::Button(1)));
    assert_eq!(s.status, "Controle desconectado — notas encerradas");
}

#[test]
fn a_stored_profile_is_used_and_its_port_opened() {
    let mut s = Session::new(None);
    let mut stored = Profile::default_for("guid", "Stick");
    stored.midi_port = Some("loopMIDI".to_string());
    stored.velocity = 64;
    let plan = s.device_connected("guid", "Stick", Some(stored.clone()));
    assert_eq!(plan.port, Some("loopMIDI".to_string()));
    assert_eq!(s.profile, Some(stored));
    s.connection_outcome("Stick", Some(&MidiError::Port("loopMIDI".to_string())));
    assert_eq!(s.status, "porta MIDI não encontrada: loopMIDI");
}

#[test]
fn notes_in_use_are_refused_when_edited() {
    let mut s = connected_session();
    s.edit_note(0, 40);
    assert_eq!(s.status, "A nota MIDI 40 já está em uso");
    assert_eq!(s.profile.as_ref().unwrap().assignments[0].note, 36);
    s.edit_note(0, 72);
    let p = s.profile.as_ref().unwrap();
    assert_eq!(p.assignments[0].note, 72);
    assert_eq!(p.assignments[0].label, "C4");
}

#[test]
fn ports_restore_and_stop() {
    let mut s = connected_session();
    s.port_selected("loopMIDI", None);
    assert_eq!(s.status, "Saída MIDI: loopMIDI");
    assert_eq!(s.profile.as_ref().unwrap().midi_port, Some("loopMIDI".to_string()));
    s.port_selected("Other", Some(&MidiError::Connect("busy".to_string())));
    assert_eq!(s.status, "não foi possível conectar: busy");
    assert_eq!(s.profile.as_ref().unwrap().midi_port, Some("loopMIDI".to_string()));
    s.edit_note(0, 72);
    s.input_changed(PhysicalInput::Button(0), true);
    assert_eq!(
        s.restore_default(),
        vec![MidiCommand::NoteOff { note: 40 }, MidiCommand::AllNotesOff]
    );
    assert_eq!(s.status, "Mapeamento padrão restaurado");
    assert_eq!(s.profile.as_ref().unwrap(), &Profile::default_for("guid", "Stick"));
    s.input_changed(PhysicalInput::DPadUp, true);
    assert_eq!(
        s.stop_all(),
        vec![MidiCommand::NoteOff { note: 36 }, MidiCommand::AllNotesOff]
    );
    assert_eq!(s.status, "Todas as notas encerradas");
    s.send_failed(&MidiError::Send("gone".to_string()));
    assert_eq!(s.status, "erro ao enviar MIDI: gone");
    s.diagnostic_line("x".to_string());
    assert_eq!(s.diagnostic.last().unwrap(), "x");
}
