use fighting_stick::input::PhysicalInput;
use fighting_stick::profile::{note_name, profile_file_name, Assignment, Profile, ProfileError};
use fighting_stick::paths::profile_path;
use std::path::{Path, PathBuf};

#[test]
fn defaults_cover_drum_rack() {
    let p = Profile::default_for("g", "n");
    assert_eq!(
        p.assignments.iter().map(|a| a.note).collect::<Vec<_>>(),
        (36..48).collect::<Vec<_>>()
    );
    assert!(p.validate().is_ok());
}

#[test]
fn learn_rejects_duplicate_notes() {
    let mut p = Profile::default_for("g", "n");
    assert_eq!(
        p.learn(1, PhysicalInput::Button(20), 36),
        Err(ProfileError::DuplicateNote(36))
    );
}

#[test]
fn learn_relocates_an_already_mapped_input() {
    let mut p = Profile::default_for("g", "n");
    let old_target = p.assignments[0].input.clone();
    let existing = p.assignments[5].input.clone();
    p.learn(0, existing.clone(), 36).unwrap();
    assert_eq!(p.assignments[0].input, existing);
    assert_eq!(p.assignments[5].input, old_target);
    assert!(p.validate().is_ok());
}

#[test]
fn default_profile_fields() {
    let p = Profile::default_for("guid-1", "Hori Stick");
    assert_eq!(p.controller_guid, "guid-1");
    assert_eq!(p.controller_name, "Hori Stick");
    assert_eq!(p.midi_port, None);
    assert_eq!(p.velocity, 100);
    assert_eq!(p.assignments.len(), 12);
    assert_eq!(p.assignments[0].input, PhysicalInput::DPadUp);
    assert_eq!(p.assignments[1].input, PhysicalInput::DPadDown);
    assert_eq!(p.assignments[2].input, PhysicalInput::DPadLeft);
    assert_eq!(p.assignments[3].input, PhysicalInput::DPadRight);
    assert_eq!(p.assignments[4].input, PhysicalInput::Button(0));
    assert_eq!(p.assignments[11].input, PhysicalInput::Button(7));
    assert_eq!(p.assignments[0].label, "C1");
    assert_eq!(p.assignments[1].label, "C#1");
    assert_eq!(p.assignments[11].label, "B1");
}

#[test]
fn note_names_follow_the_octave_numbering() {
    assert_eq!(note_name(0), "C-2");
    assert_eq!(note_name(13), "C#-1");
    assert_eq!(note_name(24), "C0");
    assert_eq!(note_name(36), "C1");
    assert_eq!(note_name(47), "B1");
    assert_eq!(note_name(60), "C3");
    assert_eq!(note_name(127), "G8");
    assert_eq!(note_name(255), "D#19");
}

#[test]
fn validate_reports_the_first_fault() {
    let mut p = Profile::default_for("g", "n");
    p.velocity = 0;
    assert_eq!(p.validate(), Err(ProfileError::Velocity(0)));
    p.velocity = 128;
    p.assignments[3].note = 200;
    assert_eq!(p.validate(), Err(ProfileError::Velocity(128)));
    p.velocity = 127;
    assert_eq!(p.validate(), Err(ProfileError::Note(200)));
    p.assignments[3].note = 36;
    assert_eq!(p.validate(), Err(ProfileError::DuplicateNote(36)));
    p.assignments[3].note = 39;
    p.assignments[6].input = PhysicalInput::DPadLeft;
    assert_eq!(
        p.validate(),
        Err(ProfileError::DuplicateInput(PhysicalInput::DPadLeft))
    );
    p.assignments[6].input = PhysicalInput::AxisPositive(4);
    assert_eq!(p.validate(), Ok(()));
}

#[test]
fn validate_accepts_an_empty_mapping() {
    let p = Profile {
        controller_guid: String::new(),
        controller_name: String::new(),
        midi_port: Some("loop".to_string()),
        velocity: 1,
        assignments: vec![],
    };
    assert_eq!(p.validate(), Ok(()));
}

#[test]
fn learn_reports_missing_rows_and_bad_notes() {
    let mut p = Profile::default_for("g", "n");
    let before = p.clone();
    assert_eq!(
        p.learn(12, PhysicalInput::Button(9), 60),
        Err(ProfileError::MissingRow(12))
    );
    assert_eq!(
        p.learn(2, PhysicalInput::Button(9), 128),
        Err(ProfileError::Note(128))
    );
    assert_eq!(p, before);
}

#[test]
fn learn_binds_a_new_input_and_names_the_note() {
    let mut p = Profile::default_for("g", "n");
    assert_eq!(p.learn(2, PhysicalInput::AxisNegative(5), 60), Ok(()));
    assert_eq!(p.assignments[2].input, PhysicalInput::AxisNegative(5));
    assert_eq!(p.assignments[2].note, 60);
    assert_eq!(p.assignments[2].label, "C3");
    assert_eq!(p.assignments[3].input, PhysicalInput::DPadRight);
    assert!(p.validate().is_ok());
    // Keeping the row's own note is allowed.
    assert_eq!(p.learn(2, PhysicalInput::AxisNegative(5), 60), Ok(()));
}

#[test]
fn learn_swap_keeps_note_and_label_of_the_other_row() {
    let mut p = Profile::default_for("g", "n");
    p.learn(4, PhysicalInput::DPadDown, 70).unwrap();
    assert_eq!(p.assignments[4].input, PhysicalInput::DPadDown);
    assert_eq!(p.assignments[4].label, "A#3");
    assert_eq!(p.assignments[1].input, PhysicalInput::Button(0));
    assert_eq!(p.assignments[1].note, 37);
    assert_eq!(p.assignments[1].label, "C#1");
}

#[test]
fn set_note_refuses_a_note_in_use() {
    let mut p = Profile::default_for("g", "n");
    assert_eq!(p.set_note(0, 40), Err(ProfileError::DuplicateNote(40)));
    assert_eq!(p.assignments[0].note, 36);
    assert_eq!(p.set_note(0, 50), Ok(()));
    assert_eq!(p.assignments[0].note, 50);
    assert_eq!(p.assignments[0].label, "D2");
}

#[test]
fn profile_errors_have_messages() {
    assert_eq!(ProfileError::Note(200).to_string(), "nota MIDI inválida: 200");
    assert_eq!(
        ProfileError::Velocity(0).to_string(),
        "velocidade deve estar entre 1 e 127: 0"
    );
    assert_eq!(
        ProfileError::DuplicateNote(36).to_string(),
        "a nota MIDI 36 já está em uso"
    );
    assert_eq!(
        ProfileError::DuplicateInput(PhysicalInput::Button(3)).to_string(),
        "a entrada Botão 3 já está em uso"
    );
    assert_eq!(
        ProfileError::MissingRow(99).to_string(),
        "linha de mapeamento inexistente: 99"
    );
}

#[test]
fn inputs_have_display_names() {
    assert_eq!(PhysicalInput::DPadUp.to_string(), "Direção cima");
    assert_eq!(PhysicalInput::DPadDown.to_string(), "Direção baixo");
    assert_eq!(PhysicalInput::DPadLeft.to_string(), "Direção esquerda");
    assert_eq!(PhysicalInput::DPadRight.to_string(), "Direção direita");
    assert_eq!(PhysicalInput::Button(12).to_string(), "Botão 12");
    assert_eq!(PhysicalInput::AxisNegative(0).to_string(), "Eixo 0 −");
    assert_eq!(PhysicalInput::AxisPositive(255).to_string(), "Eixo 255 +");
}

#[test]
fn input_keys_follow_the_declared_order() {
    let order = [
        PhysicalInput::DPadUp,
        PhysicalInput::DPadDown,
        PhysicalInput::DPadLeft,
        PhysicalInput::DPadRight,
        PhysicalInput::Button(0),
        PhysicalInput::Button(255),
        PhysicalInput::AxisNegative(0),
        PhysicalInput::AxisNegative(255),
        PhysicalInput::AxisPositive(0),
        PhysicalInput::AxisPositive(255),
    ];
    for w in order.windows(2) {
        assert!(w[0].key() < w[1].key());
        assert!(w[0] < w[1]);
    }
}

#[test]
fn file_names_keep_only_safe_characters() {
    assert_eq!(profile_file_name("030000-abcDEF"), "030000-abcDEF.json");
    assert_eq!(profile_file_name("a/b\\c:d e"), "a_b_c_d_e.json");
    assert_eq!(profile_file_name("çã"), "__.json");
    assert_eq!(profile_file_name(""), ".json");
}

#[test]
fn profile_path_joins_the_file_name() {
    let p = profile_path(Path::new("/base/dir"), "x/y");
    assert_eq!(p, PathBuf::from("/base/dir/x_y.json"));
}

#[test]
fn assignments_compare_by_fields() {
    let a = Assignment { input: PhysicalInput::Button(1), note: 40, label: note_name(40) };
    assert_eq!(a.label, "E1");
}
