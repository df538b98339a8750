use vstd::prelude::*;
use vstd::string::*;
use crate::input::PhysicalInput;
use crate::text::{lemma_decimal_digits, lemma_signed_decimal_injective, push_char, decimal, push_decimal, push_signed_decimal, signed_decimal};

verus! {

/// Name of the directory, under the user's application data, that holds the profiles.
pub const APP_DIR: &'static str = "FightingStickMidi";

/// Velocity of the notes of a new profile.
pub const DEFAULT_VELOCITY: u8 = 100;

/// First note of a new profile (C1, the first pad of a drum rack).
pub const FIRST_DEFAULT_NOTE: u8 = 36;

/// Number of controls that a new profile maps: four directions and eight buttons.
pub const DEFAULT_ASSIGNMENTS: usize = 12;

/// One row of the mapping: a physical control, the note it plays and the
/// name of that note.
#[derive(Debug, Clone, PartialEq, Eq)]
pub struct Assignment {
    pub input: PhysicalInput,
    pub note: u8,
    pub label: String,
}

/// The mapping of one controller.
#[derive(Debug, Clone, PartialEq, Eq)]
pub struct Profile {
    pub controller_guid: String,
    pub controller_name: String,
    pub midi_port: Option<String>,
    pub velocity: u8,
    pub assignments: Vec<Assignment>,
}

/// Why a profile, or a change to it, is refused.
#[derive(Debug, Clone, Copy, PartialEq, Eq, Structural)]
pub enum ProfileError {
    Note(u8),
    Velocity(u8),
    DuplicateNote(u8),
    DuplicateInput(PhysicalInput),
    MissingRow(usize),
}

/// Name of a pitch class (0 is C, 11 is B), with sharps.
pub open spec fn pitch_class_name(pc: int) -> Seq<char> {
    if pc == 0 {
        "C"@
    } else if pc == 1 {
        "C#"@
    } else if pc == 2 {
        "D"@
    } else if pc == 3 {
        "D#"@
    } else if pc == 4 {
        "E"@
    } else if pc == 5 {
        "F"@
    } else if pc == 6 {
        "F#"@
    } else if pc == 7 {
        "G"@
    } else if pc == 8 {
        "G#"@
    } else if pc == 9 {
        "A"@
    } else if pc == 10 {
        "A#"@
    } else {
        "B"@
    }
}

/// Name of a MIDI note in the octave numbering where note 60 is C3:
/// pitch class, then octave `note / 12 - 2`.
pub open spec fn note_name_text(note: u8) -> Seq<char> {
    pitch_class_name(note as int % 12) + signed_decimal(note as int / 12 - 2)
}

/// Name of a MIDI note, such as `C1` for note 36 and `C-2` for note 0.
pub fn note_name(note: u8) -> (s: String)
    ensures
        s@ == note_name_text(note),
{
    let pc = note % 12;
    let mut s = if pc == 0 {
        String::from_str("C")
    } else if pc == 1 {
        String::from_str("C#")
    } else if pc == 2 {
        String::from_str("D")
    } else if pc == 3 {
        String::from_str("D#")
    } else if pc == 4 {
        String::from_str("E")
    } else if pc == 5 {
        String::from_str("F")
    } else if pc == 6 {
        String::from_str("F#")
    } else if pc == 7 {
        String::from_str("G")
    } else if pc == 8 {
        String::from_str("G#")
    } else if pc == 9 {
        String::from_str("A")
    } else if pc == 10 {
        String::from_str("A#")
    } else {
        String::from_str("B")
    };
    let octave: i32 = (note / 12) as i32 - 2;
    push_signed_decimal(&mut s, octave);
    s
}

/// The control of row `i` of a new profile: the four directions, then buttons 0 to 7.
pub open spec fn default_input(i: int) -> PhysicalInput {
    if i == 0 {
        PhysicalInput::DPadUp
    } else if i == 1 {
        PhysicalInput::DPadDown
    } else if i == 2 {
        PhysicalInput::DPadLeft
    } else if i == 3 {
        PhysicalInput::DPadRight
    } else {
        PhysicalInput::Button((i - 4) as u8)
    }
}

fn default_input_at(i: usize) -> (r: PhysicalInput)
    requires
        i < DEFAULT_ASSIGNMENTS,
    ensures
        r == default_input(i as int),
{
    if i == 0 {
        PhysicalInput::DPadUp
    } else if i == 1 {
        PhysicalInput::DPadDown
    } else if i == 2 {
        PhysicalInput::DPadLeft
    } else if i == 3 {
        PhysicalInput::DPadRight
    } else {
        PhysicalInput::Button((i - 4) as u8)
    }
}

/// A velocity that MIDI can carry and that sounds: 1 to 127.
pub open spec fn velocity_in_range(v: u8) -> bool {
    1 <= v <= 127
}

/// Some row before `i` plays `note`.
pub open spec fn note_before(s: Seq<Assignment>, i: int, note: u8) -> bool {
    exists|j: int| 0 <= j < i && #[trigger] s[j].note == note
}

/// Some row before `i` is bound to `input`.
pub open spec fn input_before(s: Seq<Assignment>, i: int, input: PhysicalInput) -> bool {
    exists|j: int| 0 <= j < i && #[trigger] s[j].input == input
}

/// What is wrong with row `i`, judged against the rows before it.
pub open spec fn row_error(s: Seq<Assignment>, i: int) -> Option<ProfileError> {
    if s[i].note > 127 {
        Some(ProfileError::Note(s[i].note))
    } else if note_before(s, i, s[i].note) {
        Some(ProfileError::DuplicateNote(s[i].note))
    } else if input_before(s, i, s[i].input) {
        Some(ProfileError::DuplicateInput(s[i].input))
    } else {
        None
    }
}

/// Some row is bound to `x`.
pub open spec fn bound(s: Seq<Assignment>, x: PhysicalInput) -> bool {
    exists|i: int| 0 <= i < s.len() && (#[trigger] s[i]).input == x
}

/// Some row other than `row` plays `note`.
pub open spec fn note_elsewhere(s: Seq<Assignment>, row: int, note: u8) -> bool {
    exists|i: int| 0 <= i < s.len() && i != row && #[trigger] s[i].note == note
}

/// `k` is the first row other than `row` bound to `input`.
pub open spec fn first_other_with_input(
    s: Seq<Assignment>,
    row: int,
    input: PhysicalInput,
    k: int,
) -> bool {
    &&& 0 <= k < s.len()
    &&& k != row
    &&& s[k].input == input
    &&& forall|j: int| 0 <= j < k && j != row ==> #[trigger] s[j].input != input
}

impl ProfileError {
    /// The message shown to the user.
    pub open spec fn message_text(self) -> Seq<char> {
        match self {
            ProfileError::Note(n) => "nota MIDI inválida: "@ + decimal(n as nat),
            ProfileError::Velocity(v) => "velocidade deve estar entre 1 e 127: "@ + decimal(
                v as nat,
            ),
            ProfileError::DuplicateNote(n) => "a nota MIDI "@ + decimal(n as nat)
                + " já está em uso"@,
            ProfileError::DuplicateInput(i) => "a entrada "@ + i.display_text()
                + " já está em uso"@,
            ProfileError::MissingRow(r) => "linha de mapeamento inexistente: "@ + decimal(
                r as nat,
            ),
        }
    }

    /// The message shown to the user.
    pub fn to_string(&self) -> (s: String)
        ensures
            s@ == self.message_text(),
    {
        match self {
            ProfileError::Note(n) => {
                let mut s = String::from_str("nota MIDI inválida: ");
                push_decimal(&mut s, *n as u64);
                s
            },
            ProfileError::Velocity(v) => {
                let mut s = String::from_str("velocidade deve estar entre 1 e 127: ");
                push_decimal(&mut s, *v as u64);
                s
            },
            ProfileError::DuplicateNote(n) => {
                let mut s = String::from_str("a nota MIDI ");
                push_decimal(&mut s, *n as u64);
                s.append(" já está em uso");
                s
            },
            ProfileError::DuplicateInput(i) => {
                let mut s = String::from_str("a entrada ");
                let t = i.to_string();
                s.append(t.as_str());
                s.append(" já está em uso");
                s
            },
            ProfileError::MissingRow(r) => {
                let mut s = String::from_str("linha de mapeamento inexistente: ");
                push_decimal(&mut s, *r as u64);
                s
            },
        }
    }
}

impl Profile {
    /// A profile that the application accepts: a velocity in 1 to 127, notes
    /// that MIDI can carry, and neither a note nor a control on two rows.
    pub open spec fn valid(&self) -> bool {
        let s = self.assignments@;
        &&& velocity_in_range(self.velocity)
        &&& forall|i: int| 0 <= i < s.len() ==> #[trigger] s[i].note <= 127
        &&& forall|i: int, j: int|
            0 <= i < j < s.len() ==> #[trigger] s[i].note != #[trigger] s[j].note
        &&& forall|i: int, j: int|
            0 <= i < j < s.len() ==> #[trigger] s[i].input != #[trigger] s[j].input
    }

    /// The profile of a controller seen for the first time: the four
    /// directions and buttons 0 to 7 on notes 36 to 47, velocity 100, no port.
    pub fn default_for(guid: &str, name: &str) -> (p: Profile)
        ensures
            p.controller_guid@ == guid@,
            p.controller_name@ == name@,
            p.midi_port is None,
            p.velocity == DEFAULT_VELOCITY,
            p.assignments@.len() == DEFAULT_ASSIGNMENTS,
            forall|i: int|
                0 <= i < DEFAULT_ASSIGNMENTS ==> {
                    &&& (#[trigger] p.assignments@[i]).input == default_input(i)
                    &&& p.assignments@[i].note == FIRST_DEFAULT_NOTE + i
                    &&& p.assignments@[i].label@ == note_name_text((FIRST_DEFAULT_NOTE + i) as u8)
                },
            p.valid(),
    {
        let mut assignments: Vec<Assignment> = Vec::new();
        for i in 0..DEFAULT_ASSIGNMENTS
            invariant
                assignments@.len() == i,
                forall|k: int|
                    0 <= k < i ==> {
                        &&& (#[trigger] assignments@[k]).input == default_input(k)
                        &&& assignments@[k].note == FIRST_DEFAULT_NOTE + k
                        &&& assignments@[k].label@ == note_name_text(
                            (FIRST_DEFAULT_NOTE + k) as u8,
                        )
                    },
        {
            let note: u8 = FIRST_DEFAULT_NOTE + i as u8;
            assignments.push(
                Assignment { input: default_input_at(i), note, label: note_name(note) },
            );
        }
        let p = Profile {
            controller_guid: String::from_str(guid),
            controller_name: String::from_str(name),
            midi_port: None,
            velocity: DEFAULT_VELOCITY,
            assignments,
        };
        assert(forall|i: int, j: int|
            0 <= i < j < DEFAULT_ASSIGNMENTS ==> default_input(i) != default_input(j));
        p
    }

    /// Checks the profile; on the first fault met, reports it: the velocity
    /// first, then the rows in order.
    pub fn validate(&self) -> (r: Result<(), ProfileError>)
        ensures
            r is Ok <==> self.valid(),
            r matches Err(e) ==> if !velocity_in_range(self.velocity) {
                e == ProfileError::Velocity(self.velocity)
            } else {
                exists|i: int|
                    0 <= i < self.assignments@.len() && row_error(self.assignments@, i) == Some(e)
                        && forall|j: int| 0 <= j < i ==> #[trigger] row_error(self.assignments@, j) is None
            },
    {
        if !(1 <= self.velocity && self.velocity <= 127) {
            return Err(ProfileError::Velocity(self.velocity));
        }
        let ghost s = self.assignments@;
        let n = self.assignments.len();
        for i in 0..n
            invariant
                n == s.len(),
                s == self.assignments@,
                velocity_in_range(self.velocity),
                forall|k: int| 0 <= k < i ==> #[trigger] row_error(s, k) is None,
        {
            let a = &self.assignments[i];
            if a.note > 127 {
                assert(row_error(s, i as int) == Some(ProfileError::Note(a.note)));
                return Err(ProfileError::Note(a.note));
            }
            let mut j: usize = 0;
            while j < i
                invariant
                    j <= i < n == s.len(),
                    s == self.assignments@,
                    a == s[i as int],
                    a.note <= 127,
                    velocity_in_range(self.velocity),
                    forall|k: int| 0 <= k < i ==> #[trigger] row_error(s, k) is None,
                    forall|k: int| 0 <= k < j ==> #[trigger] s[k].note != a.note,
                decreases i - j,
            {
                if self.assignments[j].note == a.note {
                    assert(note_before(s, i as int, a.note));
                    assert(row_error(s, i as int) == Some(ProfileError::DuplicateNote(a.note)));
                    return Err(ProfileError::DuplicateNote(a.note));
                }
                j += 1;
            }
            let mut j: usize = 0;
            while j < i
                invariant
                    j <= i < n == s.len(),
                    s == self.assignments@,
                    velocity_in_range(self.velocity),
                    forall|k: int| 0 <= k < i ==> #[trigger] row_error(s, k) is None,
                    a == s[i as int],
                    !note_before(s, i as int, a.note),
                    a.note <= 127,
                    forall|k: int| 0 <= k < j ==> #[trigger] s[k].input != a.input,
                decreases i - j,
            {
                if self.assignments[j].input == a.input {
                    assert(input_before(s, i as int, a.input));
                    assert(row_error(s, i as int) == Some(ProfileError::DuplicateInput(a.input)));
                    return Err(ProfileError::DuplicateInput(a.input));
                }
                j += 1;
            }
        }
        proof {
            assert forall|i: int, j: int| 0 <= i < j < s.len() implies #[trigger] s[i].note
                != #[trigger] s[j].note by {
                assert(row_error(s, j) is None);
            }
            assert forall|i: int, j: int| 0 <= i < j < s.len() implies #[trigger] s[i].input
                != #[trigger] s[j].input by {
                assert(row_error(s, j) is None);
            }
            assert forall|i: int| 0 <= i < s.len() implies #[trigger] s[i].note <= 127 by {
                assert(row_error(s, i) is None);
            }
        }
        Ok(())
    }

    /// Gives row `row` the note `note`, and names it, unless another row
    /// plays that note already.
    pub fn set_note(&mut self, row: usize, note: u8) -> (r: Result<(), ProfileError>)
        requires
            row < old(self).assignments@.len(),
        ensures
            note_elsewhere(old(self).assignments@, row as int, note) ==> {
                &&& r == Err::<(), ProfileError>(ProfileError::DuplicateNote(note))
                &&& *final(self) == *old(self)
            },
            !note_elsewhere(old(self).assignments@, row as int, note) ==> {
                let s0 = old(self).assignments@;
                let s1 = final(self).assignments@;
                &&& r is Ok
                &&& final(self).controller_guid == old(self).controller_guid
                &&& final(self).controller_name == old(self).controller_name
                &&& final(self).midi_port == old(self).midi_port
                &&& final(self).velocity == old(self).velocity
                &&& s1.len() == s0.len()
                &&& s1[row as int].input == s0[row as int].input
                &&& s1[row as int].note == note
                &&& s1[row as int].label@ == note_name_text(note)
                &&& forall|k: int| 0 <= k < s0.len() && k != row ==> s1[k] == s0[k]
            },
            old(self).valid() && note <= 127 ==> final(self).valid(),
    {
        let n = self.assignments.len();
        for i in 0..n
            invariant
                n == self.assignments@.len(),
                row < n,
                forall|k: int| 0 <= k < i && k != row ==> #[trigger] self.assignments@[k].note != note,
        {
            if i != row && self.assignments[i].note == note {
                assert(note_elsewhere(self.assignments@, row as int, note));
                return Err(ProfileError::DuplicateNote(note));
            }
        }
        let ghost s0 = self.assignments@;
        let input = self.assignments[row].input;
        self.assignments.set(row, Assignment { input, note, label: note_name(note) });
        proof {
            let s1 = self.assignments@;
            if old(self).valid() && note <= 127 {
                assert forall|i: int, j: int| 0 <= i < j < s1.len() implies #[trigger] s1[i].note
                    != #[trigger] s1[j].note by {
                    if i != row {
                        assert(s1[i] == s0[i]);
                    }
                    if j != row {
                        assert(s1[j] == s0[j]);
                    }
                    if i != row && j != row {
                        assert(s0[i].note != s0[j].note);
                    }
                }
                assert forall|i: int, j: int| 0 <= i < j < s1.len() implies #[trigger] s1[i].input
                    != #[trigger] s1[j].input by {
                    if i != row {
                        assert(s1[i] == s0[i]);
                    }
                    if j != row {
                        assert(s1[j] == s0[j]);
                    }
                    assert(s0[i].input != s0[j].input);
                }
                assert forall|i: int| 0 <= i < s1.len() implies #[trigger] s1[i].note <= 127 by {
                    if i != row {
                        assert(s1[i] == s0[i]);
                    }
                }
            }
        }
        Ok(())
    }

    /// Binds row `row` to `input` and `note`, and names the note.
    ///
    /// The row must exist, the note must be one MIDI can carry and no other
    /// row may play it. When another row is bound to `input` already, the
    /// first such row takes over the control that `row` had, so that no
    /// control is bound twice and none is lost.
    pub fn learn(&mut self, row: usize, input: PhysicalInput, note: u8) -> (r: Result<
        (),
        ProfileError,
    >)
        ensures
            r == learn_result(old(self).assignments@, row as int, note),
            r is Err ==> *final(self) == *old(self),
            r is Ok ==> learned(*old(self), *final(self), row as int, input, note),
            old(self).valid() && r is Ok ==> final(self).valid(),
            r is Ok && (exists|k: int| first_other_with_input(old(self).assignments@, row as int, input, k))
                ==> forall|x: PhysicalInput|
                bound(final(self).assignments@, x) == bound(old(self).assignments@, x),
    {
        let n = self.assignments.len();
        if row >= n {
            return Err(ProfileError::MissingRow(row));
        }
        if note > 127 {
            return Err(ProfileError::Note(note));
        }
        let ghost s0 = self.assignments@;
        for i in 0..n
            invariant
                n == s0.len(),
                s0 == self.assignments@,
                row < n,
                note <= 127,
                forall|k: int| 0 <= k < i && k != row ==> #[trigger] s0[k].note != note,
        {
            if i != row && self.assignments[i].note == note {
                assert(note_elsewhere(s0, row as int, note));
                return Err(ProfileError::DuplicateNote(note));
            }
        }
        assert(!note_elsewhere(s0, row as int, note));
        let mut other: Option<usize> = None;
        for i in 0..n
            invariant
                n == s0.len(),
                s0 == self.assignments@,
                row < n,
                match other {
                    Some(k) => first_other_with_input(s0, row as int, input, k as int),
                    None => forall|j: int|
                        0 <= j < i && j != row ==> #[trigger] s0[j].input != input,
                },
        {
            if other.is_none() && i != row && self.assignments[i].input == input {
                other = Some(i);
            }
        }
        let previous = self.assignments[row].input;
        if let Some(k) = other {
            let moved = Assignment {
                input: previous,
                note: self.assignments[k].note,
                label: self.assignments[k].label.clone(),
            };
            self.assignments.set(k, moved);
        }
        let updated = Assignment { input, note, label: note_name(note) };
        self.assignments.set(row, updated);
        proof {
            let s1 = self.assignments@;
            assert forall|k: int|
                0 <= k < s0.len() && k != row && !first_other_with_input(
                    s0,
                    row as int,
                    input,
                    k,
                ) implies s1[k] == s0[k] by {
                if let Some(o) = other {
                    assert(o as int != k);
                }
            }
            if old(self).valid() {
                lemma_learn_keeps_valid(*old(self), *self, row as int, input, note);
            }
            if let Some(o) = other {
                let oi = o as int;
                let r = row as int;
                assert forall|x: PhysicalInput| bound(s1, x) == bound(s0, x) by {
                    if bound(s1, x) {
                        let i = choose|i: int| 0 <= i < s1.len() && (#[trigger] s1[i]).input == x;
                        if i == r {
                            assert(s0[oi].input == x);
                        } else if i == oi {
                            assert(s0[r].input == x);
                        } else {
                            assert(s0[i] == s1[i]);
                        }
                    }
                    if bound(s0, x) {
                        let i = choose|i: int| 0 <= i < s0.len() && (#[trigger] s0[i]).input == x;
                        if i == r {
                            assert(s1[oi].input == x);
                        } else if i == oi {
                            assert(s1[r].input == x);
                        } else {
                            assert(s0[i] == s1[i]);
                        }
                    }
                }
            }
        }
        Ok(())
    }
}

/// The character that stands for `c` in a file name: ASCII letters and
/// digits and `-` stay, anything else becomes `_`.
pub open spec fn file_name_char(c: char) -> char {
    if ('0' <= c <= '9') || ('a' <= c <= 'z') || ('A' <= c <= 'Z') || c == '-' {
        c
    } else {
        '_'
    }
}

/// A character that can stand in a file name on every system: an ASCII
/// letter or digit, `-` or `_`.
pub open spec fn file_name_safe(c: char) -> bool {
    ('0' <= c <= '9') || ('a' <= c <= 'z') || ('A' <= c <= 'Z') || c == '-' || c == '_'
}

/// Name of the file that holds the profile of the controller `guid`.
pub open spec fn profile_file_name_text(guid: Seq<char>) -> Seq<char> {
    guid.map_values(|c: char| file_name_char(c)) + ".json"@
}

/// Name of the file that holds the profile of the controller `guid`: the
/// identifier with every character but ASCII letters, digits and `-`
/// replaced by `_`, then `.json`.
pub fn profile_file_name(guid: &str) -> (name: String)
    ensures
        name@ == profile_file_name_text(guid@),
        name@.len() == guid@.len() + 5,
        forall|i: int| 0 <= i < guid@.len() ==> file_name_safe(#[trigger] name@[i]),
{
    let mut name = String::new();
    for c in it: guid.chars()
        invariant
            it.seq() == guid@,
            name@ == guid@.take(it.index() as int).map_values(|c: char| file_name_char(c)),
    {
        let d = if ('0' <= c && c <= '9') || ('a' <= c && c <= 'z') || ('A' <= c && c <= 'Z')
            || c == '-' {
            c
        } else {
            '_'
        };
        push_char(&mut name, d);
        assert(guid@.take(it.index() + 1) == guid@.take(it.index() as int).push(c));
    }
    assert(guid@.take(guid@.len() as int) == guid@);
    name.append(".json");
    proof {
        reveal_strlit(".json");
        assert forall|i: int| 0 <= i < guid@.len() implies file_name_safe(#[trigger] name@[i]) by {
            assert(name@[i] == file_name_char(guid@[i]));
        }
    }
    name
}

/// What Learn of `note` on row `row` answers: the row must exist, the note
/// must be one MIDI can carry, and no other row may play it.
pub open spec fn learn_result(s: Seq<Assignment>, row: int, note: u8) -> Result<(), ProfileError> {
    if row >= s.len() {
        Err(ProfileError::MissingRow(row as usize))
    } else if note > 127 {
        Err(ProfileError::Note(note))
    } else if note_elsewhere(s, row, note) {
        Err(ProfileError::DuplicateNote(note))
    } else {
        Ok(())
    }
}

/// `p1` is `p0` after a successful Learn of `input` and `note` on row `row`:
/// the row has the input, the note and the note's name; the first other row
/// that had the input takes the row's former input; nothing else changes.
pub open spec fn learned(p0: Profile, p1: Profile, row: int, input: PhysicalInput, note: u8) -> bool {
    let s0 = p0.assignments@;
    let s1 = p1.assignments@;
    &&& p1.controller_guid == p0.controller_guid
    &&& p1.controller_name == p0.controller_name
    &&& p1.midi_port == p0.midi_port
    &&& p1.velocity == p0.velocity
    &&& s1.len() == s0.len()
    &&& s1[row].input == input
    &&& s1[row].note == note
    &&& s1[row].label@ == note_name_text(note)
    &&& forall|k: int|
        0 <= k < s0.len() && k != row ==> if first_other_with_input(s0, row, input, k) {
            &&& (#[trigger] s1[k]).input == s0[row].input
            &&& s1[k].note == s0[k].note
            &&& s1[k].label == s0[k].label
        } else {
            s1[k] == s0[k]
        }
}

/// A successful Learn on a valid profile leaves it valid.
proof fn lemma_learn_keeps_valid(p0: Profile, p1: Profile, row: int, input: PhysicalInput, note: u8)
    requires
        p0.valid(),
        0 <= row < p0.assignments@.len(),
        note <= 127,
        !note_elsewhere(p0.assignments@, row, note),
        p1.velocity == p0.velocity,
        p1.assignments@.len() == p0.assignments@.len(),
        p1.assignments@[row].input == input,
        p1.assignments@[row].note == note,
        forall|k: int|
            0 <= k < p0.assignments@.len() && k != row ==> if first_other_with_input(
                p0.assignments@,
                row,
                input,
                k,
            ) {
                &&& (#[trigger] p1.assignments@[k]).input == p0.assignments@[row].input
                &&& p1.assignments@[k].note == p0.assignments@[k].note
            } else {
                p1.assignments@[k] == p0.assignments@[k]
            },
    ensures
        p1.valid(),
{
    let s0 = p0.assignments@;
    let s1 = p1.assignments@;
    assert forall|i: int| 0 <= i < s1.len() implies #[trigger] s1[i].note <= 127 by {
        if i != row {
            assert(s1[i].note == s0[i].note);
        }
    }
    assert forall|i: int, j: int| 0 <= i < j < s1.len() implies #[trigger] s1[i].note
        != #[trigger] s1[j].note by {
        if i != row {
            assert(s1[i].note == s0[i].note);
        }
        if j != row {
            assert(s1[j].note == s0[j].note);
        }
    }
    assert forall|i: int, j: int| 0 <= i < j < s1.len() implies #[trigger] s1[i].input
        != #[trigger] s1[j].input by {
        if i != row && first_other_with_input(s0, row, input, i) {
            assert(s1[i].input == s0[row].input);
        }
        if j != row && first_other_with_input(s0, row, input, j) {
            assert(s1[j].input == s0[row].input);
        }
        if i != row && !first_other_with_input(s0, row, input, i) {
            assert(s1[i] == s0[i]);
        }
        if j != row && !first_other_with_input(s0, row, input, j) {
            assert(s1[j] == s0[j]);
        }
    }
}


/// The pitch class that a note name starting with `s` names: its letter,
/// raised by a `#` in second place.
spec fn pitch_class_of_name(s: Seq<char>) -> int {
    let base: int = if s[0] == 'C' {
        0
    } else if s[0] == 'D' {
        2
    } else if s[0] == 'E' {
        4
    } else if s[0] == 'F' {
        5
    } else if s[0] == 'G' {
        7
    } else if s[0] == 'A' {
        9
    } else {
        11
    };
    if s[1] == '#' {
        base + 1
    } else {
        base
    }
}

/// A pitch class name is read back from the start of any name that carries
/// it, whatever follows it, as long as that does not start with `#`.
proof fn lemma_pitch_class_read_back(pc: int, rest: Seq<char>)
    requires
        0 <= pc < 12,
        rest.len() >= 1,
        rest[0] != '#',
    ensures
        pitch_class_of_name(pitch_class_name(pc) + rest) == pc,
{
    reveal_strlit("C");
    reveal_strlit("C#");
    reveal_strlit("D");
    reveal_strlit("D#");
    reveal_strlit("E");
    reveal_strlit("F");
    reveal_strlit("F#");
    reveal_strlit("G");
    reveal_strlit("G#");
    reveal_strlit("A");
    reveal_strlit("A#");
    reveal_strlit("B");
    let p = pitch_class_name(pc);
    let s = p + rest;
    assert(s[0] == p[0]);
    if p.len() == 2 {
        assert(s[1] == p[1]);
    } else {
        assert(s[1] == rest[0]);
    }
}

/// Different notes have different names: the name of a note fixes both its
/// pitch class and its octave.
pub proof fn lemma_note_names_distinct(a: u8, b: u8)
    requires
        note_name_text(a) == note_name_text(b),
    ensures
        a == b,
{
    let pa = a as int % 12;
    let pb = b as int % 12;
    let da = signed_decimal(a as int / 12 - 2);
    let db = signed_decimal(b as int / 12 - 2);
    lemma_signed_decimal_starts(a as int / 12 - 2);
    lemma_signed_decimal_starts(b as int / 12 - 2);
    lemma_pitch_class_read_back(pa, da);
    lemma_pitch_class_read_back(pb, db);
    assert(pa == pb);
    let p = pitch_class_name(pa);
    assert((p + da).subrange(p.len() as int, (p + da).len() as int) =~= da);
    assert((p + db).subrange(p.len() as int, (p + db).len() as int) =~= db);
    lemma_signed_decimal_injective(a as int / 12 - 2, b as int / 12 - 2);
}

/// A signed decimal notation is not empty and starts with `-` or a digit.
proof fn lemma_signed_decimal_starts(v: int)
    ensures
        signed_decimal(v).len() >= 1,
        signed_decimal(v)[0] == '-' || '0' <= signed_decimal(v)[0] <= '9',
{
    if v < 0 {
        lemma_decimal_digits((-v) as nat);
    } else {
        lemma_decimal_digits(v as nat);
        assert('0' <= decimal(v as nat)[0] <= '9');
    }
}


/// A new profile binds its rows to the four directions and then to buttons
/// 0 to 7 in order, so that button `b` plays note 40 + `b`; no control is on
/// two rows.
pub proof fn lemma_default_rows()
    ensures
        default_input(0) == PhysicalInput::DPadUp,
        default_input(1) == PhysicalInput::DPadDown,
        default_input(2) == PhysicalInput::DPadLeft,
        default_input(3) == PhysicalInput::DPadRight,
        forall|b: int|
            0 <= b < 8 ==> #[trigger] default_input(b + 4) == PhysicalInput::Button(b as u8)
                && FIRST_DEFAULT_NOTE + (b + 4) == 40 + b,
        forall|i: int, j: int|
            0 <= i < j < DEFAULT_ASSIGNMENTS ==> default_input(i) != default_input(j),
{
}

/// What std calls ASCII alphanumeric: `A` to `Z`, `a` to `z`, `0` to `9`.
pub open spec fn ascii_alphanumeric(c: char) -> bool {
    ('A' <= c <= 'Z') || ('a' <= c <= 'z') || ('0' <= c <= '9')
}

/// A profile's file name keeps each ASCII letter, digit and `-` of the
/// controller's identifier where it stands and puts `_` for anything else;
/// so an identifier made only of such characters is its own file name,
/// before `.json`, and two such identifiers never share a file.
pub proof fn lemma_file_name_keeps_identifiers(guid: Seq<char>, other: Seq<char>)
    ensures
        profile_file_name_text(guid).len() == guid.len() + 5,
        forall|i: int|
            0 <= i < guid.len() ==> (#[trigger] profile_file_name_text(guid)[i]) == if ascii_alphanumeric(
                guid[i],
            ) || guid[i] == '-' {
                guid[i]
            } else {
                '_'
            },
        (forall|i: int| 0 <= i < guid.len() ==> ascii_alphanumeric(#[trigger] guid[i]) || guid[i] == '-')
            ==> profile_file_name_text(guid) == guid + ".json"@,
        (forall|i: int| 0 <= i < guid.len() ==> ascii_alphanumeric(#[trigger] guid[i]) || guid[i] == '-')
            && (forall|i: int| 0 <= i < other.len() ==> ascii_alphanumeric(#[trigger] other[i]) || other[i] == '-')
            && profile_file_name_text(guid) == profile_file_name_text(other) ==> guid == other,
{
    reveal_strlit(".json");
    let n = profile_file_name_text(guid);
    let mapped = guid.map_values(|c: char| file_name_char(c));
    assert(mapped.len() == guid.len());
    assert forall|i: int| 0 <= i < guid.len() implies (#[trigger] n[i]) == if ascii_alphanumeric(
        guid[i],
    ) || guid[i] == '-' {
        guid[i]
    } else {
        '_'
    } by {
        assert(n[i] == mapped[i]);
    }
    if forall|i: int| 0 <= i < guid.len() ==> ascii_alphanumeric(#[trigger] guid[i]) || guid[i] == '-' {
        assert(mapped =~= guid);
    }
    if (forall|i: int| 0 <= i < guid.len() ==> ascii_alphanumeric(#[trigger] guid[i]) || guid[i] == '-')
        && (forall|i: int| 0 <= i < other.len() ==> ascii_alphanumeric(#[trigger] other[i]) || other[i] == '-')
        && profile_file_name_text(guid) == profile_file_name_text(other) {
        let mo = other.map_values(|c: char| file_name_char(c));
        assert(mapped =~= guid);
        assert(mo =~= other);
        let suffix = ".json"@;
        assert(guid + suffix == other + suffix);
        assert(guid.len() == other.len());
        assert((guid + suffix).subrange(0, guid.len() as int) =~= guid);
        assert((other + suffix).subrange(0, other.len() as int) =~= other);
    }
}

} // verus!
