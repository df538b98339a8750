use vstd::prelude::*;
use vstd::string::*;
use std::collections::BTreeSet;
use crate::input::PhysicalInput;
use crate::joystick::InputError;
use crate::midi::{note_offs, HeldNote, input_step, MidiCommand, MidiError, MidiState};
use crate::profile::{
    learn_result, learned, note_elsewhere, note_name_text, Profile, ProfileError, default_input, DEFAULT_ASSIGNMENTS,
    DEFAULT_VELOCITY, FIRST_DEFAULT_NOTE,
};
use crate::text::{decimal, push_decimal};

verus! {

/// How many input changes the diagnostic list keeps.
pub const DIAGNOSTIC_LINES: usize = 12;

/// The diagnostic line of an input change.
pub open spec fn change_line(input: PhysicalInput, pressed: bool) -> Seq<char> {
    input.display_text() + if pressed {
        ": pressionado"@
    } else {
        ": solto"@
    }
}

/// `lines` with `line` added last, keeping at most `DIAGNOSTIC_LINES` of them.
pub open spec fn add_change_line(lines: Seq<Seq<char>>, line: Seq<char>) -> Seq<Seq<char>> {
    let d = lines.push(line);
    if d.len() > DIAGNOSTIC_LINES {
        d.drop_first()
    } else {
        d
    }
}

/// The texts of a list of strings.
pub open spec fn texts(v: Seq<String>) -> Seq<Seq<char>> {
    v.map_values(|s: String| s@)
}

/// What the application knows between two events: the note state, the
/// profile of the connected controller, whether one is connected, which
/// inputs are down, the row waiting for Learn, the diagnostic lines and the
/// status line.
pub struct Session {
    pub state: MidiState,
    pub active: BTreeSet<u16>,
    pub profile: Option<Profile>,
    pub connected: bool,
    pub learn_row: Option<usize>,
    pub diagnostic: Vec<String>,
    pub status: String,
}

/// What to do when a controller connects: silence what sounds, then open
/// the profile's MIDI port, if it names one.
pub struct ConnectPlan {
    pub silence: Vec<MidiCommand>,
    pub port: Option<String>,
}

impl Session {
    /// The held inputs with their notes, in the order of the inputs.
    pub open spec fn held(&self) -> Seq<HeldNote> {
        self.state.held()
    }

    /// The inputs that are down, in their order.
    pub open spec fn active_inputs(&self) -> Set<PhysicalInput> {
        Set::new(|x: PhysicalInput| self.active@.contains(x.order_key() as u16))
    }

    /// There is no profile, or the profile is valid.
    pub open spec fn profile_ok(&self) -> bool {
        match self.profile {
            None => true,
            Some(p) => p.valid(),
        }
    }

    /// The note state is consistent.
    pub open spec fn wf(&self) -> bool {
        self.state.wf()
    }

    /// The status of a session that starts: an invitation to connect the
    /// controller, or why the input layer failed.
    pub open spec fn start_status(error: Option<InputError>) -> Seq<char> {
        match error {
            None => "Conecte o Fighting Stick"@,
            Some(e) => e.message_text(),
        }
    }

    /// A session with no controller, no profile and nothing held.
    pub fn new(error: Option<&InputError>) -> (s: Session)
        ensures
            s.wf(),
            s.held() == Seq::<HeldNote>::empty(),
            s.active_inputs() == Set::<PhysicalInput>::empty(),
            s.profile is None,
            !s.connected,
            s.learn_row is None,
            s.diagnostic@ == Seq::<String>::empty(),
            s.status@ == Self::start_status(
                match error {
                    None => None,
                    Some(e) => Some(*e),
                },
            ),
    {
        let status = match error {
            None => String::from_str("Conecte o Fighting Stick"),
            Some(e) => e.to_string(),
        };
        Session {
            state: MidiState::new(),
            active: BTreeSet::new(),
            profile: None,
            connected: false,
            learn_row: None,
            diagnostic: Vec::new(),
            status,
        }
    }

    /// The input is down.
    pub fn is_active(&self, input: PhysicalInput) -> (r: bool)
        ensures
            r == self.active_inputs().contains(input),
    {
        self.active.contains(&input.key())
    }

    /// Lets every held note go and forgets which inputs are down; the result
    /// is what to send: Note Off for each held note, then All Notes Off.
    pub fn silence(&mut self) -> (out: Vec<MidiCommand>)
        requires
            old(self).wf(),
        ensures
            final(self).wf(),
            final(self).held() == Seq::<HeldNote>::empty(),
            final(self).active_inputs() == Set::<PhysicalInput>::empty(),
            out@ == note_offs(old(self).held()).push(MidiCommand::AllNotesOff),
            final(self).profile == old(self).profile,
            final(self).connected == old(self).connected,
            final(self).learn_row == old(self).learn_row,
            final(self).diagnostic == old(self).diagnostic,
            final(self).status == old(self).status,
    {
        let out = self.state.panic();
        self.active.clear();
        assert(self.active_inputs() =~= Set::<PhysicalInput>::empty());
        out
    }

    /// A diagnostic line from the input layer.
    pub fn diagnostic_line(&mut self, line: String)
        ensures
            final(self).diagnostic@ == old(self).diagnostic@.push(line),
            final(self).held() == old(self).held(),
            final(self).active_inputs() == old(self).active_inputs(),
            final(self).profile == old(self).profile,
            final(self).connected == old(self).connected,
            final(self).learn_row == old(self).learn_row,
            final(self).status == old(self).status,
    {
        self.diagnostic.push(line);
    }

    /// A controller connected: everything held is silenced, and the stored
    /// profile `loaded`, when there is one, or else a new profile for it,
    /// becomes the profile. The plan says what to send and which port to open.
    pub fn device_connected(&mut self, guid: &str, name: &str, loaded: Option<Profile>) -> (plan:
        ConnectPlan)
        requires
            old(self).wf(),
        ensures
            final(self).wf(),
            final(self).held() == Seq::<HeldNote>::empty(),
            final(self).active_inputs() == Set::<PhysicalInput>::empty(),
            plan.silence@ == note_offs(old(self).held()).push(MidiCommand::AllNotesOff),
            final(self).connected,
            final(self).profile matches Some(p) && match loaded {
                Some(l) => p == l,
                None => {
                    &&& p.controller_guid@ == guid@
                    &&& p.controller_name@ == name@
                    &&& p.midi_port is None
                    &&& p.velocity == DEFAULT_VELOCITY
                    &&& p.assignments@.len() == DEFAULT_ASSIGNMENTS
                    &&& forall|i: int|
                        0 <= i < DEFAULT_ASSIGNMENTS ==> {
                            &&& (#[trigger] p.assignments@[i]).input == default_input(i)
                            &&& p.assignments@[i].note == FIRST_DEFAULT_NOTE + i
                            &&& p.assignments@[i].label@ == note_name_text(
                                (FIRST_DEFAULT_NOTE + i) as u8,
                            )
                        }
                },
            },
            final(self).profile matches Some(p) && plan.port == p.midi_port,
            (loaded matches Some(l) ==> l.valid()) ==> final(self).profile_ok(),
            final(self).learn_row == old(self).learn_row,
            final(self).diagnostic == old(self).diagnostic,
            final(self).status == old(self).status,
    {
        let silence = self.silence();
        self.connected = true;
        let p = match loaded {
            Some(l) => l,
            None => Profile::default_for(guid, name),
        };
        let port = p.midi_port.clone();
        self.profile = Some(p);
        ConnectPlan { silence, port }
    }

    /// The status after a controller connected: the failure to open its
    /// port, if any, or else that the controller `name` is connected.
    pub open spec fn connected_status(name: Seq<char>, error: Option<MidiError>) -> Seq<char> {
        match error {
            Some(e) => e.message_text(),
            None => "Conectado: "@ + name,
        }
    }

    /// Reports how opening the port of a newly connected controller went.
    pub fn connection_outcome(&mut self, name: &str, error: Option<&MidiError>)
        ensures
            final(self).status@ == Self::connected_status(
                name@,
                match error {
                    None => None,
                    Some(e) => Some(*e),
                },
            ),
            final(self).held() == old(self).held(),
            final(self).active_inputs() == old(self).active_inputs(),
            final(self).profile == old(self).profile,
            final(self).connected == old(self).connected,
            final(self).learn_row == old(self).learn_row,
            final(self).diagnostic == old(self).diagnostic,
    {
        self.status = match error {
            Some(e) => e.to_string(),
            None => {
                let mut s = String::from_str("Conectado: ");
                s.append(name);
                s
            },
        };
    }

    /// The controller went away: everything held is silenced (the result is
    /// what to send) and the status says so.
    pub fn device_disconnected(&mut self) -> (out: Vec<MidiCommand>)
        requires
            old(self).wf(),
        ensures
            final(self).wf(),
            final(self).held() == Seq::<HeldNote>::empty(),
            final(self).active_inputs() == Set::<PhysicalInput>::empty(),
            out@ == note_offs(old(self).held()).push(MidiCommand::AllNotesOff),
            !final(self).connected,
            final(self).status@ == "Controle desconectado — notas encerradas"@,
            final(self).profile == old(self).profile,
            final(self).learn_row == old(self).learn_row,
            final(self).diagnostic == old(self).diagnostic,
    {
        let out = self.silence();
        self.connected = false;
        self.status = String::from_str("Controle desconectado — notas encerradas");
        out
    }
    /// The status after a Learn that answered `r`.
    pub open spec fn learn_status(r: Result<(), ProfileError>) -> Seq<char> {
        match r {
            Ok(()) => "Entrada aprendida"@,
            Err(e) => e.message_text(),
        }
    }

    /// An input went down (`pressed`) or up.
    ///
    /// The list of inputs that are down follows it, and the diagnostic list
    /// gets a line for it. A press while a row waits for Learn binds that row
    /// to the input, keeping the row's note, and sends nothing; otherwise the
    /// note state handles the input under the profile (see `input_step`) and
    /// the result is what to send.
    pub fn input_changed(&mut self, input: PhysicalInput, pressed: bool) -> (out: Vec<MidiCommand>)
        requires
            old(self).wf(),
            pressed && old(self).learn_row is Some && old(self).profile is Some
                ==> old(self).learn_row.unwrap() < old(self).profile.unwrap().assignments@.len(),
        ensures
            final(self).wf(),
            forall|y: PhysicalInput|
                final(self).active_inputs().contains(y) <==> if pressed {
                    old(self).active_inputs().contains(y) || y == input
                } else {
                    old(self).active_inputs().contains(y) && y != input
                },
            texts(final(self).diagnostic@) == add_change_line(
                texts(old(self).diagnostic@),
                change_line(input, pressed),
            ),
            old(self).profile_ok() ==> final(self).profile_ok(),
            final(self).connected == old(self).connected,
            pressed && old(self).learn_row is Some ==> {
                let row = old(self).learn_row.unwrap() as int;
                &&& final(self).learn_row is None
                &&& out@ == Seq::<MidiCommand>::empty()
                &&& final(self).held() == old(self).held()
                &&& match old(self).profile {
                    None => final(self).profile is None && final(self).status == old(self).status,
                    Some(p) => {
                        let note = p.assignments@[row].note;
                        let r = learn_result(p.assignments@, row, note);
                        &&& final(self).profile matches Some(q) && if r is Ok {
                            learned(p, q, row, input, note)
                        } else {
                            q == p
                        }
                        &&& final(self).status@ == Self::learn_status(r)
                    },
                }
            },
            !(pressed && old(self).learn_row is Some) ==> {
                &&& final(self).learn_row == old(self).learn_row
                &&& final(self).profile == old(self).profile
                &&& final(self).status == old(self).status
                &&& match old(self).profile {
                    None => out@ == Seq::<MidiCommand>::empty() && final(self).held() == old(
                        self,
                    ).held(),
                    Some(p) => (final(self).held(), out@) == input_step(
                        old(self).held(),
                        p.assignments@,
                        p.velocity,
                        input,
                        pressed,
                    ),
                }
            },
    {
        let ghost before = self.active_inputs();
        if pressed {
            self.active.insert(input.key());
        } else {
            self.active.remove(&input.key());
        }
        proof {
            assert forall|y: PhysicalInput|
                self.active_inputs().contains(y) <==> if pressed {
                    before.contains(y) || y == input
                } else {
                    before.contains(y) && y != input
                } by {
                PhysicalInput::lemma_key_injective(y, input);
            }
        }
        let mut line = input.to_string();
        if pressed {
            line.append(": pressionado");
        } else {
            line.append(": solto");
        }
        let ghost lines0 = texts(self.diagnostic@);
        self.diagnostic.push(line);
        assert(texts(self.diagnostic@) =~= lines0.push(change_line(input, pressed)));
        if self.diagnostic.len() > DIAGNOSTIC_LINES {
            let ghost d = self.diagnostic@;
            self.diagnostic.remove(0);
            assert(texts(self.diagnostic@) =~= texts(d).drop_first());
        }
        if pressed {
            if let Some(row) = self.learn_row {
                self.learn_row = None;
                match &mut self.profile {
                    Some(p) => {
                        let note = p.assignments[row].note;
                        match p.learn(row, input, note) {
                            Ok(()) => {
                                self.status = String::from_str("Entrada aprendida");
                            },
                            Err(e) => {
                                self.status = e.to_string();
                            },
                        }
                    },
                    None => {},
                }
                return Vec::new();
            }
        }
        match &self.profile {
            Some(p) => self.state.input(p, input, pressed),
            None => Vec::new(),
        }
    }

    /// A command could not be sent: the status says why.
    pub fn send_failed(&mut self, error: &MidiError)
        ensures
            final(self).status@ == error.message_text(),
            final(self).state == old(self).state,
            final(self).active == old(self).active,
            final(self).profile == old(self).profile,
            final(self).connected == old(self).connected,
            final(self).learn_row == old(self).learn_row,
            final(self).diagnostic == old(self).diagnostic,
    {
        self.status = error.to_string();
    }

    /// The Learn button of row `row` was clicked: it starts waiting for an
    /// input, or stops waiting if it was.
    pub fn toggle_learn(&mut self, row: usize)
        ensures
            final(self).learn_row == if old(self).learn_row == Some(row) {
                None
            } else {
                Some(row)
            },
            final(self).state == old(self).state,
            final(self).active == old(self).active,
            final(self).profile == old(self).profile,
            final(self).connected == old(self).connected,
            final(self).diagnostic == old(self).diagnostic,
            final(self).status == old(self).status,
    {
        self.learn_row = if self.learn_row == Some(row) {
            None
        } else {
            Some(row)
        };
    }

    /// The status when a note picked for a row is in use by another row.
    pub open spec fn note_in_use_status(note: u8) -> Seq<char> {
        "A nota MIDI "@ + decimal(note as nat) + " já está em uso"@
    }

    /// The note of row `row` was edited to `note`: a new note that no other
    /// row plays replaces it, with its name; one that another row plays is
    /// refused, and the status says so.
    pub fn edit_note(&mut self, row: usize, note: u8)
        requires
            old(self).profile matches Some(p) && row < p.assignments@.len(),
        ensures
            ({
                let p = old(self).profile.unwrap();
                let s0 = p.assignments@;
                if note == s0[row as int].note {
                    *final(self) == *old(self)
                } else if note_elsewhere(s0, row as int, note) {
                    &&& final(self).profile == old(self).profile
                    &&& final(self).status@ == Self::note_in_use_status(note)
                } else {
                    &&& final(self).status == old(self).status
                    &&& final(self).profile matches Some(q) && {
                        let s1 = q.assignments@;
                        &&& q.controller_guid == p.controller_guid
                        &&& q.controller_name == p.controller_name
                        &&& q.midi_port == p.midi_port
                        &&& q.velocity == p.velocity
                        &&& s1.len() == s0.len()
                        &&& s1[row as int].input == s0[row as int].input
                        &&& s1[row as int].note == note
                        &&& s1[row as int].label@ == note_name_text(note)
                        &&& forall|k: int| 0 <= k < s0.len() && k != row ==> s1[k] == s0[k]
                    }
                }
            }),
            old(self).profile_ok() && note <= 127 ==> final(self).profile_ok(),
            final(self).state == old(self).state,
            final(self).active == old(self).active,
            final(self).connected == old(self).connected,
            final(self).learn_row == old(self).learn_row,
            final(self).diagnostic == old(self).diagnostic,
    {
        match &mut self.profile {
            Some(p) => {
                if p.assignments[row].note == note {
                    return;
                }
                match p.set_note(row, note) {
                    Ok(()) => {},
                    Err(_) => {
                        let mut s = String::from_str("A nota MIDI ");
                        push_decimal(&mut s, note as u64);
                        s.append(" já está em uso");
                        self.status = s;
                    },
                }
            },
            None => {},
        }
    }

    /// The status after picking the port `port`: the failure to open it, if
    /// any, or else the port in use.
    pub open spec fn port_status(port: Seq<char>, error: Option<MidiError>) -> Seq<char> {
        match error {
            Some(e) => e.message_text(),
            None => "Saída MIDI: "@ + port,
        }
    }

    /// The port `port` was picked (after silencing) and opening it went as
    /// `error` says: on success the profile remembers it.
    pub fn port_selected(&mut self, port: &str, error: Option<&MidiError>)
        ensures
            final(self).status@ == Self::port_status(
                port@,
                match error {
                    None => None,
                    Some(e) => Some(*e),
                },
            ),
            match old(self).profile {
                None => final(self).profile is None,
                Some(p) => final(self).profile matches Some(q) && {
                    &&& q.controller_guid == p.controller_guid
                    &&& q.controller_name == p.controller_name
                    &&& q.velocity == p.velocity
                    &&& q.assignments == p.assignments
                    &&& if error is None {
                        q.midi_port matches Some(m) && m@ == port@
                    } else {
                        q.midi_port == p.midi_port
                    }
                },
            },
            old(self).profile_ok() ==> final(self).profile_ok(),
            final(self).state == old(self).state,
            final(self).active == old(self).active,
            final(self).connected == old(self).connected,
            final(self).learn_row == old(self).learn_row,
            final(self).diagnostic == old(self).diagnostic,
    {
        match error {
            None => {
                match &mut self.profile {
                    Some(p) => {
                        p.midi_port = Some(String::from_str(port));
                    },
                    None => {},
                }
                let mut s = String::from_str("Saída MIDI: ");
                s.append(port);
                self.status = s;
            },
            Some(e) => {
                self.status = e.to_string();
            },
        }
    }

    /// Silences everything held and puts back the mapping of a new profile
    /// for the same controller, and says so. The result is what to send.
    pub fn restore_default(&mut self) -> (out: Vec<MidiCommand>)
        requires
            old(self).wf(),
            old(self).profile is Some,
        ensures
            final(self).wf(),
            final(self).held() == Seq::<HeldNote>::empty(),
            final(self).active_inputs() == Set::<PhysicalInput>::empty(),
            out@ == note_offs(old(self).held()).push(MidiCommand::AllNotesOff),
            final(self).profile matches Some(q) && {
                let p = old(self).profile.unwrap();
                &&& q.controller_guid@ == p.controller_guid@
                &&& q.controller_name@ == p.controller_name@
                &&& q.midi_port is None
                &&& q.velocity == DEFAULT_VELOCITY
                &&& q.assignments@.len() == DEFAULT_ASSIGNMENTS
                &&& forall|i: int|
                    0 <= i < DEFAULT_ASSIGNMENTS ==> {
                        &&& (#[trigger] q.assignments@[i]).input == default_input(i)
                        &&& q.assignments@[i].note == FIRST_DEFAULT_NOTE + i
                        &&& q.assignments@[i].label@ == note_name_text(
                            (FIRST_DEFAULT_NOTE + i) as u8,
                        )
                    }
            },
            final(self).profile_ok(),
            final(self).status@ == "Mapeamento padrão restaurado"@,
            final(self).connected == old(self).connected,
            final(self).learn_row == old(self).learn_row,
            final(self).diagnostic == old(self).diagnostic,
    {
        let out = self.silence();
        match &self.profile {
            Some(p) => {
                let d = Profile::default_for(p.controller_guid.as_str(), p.controller_name.as_str());
                self.profile = Some(d);
            },
            None => {},
        }
        self.status = String::from_str("Mapeamento padrão restaurado");
        out
    }

    /// Stops every note: the result is what to send, and the status says so.
    pub fn stop_all(&mut self) -> (out: Vec<MidiCommand>)
        requires
            old(self).wf(),
        ensures
            final(self).wf(),
            final(self).held() == Seq::<HeldNote>::empty(),
            final(self).active_inputs() == Set::<PhysicalInput>::empty(),
            out@ == note_offs(old(self).held()).push(MidiCommand::AllNotesOff),
            final(self).status@ == "Todas as notas encerradas"@,
            final(self).profile == old(self).profile,
            final(self).connected == old(self).connected,
            final(self).learn_row == old(self).learn_row,
            final(self).diagnostic == old(self).diagnostic,
    {
        let out = self.silence();
        self.status = String::from_str("Todas as notas encerradas");
        out
    }
}

} // verus!
