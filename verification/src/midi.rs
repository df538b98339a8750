use vstd::prelude::*;
use vstd::string::*;
use vstd::std_specs::btree::increasing_seq;
use vstd::std_specs::iter::IteratorSpec;
use std::collections::BTreeMap;
use crate::keys::{lemma_u16_increasing, lemma_u16_keys_ordered};
use crate::input::PhysicalInput;
use crate::profile::{Assignment, Profile};

verus! {

/// A MIDI message on channel 1.
#[derive(Debug, Clone, Copy, PartialEq, Eq, Structural)]
pub enum MidiCommand {
    NoteOn { note: u8, velocity: u8 },
    NoteOff { note: u8 },
    AllNotesOff,
}

/// One held input and the note it sounds.
pub type HeldNote = (PhysicalInput, u8);

/// The entries are in strictly increasing order of their input.
pub open spec fn keys_increasing(s: Seq<HeldNote>) -> bool {
    forall|i: int, j: int|
        0 <= i < j < s.len() ==> (#[trigger] s[i]).0.order_key() < (#[trigger] s[j]).0.order_key()
}

/// Where `input` stands among the entries, if it is held.
pub open spec fn held_index(s: Seq<HeldNote>, input: PhysicalInput) -> Option<int> {
    if exists|k: int| 0 <= k < s.len() && (#[trigger] s[k]).0 == input {
        Some(choose|k: int| 0 <= k < s.len() && (#[trigger] s[k]).0 == input)
    } else {
        None
    }
}

/// `p` is where an entry for `input` goes to keep the order.
pub open spec fn is_insert_position(s: Seq<HeldNote>, input: PhysicalInput, p: int) -> bool {
    &&& 0 <= p <= s.len()
    &&& forall|k: int| 0 <= k < p ==> (#[trigger] s[k]).0.order_key() < input.order_key()
    &&& forall|k: int| p <= k < s.len() ==> (#[trigger] s[k]).0.order_key() > input.order_key()
}

/// The entries with `(input, note)` added in its place.
pub open spec fn insert_held(s: Seq<HeldNote>, input: PhysicalInput, note: u8) -> Seq<HeldNote> {
    s.insert(choose|p: int| is_insert_position(s, input, p), (input, note))
}

/// The first row bound to `input`, if any.
pub open spec fn first_row_with_input(a: Seq<Assignment>, input: PhysicalInput) -> Option<int> {
    if exists|k: int| 0 <= k < a.len() && (#[trigger] a[k]).input == input {
        Some(
            choose|k: int|
                0 <= k < a.len() && (#[trigger] a[k]).input == input && forall|j: int|
                    0 <= j < k ==> (#[trigger] a[j]).input != input,
        )
    } else {
        None
    }
}

/// What a press (`pressed`) or a release of `input` does to the held
/// entries `s`, and which messages it sends, under the rows `a` and the
/// velocity `velocity`: a press of an input not held yet, bound to some row,
/// holds it on the note of the first such row and sends Note On; a release
/// of a held input lets it go and sends Note Off for the note it held;
/// anything else changes nothing and sends nothing.
pub open spec fn input_step(
    s: Seq<HeldNote>,
    a: Seq<Assignment>,
    velocity: u8,
    input: PhysicalInput,
    pressed: bool,
) -> (Seq<HeldNote>, Seq<MidiCommand>) {
    if pressed {
        if held_index(s, input) is Some {
            (s, seq![])
        } else if let Some(k) = first_row_with_input(a, input) {
            (
                insert_held(s, input, a[k].note),
                seq![MidiCommand::NoteOn { note: a[k].note, velocity }],
            )
        } else {
            (s, seq![])
        }
    } else if let Some(k) = held_index(s, input) {
        (s.remove(k), seq![MidiCommand::NoteOff { note: s[k].1 }])
    } else {
        (s, seq![])
    }
}

/// Note Off for each entry, in order.
pub open spec fn note_offs(s: Seq<HeldNote>) -> Seq<MidiCommand> {
    s.map_values(|e: HeldNote| MidiCommand::NoteOff { note: e.1 })
}

/// The key under which an input is held.
pub open spec fn key16(x: PhysicalInput) -> u16 {
    x.order_key() as u16
}

/// The map holds, under each held input's key, the note it sounds, and
/// nothing else.
pub open spec fn mirrors(m: Map<u16, u8>, s: Seq<HeldNote>) -> bool {
    &&& forall|i: int|
        0 <= i < s.len() ==> m.contains_key(key16((#[trigger] s[i]).0)) && m[key16(s[i].0)]
            == s[i].1
    &&& forall|k: u16| m.contains_key(k) ==> exists|i: int| 0 <= i < s.len() && key16((#[trigger] s[i]).0) == k
}

/// Which inputs are held and the note that each of them sounds, by the
/// key of the input.
pub struct MidiState {
    active: BTreeMap<u16, u8>,
    held: Ghost<Seq<HeldNote>>,
}

impl MidiState {
    /// The held inputs with their notes, in the order of the inputs.
    pub closed spec fn held(&self) -> Seq<HeldNote> {
        self.held@
    }

    /// The map of notes by key agrees with the held inputs.
    pub closed spec fn mirrored(&self) -> bool {
        mirrors(self.active@, self.held@)
    }

    /// The held inputs are listed once each, in their order, and the notes
    /// are kept under their keys.
    pub open spec fn wf(&self) -> bool {
        keys_increasing(self.held()) && self.mirrored()
    }

    /// A state in which nothing is held.
    pub fn new() -> (s: MidiState)
        ensures
            s.wf(),
            s.held() == Seq::<HeldNote>::empty(),
    {
        MidiState { active: BTreeMap::new(), held: Ghost(Seq::empty()) }
    }

    /// Handles a press (`pressed`) or a release of `input`: see `input_step`.
    pub fn input(&mut self, profile: &Profile, input: PhysicalInput, pressed: bool) -> (out: Vec<
        MidiCommand,
    >)
        requires
            old(self).wf(),
        ensures
            final(self).wf(),
            (final(self).held(), out@) == input_step(
                old(self).held(),
                profile.assignments@,
                profile.velocity,
                input,
                pressed,
            ),
    {
        let key = input.key();
        let ghost s = self.held@;
        let ghost m = self.active@;
        proof {
            lemma_mirror_lookup(m, s, input);
        }
        if pressed {
            if self.active.contains_key(&key) {
                return vec![];
            }
            let a = &profile.assignments;
            let n = a.len();
            let mut row: Option<usize> = None;
            for i in 0..n
                invariant
                    n == a@.len(),
                    row is None ==> forall|k: int| 0 <= k < i ==> (#[trigger] a@[k]).input != input,
                    row matches Some(r) ==> {
                        &&& r < n
                        &&& a@[r as int].input == input
                        &&& forall|k: int| 0 <= k < r ==> (#[trigger] a@[k]).input != input
                    },
            {
                if row.is_none() && a[i].input == input {
                    row = Some(i);
                }
            }
            if let Some(r) = row {
                let note = a[r].note;
                proof {
                    let c = first_row_with_input(a@, input);
                    assert(c is Some);
                    let ck = c.unwrap();
                    if ck < r as int {
                        assert(a@[ck].input != input);
                    }
                    if ck > r as int {
                        assert(a@[r as int].input != input);
                    }
                }
                self.active.insert(key, note);
                self.held = Ghost(insert_held(s, input, note));
                proof {
                    lemma_insert_held(s, input, note);
                    lemma_mirror_insert(m, s, input, note);
                }
                return vec![MidiCommand::NoteOn { note, velocity: profile.velocity }];
            } else {
                proof {
                    assert(!(exists|k: int|
                        0 <= k < a@.len() && (#[trigger] a@[k]).input == input));
                }
                return vec![];
            }
        } else {
            match self.active.remove(&key) {
                Some(note) => {
                    let ghost k = held_index(s, input).unwrap();
                    self.held = Ghost(s.remove(k));
                    proof {
                        lemma_remove_held(s, k);
                        lemma_mirror_remove(m, s, k);
                    }
                    return vec![MidiCommand::NoteOff { note }];
                },
                None => {},
            }
        }
        vec![]
    }

    /// Lets every held input go: Note Off for each held note in the order of
    /// the inputs, then All Notes Off.
    pub fn panic(&mut self) -> (out: Vec<MidiCommand>)
        requires
            old(self).wf(),
        ensures
            final(self).wf(),
            final(self).held() == Seq::<HeldNote>::empty(),
            out@ == note_offs(old(self).held()).push(MidiCommand::AllNotesOff),
            old(self).held().len() == 0 ==> out@ == seq![MidiCommand::AllNotesOff],
    {
        let ghost s = self.held@;
        let ghost m = self.active@;
        let mut out: Vec<MidiCommand> = Vec::new();
        proof {
            lemma_u16_keys_ordered();
        }
        let values = self.active.values();
        let ghost order = choose|ks: Seq<u16>|
            {
                &&& increasing_seq(ks)
                &&& ks.to_set() == m.dom()
                &&& ks.no_duplicates()
                &&& IteratorSpec::remaining(&values) == ks.map(|i: int, k: u16| &m[k])
            };
        proof {
            lemma_u16_increasing(order);
            lemma_mirror_order(m, s, order);
        }
        for v in it: values
            invariant
                it.seq() == order.map(|i: int, k: u16| &m[k]),
                order.len() == s.len(),
                forall|i: int| 0 <= i < s.len() ==> m[#[trigger] order[i]] == s[i].1,
                out@ == note_offs(s.take(it.index() as int)),
        {
            out.push(MidiCommand::NoteOff { note: *v });
            assert(s.take(it.index() + 1) == s.take(it.index() as int).push(s[it.index() as int]));
        }
        assert(s.take(s.len() as int) == s);
        self.active.clear();
        self.held = Ghost(Seq::empty());
        proof {
            assert(mirrors(self.active@, self.held@));
        }
        out.push(MidiCommand::AllNotesOff);
        out
    }
}

impl Default for MidiState {
    /// A state in which nothing is held.
    fn default() -> (s: MidiState)
        ensures
            s.wf(),
            s.held() == Seq::<HeldNote>::empty(),
    {
        MidiState::new()
    }
}

/// In a mirrored map, an input's key is present exactly when the input is
/// held, with its note.
proof fn lemma_mirror_lookup(m: Map<u16, u8>, s: Seq<HeldNote>, x: PhysicalInput)
    requires
        keys_increasing(s),
        mirrors(m, s),
    ensures
        m.contains_key(key16(x)) <==> held_index(s, x) is Some,
        held_index(s, x) matches Some(k) ==> 0 <= k < s.len() && s[k].0 == x && m[key16(x)] == s[k].1,
{
    if m.contains_key(key16(x)) {
        let i = choose|i: int| 0 <= i < s.len() && key16((#[trigger] s[i]).0) == key16(x);
        PhysicalInput::lemma_key_injective(s[i].0, x);
        lemma_held_index_at(s, x, i);
    }
    if held_index(s, x) is Some {
        let c = choose|j: int| 0 <= j < s.len() && (#[trigger] s[j]).0 == x;
    }
}

proof fn lemma_mirror_insert(m: Map<u16, u8>, s: Seq<HeldNote>, x: PhysicalInput, note: u8)
    requires
        keys_increasing(s),
        mirrors(m, s),
        held_index(s, x) is None,
    ensures
        mirrors(m.insert(key16(x), note), insert_held(s, x, note)),
{
    lemma_insert_held(s, x, note);
    let t = insert_held(s, x, note);
    let m2 = m.insert(key16(x), note);
    let p = held_index(t, x).unwrap();
    assert forall|i: int| 0 <= i < t.len() implies m2.contains_key(key16((#[trigger] t[i]).0))
        && m2[key16(t[i].0)] == t[i].1 by {
        let y = t[i].0;
        lemma_held_index_at(t, y, i);
        if y == x {
            assert(i == p);
        } else {
            PhysicalInput::lemma_key_injective(y, x);
            assert(same_hold(s, t, y));
            lemma_mirror_lookup(m, s, y);
        }
    }
    assert forall|k: u16| m2.contains_key(k) implies exists|i: int|
        0 <= i < t.len() && key16((#[trigger] t[i]).0) == k by {
        if k == key16(x) {
            assert(key16(t[p].0) == k);
        } else {
            let j = choose|j: int| 0 <= j < s.len() && key16((#[trigger] s[j]).0) == k;
            let y = s[j].0;
            lemma_held_index_at(s, y, j);
            if y == x {
                assert(held_index(s, x) is Some);
            }
            assert(same_hold(s, t, y));
            let i = held_index(t, y).unwrap();
            let c = choose|jj: int| 0 <= jj < t.len() && (#[trigger] t[jj]).0 == y;
            assert(key16(t[i].0) == k);
        }
    }
}

proof fn lemma_mirror_remove(m: Map<u16, u8>, s: Seq<HeldNote>, k: int)
    requires
        keys_increasing(s),
        mirrors(m, s),
        0 <= k < s.len(),
    ensures
        mirrors(m.remove(key16(s[k].0)), s.remove(k)),
{
    lemma_remove_held(s, k);
    let x = s[k].0;
    let t = s.remove(k);
    let m2 = m.remove(key16(x));
    assert forall|i: int| 0 <= i < t.len() implies m2.contains_key(key16((#[trigger] t[i]).0))
        && m2[key16(t[i].0)] == t[i].1 by {
        let y = t[i].0;
        let j = if i < k { i } else { i + 1 };
        assert(t[i] == s[j]);
        assert(j != k);
        if j < k {
            assert(s[j].0.order_key() < s[k].0.order_key());
        } else {
            assert(s[k].0.order_key() < s[j].0.order_key());
        }
    }
    assert forall|kk: u16| m2.contains_key(kk) implies exists|i: int|
        0 <= i < t.len() && key16((#[trigger] t[i]).0) == kk by {
        let j = choose|j: int| 0 <= j < s.len() && key16((#[trigger] s[j]).0) == kk;
        assert(j != k);
        if j < k {
            assert(t[j] == s[j]);
        } else {
            assert(t[j - 1] == s[j]);
        }
    }
}

/// The keys of the map in increasing order are the keys of the held
/// entries, in their order; so the values come out as the held notes do.
proof fn lemma_mirror_order(m: Map<u16, u8>, s: Seq<HeldNote>, ks: Seq<u16>)
    requires
        keys_increasing(s),
        mirrors(m, s),
        forall|i: int, j: int| 0 <= i < j < ks.len() ==> ks[i] < ks[j],
        ks.to_set() == m.dom(),
    ensures
        ks.len() == s.len(),
        forall|i: int| 0 <= i < s.len() ==> m[#[trigger] ks[i]] == s[i].1,
{
    let ss = s.map(|i: int, e: HeldNote| key16(e.0));
    assert forall|i: int, j: int| 0 <= i < j < ss.len() implies ss[i] < ss[j] by {
        assert(s[i].0.order_key() < s[j].0.order_key());
    }
    assert forall|k: u16| ss.contains(k) <==> ks.contains(k) by {
        if ss.contains(k) {
            let i = choose|i: int| 0 <= i < ss.len() && ss[i] == k;
            assert(m.contains_key(key16(s[i].0)));
            assert(ks.to_set().contains(k));
        }
        if ks.contains(k) {
            assert(ks.to_set().contains(k));
            let i = choose|i: int| 0 <= i < s.len() && key16((#[trigger] s[i]).0) == k;
            assert(ss[i] == k);
        }
    }
    lemma_increasing_u16_determined(ks, ss);
    assert forall|i: int| 0 <= i < s.len() implies m[#[trigger] ks[i]] == s[i].1 by {
        assert(ks[i] == ss[i]);
    }
}

/// Two strictly increasing lists of the same keys are the same list.
proof fn lemma_increasing_u16_determined(a: Seq<u16>, b: Seq<u16>)
    requires
        forall|i: int, j: int| 0 <= i < j < a.len() ==> a[i] < a[j],
        forall|i: int, j: int| 0 <= i < j < b.len() ==> b[i] < b[j],
        forall|k: u16| a.contains(k) <==> b.contains(k),
    ensures
        a == b,
    decreases a.len(),
{
    if a.len() == 0 {
        if b.len() > 0 {
            assert(b.contains(b[0]));
        }
        assert(a =~= b);
    } else {
        assert(a.contains(a[0]));
        assert(b.contains(b[0]));
        let j = choose|j: int| 0 <= j < b.len() && b[j] == a[0];
        let i = choose|i: int| 0 <= i < a.len() && a[i] == b[0];
        if i > 0 {
            assert(a[0] < a[i]);
        }
        if j > 0 {
            assert(b[0] < b[j]);
        }
        let ta = a.drop_first();
        let tb = b.drop_first();
        assert forall|k: u16| ta.contains(k) <==> tb.contains(k) by {
            if ta.contains(k) {
                let q = choose|q: int| 0 <= q < ta.len() && ta[q] == k;
                assert(a[q + 1] == k);
                assert(a[0] < a[q + 1]);
                assert(b.contains(k));
                let r = choose|r: int| 0 <= r < b.len() && b[r] == k;
                assert(r != 0);
                assert(tb[r - 1] == k);
            }
            if tb.contains(k) {
                let q = choose|q: int| 0 <= q < tb.len() && tb[q] == k;
                assert(b[q + 1] == k);
                assert(b[0] < b[q + 1]);
                assert(a.contains(k));
                let r = choose|r: int| 0 <= r < a.len() && a[r] == k;
                assert(r != 0);
                assert(ta[r - 1] == k);
            }
        }
        assert forall|x: int, y: int| 0 <= x < y < ta.len() implies ta[x] < ta[y] by {
            assert(a[x + 1] < a[y + 1]);
        }
        assert forall|x: int, y: int| 0 <= x < y < tb.len() implies tb[x] < tb[y] by {
            assert(b[x + 1] < b[y + 1]);
        }
        lemma_increasing_u16_determined(ta, tb);
        assert forall|q: int| 0 <= q < a.len() implies a[q] == b[q] by {
            if q > 0 {
                assert(a[q] == ta[q - 1]);
                assert(b[q] == tb[q - 1]);
            }
        }
        assert(a =~= b);
    }
}

/// The bytes of a command on the wire: Note On (0x90) with note and
/// velocity, Note Off (0x80) with note and velocity 0, or controller 123
/// (All Notes Off) on 0xB0 with value 0.
pub open spec fn command_bytes(c: MidiCommand) -> Seq<u8> {
    match c {
        MidiCommand::NoteOn { note, velocity } => seq![0x90u8, note, velocity],
        MidiCommand::NoteOff { note } => seq![0x80u8, note, 0u8],
        MidiCommand::AllNotesOff => seq![0xB0u8, 123u8, 0u8],
    }
}

impl MidiCommand {
    /// The bytes of the command on the wire.
    pub fn to_bytes(&self) -> (b: [u8; 3])
        ensures
            b@ == command_bytes(*self),
    {
        match self {
            MidiCommand::NoteOn { note, velocity } => [0x90, *note, *velocity],
            MidiCommand::NoteOff { note } => [0x80, *note, 0],
            MidiCommand::AllNotesOff => [0xB0, 123, 0],
        }
    }
}

/// Why MIDI output failed.
#[derive(Debug, Clone, PartialEq, Eq)]
pub enum MidiError {
    Init(String),
    Port(String),
    Connect(String),
    Send(String),
}

impl MidiError {
    /// The message shown to the user.
    pub open spec fn message_text(self) -> Seq<char> {
        match self {
            MidiError::Init(e) => "não foi possível iniciar MIDI: "@ + e@,
            MidiError::Port(e) => "porta MIDI não encontrada: "@ + e@,
            MidiError::Connect(e) => "não foi possível conectar: "@ + e@,
            MidiError::Send(e) => "erro ao enviar MIDI: "@ + e@,
        }
    }

    /// The message shown to the user.
    pub fn to_string(&self) -> (s: String)
        ensures
            s@ == self.message_text(),
    {
        let (mut s, detail) = match self {
            MidiError::Init(e) => (String::from_str("não foi possível iniciar MIDI: "), e),
            MidiError::Port(e) => (String::from_str("porta MIDI não encontrada: "), e),
            MidiError::Connect(e) => (String::from_str("não foi possível conectar: "), e),
            MidiError::Send(e) => (String::from_str("erro ao enviar MIDI: "), e),
        };
        s.append(detail.as_str());
        s
    }
}

/// Port `i` is named `name`; a port whose name could not be read is `None`.
pub open spec fn port_named(names: Seq<Option<String>>, i: int, name: Seq<char>) -> bool {
    names[i] matches Some(n) && n@ == name
}

/// Picks, among the ports whose names are `names`, the first one named
/// `name`; fails with `Port(name)` when there is none.
pub fn find_port(names: &Vec<Option<String>>, name: &str) -> (r: Result<usize, MidiError>)
    ensures
        match r {
            Ok(i) => {
                &&& i < names@.len()
                &&& port_named(names@, i as int, name@)
                &&& forall|j: int| 0 <= j < i ==> !port_named(names@, j, name@)
            },
            Err(e) => {
                &&& e matches MidiError::Port(t) && t@ == name@
                &&& forall|j: int| 0 <= j < names@.len() ==> !port_named(names@, j, name@)
            },
        },
{
    let target = String::from_str(name);
    let n = names.len();
    for i in 0..n
        invariant
            n == names@.len(),
            target@ == name@,
            forall|j: int| 0 <= j < i ==> !port_named(names@, j, name@),
    {
        match &names[i] {
            Some(s) => {
                if s.eq(&target) {
                    return Ok(i);
                }
            },
            None => {},
        }
    }
    Err(MidiError::Port(target))
}

/// In ordered entries, an input is found where it stands.
pub proof fn lemma_held_index_at(s: Seq<HeldNote>, input: PhysicalInput, k: int)
    requires
        keys_increasing(s),
        0 <= k < s.len(),
        s[k].0 == input,
    ensures
        held_index(s, input) == Some(k),
{
    let c = choose|j: int| 0 <= j < s.len() && (#[trigger] s[j]).0 == input;
    assert(0 <= c < s.len() && s[c].0 == input);
    if c < k {
        assert(s[c].0.order_key() < s[k].0.order_key());
    }
    if c > k {
        assert(s[k].0.order_key() < s[c].0.order_key());
    }
}

/// An input that is not held has a place among ordered entries.
pub proof fn lemma_insert_position_exists(s: Seq<HeldNote>, input: PhysicalInput)
    requires
        keys_increasing(s),
        held_index(s, input) is None,
    ensures
        exists|p: int| is_insert_position(s, input, p),
    decreases s.len(),
{
    if s.len() == 0 {
        assert(is_insert_position(s, input, 0));
    } else {
        let t = s.drop_last();
        assert forall|k: int| 0 <= k < t.len() implies (#[trigger] t[k]).0 != input by {
            assert(s[k] == t[k]);
        }
        lemma_insert_position_exists(t, input);
        let q = choose|p: int| is_insert_position(t, input, p);
        let last = s.last();
        if last.0 == input {
            assert(exists|j: int| 0 <= j < s.len() && (#[trigger] s[j]).0 == input);
        }
        if last.0.order_key() == input.order_key() {
            PhysicalInput::lemma_key_injective(last.0, input);
        }
        if last.0.order_key() < input.order_key() {
            assert(is_insert_position(s, input, s.len() as int));
        } else {
            assert forall|k: int| q <= k < s.len() implies (#[trigger] s[k]).0.order_key()
                > input.order_key() by {
                if k < s.len() - 1 {
                    assert(s[k] == t[k]);
                }
            }
            assert forall|k: int| 0 <= k < q implies (#[trigger] s[k]).0.order_key()
                < input.order_key() by {
                assert(s[k] == t[k]);
            }
            assert(is_insert_position(s, input, q));
        }
    }
}

/// Adding an input that is not held keeps the entries ordered, holds it on
/// the given note, and leaves every other input as it was.
pub proof fn lemma_insert_held(s: Seq<HeldNote>, input: PhysicalInput, note: u8)
    requires
        keys_increasing(s),
        held_index(s, input) is None,
    ensures
        keys_increasing(insert_held(s, input, note)),
        insert_held(s, input, note).len() == s.len() + 1,
        held_index(insert_held(s, input, note), input) matches Some(k) && insert_held(
            s,
            input,
            note,
        )[k] == (input, note),
        forall|y: PhysicalInput|
            y != input ==> same_hold(s, insert_held(s, input, note), y),
{
    lemma_insert_position_exists(s, input);
    let p = choose|p: int| is_insert_position(s, input, p);
    let t = insert_held(s, input, note);
    assert(t == s.insert(p, (input, note)));
    assert forall|i: int, j: int| 0 <= i < j < t.len() implies (#[trigger] t[i]).0.order_key()
        < (#[trigger] t[j]).0.order_key() by {
        if i < p && j > p {
            assert(t[j] == s[j - 1]);
        } else if i == p && j > p {
            assert(t[j] == s[j - 1]);
        } else if i > p {
            assert(t[i] == s[i - 1]);
            assert(t[j] == s[j - 1]);
        }
    }
    lemma_held_index_at(t, input, p);
    assert forall|y: PhysicalInput| y != input implies same_hold(s, t, y) by {
        if let Some(k) = held_index(s, y) {
            if k < p {
                assert(t[k] == s[k]);
                lemma_held_index_at(t, y, k);
            } else {
                assert(t[k + 1] == s[k]);
                lemma_held_index_at(t, y, k + 1);
            }
        }
        if let Some(k) = held_index(t, y) {
            assert(k != p);
            if k < p {
                assert(t[k] == s[k]);
                assert(s[k].0 == y);
            } else {
                assert(t[k] == s[k - 1]);
                assert(s[k - 1].0 == y);
            }
        }
    }
}

/// Input `y` is held in `s` exactly when it is held in `t`, on the same note.
pub open spec fn same_hold(s: Seq<HeldNote>, t: Seq<HeldNote>, y: PhysicalInput) -> bool {
    &&& (held_index(s, y) is Some <==> held_index(t, y) is Some)
    &&& held_index(s, y) matches Some(i) ==> held_index(t, y) matches Some(j) && s[i].1 == t[j].1
}

/// Letting go of the entry at `k` keeps the entries ordered and leaves every
/// other input as it was.
pub proof fn lemma_remove_held(s: Seq<HeldNote>, k: int)
    requires
        keys_increasing(s),
        0 <= k < s.len(),
    ensures
        keys_increasing(s.remove(k)),
        held_index(s.remove(k), s[k].0) is None,
        forall|y: PhysicalInput| y != s[k].0 ==> same_hold(s, s.remove(k), y),
{
    let t = s.remove(k);
    assert forall|i: int, j: int| 0 <= i < j < t.len() implies (#[trigger] t[i]).0.order_key()
        < (#[trigger] t[j]).0.order_key() by {
        if i >= k {
            assert(t[i] == s[i + 1]);
        }
        if j >= k {
            assert(t[j] == s[j + 1]);
        }
    }
    let x = s[k].0;
    if held_index(t, x) is Some {
        let c = choose|j: int| 0 <= j < t.len() && (#[trigger] t[j]).0 == x;
        if c < k {
            assert(t[c] == s[c]);
            assert(s[c].0.order_key() < s[k].0.order_key());
        } else {
            assert(t[c] == s[c + 1]);
            assert(s[k].0.order_key() < s[c + 1].0.order_key());
        }
    }
    assert forall|y: PhysicalInput| y != x implies same_hold(s, t, y) by {
        if let Some(i) = held_index(s, y) {
            assert(i != k);
            if i < k {
                assert(t[i] == s[i]);
                lemma_held_index_at(t, y, i);
            } else {
                assert(t[i - 1] == s[i]);
                lemma_held_index_at(t, y, i - 1);
            }
        }
        if let Some(j) = held_index(t, y) {
            if j < k {
                assert(t[j] == s[j]);
                assert(s[j].0 == y);
            } else {
                assert(t[j] == s[j + 1]);
                assert(s[j + 1].0 == y);
            }
        }
    }
}

/// Pressing an input that is not held and is bound to a row, then releasing
/// it, sends Note On then Note Off for the note of its first row, at the
/// profile's velocity, and leaves the held inputs as they were.
pub proof fn lemma_press_then_release(
    s: Seq<HeldNote>,
    a: Seq<Assignment>,
    velocity: u8,
    input: PhysicalInput,
)
    requires
        keys_increasing(s),
        held_index(s, input) is None,
        first_row_with_input(a, input) is Some,
    ensures
        ({
            let k = first_row_with_input(a, input).unwrap();
            let (s1, out1) = input_step(s, a, velocity, input, true);
            let (s2, out2) = input_step(s1, a, velocity, input, false);
            &&& out1 == seq![MidiCommand::NoteOn { note: a[k].note, velocity }]
            &&& out2 == seq![MidiCommand::NoteOff { note: a[k].note }]
            &&& s2 == s
        }),
{
    let k = first_row_with_input(a, input).unwrap();
    let note = a[k].note;
    lemma_insert_position_exists(s, input);
    let p = choose|p: int| is_insert_position(s, input, p);
    let t = insert_held(s, input, note);
    lemma_insert_held(s, input, note);
    assert(t[p] == (input, note));
    lemma_held_index_at(t, input, p);
    assert(t.remove(p) =~= s);
}

/// A press or release of one input leaves every other input held or not
/// held as it was, on the same note: simultaneous inputs are independent.
pub proof fn lemma_inputs_independent(
    s: Seq<HeldNote>,
    a: Seq<Assignment>,
    velocity: u8,
    input: PhysicalInput,
    pressed: bool,
    other: PhysicalInput,
)
    requires
        keys_increasing(s),
        other != input,
    ensures
        keys_increasing(input_step(s, a, velocity, input, pressed).0),
        same_hold(s, input_step(s, a, velocity, input, pressed).0, other),
{
    if pressed {
        if held_index(s, input) is None {
            if let Some(k) = first_row_with_input(a, input) {
                lemma_insert_held(s, input, a[k].note);
            }
        }
    } else if let Some(k) = held_index(s, input) {
        lemma_remove_held(s, k);
    }
}

/// How many notes the commands start, less how many they stop one by one.
pub open spec fn sounding_change(out: Seq<MidiCommand>) -> int
    decreases out.len(),
{
    if out.len() == 0 {
        0
    } else {
        sounding_change(out.drop_last()) + match out.last() {
            MidiCommand::NoteOn { .. } => 1int,
            MidiCommand::NoteOff { .. } => -1int,
            MidiCommand::AllNotesOff => 0int,
        }
    }
}

/// A press or a release changes the number of held inputs by the number of
/// notes it starts less the number it stops: held inputs and sounding notes
/// stay in step.
pub proof fn lemma_held_follows_notes(
    s: Seq<HeldNote>,
    a: Seq<Assignment>,
    velocity: u8,
    input: PhysicalInput,
    pressed: bool,
)
    requires
        keys_increasing(s),
    ensures
        input_step(s, a, velocity, input, pressed).0.len() == s.len() + sounding_change(
            input_step(s, a, velocity, input, pressed).1,
        ),
{
    assert(sounding_change(Seq::<MidiCommand>::empty()) == 0);
    if pressed {
        if held_index(s, input) is None {
            if let Some(k) = first_row_with_input(a, input) {
                let c = MidiCommand::NoteOn { note: a[k].note, velocity };
                assert(seq![c].drop_last() == Seq::<MidiCommand>::empty());
                assert(sounding_change(seq![c]) == 1);
                lemma_insert_held(s, input, a[k].note);
            }
        }
    } else if let Some(k) = held_index(s, input) {
        let c = MidiCommand::NoteOff { note: s[k].1 };
        assert(seq![c].drop_last() == Seq::<MidiCommand>::empty());
        assert(sounding_change(seq![c]) == -1);
    }
}

/// Silencing stops one note for each held input.
pub proof fn lemma_silence_stops_every_note(s: Seq<HeldNote>)
    ensures
        sounding_change(note_offs(s).push(MidiCommand::AllNotesOff)) == -s.len(),
    decreases s.len(),
{
    let out = note_offs(s).push(MidiCommand::AllNotesOff);
    assert(out.drop_last() == note_offs(s));
    lemma_note_offs_count(s);
}

proof fn lemma_note_offs_count(s: Seq<HeldNote>)
    ensures
        sounding_change(note_offs(s)) == -s.len(),
    decreases s.len(),
{
    if s.len() > 0 {
        lemma_note_offs_count(s.drop_last());
        assert(note_offs(s).drop_last() == note_offs(s.drop_last()));
    }
}


/// The note that input `x` holds, if it is held.
pub open spec fn held_note(s: Seq<HeldNote>, x: PhysicalInput) -> Option<u8> {
    match held_index(s, x) {
        Some(k) => Some(s[k].1),
        None => None,
    }
}

/// One call of `MidiState::input`: the rows and velocity of the profile it
/// was given, the input, and whether it was pressed.
pub type InputCall = (Seq<Assignment>, u8, PhysicalInput, bool);

/// The held entries after the calls, in order, from `s`.
pub open spec fn run_state(s: Seq<HeldNote>, calls: Seq<InputCall>) -> Seq<HeldNote>
    decreases calls.len(),
{
    if calls.len() == 0 {
        s
    } else {
        let c = calls.last();
        input_step(run_state(s, calls.drop_last()), c.0, c.1, c.2, c.3).0
    }
}

/// What the last of the calls sends, after the others ran from `s`.
pub open spec fn last_output(s: Seq<HeldNote>, calls: Seq<InputCall>) -> Seq<MidiCommand> {
    let c = calls.last();
    input_step(run_state(s, calls.drop_last()), c.0, c.1, c.2, c.3).1
}

/// Every call sends at most one command.
pub open spec fn each_sends_at_most_one(s: Seq<HeldNote>, calls: Seq<InputCall>) -> bool
    decreases calls.len(),
{
    calls.len() == 0 || (last_output(s, calls).len() <= 1 && each_sends_at_most_one(
        s,
        calls.drop_last(),
    ))
}

/// The commands that the calls for input `x` send, in order.
pub open spec fn commands_for(s: Seq<HeldNote>, calls: Seq<InputCall>, x: PhysicalInput) -> Seq<
    MidiCommand,
>
    decreases calls.len(),
{
    if calls.len() == 0 {
        seq![]
    } else {
        commands_for(s, calls.drop_last(), x) + if calls.last().2 == x {
            last_output(s, calls)
        } else {
            seq![]
        }
    }
}

/// Plays the commands of one input from the note it sounds (`None` for
/// none): a Note On may only start a note when none sounds, and a Note Off
/// may only stop the note that sounds. The result is the note sounding at
/// the end, or `None` when the commands break that alternation.
pub open spec fn replay(cmds: Seq<MidiCommand>, start: Option<u8>) -> Option<Option<u8>>
    decreases cmds.len(),
{
    if cmds.len() == 0 {
        Some(start)
    } else {
        match replay(cmds.drop_last(), start) {
            None => None,
            Some(sounding) => match cmds.last() {
                MidiCommand::NoteOn { note, .. } => if sounding is None {
                    Some(Some(note))
                } else {
                    None
                },
                MidiCommand::NoteOff { note } => if sounding == Some(note) {
                    Some(None)
                } else {
                    None
                },
                MidiCommand::AllNotesOff => None,
            },
        }
    }
}

/// One press or release of `input` sends at most one command; for input `x`
/// it either sends nothing and keeps what `x` holds, or starts a note when
/// `x` held none, or stops the note that `x` held; every other input keeps
/// what it holds.
pub proof fn lemma_step_alternates(
    s: Seq<HeldNote>,
    a: Seq<Assignment>,
    velocity: u8,
    input: PhysicalInput,
    pressed: bool,
    x: PhysicalInput,
)
    requires
        keys_increasing(s),
    ensures
        ({
            let (t, out) = input_step(s, a, velocity, input, pressed);
            &&& keys_increasing(t)
            &&& out.len() <= 1
            &&& x != input ==> held_note(t, x) == held_note(s, x)
            &&& x == input ==> replay(out, held_note(s, x)) == Some(held_note(t, x))
        }),
{
    let (t, out) = input_step(s, a, velocity, input, pressed);
    assert(replay(Seq::<MidiCommand>::empty(), held_note(s, x)) == Some(held_note(s, x)));
    if x != input {
        lemma_inputs_independent(s, a, velocity, input, pressed, x);
    }
    if pressed {
        if held_index(s, input) is None {
            if let Some(k) = first_row_with_input(a, input) {
                lemma_insert_held(s, input, a[k].note);
                let c = MidiCommand::NoteOn { note: a[k].note, velocity };
                assert(seq![c].drop_last() == Seq::<MidiCommand>::empty());
                if x == input {
                    assert(replay(seq![c], None) == Some(Some(a[k].note)));
                }
            }
        }
    } else if let Some(k) = held_index(s, input) {
        lemma_remove_held(s, k);
        let c = MidiCommand::NoteOff { note: s[k].1 };
        assert(seq![c].drop_last() == Seq::<MidiCommand>::empty());
        if x == input {
            assert(replay(seq![c], Some(s[k].1)) == Some(None::<u8>));
        }
    }
}

/// Over any sequence of presses and releases, under any profiles, with no
/// silencing in between: every call sends at most one command, and the
/// commands sent for each input alternate, starting from what it held,
/// between a Note On and the Note Off of that same note, ending on what it
/// holds at the end. From an empty state, they start with a Note On.
pub proof fn lemma_runs_alternate(s: Seq<HeldNote>, calls: Seq<InputCall>, x: PhysicalInput)
    requires
        keys_increasing(s),
    ensures
        keys_increasing(run_state(s, calls)),
        each_sends_at_most_one(s, calls),
        replay(commands_for(s, calls, x), held_note(s, x)) == Some(
            held_note(run_state(s, calls), x),
        ),
    decreases calls.len(),
{
    if calls.len() > 0 {
        let init = calls.drop_last();
        lemma_runs_alternate(s, init, x);
        let pre = run_state(s, init);
        let c = calls.last();
        lemma_step_alternates(pre, c.0, c.1, c.2, c.3, x);
        let out = last_output(s, calls);
        let before = commands_for(s, init, x);
        if c.2 == x {
            lemma_replay_append(before, out, held_note(s, x));
        } else {
            assert(before + Seq::<MidiCommand>::empty() == before);
        }
    }
}

/// Replaying at most one more command continues from where the others ended.
proof fn lemma_replay_append(a: Seq<MidiCommand>, b: Seq<MidiCommand>, start: Option<u8>)
    requires
        b.len() <= 1,
        replay(a, start) is Some,
    ensures
        replay(a + b, start) == replay(b, replay(a, start).unwrap()),
{
    if b.len() == 0 {
        assert(a + b == a);
    } else {
        let r = replay(a, start).unwrap();
        assert((a + b).drop_last() == a);
        assert((a + b).last() == b.last());
        assert(b.drop_last() == Seq::<MidiCommand>::empty());
        assert(replay(b.drop_last(), r) == Some(r));
    }
}

} // verus!
