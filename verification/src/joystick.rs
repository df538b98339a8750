use vstd::prelude::*;
use vstd::string::*;
use crate::input::PhysicalInput;
use crate::text::{decimal, push_decimal};

verus! {

/// The position of a joystick hat.
#[derive(Debug, Clone, Copy, PartialEq, Eq, Structural)]
pub enum HatState {
    Centered,
    Up,
    Right,
    Down,
    Left,
    RightUp,
    RightDown,
    LeftUp,
    LeftDown,
}

/// A raw joystick event, as the input layer delivers it. `which` is the
/// device index for `DeviceAdded` and the instance id for every other event.
#[derive(Debug, Clone, Copy, PartialEq, Eq, Structural)]
pub enum JoystickEvent {
    DeviceAdded { which: u32 },
    DeviceRemoved { which: u32 },
    ButtonDown { which: u32, button: u8 },
    ButtonUp { which: u32, button: u8 },
    AxisMotion { which: u32, axis: u8, value: i16 },
    HatMotion { which: u32, hat: u8, state: HatState },
    Other,
}

/// What the input layer reports to the application.
#[derive(Debug, Clone, PartialEq, Eq)]
pub enum InputEvent {
    Connected { index: u32, guid: String, name: String },
    Disconnected,
    Changed { input: PhysicalInput, pressed: bool },
    Diagnostic(String),
}

/// Why the input layer could not start.
#[derive(Debug, Clone, PartialEq, Eq)]
pub enum InputError {
    Sdl(String),
}

impl InputError {
    /// The message shown to the user.
    pub open spec fn message_text(self) -> Seq<char> {
        match self {
            InputError::Sdl(e) => "SDL: "@ + e@,
        }
    }

    /// The message shown to the user.
    pub fn to_string(&self) -> (s: String)
        ensures
            s@ == self.message_text(),
    {
        match self {
            InputError::Sdl(e) => {
                let mut s = String::from_str("SDL: ");
                s.append(e.as_str());
                s
            },
        }
    }
}

/// How far an axis must move from its resting value to count as pushed.
pub const AXIS_THRESHOLD: i32 = 16000;

/// The input that an axis pushed in `direction` (-1 or 1) stands for: axis 0
/// is left and right, axis 1 is up and down, every other axis has inputs of
/// its own.
pub open spec fn axis_input_spec(axis: u8, direction: i8) -> PhysicalInput {
    if axis == 0 && direction == -1 {
        PhysicalInput::DPadLeft
    } else if axis == 0 && direction == 1 {
        PhysicalInput::DPadRight
    } else if axis == 1 && direction == -1 {
        PhysicalInput::DPadUp
    } else if axis == 1 && direction == 1 {
        PhysicalInput::DPadDown
    } else if direction == -1 {
        PhysicalInput::AxisNegative(axis)
    } else {
        PhysicalInput::AxisPositive(axis)
    }
}

/// The input that an axis pushed in `direction` (-1 or 1) stands for.
pub fn axis_input(axis: u8, direction: i8) -> (r: PhysicalInput)
    ensures
        r == axis_input_spec(axis, direction),
{
    if axis == 0 && direction == -1 {
        PhysicalInput::DPadLeft
    } else if axis == 0 && direction == 1 {
        PhysicalInput::DPadRight
    } else if axis == 1 && direction == -1 {
        PhysicalInput::DPadUp
    } else if axis == 1 && direction == 1 {
        PhysicalInput::DPadDown
    } else if direction == -1 {
        PhysicalInput::AxisNegative(axis)
    } else {
        PhysicalInput::AxisPositive(axis)
    }
}

/// The index of the inputs that hat `hat` uses for up and down:
/// 32 + 2 * hat, saturating at 255.
pub open spec fn hat_base(hat: u8) -> u8 {
    if 2 * hat + 32 > 255 {
        255
    } else {
        (2 * hat + 32) as u8
    }
}

/// The index of the inputs that hat `hat` uses for left and right:
/// 33 + 2 * hat, saturating at 255.
pub open spec fn hat_side(hat: u8) -> u8 {
    if 2 * hat + 33 > 255 {
        255
    } else {
        (2 * hat + 33) as u8
    }
}

/// Hat 0 is the directional pad; every other hat has axis inputs of its own.
pub open spec fn hat_up(hat: u8) -> PhysicalInput {
    if hat == 0 {
        PhysicalInput::DPadUp
    } else {
        PhysicalInput::AxisNegative(hat_base(hat))
    }
}

pub open spec fn hat_down(hat: u8) -> PhysicalInput {
    if hat == 0 {
        PhysicalInput::DPadDown
    } else {
        PhysicalInput::AxisPositive(hat_base(hat))
    }
}

pub open spec fn hat_left(hat: u8) -> PhysicalInput {
    if hat == 0 {
        PhysicalInput::DPadLeft
    } else {
        PhysicalInput::AxisNegative(hat_side(hat))
    }
}

pub open spec fn hat_right(hat: u8) -> PhysicalInput {
    if hat == 0 {
        PhysicalInput::DPadRight
    } else {
        PhysicalInput::AxisPositive(hat_side(hat))
    }
}

pub open spec fn state_has_up(s: HatState) -> bool {
    s == HatState::Up || s == HatState::RightUp || s == HatState::LeftUp
}

pub open spec fn state_has_down(s: HatState) -> bool {
    s == HatState::Down || s == HatState::RightDown || s == HatState::LeftDown
}

pub open spec fn state_has_left(s: HatState) -> bool {
    s == HatState::Left || s == HatState::LeftUp || s == HatState::LeftDown
}

pub open spec fn state_has_right(s: HatState) -> bool {
    s == HatState::Right || s == HatState::RightUp || s == HatState::RightDown
}

/// The inputs that hat `hat` in position `state` holds.
pub open spec fn hat_holds(hat: u8, state: HatState, x: PhysicalInput) -> bool {
    ||| state_has_up(state) && x == hat_up(hat)
    ||| state_has_down(state) && x == hat_down(hat)
    ||| state_has_left(state) && x == hat_left(hat)
    ||| state_has_right(state) && x == hat_right(hat)
}

/// The inputs are listed once each, in their order.
pub open spec fn inputs_increasing(s: Seq<PhysicalInput>) -> bool {
    forall|i: int, j: int|
        0 <= i < j < s.len() ==> (#[trigger] s[i]).order_key() < (#[trigger] s[j]).order_key()
}

fn push_in_order(v: &mut Vec<PhysicalInput>, x: PhysicalInput)
    requires
        inputs_increasing(old(v)@),
        old(v)@.len() > 0 ==> old(v)@.last().order_key() <= x.order_key(),
    ensures
        inputs_increasing(final(v)@),
        forall|y: PhysicalInput| final(v)@.contains(y) <==> (old(v)@.contains(y) || y == x),
        final(v)@.len() > 0,
        final(v)@.last() == x,
{
    let n = v.len();
    if n > 0 && v[n - 1] == x {
        return;
    }
    proof {
        if n > 0 {
            if v@.last().order_key() == x.order_key() {
                PhysicalInput::lemma_key_injective(v@.last(), x);
            }
        }
    }
    v.push(x);
    proof {
        assert forall|y: PhysicalInput| v@.contains(y) <==> (old(v)@.contains(y) || y == x) by {
            if old(v)@.contains(y) {
                let k = choose|k: int| 0 <= k < old(v)@.len() && old(v)@[k] == y;
                assert(v@[k] == y);
            }
            if v@.contains(y) && y != x {
                let k = choose|k: int| 0 <= k < v@.len() && v@[k] == y;
                assert(old(v)@[k] == y);
            }
            if y == x {
                assert(v@[n as int] == x);
            }
        }
    }
}

/// The inputs that hat `hat` in position `state` holds, in their order.
pub fn hat_directions(hat: u8, state: HatState) -> (r: Vec<PhysicalInput>)
    ensures
        inputs_increasing(r@),
        forall|x: PhysicalInput| r@.contains(x) <==> hat_holds(hat, state, x),
{
    let has_up = state == HatState::Up || state == HatState::RightUp || state == HatState::LeftUp;
    let has_down = state == HatState::Down || state == HatState::RightDown || state
        == HatState::LeftDown;
    let has_left = state == HatState::Left || state == HatState::LeftUp || state
        == HatState::LeftDown;
    let has_right = state == HatState::Right || state == HatState::RightUp || state
        == HatState::RightDown;
    let mut r: Vec<PhysicalInput> = Vec::new();
    if hat == 0 {
        if has_up {
            push_in_order(&mut r, PhysicalInput::DPadUp);
        }
        if has_down {
            push_in_order(&mut r, PhysicalInput::DPadDown);
        }
        if has_left {
            push_in_order(&mut r, PhysicalInput::DPadLeft);
        }
        if has_right {
            push_in_order(&mut r, PhysicalInput::DPadRight);
        }
    } else {
        let doubled: u8 = if hat > 127 { 255 } else { hat * 2 };
        let base = doubled.saturating_add(32);
        let side = doubled.saturating_add(33);
        assert(base == hat_base(hat) && side == hat_side(hat));
        if has_up {
            push_in_order(&mut r, PhysicalInput::AxisNegative(base));
        }
        if has_left {
            push_in_order(&mut r, PhysicalInput::AxisNegative(side));
        }
        if has_down {
            push_in_order(&mut r, PhysicalInput::AxisPositive(base));
        }
        if has_right {
            push_in_order(&mut r, PhysicalInput::AxisPositive(side));
        }
    }
    r
}

/// The position of an axis: -1 pushed down, 1 pushed up, 0 at rest, judged
/// by how far `value` is from the resting value `baseline`.
pub open spec fn axis_level(baseline: i16, value: i16) -> i8 {
    if (value as int) - (baseline as int) < -AXIS_THRESHOLD {
        -1i8
    } else if (value as int) - (baseline as int) > AXIS_THRESHOLD {
        1i8
    } else {
        0i8
    }
}

/// The events of an axis moving from position `old` to `new`: the release of
/// the old direction, then the press of the new one.
pub open spec fn axis_changes(axis: u8, old: i8, new: i8) -> Seq<InputEvent> {
    if old == new {
        seq![]
    } else {
        (if old != 0 {
            seq![InputEvent::Changed { input: axis_input_spec(axis, old), pressed: false }]
        } else {
            seq![]
        }) + (if new != 0 {
            seq![InputEvent::Changed { input: axis_input_spec(axis, new), pressed: true }]
        } else {
            seq![]
        })
    }
}

/// For each input of `from`, in order, that `other` does not hold: the event
/// that it was pressed (`pressed`) or released.
pub open spec fn changes(from: Seq<PhysicalInput>, other: Seq<PhysicalInput>, pressed: bool) -> Seq<
    InputEvent,
>
    decreases from.len(),
{
    if from.len() == 0 {
        seq![]
    } else {
        changes(from.drop_last(), other, pressed) + (if other.contains(from.last()) {
            seq![]
        } else {
            seq![InputEvent::Changed { input: from.last(), pressed }]
        })
    }
}

/// `s` lists, in order, the inputs that hat `hat` in position `state` holds.
pub open spec fn is_hat_seq(s: Seq<PhysicalInput>, hat: u8, state: HatState) -> bool {
    &&& inputs_increasing(s)
    &&& forall|x: PhysicalInput| s.contains(x) <==> hat_holds(hat, state, x)
}

/// What the tracker knows: the instance id of the open joystick, the resting
/// value and the position of each of its axes, and for each hat, by its
/// index, the inputs that it holds.
pub struct TrackerView {
    pub instance: Option<u32>,
    pub baselines: Seq<i16>,
    pub levels: Seq<i8>,
    pub hats: Seq<Seq<PhysicalInput>>,
}

/// The inputs that hat `hat` holds: none for a hat that has not moved yet.
pub open spec fn hat_held(v: TrackerView, hat: u8) -> Seq<PhysicalInput> {
    if (hat as int) < v.hats.len() {
        v.hats[hat as int]
    } else {
        Seq::empty()
    }
}

/// The tracker with no joystick open.
pub open spec fn disconnected_view() -> TrackerView {
    TrackerView {
        instance: None,
        baselines: Seq::empty(),
        levels: Seq::empty(),
        hats: Seq::empty(),
    }
}

/// An event from device `which` concerns the open joystick.
pub open spec fn is_current(v: TrackerView, which: u32) -> bool {
    v.instance == Some(which)
}

/// Nothing changes, nothing is reported, nothing is to be opened.
pub open spec fn ignored(
    pre: TrackerView,
    post: TrackerView,
    emitted: Seq<InputEvent>,
    open: Option<u32>,
) -> bool {
    post == pre && emitted == Seq::<InputEvent>::empty() && open is None
}

/// How the tracker answers a raw event `e`: from `pre` it moves to `post`,
/// reports `emitted` and asks for the device `open` to be opened.
///
/// A device that appears while none is open is to be opened. The removal of
/// the open device forgets it and reports the disconnection. Buttons, axes
/// and hats of the open device report the inputs that they press and
/// release. Anything else is ignored.
pub open spec fn tracker_step(
    pre: TrackerView,
    e: JoystickEvent,
    post: TrackerView,
    emitted: Seq<InputEvent>,
    open: Option<u32>,
) -> bool {
    match e {
        JoystickEvent::DeviceAdded { which } => if pre.instance is None {
            post == pre && emitted == Seq::<InputEvent>::empty() && open == Some(which)
        } else {
            ignored(pre, post, emitted, open)
        },
        JoystickEvent::DeviceRemoved { which } => if is_current(pre, which) {
            post == disconnected_view() && emitted == seq![InputEvent::Disconnected] && open is None
        } else {
            ignored(pre, post, emitted, open)
        },
        JoystickEvent::ButtonDown { which, button } => if is_current(pre, which) {
            &&& post == pre
            &&& emitted == seq![InputEvent::Changed { input: PhysicalInput::Button(button), pressed: true }]
            &&& open is None
        } else {
            ignored(pre, post, emitted, open)
        },
        JoystickEvent::ButtonUp { which, button } => if is_current(pre, which) {
            &&& post == pre
            &&& emitted == seq![InputEvent::Changed { input: PhysicalInput::Button(button), pressed: false }]
            &&& open is None
        } else {
            ignored(pre, post, emitted, open)
        },
        JoystickEvent::AxisMotion { which, axis, value } => if is_current(pre, which) && axis
            < pre.baselines.len() && axis < pre.levels.len() {
            let new = axis_level(pre.baselines[axis as int], value);
            &&& post == TrackerView { levels: pre.levels.update(axis as int, new), ..pre }
            &&& emitted == axis_changes(axis, pre.levels[axis as int], new)
            &&& open is None
        } else {
            ignored(pre, post, emitted, open)
        },
        JoystickEvent::HatMotion { which, hat, state } => if is_current(pre, which) {
            &&& post.instance == pre.instance
            &&& post.baselines == pre.baselines
            &&& post.levels == pre.levels
            &&& is_hat_seq(hat_held(post, hat), hat, state)
            &&& forall|h: u8| h != hat ==> hat_held(post, h) == hat_held(pre, h)
            &&& forall|h: int| 0 <= h < post.hats.len() ==> inputs_increasing(#[trigger] post.hats[h])
            &&& emitted == changes(hat_held(pre, hat), hat_held(post, hat), false) + changes(
                hat_held(post, hat),
                hat_held(pre, hat),
                true,
            )
            &&& open is None
        } else {
            ignored(pre, post, emitted, open)
        },
        JoystickEvent::Other => ignored(pre, post, emitted, open),
    }
}

/// Turns the raw events of the open joystick into presses and releases of
/// physical inputs. Buttons map to buttons; an axis pushed past the threshold
/// from its resting value presses the input of that direction; a hat presses
/// the inputs of its position.
pub struct InputTracker {
    instance: Option<u32>,
    baselines: Vec<i16>,
    levels: Vec<i8>,
    hats: Vec<Vec<PhysicalInput>>,
}

impl View for InputTracker {
    type V = TrackerView;

    closed spec fn view(&self) -> TrackerView {
        TrackerView {
            instance: self.instance,
            baselines: self.baselines@,
            levels: self.levels@,
            hats: self.hats@.map_values(|v: Vec<PhysicalInput>| v@),
        }
    }
}

/// Appends to `out` the event, for each input of `from` that `other` lacks,
/// that it was pressed (`pressed`) or released.
fn push_changes(
    out: &mut Vec<InputEvent>,
    from: &Vec<PhysicalInput>,
    other: &Vec<PhysicalInput>,
    pressed: bool,
)
    ensures
        final(out)@ == old(out)@ + changes(from@, other@, pressed),
{
    let n = from.len();
    for i in 0..n
        invariant
            n == from@.len(),
            out@ == old(out)@ + changes(from@.take(i as int), other@, pressed),
    {
        let x = from[i];
        let mut found = false;
        let m = other.len();
        for j in 0..m
            invariant
                m == other@.len(),
                found <==> exists|k: int| 0 <= k < j && other@[k] == x,
        {
            if other[j] == x {
                found = true;
            }
        }
        proof {
            let t = from@.take(i + 1);
            assert(t.drop_last() == from@.take(i as int));
            assert(t.last() == x);
            if other@.contains(x) {
                let k = choose|k: int| 0 <= k < other@.len() && other@[k] == x;
                assert(found);
            }
        }
        if !found {
            out.push(InputEvent::Changed { input: x, pressed });
        }
        assert(out@ == old(out)@ + changes(from@.take(i + 1), other@, pressed));
    }
    assert(from@.take(n as int) == from@);
}

impl InputTracker {
    /// The tracker is consistent: each hat's inputs are listed once each, in order.
    pub open spec fn wf(&self) -> bool {
        forall|h: int| 0 <= h < self@.hats.len() ==> inputs_increasing(#[trigger] self@.hats[h])
    }

    /// A tracker with no joystick open.
    pub fn new() -> (t: InputTracker)
        ensures
            t.wf(),
            t@ == disconnected_view(),
    {
        let t = InputTracker {
            instance: None,
            baselines: Vec::new(),
            levels: Vec::new(),
            hats: Vec::new(),
        };
        assert(t@.hats =~= Seq::<Seq<PhysicalInput>>::empty());
        t
    }

    /// A joystick is open.
    pub fn is_connected(&self) -> (r: bool)
        ensures
            r == (self@.instance is Some),
    {
        self.instance.is_some()
    }

    /// Records that device `index` was opened as instance `instance`, with
    /// the axes resting at `baselines`, and reports it: the connection, then
    /// the number of axes found.
    pub fn opened(
        &mut self,
        index: u32,
        guid: String,
        name: String,
        instance: u32,
        baselines: Vec<i16>,
    ) -> (out: Vec<InputEvent>)
        requires
            old(self).wf(),
        ensures
            final(self).wf(),
            final(self)@ == (TrackerView {
                instance: Some(instance),
                baselines: baselines@,
                levels: Seq::new(baselines@.len(), |i: int| 0i8),
                hats: old(self)@.hats,
            }),
            out@.len() == 2,
            out@[0] == (InputEvent::Connected { index, guid, name }),
            out@[1] matches InputEvent::Diagnostic(t) && t@ == axes_found_text(baselines@.len()),
    {
        let n = baselines.len();
        let mut levels: Vec<i8> = Vec::new();
        for i in 0..n
            invariant
                levels@ == Seq::new(i as nat, |k: int| 0i8),
        {
            levels.push(0);
            assert(levels@ == Seq::new((i + 1) as nat, |k: int| 0i8));
        }
        let mut text = String::from_str("Joystick bruto: ");
        push_decimal(&mut text, n as u64);
        text.append(" eixos detectados");
        self.instance = Some(instance);
        self.baselines = baselines;
        self.levels = levels;
        vec![InputEvent::Connected { index, guid, name }, InputEvent::Diagnostic(text)]
    }

    fn axis_event(&mut self, axis: u8, value: i16, out: &mut Vec<InputEvent>)
        requires
            old(self).wf(),
        ensures
            final(self).wf(),
            final(self)@.instance == old(self)@.instance,
            final(self)@.baselines == old(self)@.baselines,
            final(self)@.hats == old(self)@.hats,
            if axis < old(self)@.baselines.len() && axis < old(self)@.levels.len() {
                let new = axis_level(old(self)@.baselines[axis as int], value);
                &&& final(self)@.levels == old(self)@.levels.update(axis as int, new)
                &&& final(out)@ == old(out)@ + axis_changes(axis, old(self)@.levels[axis as int], new)
            } else {
                &&& final(self)@.levels == old(self)@.levels
                &&& final(out)@ == old(out)@
            },
    {
        let a = axis as usize;
        if a >= self.baselines.len() {
            return;
        }
        let baseline = self.baselines[a];
        let delta: i32 = value as i32 - baseline as i32;
        let new: i8 = if delta < -AXIS_THRESHOLD {
            -1
        } else if delta > AXIS_THRESHOLD {
            1
        } else {
            0
        };
        if a >= self.levels.len() {
            return;
        }
        let old_level = self.levels[a];
        if old_level == new {
            assert(self.levels@.update(a as int, new) == self.levels@);
            return;
        }
        if old_level != 0 {
            out.push(InputEvent::Changed { input: axis_input(axis, old_level), pressed: false });
        }
        if new != 0 {
            out.push(InputEvent::Changed { input: axis_input(axis, new), pressed: true });
        }
        self.levels.set(a, new);
        assert(self@.hats == old(self)@.hats);
    }

    fn hat_event(&mut self, hat: u8, state: HatState, out: &mut Vec<InputEvent>)
        requires
            old(self).wf(),
        ensures
            final(self).wf(),
            final(self)@.instance == old(self)@.instance,
            final(self)@.baselines == old(self)@.baselines,
            final(self)@.levels == old(self)@.levels,
            is_hat_seq(hat_held(final(self)@, hat), hat, state),
            forall|h: u8| h != hat ==> hat_held(final(self)@, h) == hat_held(old(self)@, h),
            final(out)@ == old(out)@ + changes(
                hat_held(old(self)@, hat),
                hat_held(final(self)@, hat),
                false,
            ) + changes(hat_held(final(self)@, hat), hat_held(old(self)@, hat), true),
    {
        let h = hat as usize;
        while self.hats.len() <= h
            invariant
                self.wf(),
                self@.instance == old(self)@.instance,
                self@.baselines == old(self)@.baselines,
                self@.levels == old(self)@.levels,
                forall|g: u8| hat_held(self@, g) == hat_held(old(self)@, g),
            decreases h + 1 - self.hats.len(),
        {
            let ghost before = self@;
            self.hats.push(Vec::new());
            proof {
                assert forall|g: u8| hat_held(self@, g) == hat_held(before, g) by {
                    if (g as int) < before.hats.len() {
                        assert(self@.hats[g as int] == before.hats[g as int]);
                    } else if (g as int) == before.hats.len() {
                        assert(self@.hats[g as int] == Seq::<PhysicalInput>::empty());
                    }
                }
                assert forall|k: int| 0 <= k < self@.hats.len() implies inputs_increasing(
                    #[trigger] self@.hats[k],
                ) by {
                    if k < before.hats.len() {
                        assert(self@.hats[k] == before.hats[k]);
                    }
                }
            }
        }
        let ghost mid = self@;
        assert(hat_held(mid, hat) == self.hats@[h as int]@);
        let next = hat_directions(hat, state);
        push_changes(out, &self.hats[h], &next, false);
        push_changes(out, &next, &self.hats[h], true);
        self.hats.set(h, next);
        proof {
            assert(self@.hats == mid.hats.update(h as int, next@));
            assert forall|g: u8| g != hat implies hat_held(self@, g) == hat_held(mid, g) by {}
            assert forall|k: int| 0 <= k < self@.hats.len() implies inputs_increasing(
                #[trigger] self@.hats[k],
            ) by {
                if k != h {
                    assert(self@.hats[k] == mid.hats[k]);
                }
            }
        }
    }

    /// Handles one raw event: see `tracker_step`. The events to report are
    /// appended to `out`; the result names a device to open, if any.
    pub fn handle(&mut self, event: JoystickEvent, out: &mut Vec<InputEvent>) -> (open: Option<
        u32,
    >)
        requires
            old(self).wf(),
        ensures
            final(self).wf(),
            exists|emitted: Seq<InputEvent>|
                final(out)@ == old(out)@ + emitted && tracker_step(
                    old(self)@,
                    event,
                    final(self)@,
                    emitted,
                    open,
                ),
    {
        let ghost out0 = out@;
        match event {
            JoystickEvent::DeviceAdded { which } => {
                if self.instance.is_none() {
                    assert(out@ == out0 + Seq::<InputEvent>::empty());
                    return Some(which);
                }
            },
            JoystickEvent::DeviceRemoved { which } => {
                if self.instance == Some(which) {
                    self.instance = None;
                    self.baselines.clear();
                    self.levels.clear();
                    self.hats.clear();
                    assert(self@.hats =~= Seq::<Seq<PhysicalInput>>::empty());
                    out.push(InputEvent::Disconnected);
                    assert(out@ == out0 + seq![InputEvent::Disconnected]);
                    return None;
                }
            },
            JoystickEvent::ButtonDown { which, button } => {
                if self.instance == Some(which) {
                    let e = InputEvent::Changed { input: PhysicalInput::Button(button), pressed: true };
                    out.push(e);
                    assert(out@ == out0 + seq![e]);
                    return None;
                }
            },
            JoystickEvent::ButtonUp { which, button } => {
                if self.instance == Some(which) {
                    let e = InputEvent::Changed { input: PhysicalInput::Button(button), pressed: false };
                    out.push(e);
                    assert(out@ == out0 + seq![e]);
                    return None;
                }
            },
            JoystickEvent::AxisMotion { which, axis, value } => {
                if self.instance == Some(which) {
                    let ghost pre = self@;
                    self.axis_event(axis, value, out);
                    proof {
                        if axis < pre.baselines.len() && axis < pre.levels.len() {
                            let new = axis_level(pre.baselines[axis as int], value);
                            assert(self@ == TrackerView { levels: pre.levels.update(axis as int, new), ..pre });
                            assert(out@ == out0 + axis_changes(axis, pre.levels[axis as int], new));
                        } else {
                            assert(self@ == pre);
                            assert(out@ == out0 + Seq::<InputEvent>::empty());
                        }
                    }
                    return None;
                }
            },
            JoystickEvent::HatMotion { which, hat, state } => {
                if self.instance == Some(which) {
                    let ghost pre = self@;
                    self.hat_event(hat, state, out);
                    proof {
                        let emitted = changes(hat_held(pre, hat), hat_held(self@, hat), false)
                            + changes(hat_held(self@, hat), hat_held(pre, hat), true);
                        assert(out@ == out0 + emitted);
                    }
                    return None;
                }
            },
            JoystickEvent::Other => {},
        }
        assert(out@ == out0 + Seq::<InputEvent>::empty());
        None
    }
}

/// The report of how many axes an opened joystick has.
pub open spec fn axes_found_text(n: nat) -> Seq<char> {
    "Joystick bruto: "@ + decimal(n) + " eixos detectados"@
}

/// The report that a joystick could not be opened, with the reason.
pub fn open_failure(error: &str) -> (e: InputEvent)
    ensures
        e matches InputEvent::Diagnostic(t) && t@ == open_failure_text(error@),
{
    let mut t = String::from_str("Falha ao abrir joystick: ");
    t.append(error);
    InputEvent::Diagnostic(t)
}

/// The report that a joystick could not be opened, with the reason.
pub open spec fn open_failure_text(error: Seq<char>) -> Seq<char> {
    "Falha ao abrir joystick: "@ + error
}

/// Two ordered lists of the same inputs are the same list: what a hat holds
/// fixes the list that the tracker keeps for it.
pub proof fn lemma_increasing_determined(s1: Seq<PhysicalInput>, s2: Seq<PhysicalInput>)
    requires
        inputs_increasing(s1),
        inputs_increasing(s2),
        forall|x: PhysicalInput| s1.contains(x) <==> s2.contains(x),
    ensures
        s1 == s2,
    decreases s1.len(),
{
    if s1.len() == 0 {
        if s2.len() > 0 {
            assert(s2.contains(s2[0]));
        }
        assert(s1 =~= s2);
    } else {
        assert(s1.contains(s1[0]));
        let j = choose|j: int| 0 <= j < s2.len() && s2[j] == s1[0];
        assert(s2.contains(s2[0]));
        let i = choose|i: int| 0 <= i < s1.len() && s1[i] == s2[0];
        if i > 0 {
            assert(s1[0].order_key() < s1[i].order_key());
        }
        if j > 0 {
            assert(s2[0].order_key() < s2[j].order_key());
        }
        assert(s1[0] == s2[0]);
        let t1 = s1.drop_first();
        let t2 = s2.drop_first();
        assert forall|x: PhysicalInput| t1.contains(x) <==> t2.contains(x) by {
            if t1.contains(x) {
                let k = choose|k: int| 0 <= k < t1.len() && t1[k] == x;
                assert(s1[k + 1] == x);
                assert(s1[0].order_key() < s1[k + 1].order_key());
                assert(s2.contains(x));
                let m = choose|m: int| 0 <= m < s2.len() && s2[m] == x;
                assert(m != 0);
                assert(t2[m - 1] == x);
            }
            if t2.contains(x) {
                let k = choose|k: int| 0 <= k < t2.len() && t2[k] == x;
                assert(s2[k + 1] == x);
                assert(s2[0].order_key() < s2[k + 1].order_key());
                assert(s1.contains(x));
                let m = choose|m: int| 0 <= m < s1.len() && s1[m] == x;
                assert(m != 0);
                assert(t1[m - 1] == x);
            }
        }
        assert forall|a: int, b: int| 0 <= a < b < t1.len() implies (#[trigger] t1[a]).order_key()
            < (#[trigger] t1[b]).order_key() by {
            assert(s1[a + 1].order_key() < s1[b + 1].order_key());
        }
        assert forall|a: int, b: int| 0 <= a < b < t2.len() implies (#[trigger] t2[a]).order_key()
            < (#[trigger] t2[b]).order_key() by {
            assert(s2[a + 1].order_key() < s2[b + 1].order_key());
        }
        lemma_increasing_determined(t1, t2);
        assert(s1.len() == s2.len());
        assert forall|k: int| 0 <= k < s1.len() implies s1[k] == s2[k] by {
            if k > 0 {
                assert(s1[k] == t1[k - 1]);
                assert(s2[k] == t2[k - 1]);
            }
        }
        assert(s1 =~= s2);
    }
}


/// The events of `changes` are exactly one event for each input of `from`
/// that `other` lacks, with the given direction: none is lost, none is
/// reported twice, and no other event appears.
pub proof fn lemma_changes_exact(from: Seq<PhysicalInput>, other: Seq<PhysicalInput>, pressed: bool)
    requires
        forall|i: int, j: int| 0 <= i < j < from.len() ==> from[i] != from[j],
    ensures
        forall|e: InputEvent|
            changes(from, other, pressed).contains(e) <==> exists|x: PhysicalInput|
                e == (InputEvent::Changed { input: x, pressed }) && from.contains(x)
                    && !other.contains(x),
        forall|i: int, j: int|
            0 <= i < j < changes(from, other, pressed).len() ==> changes(from, other, pressed)[i]
                != changes(from, other, pressed)[j],
    decreases from.len(),
{
    let c = changes(from, other, pressed);
    if from.len() > 0 {
        let init = from.drop_last();
        let x = from.last();
        lemma_changes_exact(init, other, pressed);
        let ci = changes(init, other, pressed);
        let tail = if other.contains(x) {
            Seq::<InputEvent>::empty()
        } else {
            seq![InputEvent::Changed { input: x, pressed }]
        };
        assert(c == ci + tail);
        assert(!init.contains(x)) by {
            if init.contains(x) {
                let k = choose|k: int| 0 <= k < init.len() && init[k] == x;
                assert(from[k] == from[from.len() - 1]);
            }
        }
        assert forall|e: InputEvent| c.contains(e) <==> exists|y: PhysicalInput|
            e == (InputEvent::Changed { input: y, pressed }) && from.contains(y) && !other.contains(
                y,
            ) by {
            if c.contains(e) {
                let k = choose|k: int| 0 <= k < c.len() && c[k] == e;
                if k < ci.len() {
                    assert(ci.contains(e));
                    let y = choose|y: PhysicalInput|
                        e == (InputEvent::Changed { input: y, pressed }) && init.contains(y)
                            && !other.contains(y);
                    let m = choose|m: int| 0 <= m < init.len() && init[m] == y;
                    assert(from[m] == y);
                } else {
                    assert(from[from.len() - 1] == x);
                }
            }
            if exists|y: PhysicalInput|
                e == (InputEvent::Changed { input: y, pressed }) && from.contains(y)
                    && !other.contains(y) {
                let y = choose|y: PhysicalInput|
                    e == (InputEvent::Changed { input: y, pressed }) && from.contains(y)
                        && !other.contains(y);
                let m = choose|m: int| 0 <= m < from.len() && from[m] == y;
                if m < from.len() - 1 {
                    assert(init[m] == y);
                    assert(ci.contains(e));
                    let q = choose|q: int| 0 <= q < ci.len() && ci[q] == e;
                    assert(c[q] == e);
                } else {
                    assert(c[ci.len() as int] == e);
                }
            }
        }
        assert forall|i: int, j: int| 0 <= i < j < c.len() implies c[i] != c[j] by {
            if j >= ci.len() {
                if i < ci.len() {
                    assert(ci.contains(ci[i]));
                    assert(c[j] == (InputEvent::Changed { input: x, pressed }));
                    if ci[i] == c[j] {
                        let y = choose|y: PhysicalInput|
                            ci[i] == (InputEvent::Changed { input: y, pressed }) && init.contains(y)
                                && !other.contains(y);
                    }
                }
            } else {
                assert(c[i] == ci[i] && c[j] == ci[j]);
            }
        }
    }
}

/// When a hat moves, the release events are exactly those of the inputs it
/// held before and no longer holds, each once; the press events are exactly
/// those of the inputs it holds now and did not hold, each once; and no
/// input of any other hat is pressed or released.
pub proof fn lemma_hat_motion_exact(
    pre: TrackerView,
    which: u32,
    hat: u8,
    state: HatState,
    post: TrackerView,
    emitted: Seq<InputEvent>,
    open: Option<u32>,
)
    requires
        forall|h: int| 0 <= h < pre.hats.len() ==> inputs_increasing(#[trigger] pre.hats[h]),
        is_current(pre, which),
        tracker_step(pre, JoystickEvent::HatMotion { which, hat, state }, post, emitted, open),
    ensures
        forall|x: PhysicalInput|
            emitted.contains(InputEvent::Changed { input: x, pressed: false }) <==> (hat_held(
                pre,
                hat,
            ).contains(x) && !hat_held(post, hat).contains(x)),
        forall|x: PhysicalInput|
            emitted.contains(InputEvent::Changed { input: x, pressed: true }) <==> (hat_held(
                post,
                hat,
            ).contains(x) && !hat_held(pre, hat).contains(x)),
        forall|i: int, j: int| 0 <= i < j < emitted.len() ==> emitted[i] != emitted[j],
        forall|h: u8| h != hat ==> hat_held(post, h) == hat_held(pre, h),
{
    let old_held = hat_held(pre, hat);
    let new_held = hat_held(post, hat);
    assert forall|i: int, j: int| 0 <= i < j < old_held.len() implies old_held[i] != old_held[j] by {
        assert(inputs_increasing(old_held));
        assert(old_held[i].order_key() < old_held[j].order_key());
    }
    assert forall|i: int, j: int| 0 <= i < j < new_held.len() implies new_held[i] != new_held[j] by {
        assert(new_held[i].order_key() < new_held[j].order_key());
    }
    lemma_changes_exact(old_held, new_held, false);
    lemma_changes_exact(new_held, old_held, true);
    let r = changes(old_held, new_held, false);
    let p = changes(new_held, old_held, true);
    assert(emitted == r + p);
    assert forall|x: PhysicalInput|
        emitted.contains(InputEvent::Changed { input: x, pressed: false }) <==> (old_held.contains(x)
            && !new_held.contains(x)) by {
        let e = InputEvent::Changed { input: x, pressed: false };
        if emitted.contains(e) {
            let k = choose|k: int| 0 <= k < emitted.len() && emitted[k] == e;
            if k < r.len() {
                assert(r.contains(e));
            } else {
                assert(p.contains(p[k - r.len()]));
                assert(p[k - r.len()] == e);
            }
        }
        if old_held.contains(x) && !new_held.contains(x) {
            assert(r.contains(e));
            let k = choose|k: int| 0 <= k < r.len() && r[k] == e;
            assert(emitted[k] == e);
        }
    }
    assert forall|x: PhysicalInput|
        emitted.contains(InputEvent::Changed { input: x, pressed: true }) <==> (new_held.contains(x)
            && !old_held.contains(x)) by {
        let e = InputEvent::Changed { input: x, pressed: true };
        if emitted.contains(e) {
            let k = choose|k: int| 0 <= k < emitted.len() && emitted[k] == e;
            if k < r.len() {
                assert(r.contains(r[k]));
                assert(r[k] == e);
            } else {
                assert(p.contains(p[k - r.len()]));
                assert(p[k - r.len()] == e);
            }
        }
        if new_held.contains(x) && !old_held.contains(x) {
            assert(p.contains(e));
            let k = choose|k: int| 0 <= k < p.len() && p[k] == e;
            assert(emitted[r.len() + k] == e);
        }
    }
    assert forall|i: int, j: int| 0 <= i < j < emitted.len() implies emitted[i] != emitted[j] by {
        if j < r.len() {
            assert(emitted[i] == r[i] && emitted[j] == r[j]);
        } else if i >= r.len() {
            assert(emitted[i] == p[i - r.len()] && emitted[j] == p[j - r.len()]);
        } else {
            assert(r.contains(r[i]));
            assert(p.contains(p[j - r.len()]));
            assert(emitted[i] == r[i]);
            assert(emitted[j] == p[j - r.len()]);
        }
    }
}


/// How a hat's positions relate: centred it holds nothing; each of the four
/// straight positions holds exactly one input, and up, down, left and right
/// are four different inputs (for every hat up to 111, whose indices do not
/// saturate); each diagonal holds exactly the inputs of its two sides; and
/// hat 0 is the directional pad.
pub proof fn lemma_hat_positions(hat: u8, x: PhysicalInput)
    ensures
        !hat_holds(hat, HatState::Centered, x),
        hat_holds(hat, HatState::RightUp, x) == (hat_holds(hat, HatState::Right, x) || hat_holds(
            hat,
            HatState::Up,
            x,
        )),
        hat_holds(hat, HatState::RightDown, x) == (hat_holds(hat, HatState::Right, x)
            || hat_holds(hat, HatState::Down, x)),
        hat_holds(hat, HatState::LeftUp, x) == (hat_holds(hat, HatState::Left, x) || hat_holds(
            hat,
            HatState::Up,
            x,
        )),
        hat_holds(hat, HatState::LeftDown, x) == (hat_holds(hat, HatState::Left, x) || hat_holds(
            hat,
            HatState::Down,
            x,
        )),
        hat_holds(hat, HatState::Up, x) <==> x == hat_up(hat),
        hat_holds(hat, HatState::Down, x) <==> x == hat_down(hat),
        hat_holds(hat, HatState::Left, x) <==> x == hat_left(hat),
        hat_holds(hat, HatState::Right, x) <==> x == hat_right(hat),
        hat <= 111 ==> {
            &&& hat_up(hat) != hat_down(hat)
            &&& hat_up(hat) != hat_left(hat)
            &&& hat_up(hat) != hat_right(hat)
            &&& hat_down(hat) != hat_left(hat)
            &&& hat_down(hat) != hat_right(hat)
            &&& hat_left(hat) != hat_right(hat)
        },
        hat_up(0) == PhysicalInput::DPadUp,
        hat_down(0) == PhysicalInput::DPadDown,
        hat_left(0) == PhysicalInput::DPadLeft,
        hat_right(0) == PhysicalInput::DPadRight,
        1 <= hat <= 111 ==> {
            &&& hat_up(hat) == PhysicalInput::AxisNegative((2 * hat + 32) as u8)
            &&& hat_down(hat) == PhysicalInput::AxisPositive((2 * hat + 32) as u8)
            &&& hat_left(hat) == PhysicalInput::AxisNegative((2 * hat + 33) as u8)
            &&& hat_right(hat) == PhysicalInput::AxisPositive((2 * hat + 33) as u8)
        },
        hat >= 112 ==> {
            &&& hat_up(hat) == PhysicalInput::AxisNegative(255)
            &&& hat_left(hat) == PhysicalInput::AxisNegative(255)
            &&& hat_down(hat) == PhysicalInput::AxisPositive(255)
            &&& hat_right(hat) == PhysicalInput::AxisPositive(255)
        },
{
}

} // verus!
