use fighting_stick::input::PhysicalInput;
use fighting_stick::joystick::{
    axis_input, hat_directions, open_failure, HatState, InputError, InputEvent, InputTracker,
    JoystickEvent,
};

#[test]
fn axes_have_independent_inputs() {
    assert_eq!(axis_input(0, -1), PhysicalInput::DPadLeft);
    assert_eq!(axis_input(3, 1), PhysicalInput::AxisPositive(3));
}

#[test]
fn diagonal_hat_contains_two_directions() {
    let i = hat_directions(0, HatState::RightUp);
    assert!(i.contains(&PhysicalInput::DPadUp));
    assert!(i.contains(&PhysicalInput::DPadRight));
}

#[test]
fn axis_inputs_cover_both_directions() {
    assert_eq!(axis_input(0, 1), PhysicalInput::DPadRight);
    assert_eq!(axis_input(1, -1), PhysicalInput::DPadUp);
    assert_eq!(axis_input(1, 1), PhysicalInput::DPadDown);
    assert_eq!(axis_input(2, -1), PhysicalInput::AxisNegative(2));
}

#[test]
fn hat_directions_are_ordered_sets() {
    assert_eq!(hat_directions(0, HatState::Centered), vec![]);
    assert_eq!(
        hat_directions(0, HatState::LeftDown),
        vec![PhysicalInput::DPadDown, PhysicalInput::DPadLeft]
    );
    assert_eq!(
        hat_directions(1, HatState::RightUp),
        vec![PhysicalInput::AxisNegative(34), PhysicalInput::AxisPositive(35)]
    );
    assert_eq!(
        hat_directions(2, HatState::LeftDown),
        vec![PhysicalInput::AxisNegative(37), PhysicalInput::AxisPositive(36)]
    );
    // From hat 112 on, both indices saturate at 255.
    assert_eq!(
        hat_directions(200, HatState::LeftUp),
        vec![PhysicalInput::AxisNegative(255)]
    );
}

fn connected() -> InputTracker {
    let mut t = InputTracker::new();
    let mut out = vec![];
    assert_eq!(t.handle(JoystickEvent::DeviceAdded { which: 4 }, &mut out), Some(4));
    assert!(out.is_empty());
    let events = t.opened(4, "guid".to_string(), "Stick".to_string(), 9, vec![0, -32768, 100]);
    assert_eq!(
        events,
        vec![
            InputEvent::Connected { index: 4, guid: "guid".to_string(), name: "Stick".to_string() },
            InputEvent::Diagnostic("Joystick bruto: 3 eixos detectados".to_string()),
        ]
    );
    assert!(t.is_connected());
    t
}

#[test]
fn buttons_of_the_open_device_are_reported() {
    let mut t = connected();
    let mut out = vec![];
    t.handle(JoystickEvent::ButtonDown { which: 9, button: 5 }, &mut out);
    t.handle(JoystickEvent::ButtonDown { which: 8, button: 6 }, &mut out);
    t.handle(JoystickEvent::ButtonUp { which: 9, button: 5 }, &mut out);
    t.handle(JoystickEvent::Other, &mut out);
    assert_eq!(
        out,
        vec![
            InputEvent::Changed { input: PhysicalInput::Button(5), pressed: true },
            InputEvent::Changed { input: PhysicalInput::Button(5), pressed: false },
        ]
    );
}

#[test]
fn axes_press_and_release_past_the_threshold() {
    let mut t = connected();
    let mut out = vec![];
    t.handle(JoystickEvent::AxisMotion { which: 9, axis: 0, value: 16000 }, &mut out);
    assert!(out.is_empty());
    t.handle(JoystickEvent::AxisMotion { which: 9, axis: 0, value: 16001 }, &mut out);
    t.handle(JoystickEvent::AxisMotion { which: 9, axis: 0, value: 20000 }, &mut out);
    t.handle(JoystickEvent::AxisMotion { which: 9, axis: 0, value: -20000 }, &mut out);
    t.handle(JoystickEvent::AxisMotion { which: 9, axis: 0, value: 0 }, &mut out);
    // Axis 1 rests at -32768: a trigger, pressed towards the top.
    t.handle(JoystickEvent::AxisMotion { which: 9, axis: 1, value: 0 }, &mut out);
    // Axis 7 does not exist.
    t.handle(JoystickEvent::AxisMotion { which: 9, axis: 7, value: 30000 }, &mut out);
    assert_eq!(
        out,
        vec![
            InputEvent::Changed { input: PhysicalInput::DPadRight, pressed: true },
            InputEvent::Changed { input: PhysicalInput::DPadRight, pressed: false },
            InputEvent::Changed { input: PhysicalInput::DPadLeft, pressed: true },
            InputEvent::Changed { input: PhysicalInput::DPadLeft, pressed: false },
            InputEvent::Changed { input: PhysicalInput::DPadDown, pressed: true },
        ]
    );
}

#[test]
fn hats_release_then_press_what_changed() {
    let mut t = connected();
    let mut out = vec![];
    t.handle(JoystickEvent::HatMotion { which: 9, hat: 0, state: HatState::Up }, &mut out);
    t.handle(JoystickEvent::HatMotion { which: 9, hat: 0, state: HatState::RightUp }, &mut out);
    t.handle(JoystickEvent::HatMotion { which: 9, hat: 0, state: HatState::Right }, &mut out);
    t.handle(JoystickEvent::HatMotion { which: 9, hat: 0, state: HatState::LeftDown }, &mut out);
    assert_eq!(
        out,
        vec![
            InputEvent::Changed { input: PhysicalInput::DPadUp, pressed: true },
            InputEvent::Changed { input: PhysicalInput::DPadRight, pressed: true },
            InputEvent::Changed { input: PhysicalInput::DPadUp, pressed: false },
            InputEvent::Changed { input: PhysicalInput::DPadRight, pressed: false },
            InputEvent::Changed { input: PhysicalInput::DPadDown, pressed: true },
            InputEvent::Changed { input: PhysicalInput::DPadLeft, pressed: true },
        ]
    );
}

#[test]
fn removal_of_the_open_device_disconnects() {
    let mut t = connected();
    let mut out = vec![];
    t.handle(JoystickEvent::DeviceAdded { which: 1 }, &mut out);
    t.handle(JoystickEvent::DeviceRemoved { which: 3 }, &mut out);
    assert!(out.is_empty());
    assert_eq!(t.handle(JoystickEvent::DeviceRemoved { which: 9 }, &mut out), None);
    assert_eq!(out, vec![InputEvent::Disconnected]);
    assert!(!t.is_connected());
    out.clear();
    t.handle(JoystickEvent::ButtonDown { which: 9, button: 1 }, &mut out);
    assert!(out.is_empty());
    assert_eq!(t.handle(JoystickEvent::DeviceAdded { which: 2 }, &mut out), Some(2));
}

#[test]
fn failures_and_errors_have_messages() {
    assert_eq!(
        open_failure("busy"),
        InputEvent::Diagnostic("Falha ao abrir joystick: busy".to_string())
    );
    assert_eq!(InputError::Sdl("no video".to_string()).to_string(), "SDL: no video");
}

#[test]
fn hats_are_independent_of_each_other() {
    let mut t = connected();
    let mut out = vec![];
    t.handle(JoystickEvent::HatMotion { which: 9, hat: 0, state: HatState::Up }, &mut out);
    out.clear();
    t.handle(JoystickEvent::HatMotion { which: 9, hat: 1, state: HatState::Up }, &mut out);
    assert_eq!(
        out,
        vec![InputEvent::Changed { input: PhysicalInput::AxisNegative(34), pressed: true }]
    );
    out.clear();
    t.handle(JoystickEvent::HatMotion { which: 9, hat: 0, state: HatState::Centered }, &mut out);
    assert_eq!(
        out,
        vec![InputEvent::Changed { input: PhysicalInput::DPadUp, pressed: false }]
    );
    out.clear();
    t.handle(JoystickEvent::HatMotion { which: 9, hat: 1, state: HatState::Centered }, &mut out);
    assert_eq!(
        out,
        vec![InputEvent::Changed { input: PhysicalInput::AxisNegative(34), pressed: false }]
    );
}
