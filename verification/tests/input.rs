use game::input::{InputState, WindowInput};

fn key(key: u32, pressed: bool, repeat: bool) -> WindowInput {
    WindowInput::KeyboardInput { key, pressed, repeat }
}

#[test]
fn new_state_holds_nothing() {
    let s = InputState::new();
    assert!(!s.is_held(17));
    assert!(!s.mouse_pressed());
}

#[test]
fn press_and_release_a_key() {
    let mut s = InputState::new();
    assert!(s.input(&key(17, true, false)));
    assert!(s.is_held(17));
    assert!(!s.is_held(18));
    assert!(s.input(&key(17, false, false)));
    assert!(!s.is_held(17));
}

#[test]
fn repeats_change_nothing() {
    let mut s = InputState::new();
    assert!(s.input(&key(5, true, true)));
    assert!(!s.is_held(5));
    s.input(&key(5, true, false));
    assert!(s.input(&key(5, false, true)));
    assert!(s.is_held(5));
}

#[test]
fn pressing_twice_then_releasing_once_lets_go() {
    let mut s = InputState::new();
    s.input(&key(9, true, false));
    s.input(&key(9, true, false));
    s.input(&key(3, true, false));
    s.input(&key(9, false, false));
    assert!(!s.is_held(9));
    assert!(s.is_held(3));
}

#[test]
fn left_button_sets_mouse_state() {
    let mut s = InputState::new();
    assert!(s.input(&WindowInput::MouseInput { left: true, pressed: true }));
    assert!(s.mouse_pressed());
    assert!(!s.input(&WindowInput::MouseInput { left: false, pressed: false }));
    assert!(s.mouse_pressed());
    assert!(s.input(&WindowInput::MouseInput { left: true, pressed: false }));
    assert!(!s.mouse_pressed());
}

#[test]
fn wheel_is_handled_and_others_are_not() {
    let mut s = InputState::new();
    assert!(s.input(&WindowInput::MouseWheel));
    assert!(!s.input(&WindowInput::Other));
    assert!(!s.is_held(0));
}
