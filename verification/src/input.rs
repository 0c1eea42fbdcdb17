//! The keys held down and the mouse button state, kept up to date from the
//! window's input events. Keys are named by their key codes.
use std::collections::HashSet;
use vstd::prelude::*;

verus! {

broadcast use vstd::std_specs::hash::group_hash_axioms;

/// The window events that the input state reacts to; every other event is
/// `Other`.
#[derive(Clone, Copy, Debug, PartialEq, Eq, Structural)]
pub enum WindowInput {
    /// A key with a known code went down (`pressed`) or up; `repeat` marks a
    /// press generated by holding the key.
    KeyboardInput { key: u32, pressed: bool, repeat: bool },
    MouseWheel,
    /// A mouse button went down (`pressed`) or up; `left` tells whether it is
    /// the left button.
    MouseInput { left: bool, pressed: bool },
    Other,
}

pub struct InputState {
    keys: HashSet<u32>,
    mouse_pressed: bool,
}

impl InputState {
    /// The keys held down.
    pub closed spec fn held(&self) -> Set<u32> {
        self.keys@
    }

    /// The left mouse button is down.
    pub closed spec fn mouse_down(&self) -> bool {
        self.mouse_pressed
    }

    /// No key held down and the mouse button up.
    pub fn new() -> (s: Self)
        ensures
            s.held() == Set::<u32>::empty(),
            !s.mouse_down(),
    {
        InputState { keys: HashSet::new(), mouse_pressed: false }
    }

    /// Whether the left mouse button is down.
    pub fn mouse_pressed(&self) -> (r: bool)
        ensures
            r == self.mouse_down(),
    {
        self.mouse_pressed
    }

    /// Whether `key` is held down.
    pub fn is_held(&self, key: u32) -> (r: bool)
        ensures
            r == self.held().contains(key),
    {
        self.keys.contains(&key)
    }

    /// Updates the state from `event` and tells whether the event was one the
    /// state reacts to. A key press or release changes the held keys unless it
    /// is a repeat; a left button press or release sets the mouse button state.
    pub fn input(&mut self, event: &WindowInput) -> (handled: bool)
        ensures
            handled == match *event {
                WindowInput::KeyboardInput { .. } => true,
                WindowInput::MouseWheel => true,
                WindowInput::MouseInput { left, .. } => left,
                WindowInput::Other => false,
            },
            final(self).held() == match *event {
                WindowInput::KeyboardInput { key, pressed, repeat } => if repeat {
                    old(self).held()
                } else if pressed {
                    old(self).held().insert(key)
                } else {
                    old(self).held().remove(key)
                },
                _ => old(self).held(),
            },
            final(self).mouse_down() == match *event {
                WindowInput::MouseInput { left: true, pressed } => pressed,
                _ => old(self).mouse_down(),
            },
    {
        match *event {
            WindowInput::KeyboardInput { key, pressed, repeat } => {
                if !repeat {
                    if pressed {
                        self.keys.insert(key);
                    } else {
                        self.keys.remove(&key);
                    }
                }
                true
            },
            WindowInput::MouseWheel => true,
            WindowInput::MouseInput { left, pressed } => {
                if left {
                    self.mouse_pressed = pressed;
                    true
                } else {
                    false
                }
            },
            WindowInput::Other => false,
        }
    }
}

} // verus!
