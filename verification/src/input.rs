//! The key and button state behind the free-moving camera.
//!
//! Which keys move the camera, which way, and whether it moves fast or turns
//! is decided here; the camera's angles and speeds are the application's.

use vstd::prelude::*;

verus! {

/// The keys that the camera controller knows; every other key is `Other`.
#[derive(Debug, Clone, Copy, PartialEq, Eq, Structural)]
pub enum Key {
    KeyW,
    ArrowUp,
    KeyS,
    ArrowDown,
    KeyA,
    ArrowLeft,
    KeyD,
    ArrowRight,
    Space,
    KeyC,
    ControlLeft,
    ShiftLeft,
    ShiftRight,
    Escape,
    Other,
}

/// Which movement keys are held.
#[derive(Debug, Clone, Copy, PartialEq, Eq, Structural)]
pub struct MovementState {
    pub forward: bool,
    pub backward: bool,
    pub left: bool,
    pub right: bool,
    pub up: bool,
    pub down: bool,
}

impl Default for MovementState {
    /// No key held.
    fn default() -> (m: Self)
        ensures
            m == (MovementState { forward: false, backward: false, left: false, right: false, up: false, down: false }),
    {
        MovementState { forward: false, backward: false, left: false, right: false, up: false, down: false }
    }
}

/// The held keys and buttons of the camera controller.
#[derive(Debug, Clone, Copy, PartialEq, Eq, Structural)]
pub struct CameraInput {
    pub movement: MovementState,
    /// Whether the left mouse button is held, which turns the camera.
    pub mouse_pressed: bool,
    /// Whether a Shift key is held, which moves the camera fast.
    pub shift_pressed: bool,
}

/// `a` minus `b`, each counted as one when held.
pub open spec fn axis(a: bool, b: bool) -> int {
    (if a { 1int } else { 0int }) - (if b { 1int } else { 0int })
}

impl CameraInput {
    /// Nothing held.
    pub fn new() -> (c: Self)
        ensures
            c.movement == MovementState::default_spec(),
            !c.mouse_pressed,
            !c.shift_pressed,
    {
        CameraInput { movement: MovementState::default(), mouse_pressed: false, shift_pressed: false }
    }

    /// Records a key going down (`pressed`) or up. W and Up move forward, S
    /// and Down backward, A and Left left, D and Right right, Space up, C and
    /// left Control down, and either Shift moves fast; true for these keys,
    /// false (and nothing recorded) for any other.
    pub fn handle_key(&mut self, key: Key, pressed: bool) -> (handled: bool)
        ensures
            handled == (key != Key::Escape && key != Key::Other),
            *final(self) == (match key {
                Key::KeyW | Key::ArrowUp => CameraInput { movement: MovementState { forward: pressed, ..old(self).movement }, ..*old(self) },
                Key::KeyS | Key::ArrowDown => CameraInput { movement: MovementState { backward: pressed, ..old(self).movement }, ..*old(self) },
                Key::KeyA | Key::ArrowLeft => CameraInput { movement: MovementState { left: pressed, ..old(self).movement }, ..*old(self) },
                Key::KeyD | Key::ArrowRight => CameraInput { movement: MovementState { right: pressed, ..old(self).movement }, ..*old(self) },
                Key::Space => CameraInput { movement: MovementState { up: pressed, ..old(self).movement }, ..*old(self) },
                Key::KeyC | Key::ControlLeft => CameraInput { movement: MovementState { down: pressed, ..old(self).movement }, ..*old(self) },
                Key::ShiftLeft | Key::ShiftRight => CameraInput { shift_pressed: pressed, ..*old(self) },
                Key::Escape | Key::Other => *old(self),
            }),
    {
        match key {
            Key::KeyW | Key::ArrowUp => {
                self.movement.forward = pressed;
                true
            },
            Key::KeyS | Key::ArrowDown => {
                self.movement.backward = pressed;
                true
            },
            Key::KeyA | Key::ArrowLeft => {
                self.movement.left = pressed;
                true
            },
            Key::KeyD | Key::ArrowRight => {
                self.movement.right = pressed;
                true
            },
            Key::Space => {
                self.movement.up = pressed;
                true
            },
            Key::KeyC | Key::ControlLeft => {
                self.movement.down = pressed;
                true
            },
            Key::ShiftLeft | Key::ShiftRight => {
                self.shift_pressed = pressed;
                true
            },
            Key::Escape | Key::Other => false,
        }
    }

    /// Records a mouse button going down or up: the left button (`left`)
    /// turns the camera while held; true for it, false for any other.
    pub fn handle_mouse_button(&mut self, left: bool, pressed: bool) -> (handled: bool)
        ensures
            handled == left,
            *final(self) == (if left { CameraInput { mouse_pressed: pressed, ..*old(self) } } else { *old(self) }),
    {
        if left {
            self.mouse_pressed = pressed;
            true
        } else {
            false
        }
    }

    /// The direction of travel in the camera's frame: (right minus left, up
    /// minus down, forward minus backward), each -1, 0 or 1.
    pub fn direction(&self) -> (d: (i8, i8, i8))
        ensures
            d.0 == axis(self.movement.right, self.movement.left),
            d.1 == axis(self.movement.up, self.movement.down),
            d.2 == axis(self.movement.forward, self.movement.backward),
    {
        let m = self.movement;
        let x: i8 = (if m.right { 1i8 } else { 0i8 }) - (if m.left { 1i8 } else { 0i8 });
        let y: i8 = (if m.up { 1i8 } else { 0i8 }) - (if m.down { 1i8 } else { 0i8 });
        let z: i8 = (if m.forward { 1i8 } else { 0i8 }) - (if m.backward { 1i8 } else { 0i8 });
        (x, y, z)
    }

    /// Whether the camera moves: some axis is non-zero.
    pub fn is_moving(&self) -> (b: bool)
        ensures
            b == (axis(self.movement.right, self.movement.left) != 0 || axis(self.movement.up, self.movement.down) != 0
                || axis(self.movement.forward, self.movement.backward) != 0),
    {
        let (x, y, z) = self.direction();
        x != 0 || y != 0 || z != 0
    }

    /// Releases every key and button.
    pub fn reset(&mut self)
        ensures
            *final(self) == CameraInput::new_spec(),
    {
        self.movement = MovementState::default();
        self.mouse_pressed = false;
        self.shift_pressed = false;
    }

    /// Nothing held.
    pub open spec fn new_spec() -> CameraInput {
        CameraInput { movement: MovementState::default_spec(), mouse_pressed: false, shift_pressed: false }
    }
}

impl MovementState {
    /// No key held.
    pub open spec fn default_spec() -> MovementState {
        MovementState { forward: false, backward: false, left: false, right: false, up: false, down: false }
    }
}

} // verus!
