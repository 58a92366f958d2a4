//! The abstract input event stream.
//!
//! An external producer (the windowing integration) translates native events
//! into this closed set of event kinds, each paired with a snapshot of the
//! input state at the time of the event.

use vstd::prelude::*;

verus! {

/// Identity of a pointer button.
#[derive(Copy, Clone, PartialEq, Eq, Structural, Debug)]
pub enum MouseButton {
    Left,
    Middle,
    Right,
}

/// Identity of a keyboard key.
#[derive(Copy, Clone, PartialEq, Eq, Structural, Debug)]
pub enum Key {
    Key0,
    Key1,
    Key2,
    Key3,
    Key4,
    Key5,
    Key6,
    Key7,
    Key8,
    Key9,
    A,
    B,
    C,
    D,
    E,
    F,
    G,
    H,
    I,
    J,
    K,
    L,
    M,
    N,
    O,
    P,
    Q,
    R,
    S,
    T,
    U,
    V,
    W,
    X,
    Y,
    Z,
    GraveAccent,
    Minus,
    Equals,
    LeftBracket,
    RightBracket,
    Backslash,
    Semicolon,
    Apostrophe,
    Comma,
    Period,
    Slash,
    Escape,
    F1,
    F2,
    F3,
    F4,
    F5,
    F6,
    F7,
    F8,
    F9,
    F10,
    F11,
    F12,
    F13,
    F14,
    F15,
    F16,
    F17,
    F18,
    F19,
    F20,
    F21,
    F22,
    F23,
    F24,
    F25,
    PrintScreen,
    ScrollLock,
    Pause,
    Backspace,
    Tab,
    CapsLock,
    Enter,
    Space,
    Insert,
    Delete,
    PageUp,
    PageDown,
    Home,
    End,
    Left,
    Right,
    Up,
    Down,
    NumLock,
    Numpad0,
    Numpad1,
    Numpad2,
    Numpad3,
    Numpad4,
    Numpad5,
    Numpad6,
    Numpad7,
    Numpad8,
    Numpad9,
    NumpadDecimal,
    NumpadDivide,
    NumpadMultiply,
    NumpadSubtract,
    NumpadAdd,
    NumpadEnter,
    NumpadEquals,
    LeftShift,
    LeftControl,
    LeftAlt,
    LeftMeta,
    RightShift,
    RightControl,
    RightAlt,
    RightMeta,
}

/// Modifier keys held at the time of an event.
#[derive(Copy, Clone, PartialEq, Eq, Structural, Debug)]
pub struct Modifiers {
    pub shift: bool,
    pub ctrl: bool,
    pub alt: bool,
    pub meta: bool,
}

impl Modifiers {
    /// All modifiers released.
    pub fn none() -> (r: Modifiers)
        ensures
            r == (Modifiers { shift: false, ctrl: false, alt: false, meta: false }),
    {
        Modifiers { shift: false, ctrl: false, alt: false, meta: false }
    }
}

impl Default for Modifiers {
    /// All modifiers released.
    fn default() -> (r: Modifiers)
        ensures
            r == (Modifiers { shift: false, ctrl: false, alt: false, meta: false }),
    {
        Modifiers::none()
    }
}

/// Snapshot of the input state paired with each event: current pointer
/// coordinates and modifier flags.
#[derive(Copy, Clone, PartialEq, Eq, Structural, Debug)]
pub struct InputState {
    pub mouse_x: i64,
    pub mouse_y: i64,
    pub modifiers: Modifiers,
}

impl Default for InputState {
    /// Pointer at the origin, no modifiers held.
    fn default() -> (r: InputState)
        ensures
            r == (InputState {
                mouse_x: 0,
                mouse_y: 0,
                modifiers: Modifiers { shift: false, ctrl: false, alt: false, meta: false },
            }),
    {
        InputState { mouse_x: 0, mouse_y: 0, modifiers: Modifiers::none() }
    }
}

/// One input event.
#[derive(Copy, Clone, PartialEq, Eq, Structural, Debug)]
pub enum Input {
    MouseMove,
    MouseDown(MouseButton),
    MouseUp(MouseButton),
    Scroll(i64, i64),
    KeyDown(Key),
    KeyUp(Key),
    Char(char),
}

/// An event as recorded on a retained node: the input together with the
/// input-state snapshot it arrived with.
#[derive(Copy, Clone, PartialEq, Eq, Structural, Debug)]
pub struct Event {
    pub input: Input,
    pub state: InputState,
}

} // verus!
