use vstd::prelude::*;

verus! {

/// A modifier key reported by the keyboard context.
#[allow(non_camel_case_types, clippy::upper_case_acronyms)]
#[derive(Debug, Clone, Copy, PartialEq, Eq, Structural)]
pub enum KeyModifier {
    CTRL,
    SHIFT,
    ALT,
    META,
    BACKSPACE,
}

/// An action requested from outside the keyboard stream (tray icon, IPC command).
#[derive(Debug, Clone, Copy, PartialEq, Eq, Structural)]
pub enum ActionType {
    Noop,
    Toggle,
    Exit,
    IconClick,
    Enable,
    Disable,
}

} // verus!
