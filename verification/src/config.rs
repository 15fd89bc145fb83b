use vstd::prelude::*;
use crate::event::KeyModifier;

verus! {

/// The settings of the active configuration that the matcher reads.
#[derive(Debug, Clone, Copy)]
pub struct Configs {
    /// How many typed characters can be taken back with backspace.
    pub backspace_limit: i32,
    /// The modifier that, pressed twice in quick succession, toggles the matcher.
    pub toggle_key: KeyModifier,
    /// The longest gap, in milliseconds, between the two presses of the toggle key.
    pub toggle_interval: u32,
}

} // verus!
