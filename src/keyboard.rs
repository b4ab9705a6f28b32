//! Key identifiers and the pressure-source capability.
use vstd::prelude::*;

verus! {

/// A monitored key: a hardware (HID) code for analog keyboards, or a raw
/// platform key code.
#[derive(Debug, Clone, Copy, PartialEq, Eq, Structural, Hash)]
pub enum KeyCode {
    Wooting(u16),
    Raw(u16),
}

impl From<u16> for KeyCode {
    fn from(code: u16) -> (r: KeyCode) {
        KeyCode::Raw(code)
    }
}

impl vstd::std_specs::convert::FromSpecImpl<u16> for KeyCode {
    open spec fn obeys_from_spec() -> bool {
        true
    }

    open spec fn from_spec(code: u16) -> KeyCode {
        KeyCode::Raw(code)
    }
}

/// A source of analog key pressure. Readings are fixed-point: `FULL_PRESSURE`
/// is a key pressed all the way down, zero a key at rest.
pub trait KeyboardProvider: Send + Sync {
    /// The current pressure on `key`, or why it could not be read.
    fn read_key_pressure(&self, key: KeyCode) -> Result<u32, String>;

    /// Prepares the source; called once before any reading.
    fn initialize(&self) -> Result<(), String>;
}

/// The reading that stands for a fully pressed key.
pub const FULL_PRESSURE: u32 = 1_000_000;

/// A platform-neutral source that knows raw key codes only and reports each
/// of them at rest.
pub struct DefaultKeyboardProvider;

impl KeyboardProvider for DefaultKeyboardProvider {
    fn read_key_pressure(&self, key: KeyCode) -> (r: Result<u32, String>)
        ensures
            key is Raw ==> r == Ok::<u32, String>(0),
            key is Wooting ==> r is Err,
    {
        match key {
            KeyCode::Raw(_) => Ok(0),
            _ => Err("Invalid key type for keyboard".to_string()),
        }
    }

    fn initialize(&self) -> (r: Result<(), String>)
        ensures
            r == Ok::<(), String>(()),
    {
        Ok(())
    }
}

} // verus!
