//! Tap pattern detection for analog-pressure keys.
//!
//! A key's pressure is sampled at a fixed cadence. Each press/release cycle
//! becomes a [`Tap`] whose category is chosen by the key's duration ranges;
//! the taps accumulate per key and, once they spell a registered
//! [`TapSequence`], the bound action is reported for dispatch exactly once.
//! A binding that a longer one extends waits for the debounce window before
//! it is dispatched.
//!
//! Times are milliseconds on a clock that the caller supplies; pressures are
//! fixed-point, with [`FULL_PRESSURE`] for a key pressed all the way down.

pub mod detector;
pub mod keyboard;
pub mod sequence;
pub mod state;
pub mod types;

pub use detector::PatternDetector;
pub use keyboard::{DefaultKeyboardProvider, KeyCode, KeyboardProvider, FULL_PRESSURE};
pub use sequence::{PatternAction, TapSequence};
pub use state::{KeyConfig, KeyState, TapEvent};
pub use types::{Tap, TapDuration, TapRange};
