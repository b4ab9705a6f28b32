//! Per-key configuration and per-key gesture state.
use vstd::prelude::*;

use crate::keyboard::KeyCode;
use crate::sequence::{categories_equal, event_categories, extends, PatternAction, TapSequence};
use crate::types::{classify, classify_duration, Tap, TapDuration, TapRange};
use std::collections::VecDeque;

verus! {

/// A tap as it was recorded into a key's running gesture.
#[derive(Clone, Copy)]
pub struct TapEvent {
    pub tap: Tap,
}

/// The default debounce window, in milliseconds.
pub const DEFAULT_DEBOUNCE_MS: u64 = 300;

/// The binding of one key to its duration bands, its registered sequences,
/// its debounce window (milliseconds) and its activation threshold: a reading
/// strictly above the threshold counts as pressed.
#[derive(Clone)]
pub struct KeyConfig<A> {
    pub key_code: KeyCode,
    pub tap_ranges: Vec<TapRange>,
    pub patterns: Vec<PatternAction<A>>,
    pub debounce_duration: u64,
    pub pressure_threshold: u32,
}

/// The running gesture of one key.
pub struct KeyState {
    pub tap_events: VecDeque<TapEvent>,
    pub last_pressure: u32,
    pub last_pressed: Option<u64>,
    pub last_released: Option<u64>,
    pub last_valid_pattern_index: Option<usize>,
}

/// What a [`KeyState`] holds, as mathematical values.
pub struct KeyStateView {
    pub events: Seq<TapEvent>,
    pub last_pressure: u32,
    pub last_pressed: Option<u64>,
    pub last_released: Option<u64>,
    pub last_valid_pattern_index: Option<usize>,
}

impl View for KeyState {
    type V = KeyStateView;

    open spec fn view(&self) -> KeyStateView {
        KeyStateView {
            events: self.tap_events@,
            last_pressure: self.last_pressure,
            last_pressed: self.last_pressed,
            last_released: self.last_released,
            last_valid_pattern_index: self.last_valid_pattern_index,
        }
    }
}

/// A key with no gesture under way: no taps, no pressure, no timestamps, no
/// remembered match.
pub open spec fn idle_state() -> KeyStateView {
    KeyStateView {
        events: Seq::empty(),
        last_pressure: 0,
        last_pressed: None,
        last_released: None,
        last_valid_pattern_index: None,
    }
}

impl KeyState {
    pub fn new() -> (r: KeyState)
        ensures
            r@ == idle_state(),
    {
        KeyState {
            tap_events: VecDeque::new(),
            last_pressure: 0,
            last_pressed: None,
            last_released: None,
            last_valid_pattern_index: None,
        }
    }

    /// Forgets the gesture under way.
    pub fn reset(&mut self)
        ensures
            final(self)@ == idle_state(),
    {
        self.tap_events.clear();
        self.last_pressure = 0;
        self.last_pressed = None;
        self.last_released = None;
        self.last_valid_pattern_index = None;
        assert(self.tap_events@ =~= Seq::<TapEvent>::empty());
    }
}

/// The binding at index `i` is the first, in registration order, whose
/// sequence `observed` spells exactly.
pub open spec fn is_first_match<A>(patterns: Seq<PatternAction<A>>, observed: Seq<TapDuration>, i: int) -> bool {
    &&& 0 <= i < patterns.len()
    &&& categories_equal(observed, patterns[i].sequence.sequence@)
    &&& forall|j: int| 0 <= j < i ==> !categories_equal(observed, #[trigger] patterns[j].sequence.sequence@)
}

/// The first binding, from index `start` on, whose sequence `observed`
/// spells exactly.
pub open spec fn first_match_from<A>(patterns: Seq<PatternAction<A>>, observed: Seq<TapDuration>, start: int) -> Option<int>
    decreases patterns.len() - start,
{
    if start < 0 || start >= patterns.len() {
        None
    } else if categories_equal(observed, patterns[start].sequence.sequence@) {
        Some(start)
    } else {
        first_match_from(patterns, observed, start + 1)
    }
}

/// The first binding, in registration order, whose sequence `observed`
/// spells exactly.
pub open spec fn first_matching<A>(patterns: Seq<PatternAction<A>>, observed: Seq<TapDuration>) -> Option<int> {
    first_match_from(patterns, observed, 0)
}

/// Some binding's sequence is strictly longer than `observed` and starts
/// with it.
pub open spec fn has_longer<A>(patterns: Seq<PatternAction<A>>, observed: Seq<TapDuration>) -> bool {
    exists|i: int| 0 <= i < patterns.len() && extends(#[trigger] patterns[i].sequence.sequence@, observed)
}

impl<A> KeyConfig<A> {
    /// A configuration has at least one duration band, the fallback one.
    pub open spec fn wf(&self) -> bool {
        self.tap_ranges@.len() > 0
    }

    /// A configuration for `key_code` with the default bands (short, then
    /// long), no bindings, a 300 ms debounce window and a zero threshold.
    pub fn new(key_code: KeyCode) -> (r: KeyConfig<A>)
        ensures
            r.wf(),
            r.key_code == key_code,
            r.tap_ranges@ == seq![TapRange::short_spec(), TapRange::long_spec()],
            r.patterns@.len() == 0,
            r.debounce_duration == DEFAULT_DEBOUNCE_MS,
            r.pressure_threshold == 0,
    {
        let default_ranges = vec![TapRange::short(), TapRange::long()];
        KeyConfig {
            key_code,
            tap_ranges: default_ranges,
            patterns: Vec::new(),
            debounce_duration: DEFAULT_DEBOUNCE_MS,
            pressure_threshold: 0,
        }
    }

    /// Replaces the duration bands; the first one is the fallback. Any list
    /// is taken, but only a non-empty one makes a configuration that taps can
    /// be classified against.
    pub fn with_tap_ranges(self, ranges: Vec<TapRange>) -> (r: KeyConfig<A>)
        ensures
            r.wf() == (ranges@.len() > 0),
            r.tap_ranges@ == ranges@,
            r.key_code == self.key_code,
            r.patterns@ == self.patterns@,
            r.debounce_duration == self.debounce_duration,
            r.pressure_threshold == self.pressure_threshold,
    {
        let mut config = self;
        config.tap_ranges = ranges;
        config
    }

    /// Registers `sequence`, bound to `action`, after the bindings already
    /// registered.
    pub fn add_pattern(&mut self, sequence: TapSequence, action: A)
        ensures
            final(self).patterns@ == old(self).patterns@.push(PatternAction { sequence, action }),
            final(self).key_code == old(self).key_code,
            final(self).tap_ranges@ == old(self).tap_ranges@,
            final(self).debounce_duration == old(self).debounce_duration,
            final(self).pressure_threshold == old(self).pressure_threshold,
    {
        self.patterns.push(PatternAction { sequence, action });
    }

    /// The tap for a press of `duration` milliseconds released at `pressure`.
    pub fn get_tap(&self, duration: u64, pressure: u32) -> (r: Tap)
        requires
            self.wf(),
        ensures
            r.duration == duration,
            r.pressure == pressure,
            r.tap_type == classify(duration, self.tap_ranges@),
    {
        Tap { duration, pressure, tap_type: classify_duration(duration, &self.tap_ranges) }
    }

    /// The index of the first binding whose sequence the taps spell exactly.
    pub fn find_matching_pattern(&self, events: &VecDeque<TapEvent>) -> (r: Option<usize>)
        ensures
            r matches Some(i) ==> is_first_match(self.patterns@, event_categories(events@), i as int),
            r is None ==> forall|j: int| 0 <= j < self.patterns@.len()
                ==> !categories_equal(event_categories(events@), #[trigger] self.patterns@[j].sequence.sequence@),
            r == (match first_matching(self.patterns@, event_categories(events@)) {
                Some(i) => Some(i as usize),
                None => None::<usize>,
            }),
    {
        let mut i: usize = 0;
        while i < self.patterns.len()
            invariant
                i <= self.patterns@.len(),
                first_matching(self.patterns@, event_categories(events@))
                    == first_match_from(self.patterns@, event_categories(events@), i as int),
                forall|j: int| 0 <= j < i
                    ==> !categories_equal(event_categories(events@), #[trigger] self.patterns@[j].sequence.sequence@),
            decreases self.patterns@.len() - i,
        {
            if self.patterns[i].sequence.matches(events) {
                return Some(i);
            }
            i = i + 1;
        }
        None
    }

    /// Whether some binding's sequence is strictly longer than the taps and
    /// begins with them.
    pub fn has_longer_patterns(&self, current_events: &VecDeque<TapEvent>) -> (r: bool)
        ensures
            r == has_longer(self.patterns@, event_categories(current_events@)),
    {
        let mut i: usize = 0;
        while i < self.patterns.len()
            invariant
                i <= self.patterns@.len(),
                forall|j: int| 0 <= j < i
                    ==> !extends(#[trigger] self.patterns@[j].sequence.sequence@, event_categories(current_events@)),
            decreases self.patterns@.len() - i,
        {
            if self.patterns[i].sequence.extends_events(current_events) {
                return true;
            }
            i = i + 1;
        }
        false
    }
}

} // verus!
