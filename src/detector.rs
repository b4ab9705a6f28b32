//! The per-key state machine and the detector that runs it over every
//! configured key.
use vstd::prelude::*;

use crate::keyboard::{KeyCode, KeyboardProvider};
use crate::sequence::{categories_equal, event_categories, extends, PatternAction};
use crate::state::{first_match_from, first_matching, has_longer, idle_state, KeyConfig, KeyState, KeyStateView, TapEvent};
use crate::types::{classify, in_range, Tap, TapDuration, TapRange, SHORT_TAP_MAX_MS};

verus! {

/// Milliseconds from `since` to `now`, zero when `now` is not later.
pub open spec fn elapsed(since: u64, now: u64) -> u64 {
    if now >= since {
        (now - since) as u64
    } else {
        0
    }
}

/// What follows a release that appended a tap: the first binding that the
/// taps spell is dispatched at once (and the key goes idle) unless a longer
/// binding could still complete, in which case it is remembered instead.
pub open spec fn resolve_release<A>(config: KeyConfig<A>, s: KeyStateView) -> (KeyStateView, Option<usize>) {
    let observed = event_categories(s.events);
    match first_matching(config.patterns@, observed) {
        Some(i) => if has_longer(config.patterns@, observed) {
            (KeyStateView { last_valid_pattern_index: Some(i as usize), ..s }, None)
        } else {
            (idle_state(), Some(i as usize))
        },
        None => (s, None),
    }
}

/// The press and release edges: a rise above the threshold starts a press;
/// a fall to or below it ends the press, records its tap and resolves it.
pub open spec fn on_edge<A>(config: KeyConfig<A>, s: KeyStateView, pressure: u32, now: u64) -> (KeyStateView, Option<usize>) {
    let was_pressed = s.last_pressure > config.pressure_threshold;
    let is_pressed = pressure > config.pressure_threshold;
    if !was_pressed && is_pressed {
        (KeyStateView { last_pressed: Some(now), ..s }, None)
    } else if was_pressed && !is_pressed && s.last_pressed is Some {
        let d = elapsed(s.last_pressed->0, now);
        let tap = Tap { duration: d, pressure, tap_type: classify(d, config.tap_ranges@) };
        resolve_release(
            config,
            KeyStateView { events: s.events.push(TapEvent { tap }), last_released: Some(now), ..s },
        )
    } else {
        (s, None)
    }
}

/// The key was released no earlier than it was last pressed, and at least
/// the debounce window ago.
pub open spec fn debounce_due<A>(config: KeyConfig<A>, s: KeyStateView, now: u64) -> bool {
    &&& s.last_released is Some
    &&& s.last_pressed is Some
    &&& s.last_pressed->0 <= s.last_released->0
    &&& elapsed(s.last_released->0, now) >= config.debounce_duration
}

/// One successful reading of a key: its edge, then the debounce check, which
/// dispatches the remembered binding (if any) and sends the key idle.
pub open spec fn key_step<A>(config: KeyConfig<A>, s: KeyStateView, pressure: u32, now: u64) -> (KeyStateView, Option<usize>) {
    let (s1, immediate) = on_edge(config, s, pressure, now);
    let s2 = KeyStateView { last_pressure: pressure, ..s1 };
    if debounce_due(config, s2, now) {
        let fired = match s2.last_valid_pattern_index {
            Some(i) => if i < config.patterns@.len() {
                Some(i)
            } else {
                None
            },
            None => None,
        };
        (idle_state(), fired)
    } else {
        (s2, immediate)
    }
}

fn elapsed_ms(since: u64, now: u64) -> (r: u64)
    ensures
        r == elapsed(since, now),
{
    now.saturating_sub(since)
}

/// Resolves the taps after a release; returns the binding to dispatch.
fn check_and_execute_patterns<A>(config: &KeyConfig<A>, state: &mut KeyState) -> (r: Option<usize>)
    ensures
        (final(state)@, r) == resolve_release(*config, old(state)@),
{
    match config.find_matching_pattern(&state.tap_events) {
        Some(i) => {
            state.last_valid_pattern_index = Some(i);
            if !config.has_longer_patterns(&state.tap_events) {
                state.reset();
                Some(i)
            } else {
                None
            }
        },
        None => None,
    }
}

/// Advances one key's gesture by a successful reading of `pressure` at time
/// `now` (milliseconds); returns the binding to dispatch, if any.
pub fn process_reading<A>(config: &KeyConfig<A>, state: &mut KeyState, pressure: u32, now: u64) -> (r: Option<usize>)
    requires
        config.wf(),
    ensures
        (final(state)@, r) == key_step(*config, old(state)@, pressure, now),
{
    let was_pressed = state.last_pressure > config.pressure_threshold;
    let is_pressed = pressure > config.pressure_threshold;
    let mut fired: Option<usize> = None;
    if !was_pressed && is_pressed {
        state.last_pressed = Some(now);
    } else if was_pressed && !is_pressed {
        if let Some(press_start) = state.last_pressed {
            let duration = elapsed_ms(press_start, now);
            let tap = config.get_tap(duration, pressure);
            state.tap_events.push_back(TapEvent { tap });
            state.last_released = Some(now);
            fired = check_and_execute_patterns(config, state);
        }
    }
    state.last_pressure = pressure;
    if let Some(last_release) = state.last_released {
        if let Some(press_start) = state.last_pressed {
            if press_start <= last_release && elapsed_ms(last_release, now) >= config.debounce_duration {
                fired = match state.last_valid_pattern_index {
                    Some(i) => if i < config.patterns.len() {
                        Some(i)
                    } else {
                        None
                    },
                    None => None,
                };
                state.reset();
            }
        }
    }
    fired
}

/// `reading` is what a read of `key` from `provider` can yield: the pressure
/// it returned, or `None` when it failed.
pub open spec fn read_as<P: KeyboardProvider>(provider: &P, key: KeyCode, reading: Option<u32>) -> bool {
    exists|res: Result<u32, String>|
        #[trigger] call_ensures(P::read_key_pressure, (provider, key), res) && reading == match res {
            Ok(x) => Some(x),
            Err(_) => None,
        }
}

/// A key and its running gesture.
pub struct KeyEntry {
    pub key_code: KeyCode,
    pub state: KeyState,
}

/// A completed gesture: binding `pattern` of configuration `config`.
#[derive(Debug, Clone, Copy, PartialEq, Eq, Structural)]
pub struct Dispatch {
    pub config: usize,
    pub pattern: usize,
}

/// `d` names a binding that exists.
pub open spec fn dispatch_valid<A>(configs: Seq<KeyConfig<A>>, d: Dispatch) -> bool {
    &&& d.config < configs.len()
    &&& d.pattern < configs[d.config as int].patterns@.len()
}

proof fn lemma_first_match_from_bound<A>(patterns: Seq<PatternAction<A>>, observed: Seq<TapDuration>, start: int)
    ensures
        first_match_from(patterns, observed, start) matches Some(i) ==> 0 <= i < patterns.len(),
    decreases patterns.len() - start,
{
    if 0 <= start < patterns.len() && !categories_equal(observed, patterns[start].sequence.sequence@) {
        lemma_first_match_from_bound(patterns, observed, start + 1);
    }
}

proof fn lemma_key_step_dispatch_valid<A>(config: KeyConfig<A>, s: KeyStateView, pressure: u32, now: u64)
    ensures
        key_step(config, s, pressure, now).1 matches Some(i) ==> i < config.patterns@.len(),
{
    let s1 = on_edge(config, s, pressure, now).0;
    if s.last_pressed is Some {
        let d = elapsed(s.last_pressed->0, now);
        let tap = Tap { duration: d, pressure, tap_type: classify(d, config.tap_ranges@) };
        let s_rel = KeyStateView { events: s.events.push(TapEvent { tap }), last_released: Some(now), ..s };
        lemma_first_match_from_bound(config.patterns@, event_categories(s_rel.events), 0);
    }
}

/// No key appears twice.
pub open spec fn unique_keys(entries: Seq<KeyEntry>) -> bool {
    forall|a: int, b: int|
        0 <= a < entries.len() && 0 <= b < entries.len() && a != b
            ==> #[trigger] entries[a].key_code != #[trigger] entries[b].key_code
}

pub open spec fn has_key(entries: Seq<KeyEntry>, k: KeyCode) -> bool {
    exists|j: int| 0 <= j < entries.len() && #[trigger] entries[j].key_code == k
}

/// The gesture of each key that has one, by key.
pub open spec fn states_map(entries: Seq<KeyEntry>) -> Map<KeyCode, KeyStateView> {
    Map::new(
        |k: KeyCode| has_key(entries, k),
        |k: KeyCode| entries[choose|j: int| 0 <= j < entries.len() && #[trigger] entries[j].key_code == k].state@,
    )
}

/// A key's gesture, or the idle one for a key not seen yet.
pub open spec fn state_or_idle(m: Map<KeyCode, KeyStateView>, k: KeyCode) -> KeyStateView {
    if m.contains_key(k) {
        m[k]
    } else {
        idle_state()
    }
}

/// One configuration's reading: a failed one (`None`) changes nothing; a
/// successful one steps that key's gesture, created idle on first sight.
pub open spec fn apply_reading<A>(
    config: KeyConfig<A>,
    m: Map<KeyCode, KeyStateView>,
    reading: Option<u32>,
    now: u64,
) -> (Map<KeyCode, KeyStateView>, Option<usize>) {
    match reading {
        None => (m, None),
        Some(p) => {
            let (s, d) = key_step(config, state_or_idle(m, config.key_code), p, now);
            (m.insert(config.key_code, s), d)
        },
    }
}

/// The first `n` configurations' readings applied in order, with the
/// dispatches they produced, in order.
pub open spec fn tick_upto<A>(
    configs: Seq<KeyConfig<A>>,
    m: Map<KeyCode, KeyStateView>,
    readings: Seq<Option<u32>>,
    now: u64,
    n: int,
) -> (Map<KeyCode, KeyStateView>, Seq<Dispatch>)
    decreases n,
{
    if n <= 0 {
        (m, Seq::empty())
    } else {
        let (m1, ds) = tick_upto(configs, m, readings, now, n - 1);
        let (m2, d) = apply_reading(configs[n - 1], m1, readings[n - 1], now);
        (
            m2,
            match d {
                Some(p) => ds.push(Dispatch { config: (n - 1) as usize, pattern: p }),
                None => ds,
            },
        )
    }
}

/// One polling tick: every configuration's reading, in configuration order,
/// all at time `now`.
pub open spec fn tick<A>(
    configs: Seq<KeyConfig<A>>,
    m: Map<KeyCode, KeyStateView>,
    readings: Seq<Option<u32>>,
    now: u64,
) -> (Map<KeyCode, KeyStateView>, Seq<Dispatch>) {
    tick_upto(configs, m, readings, now, configs.len() as int)
}

proof fn lemma_states_map_at(entries: Seq<KeyEntry>, j: int)
    requires
        unique_keys(entries),
        0 <= j < entries.len(),
    ensures
        states_map(entries).contains_key(entries[j].key_code),
        states_map(entries)[entries[j].key_code] == entries[j].state@,
{
    let k = entries[j].key_code;
    assert(has_key(entries, k));
    let c = choose|i: int| 0 <= i < entries.len() && #[trigger] entries[i].key_code == k;
    assert(c == j);
}

proof fn lemma_states_map_update(entries: Seq<KeyEntry>, j: int, e: KeyEntry)
    requires
        unique_keys(entries),
        0 <= j < entries.len(),
        e.key_code == entries[j].key_code,
    ensures
        unique_keys(entries.update(j, e)),
        states_map(entries.update(j, e)) == states_map(entries).insert(e.key_code, e.state@),
{
    let e2 = entries.update(j, e);
    assert forall|a: int, b: int|
        0 <= a < e2.len() && 0 <= b < e2.len() && a != b implies #[trigger] e2[a].key_code != #[trigger] e2[b].key_code by {
        assert(entries[a].key_code != entries[b].key_code);
    }
    let m = states_map(entries).insert(e.key_code, e.state@);
    assert forall|k: KeyCode| #[trigger] has_key(e2, k) == m.contains_key(k) by {
        if has_key(e2, k) {
            let i = choose|i: int| 0 <= i < e2.len() && #[trigger] e2[i].key_code == k;
            assert(entries[i].key_code == k);
        }
        if has_key(entries, k) {
            let i = choose|i: int| 0 <= i < entries.len() && #[trigger] entries[i].key_code == k;
            assert(e2[i].key_code == k);
        }
    }
    assert forall|k: KeyCode| #[trigger] m.contains_key(k) implies states_map(e2)[k] == m[k] by {
        assert(has_key(e2, k));
        let i = choose|i: int| 0 <= i < e2.len() && #[trigger] e2[i].key_code == k;
        lemma_states_map_at(e2, i);
        if i != j {
            assert(entries[i] == e2[i]);
            lemma_states_map_at(entries, i);
        }
    }
    assert(states_map(e2) =~= m);
}

proof fn lemma_states_map_push(entries: Seq<KeyEntry>, e: KeyEntry)
    requires
        unique_keys(entries),
        !has_key(entries, e.key_code),
    ensures
        unique_keys(entries.push(e)),
        states_map(entries.push(e)) == states_map(entries).insert(e.key_code, e.state@),
{
    let e2 = entries.push(e);
    assert forall|a: int, b: int|
        0 <= a < e2.len() && 0 <= b < e2.len() && a != b implies #[trigger] e2[a].key_code != #[trigger] e2[b].key_code by {
        if a < entries.len() && b < entries.len() {
            assert(entries[a].key_code != entries[b].key_code);
        } else if a < entries.len() {
            assert(entries[a].key_code != e.key_code);
        } else if b < entries.len() {
            assert(entries[b].key_code != e.key_code);
        }
    }
    let m = states_map(entries).insert(e.key_code, e.state@);
    assert forall|k: KeyCode| #[trigger] has_key(e2, k) == m.contains_key(k) by {
        if has_key(e2, k) {
            let i = choose|i: int| 0 <= i < e2.len() && #[trigger] e2[i].key_code == k;
            if i < entries.len() {
                assert(entries[i].key_code == k);
            }
        }
        if has_key(entries, k) {
            let i = choose|i: int| 0 <= i < entries.len() && #[trigger] entries[i].key_code == k;
            assert(e2[i].key_code == k);
        }
        if k == e.key_code {
            assert(e2[entries.len() as int].key_code == k);
        }
    }
    assert forall|k: KeyCode| #[trigger] m.contains_key(k) implies states_map(e2)[k] == m[k] by {
        assert(has_key(e2, k));
        let i = choose|i: int| 0 <= i < e2.len() && #[trigger] e2[i].key_code == k;
        lemma_states_map_at(e2, i);
        if i < entries.len() {
            assert(entries[i] == e2[i]);
            lemma_states_map_at(entries, i);
        }
    }
    assert(states_map(e2) =~= m);
}

/// The index of the entry for `key_code`, if there is one.
fn find_entry(entries: &Vec<KeyEntry>, key_code: KeyCode) -> (r: Option<usize>)
    ensures
        r matches Some(j) ==> j < entries@.len() && entries@[j as int].key_code == key_code,
        r is None ==> !has_key(entries@, key_code),
{
    let mut i: usize = 0;
    while i < entries.len()
        invariant
            i <= entries@.len(),
            forall|j: int| 0 <= j < i ==> #[trigger] entries@[j].key_code != key_code,
        decreases entries@.len() - i,
    {
        if entries[i].key_code == key_code {
            return Some(i);
        }
        i = i + 1;
    }
    None
}

/// Owns the key configurations, the per-key gestures and the pressure
/// source; each tick reads every configured key and reports the gestures
/// that completed.
pub struct PatternDetector<P, A> {
    pub keyboard_provider: P,
    pub configs: Vec<KeyConfig<A>>,
    pub states: Vec<KeyEntry>,
    pub is_running: bool,
}

impl<P: KeyboardProvider, A> PatternDetector<P, A> {
    /// Every configuration is well formed and no key has two gestures.
    pub open spec fn wf(&self) -> bool {
        &&& forall|i: int| 0 <= i < self.configs@.len() ==> (#[trigger] self.configs@[i]).wf()
        &&& unique_keys(self.states@)
    }

    /// The gesture of each key seen so far.
    pub open spec fn key_states(&self) -> Map<KeyCode, KeyStateView> {
        states_map(self.states@)
    }

    /// Initializes `keyboard_provider` and builds a running detector around
    /// it, with no configuration; fails with the source's error.
    pub fn new(keyboard_provider: P) -> (r: Result<PatternDetector<P, A>, String>)
        ensures
            r matches Ok(d) ==> d.wf() && d.configs@.len() == 0 && d.key_states() == Map::<KeyCode, KeyStateView>::empty()
                && d.is_running,
    {
        let initialization = keyboard_provider.initialize();
        PatternDetector::with_initialization(keyboard_provider, initialization)
    }

    /// A running detector with no configuration when the source's
    /// `initialization` succeeded; its error otherwise.
    pub fn with_initialization(keyboard_provider: P, initialization: Result<(), String>) -> (r: Result<
        PatternDetector<P, A>,
        String,
    >)
        ensures
            initialization is Ok <==> r is Ok,
            r matches Ok(d) ==> d.wf() && d.configs@.len() == 0 && d.key_states() == Map::<KeyCode, KeyStateView>::empty()
                && d.is_running,
            initialization matches Err(e) ==> (r matches Err(e2) && e2 == e),
    {
        match initialization {
            Ok(()) => {
                let d = PatternDetector {
                    keyboard_provider,
                    configs: Vec::new(),
                    states: Vec::new(),
                    is_running: true,
                };
                assert(d.key_states() =~= Map::<KeyCode, KeyStateView>::empty());
                Ok(d)
            },
            Err(e) => Err(e),
        }
    }

    /// Adds a key configuration after those already present.
    pub fn add_key_config(&mut self, config: KeyConfig<A>)
        requires
            old(self).wf(),
            config.wf(),
        ensures
            final(self).wf(),
            final(self).configs@ == old(self).configs@.push(config),
            final(self).key_states() == old(self).key_states(),
            final(self).is_running == old(self).is_running,
    {
        self.configs.push(config);
        assert(self.configs@.last().wf());
    }

    /// Asks the polling loop to finish.
    pub fn stop(&mut self)
        ensures
            !final(self).is_running,
            final(self).configs@ == old(self).configs@,
            final(self).key_states() == old(self).key_states(),
    {
        self.is_running = false;
    }

    pub fn is_running(&self) -> (r: bool)
        ensures
            r == self.is_running,
    {
        self.is_running
    }

    /// One tick that reads every configured key from the pressure source, in
    /// configuration order; a failed read leaves that key as it was.
    pub fn poll(&mut self, now: u64) -> (r: Vec<Dispatch>)
        requires
            old(self).wf(),
        ensures
            final(self).wf(),
            final(self).configs@ == old(self).configs@,
            final(self).is_running == old(self).is_running,
            exists|readings: Seq<Option<u32>>|
                readings.len() == old(self).configs@.len() && (forall|j: int|
                    0 <= j < readings.len() ==> #[trigger] read_as(
                        &old(self).keyboard_provider,
                        old(self).configs@[j].key_code,
                        readings[j],
                    )) && (final(self).key_states(), r@) == tick(
                    old(self).configs@,
                    old(self).key_states(),
                    readings,
                    now,
                ),
            forall|k: int| 0 <= k < r@.len() ==> dispatch_valid(final(self).configs@, #[trigger] r@[k]),
    {
        let mut readings: Vec<Option<u32>> = Vec::new();
        let mut i: usize = 0;
        while i < self.configs.len()
            invariant
                i <= self.configs@.len(),
                readings@.len() == i,
                forall|j: int|
                    0 <= j < i ==> #[trigger] read_as(&self.keyboard_provider, self.configs@[j].key_code, readings@[j]),
            decreases self.configs@.len() - i,
        {
            let res = self.keyboard_provider.read_key_pressure(self.configs[i].key_code);
            assert(call_ensures(P::read_key_pressure, (&self.keyboard_provider, self.configs@[i as int].key_code), res));
            let reading = match res {
                Ok(pressure) => Some(pressure),
                Err(_) => None,
            };
            readings.push(reading);
            i = i + 1;
        }
        self.tick(&readings, now)
    }

    /// The action bound to a completed gesture.
    pub fn action(&self, d: Dispatch) -> (r: &A)
        requires
            dispatch_valid(self.configs@, d),
        ensures
            *r == self.configs@[d.config as int].patterns@[d.pattern as int].action,
    {
        &self.configs[d.config].patterns[d.pattern].action
    }

    /// The gesture of `key_code`, if the key has been read successfully.
    pub fn key_state(&self, key_code: KeyCode) -> (r: Option<&KeyState>)
        requires
            self.wf(),
        ensures
            r matches Some(s) ==> self.key_states().contains_key(key_code) && s@ == self.key_states()[key_code],
            r is None ==> !self.key_states().contains_key(key_code),
    {
        match find_entry(&self.states, key_code) {
            Some(j) => {
                proof {
                    lemma_states_map_at(self.states@, j as int);
                }
                Some(&self.states[j].state)
            },
            None => None,
        }
    }

    /// One tick on given readings, one per configuration in order (`None`
    /// for a failed read), all at time `now` in milliseconds.
    pub fn tick(&mut self, readings: &Vec<Option<u32>>, now: u64) -> (r: Vec<Dispatch>)
        requires
            old(self).wf(),
            readings@.len() == old(self).configs@.len(),
        ensures
            final(self).wf(),
            final(self).configs@ == old(self).configs@,
            final(self).is_running == old(self).is_running,
            (final(self).key_states(), r@) == tick(old(self).configs@, old(self).key_states(), readings@, now),
            forall|k: int| 0 <= k < r@.len() ==> dispatch_valid(final(self).configs@, #[trigger] r@[k]),
    {
        let ghost m0 = self.key_states();
        let mut out: Vec<Dispatch> = Vec::new();
        let mut i: usize = 0;
        while i < self.configs.len()
            invariant
                self.wf(),
                self.configs@ == old(self).configs@,
                self.is_running == old(self).is_running,
                readings@.len() == self.configs@.len(),
                i <= self.configs@.len(),
                (self.key_states(), out@) == tick_upto(self.configs@, m0, readings@, now, i as int),
                forall|k: int| 0 <= k < out@.len() ==> dispatch_valid(self.configs@, #[trigger] out@[k]),
            decreases self.configs@.len() - i,
        {
            if let Some(pressure) = readings[i] {
                let key_code = self.configs[i].key_code;
                let j = match find_entry(&self.states, key_code) {
                    Some(j) => {
                        proof {
                            lemma_states_map_at(self.states@, j as int);
                        }
                        j
                    },
                    None => {
                        let entry = KeyEntry { key_code, state: KeyState::new() };
                        proof {
                            lemma_states_map_push(self.states@, entry);
                        }
                        self.states.push(entry);
                        self.states.len() - 1
                    },
                };
                let ghost before = self.states@;
                let ghost s_before = self.states@[j as int].state@;
                let fired = process_reading(&self.configs[i], &mut self.states[j].state, pressure, now);
                proof {
                    lemma_key_step_dispatch_valid(self.configs@[i as int], s_before, pressure, now);
                    lemma_states_map_update(before, j as int, self.states@[j as int]);
                    assert(self.states@ == before.update(j as int, self.states@[j as int]));
                }
                if let Some(p) = fired {
                    out.push(Dispatch { config: i, pattern: p });
                }
            }
            i = i + 1;
        }
        out
    }
}

/// A dispatch leaves the key with no taps, no timestamps and no remembered
/// match, and not pressed; from there the key's next reading behaves exactly
/// as it would on a key never seen before.
pub proof fn lemma_dispatch_resets<A>(config: KeyConfig<A>, s: KeyStateView, pressure: u32, now: u64)
    requires
        key_step(config, s, pressure, now).1 is Some,
    ensures
        ({
            let after = key_step(config, s, pressure, now).0;
            &&& after.events.len() == 0
            &&& after.last_pressed is None
            &&& after.last_released is None
            &&& after.last_valid_pattern_index is None
            &&& after.last_pressure <= config.pressure_threshold
            &&& forall|next: u32, later: u64|
                #[trigger] key_step(config, after, next, later) == key_step(config, idle_state(), next, later)
        }),
{
    let after = key_step(config, s, pressure, now).0;
    assert forall|next: u32, later: u64|
        #[trigger] key_step(config, after, next, later) == key_step(config, idle_state(), next, later) by {
        let a = on_edge(config, after, next, later);
        let b = on_edge(config, idle_state(), next, later);
        assert(after.events =~= idle_state().events);
        if next > config.pressure_threshold {
            assert(a.0 == KeyStateView { last_pressure: after.last_pressure, ..b.0 });
        } else {
            assert(a.0 == KeyStateView { last_pressure: after.last_pressure, ..b.0 });
        }
    }
}

/// `m1` and `m2` agree on key `k`.
pub open spec fn same_entry(m1: Map<KeyCode, KeyStateView>, m2: Map<KeyCode, KeyStateView>, k: KeyCode) -> bool {
    &&& m1.contains_key(k) == m2.contains_key(k)
    &&& m1.contains_key(k) ==> m1[k] == m2[k]
}

/// The dispatches, in order, whose configuration is for key `k`.
pub open spec fn dispatches_for<A>(ds: Seq<Dispatch>, configs: Seq<KeyConfig<A>>, k: KeyCode) -> Seq<Dispatch>
    decreases ds.len(),
{
    if ds.len() == 0 {
        Seq::empty()
    } else {
        let rest = dispatches_for(ds.drop_last(), configs, k);
        if configs[ds.last().config as int].key_code == k {
            rest.push(ds.last())
        } else {
            rest
        }
    }
}

proof fn lemma_dispatches_for_push<A>(ds: Seq<Dispatch>, d: Dispatch, configs: Seq<KeyConfig<A>>, k: KeyCode)
    ensures
        dispatches_for(ds.push(d), configs, k) == if configs[d.config as int].key_code == k {
            dispatches_for(ds, configs, k).push(d)
        } else {
            dispatches_for(ds, configs, k)
        },
{
    assert(ds.push(d).drop_last() =~= ds);
}

proof fn lemma_independent_upto<A>(
    configs: Seq<KeyConfig<A>>,
    m1: Map<KeyCode, KeyStateView>,
    m2: Map<KeyCode, KeyStateView>,
    r1: Seq<Option<u32>>,
    r2: Seq<Option<u32>>,
    now: u64,
    k: KeyCode,
    n: int,
)
    requires
        0 <= n <= configs.len(),
        configs.len() <= usize::MAX,
        r1.len() == configs.len(),
        r2.len() == configs.len(),
        same_entry(m1, m2, k),
        forall|i: int| 0 <= i < configs.len() && (#[trigger] configs[i]).key_code == k ==> r1[i] == r2[i],
    ensures
        ({
            let (f1, d1) = tick_upto(configs, m1, r1, now, n);
            let (f2, d2) = tick_upto(configs, m2, r2, now, n);
            same_entry(f1, f2, k) && dispatches_for(d1, configs, k) == dispatches_for(d2, configs, k)
        }),
    decreases n,
{
    if n > 0 {
        lemma_independent_upto(configs, m1, m2, r1, r2, now, k, n - 1);
        let (a1, e1) = tick_upto(configs, m1, r1, now, n - 1);
        let (a2, e2) = tick_upto(configs, m2, r2, now, n - 1);
        let c = configs[n - 1];
        let (b1, x1) = apply_reading(c, a1, r1[n - 1], now);
        let (b2, x2) = apply_reading(c, a2, r2[n - 1], now);
        if let Some(p) = x1 {
            lemma_dispatches_for_push(e1, Dispatch { config: (n - 1) as usize, pattern: p }, configs, k);
        }
        if let Some(p) = x2 {
            lemma_dispatches_for_push(e2, Dispatch { config: (n - 1) as usize, pattern: p }, configs, k);
        }
        if c.key_code == k {
            assert(r1[n - 1] == r2[n - 1]);
            assert(state_or_idle(a1, k) == state_or_idle(a2, k));
        }
    }
}

/// Keys are independent: within a tick, what happens to key `k` (its gesture
/// afterwards, and the dispatches of the configurations for `k`) depends only
/// on `k`'s gesture before and the readings of the configurations for `k`,
/// whatever the other keys held or read.
pub proof fn lemma_keys_independent<A>(
    configs: Seq<KeyConfig<A>>,
    m1: Map<KeyCode, KeyStateView>,
    m2: Map<KeyCode, KeyStateView>,
    r1: Seq<Option<u32>>,
    r2: Seq<Option<u32>>,
    now: u64,
    k: KeyCode,
)
    requires
        configs.len() <= usize::MAX,
        r1.len() == configs.len(),
        r2.len() == configs.len(),
        same_entry(m1, m2, k),
        forall|i: int| 0 <= i < configs.len() && (#[trigger] configs[i]).key_code == k ==> r1[i] == r2[i],
    ensures
        ({
            let (f1, d1) = tick(configs, m1, r1, now);
            let (f2, d2) = tick(configs, m2, r2, now);
            same_entry(f1, f2, k) && dispatches_for(d1, configs, k) == dispatches_for(d2, configs, k)
        }),
{
    lemma_independent_upto(configs, m1, m2, r1, r2, now, k, configs.len() as int);
}

proof fn lemma_failed_reads_upto<A>(
    configs: Seq<KeyConfig<A>>,
    m: Map<KeyCode, KeyStateView>,
    r: Seq<Option<u32>>,
    now: u64,
    k: KeyCode,
    n: int,
)
    requires
        0 <= n <= configs.len(),
        configs.len() <= usize::MAX,
        r.len() == configs.len(),
        forall|i: int| 0 <= i < configs.len() && (#[trigger] configs[i]).key_code == k ==> r[i] is None,
    ensures
        same_entry(tick_upto(configs, m, r, now, n).0, m, k),
        dispatches_for(tick_upto(configs, m, r, now, n).1, configs, k) == Seq::<Dispatch>::empty(),
    decreases n,
{
    if n > 0 {
        lemma_failed_reads_upto(configs, m, r, now, k, n - 1);
        let (a, e) = tick_upto(configs, m, r, now, n - 1);
        let (b, x) = apply_reading(configs[n - 1], a, r[n - 1], now);
        if let Some(p) = x {
            lemma_dispatches_for_push(e, Dispatch { config: (n - 1) as usize, pattern: p }, configs, k);
        }
    }
}

/// Failed reads do no harm: a tick in which every read of key `k` failed
/// leaves `k`'s gesture exactly as it was and dispatches nothing for it, so
/// the next successful read continues the gesture where it stood.
pub proof fn lemma_failed_reads_keep_state<A>(
    configs: Seq<KeyConfig<A>>,
    m: Map<KeyCode, KeyStateView>,
    r: Seq<Option<u32>>,
    now: u64,
    k: KeyCode,
)
    requires
        configs.len() <= usize::MAX,
        r.len() == configs.len(),
        forall|i: int| 0 <= i < configs.len() && (#[trigger] configs[i]).key_code == k ==> r[i] is None,
    ensures
        same_entry(tick(configs, m, r, now).0, m, k),
        dispatches_for(tick(configs, m, r, now).1, configs, k) == Seq::<Dispatch>::empty(),
{
    lemma_failed_reads_upto(configs, m, r, now, k, configs.len() as int);
}

/// Ticks applied one after another, each with its readings and its time;
/// gives the final gestures and the dispatches of each tick.
pub open spec fn run<A>(
    configs: Seq<KeyConfig<A>>,
    m: Map<KeyCode, KeyStateView>,
    steps: Seq<(Seq<Option<u32>>, u64)>,
) -> (Map<KeyCode, KeyStateView>, Seq<Seq<Dispatch>>)
    decreases steps.len(),
{
    if steps.len() == 0 {
        (m, Seq::empty())
    } else {
        let (m1, out) = run(configs, m, steps.drop_last());
        let (m2, ds) = tick(configs, m1, steps.last().0, steps.last().1);
        (m2, out.push(ds))
    }
}

/// Keys are independent over a whole run: if two runs start with the same
/// gesture for key `k` and, tick by tick, read the same values for the
/// configurations of `k` at the same times, then after every tick they
/// dispatch the same bindings of `k`'s configurations, and they end with the
/// same gesture for `k`, whatever the other keys held or read.
pub proof fn lemma_keys_independent_run<A>(
    configs: Seq<KeyConfig<A>>,
    m1: Map<KeyCode, KeyStateView>,
    m2: Map<KeyCode, KeyStateView>,
    steps1: Seq<(Seq<Option<u32>>, u64)>,
    steps2: Seq<(Seq<Option<u32>>, u64)>,
    k: KeyCode,
)
    requires
        configs.len() <= usize::MAX,
        same_entry(m1, m2, k),
        steps1.len() == steps2.len(),
        forall|t: int| 0 <= t < steps1.len() ==> (#[trigger] steps1[t]).0.len() == configs.len(),
        forall|t: int| 0 <= t < steps2.len() ==> (#[trigger] steps2[t]).0.len() == configs.len(),
        forall|t: int| 0 <= t < steps1.len() ==> (#[trigger] steps1[t]).1 == steps2[t].1,
        forall|t: int, i: int|
            0 <= t < steps1.len() && 0 <= i < configs.len() && (#[trigger] configs[i]).key_code == k
                ==> (#[trigger] steps1[t]).0[i] == steps2[t].0[i],
    ensures
        ({
            let (f1, o1) = run(configs, m1, steps1);
            let (f2, o2) = run(configs, m2, steps2);
            &&& same_entry(f1, f2, k)
            &&& o1.len() == o2.len() == steps1.len()
            &&& forall|t: int| 0 <= t < o1.len()
                ==> dispatches_for(#[trigger] o1[t], configs, k) == dispatches_for(o2[t], configs, k)
        }),
    decreases steps1.len(),
{
    if steps1.len() > 0 {
        let p1 = steps1.drop_last();
        let p2 = steps2.drop_last();
        lemma_keys_independent_run(configs, m1, m2, p1, p2, k);
        let (a1, o1) = run(configs, m1, p1);
        let (a2, o2) = run(configs, m2, p2);
        let last = steps1.len() - 1;
        assert(steps1.last() == steps1[last]);
        assert(steps2.last() == steps2[last]);
        assert forall|i: int| 0 <= i < configs.len() && (#[trigger] configs[i]).key_code == k
            implies steps1[last].0[i] == steps2[last].0[i] by {
            assert(steps1[last].0[i] == steps2[last].0[i]);
        }
        lemma_keys_independent(configs, a1, a2, steps1[last].0, steps2[last].0, steps1[last].1, k);
        let (f1, n1) = run(configs, m1, steps1);
        let (f2, n2) = run(configs, m2, steps2);
        assert forall|t: int| 0 <= t < n1.len()
            implies dispatches_for(#[trigger] n1[t], configs, k) == dispatches_for(n2[t], configs, k) by {
            if t < o1.len() {
                assert(n1[t] == o1[t]);
                assert(n2[t] == o2[t]);
            }
        }
    }
}

/// Readings of one key applied one after another, each a pressure and its
/// time; gives the final gesture and what each reading dispatched.
pub open spec fn key_run<A>(config: KeyConfig<A>, s: KeyStateView, samples: Seq<(u32, u64)>) -> (KeyStateView, Seq<Option<usize>>)
    decreases samples.len(),
{
    if samples.len() == 0 {
        (s, Seq::empty())
    } else {
        let (s1, out) = key_run(config, s, samples.drop_last());
        let (s2, d) = key_step(config, s1, samples.last().0, samples.last().1);
        (s2, out.push(d))
    }
}

/// Reading `j` is the first one at least `window` milliseconds after `since`.
pub open spec fn first_due(samples: Seq<(u32, u64)>, since: u64, window: u64, j: int) -> bool {
    &&& elapsed(since, samples[j].1) >= window
    &&& forall|l: int| 0 <= l < j ==> elapsed(since, (#[trigger] samples[l]).1) < window
}

/// A key at rest after a release, waiting on the debounce window: the
/// gesture of `s0` with only the last pressure changed, still not pressed.
pub open spec fn waiting_as(s: KeyStateView, s0: KeyStateView, threshold: u32) -> bool {
    &&& s.events == s0.events
    &&& s.last_pressed == s0.last_pressed
    &&& s.last_released == s0.last_released
    &&& s.last_valid_pattern_index == s0.last_valid_pattern_index
    &&& s.last_pressure <= threshold
}

/// A key with no gesture under way, not pressed.
pub open spec fn quiet(s: KeyStateView, threshold: u32) -> bool {
    &&& s.events.len() == 0
    &&& s.last_pressed is None
    &&& s.last_released is None
    &&& s.last_valid_pattern_index is None
    &&& s.last_pressure <= threshold
}

proof fn lemma_debounce_run<A>(config: KeyConfig<A>, s0: KeyStateView, samples: Seq<(u32, u64)>)
    requires
        s0.last_pressed is Some,
        s0.last_released is Some,
        s0.last_pressed->0 <= s0.last_released->0,
        s0.last_valid_pattern_index is Some,
        s0.last_valid_pattern_index->0 < config.patterns@.len(),
        s0.last_pressure <= config.pressure_threshold,
        forall|j: int| 0 <= j < samples.len() ==> (#[trigger] samples[j]).0 <= config.pressure_threshold,
    ensures
        ({
            let (f, out) = key_run(config, s0, samples);
            let since = s0.last_released->0;
            let window = config.debounce_duration;
            &&& out.len() == samples.len()
            &&& forall|j: int| 0 <= j < out.len() ==> #[trigger] out[j] == if first_due(samples, since, window, j) {
                s0.last_valid_pattern_index
            } else {
                None
            }
            &&& (forall|j: int| 0 <= j < samples.len() ==> elapsed(since, (#[trigger] samples[j]).1) < window)
                ==> waiting_as(f, s0, config.pressure_threshold)
            &&& (exists|j: int| 0 <= j < samples.len() && elapsed(since, (#[trigger] samples[j]).1) >= window)
                ==> quiet(f, config.pressure_threshold)
        }),
    decreases samples.len(),
{
    let since = s0.last_released->0;
    let window = config.debounce_duration;
    if samples.len() > 0 {
        let pre = samples.drop_last();
        let n = samples.len() - 1;
        lemma_debounce_run(config, s0, pre);
        let (s1, out1) = key_run(config, s0, pre);
        let (f, out) = key_run(config, s0, samples);
        assert(samples.last() == samples[n]);
        assert forall|j: int| 0 <= j < n implies first_due(pre, since, window, j) == first_due(samples, since, window, j) by {
            assert(pre[j] == samples[j]);
            assert forall|l: int| 0 <= l < j implies pre[l] == samples[l] by {}
        }
        if forall|j: int| 0 <= j < pre.len() ==> elapsed(since, (#[trigger] pre[j]).1) < window {
            assert forall|l: int| 0 <= l < n implies elapsed(since, (#[trigger] samples[l]).1) < window by {
                assert(pre[l] == samples[l]);
            }
            if elapsed(since, samples[n].1) >= window {
                assert(first_due(samples, since, window, n));
            } else {
                assert(!first_due(samples, since, window, n));
                assert forall|j: int| 0 <= j < samples.len() implies elapsed(since, (#[trigger] samples[j]).1) < window by {
                    if j < n {
                        assert(pre[j] == samples[j]);
                    }
                }
            }
        } else {
            let w = choose|j: int| 0 <= j < pre.len() && elapsed(since, (#[trigger] pre[j]).1) >= window;
            assert(pre[w] == samples[w]);
            assert(!first_due(samples, since, window, n));
            assert(exists|j: int| 0 <= j < samples.len() && elapsed(since, (#[trigger] samples[j]).1) >= window);
        }
        assert forall|j: int| 0 <= j < out.len() implies #[trigger] out[j] == if first_due(samples, since, window, j) {
            s0.last_valid_pattern_index
        } else {
            None
        } by {
            if j < n {
                assert(out[j] == out1[j]);
            }
        }
        if forall|j: int| 0 <= j < samples.len() ==> elapsed(since, (#[trigger] samples[j]).1) < window {
            assert forall|j: int| 0 <= j < pre.len() implies elapsed(since, (#[trigger] pre[j]).1) < window by {
                assert(pre[j] == samples[j]);
            }
        }
    }
}

/// Debounce resolves a pending match exactly once: from a key at rest after
/// a release, with a remembered binding and readings that keep it at rest,
/// that binding is dispatched at the first reading at least the debounce
/// window after the release and at no other; from then on the key is idle.
pub proof fn lemma_debounce_fires_once<A>(config: KeyConfig<A>, s0: KeyStateView, samples: Seq<(u32, u64)>)
    requires
        s0.last_pressed is Some,
        s0.last_released is Some,
        s0.last_pressed->0 <= s0.last_released->0,
        s0.last_valid_pattern_index is Some,
        s0.last_valid_pattern_index->0 < config.patterns@.len(),
        s0.last_pressure <= config.pressure_threshold,
        forall|j: int| 0 <= j < samples.len() ==> (#[trigger] samples[j]).0 <= config.pressure_threshold,
    ensures
        ({
            let (f, out) = key_run(config, s0, samples);
            let since = s0.last_released->0;
            let window = config.debounce_duration;
            &&& out.len() == samples.len()
            &&& forall|j: int| 0 <= j < out.len() ==> #[trigger] out[j] == if first_due(samples, since, window, j) {
                s0.last_valid_pattern_index
            } else {
                None
            }
            &&& (exists|j: int| 0 <= j < samples.len() && elapsed(since, (#[trigger] samples[j]).1) >= window)
                ==> f.events.len() == 0 && f.last_pressed is None && f.last_released is None
        }),
{
    lemma_debounce_run(config, s0, samples);
}

/// A second short tap that starts inside the debounce window settles the
/// ambiguity: with a single-tap and a double-tap binding, a key waiting after
/// one short tap dispatches the double-tap binding at the second release,
/// never the single-tap one, and goes idle.
pub proof fn lemma_second_tap_resolves<A>(
    config: KeyConfig<A>,
    s0: KeyStateView,
    down: (u32, u64),
    up: (u32, u64),
)
    requires
        config.tap_ranges@ == seq![TapRange::short_spec(), TapRange::long_spec()],
        config.patterns@.len() == 2,
        config.patterns@[0].sequence.sequence@ == seq![TapDuration::Short],
        config.patterns@[1].sequence.sequence@ == seq![TapDuration::Short, TapDuration::Short],
        s0.events.len() == 1,
        s0.events[0].tap.tap_type == TapDuration::Short,
        s0.last_pressed is Some,
        s0.last_released is Some,
        s0.last_pressed->0 <= s0.last_released->0,
        s0.last_valid_pattern_index == Some(0usize),
        s0.last_pressure <= config.pressure_threshold,
        down.0 > config.pressure_threshold,
        elapsed(s0.last_released->0, down.1) < config.debounce_duration,
        up.0 <= config.pressure_threshold,
        elapsed(down.1, up.1) <= SHORT_TAP_MAX_MS,
    ensures
        ({
            let (f, out) = key_run(config, s0, seq![down, up]);
            &&& out == seq![None, Some(1usize)]
            &&& f.events.len() == 0
            &&& f.last_pressed is None
            &&& f.last_released is None
        }),
{
    let samples = seq![down, up];
    assert(samples.drop_last() =~= seq![down]);
    assert(seq![down].drop_last() =~= Seq::<(u32, u64)>::empty());
    let (s1, d1) = key_step(config, s0, down.0, down.1);
    assert(d1 is None);
    assert(s1.events == s0.events);
    assert(s1.last_pressure == down.0);
    let d = elapsed(down.1, up.1);
    let ranges = config.tap_ranges@;
    assert(in_range(d, ranges[0]));
    assert(classify(d, ranges) == TapDuration::Short);
    let tap = Tap { duration: d, pressure: up.0, tap_type: TapDuration::Short };
    let events = s1.events.push(TapEvent { tap });
    let observed = event_categories(events);
    assert(observed =~= seq![TapDuration::Short, TapDuration::Short]);
    let pats = config.patterns@;
    assert(!categories_equal(observed, pats[0].sequence.sequence@));
    assert(categories_equal(observed, pats[1].sequence.sequence@));
    assert(first_match_from(pats, observed, 1) == Some(1int));
    assert(first_matching(pats, observed) == Some(1int));
    assert forall|i: int| 0 <= i < pats.len() implies !extends(#[trigger] pats[i].sequence.sequence@, observed) by {}
    assert(!has_longer(pats, observed));
    let (s2, d2) = key_step(config, s1, up.0, up.1);
    assert(d2 == Some(1usize));
    assert(key_run(config, s0, Seq::<(u32, u64)>::empty()) == (s0, Seq::<Option<usize>>::empty()));
    assert(seq![down].last() == down);
    assert(Seq::<Option<usize>>::empty().push(d1) =~= seq![d1]);
    assert(key_run(config, s0, seq![down]) == (s1, seq![d1]));
    assert(samples.last() == up);
    assert(key_run(config, s0, samples) == (s2, seq![d1].push(d2)));
    assert(seq![d1].push(d2) =~= seq![None, Some(1usize)]);
}

} // verus!
