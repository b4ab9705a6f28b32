use smart_media_key::detector::Dispatch;
use smart_media_key::{
    DefaultKeyboardProvider, KeyCode, KeyConfig, KeyboardProvider, PatternDetector, TapDuration,
    TapSequence, FULL_PRESSURE,
};

const KEY: KeyCode = KeyCode::Raw(0x68);

fn media_config(key: KeyCode) -> KeyConfig<&'static str> {
    let mut config = KeyConfig::new(key);
    config.add_pattern(TapSequence::new(vec![TapDuration::Short]), "single");
    config.add_pattern(TapSequence::new(vec![TapDuration::Short; 2]), "double");
    config
}

fn detector(configs: Vec<KeyConfig<&'static str>>) -> PatternDetector<DefaultKeyboardProvider, &'static str> {
    let mut d = PatternDetector::new(DefaultKeyboardProvider).expect("initialization succeeds");
    for c in configs {
        d.add_key_config(c);
    }
    d
}

/// Runs single-key ticks and collects the names of the dispatched actions.
fn run(
    d: &mut PatternDetector<DefaultKeyboardProvider, &'static str>,
    script: &[(u64, Option<u32>)],
) -> Vec<&'static str> {
    let mut fired = Vec::new();
    for (now, reading) in script {
        for dispatch in d.tick(&vec![*reading], *now) {
            fired.push(*d.action(dispatch));
        }
    }
    fired
}

const UP: Option<u32> = Some(0);
const DOWN: Option<u32> = Some(FULL_PRESSURE);

#[test]
fn single_short_tap_dispatches_once_after_debounce() {
    let mut d = detector(vec![media_config(KEY)]);
    let fired = run(&mut d, &[(0, UP), (10, DOWN), (100, UP), (200, UP), (399, UP)]);
    assert!(fired.is_empty());
    let fired = run(&mut d, &[(400, UP), (500, UP), (1000, UP), (5000, UP)]);
    assert_eq!(fired, vec!["single"]);
}

#[test]
fn second_tap_before_debounce_dispatches_double_only() {
    let mut d = detector(vec![media_config(KEY)]);
    let fired = run(
        &mut d,
        &[(0, UP), (10, DOWN), (100, UP), (150, DOWN), (250, UP), (600, UP), (2000, UP)],
    );
    assert_eq!(fired, vec!["double"]);
}

#[test]
fn debounce_timeout_fires_and_resets() {
    let mut d = detector(vec![media_config(KEY)]);
    let fired = run(&mut d, &[(0, DOWN), (120, UP), (420, UP)]);
    assert_eq!(fired, vec!["single"]);
    let state = d.key_state(KEY).expect("key was read");
    assert!(state.tap_events.is_empty());
    assert_eq!(state.last_pressed, None);
    assert_eq!(state.last_released, None);
    assert_eq!(state.last_valid_pattern_index, None);
}

#[test]
fn dispatch_clears_gesture_and_next_press_starts_fresh() {
    let mut d = detector(vec![media_config(KEY)]);
    let fired = run(&mut d, &[(0, DOWN), (50, UP), (80, DOWN), (130, UP)]);
    assert_eq!(fired, vec!["double"]);
    let state = d.key_state(KEY).expect("key was read");
    assert!(state.tap_events.is_empty());
    assert_eq!(state.last_pressed, None);
    assert_eq!(state.last_released, None);
    let fired = run(&mut d, &[(140, DOWN), (200, UP), (500, UP)]);
    assert_eq!(fired, vec!["single"]);
}

#[test]
fn debounce_window_is_inclusive() {
    let mut d = detector(vec![media_config(KEY)]);
    assert!(run(&mut d, &[(0, DOWN), (100, UP), (399, UP)]).is_empty());
    assert_eq!(run(&mut d, &[(400, UP)]), vec!["single"]);
}

#[test]
fn held_key_does_not_resolve() {
    let mut d = detector(vec![media_config(KEY)]);
    let fired = run(&mut d, &[(0, DOWN), (100, UP), (200, DOWN), (900, DOWN), (1500, DOWN)]);
    assert!(fired.is_empty());
}

#[test]
fn long_press_dispatches_long_binding() {
    let mut config = media_config(KEY);
    config.add_pattern(TapSequence::new(vec![TapDuration::Long]), "long");
    let mut d = detector(vec![config]);
    let fired = run(&mut d, &[(0, DOWN), (301, DOWN), (302, UP)]);
    assert_eq!(fired, vec!["long"]);
}

#[test]
fn triple_tap_waits_for_third() {
    let mut config = media_config(KEY);
    config.add_pattern(TapSequence::new(vec![TapDuration::Short; 3]), "triple");
    let mut d = detector(vec![config]);
    let fired = run(&mut d, &[(0, DOWN), (50, UP), (100, DOWN), (150, UP), (200, DOWN), (250, UP)]);
    assert_eq!(fired, vec!["triple"]);
    let mut d2 = detector(vec![{
        let mut c = media_config(KEY);
        c.add_pattern(TapSequence::new(vec![TapDuration::Short; 3]), "triple");
        c
    }]);
    let fired = run(&mut d2, &[(0, DOWN), (50, UP), (100, DOWN), (150, UP), (450, UP)]);
    assert_eq!(fired, vec!["double"]);
}

#[test]
fn dead_end_extension_fires_remembered_binding_on_debounce() {
    let mut d = detector(vec![media_config(KEY)]);
    let fired = run(&mut d, &[(0, DOWN), (50, UP), (100, DOWN), (600, UP), (899, UP)]);
    assert!(fired.is_empty());
    assert_eq!(d.key_state(KEY).expect("key was read").tap_events.len(), 2);
    assert_eq!(run(&mut d, &[(900, UP)]), vec!["single"]);
    assert!(d.key_state(KEY).expect("key was read").tap_events.is_empty());
}

#[test]
fn unmatched_tap_is_cleared_by_debounce_without_dispatch() {
    let mut d = detector(vec![media_config(KEY)]);
    let fired = run(&mut d, &[(0, DOWN), (400, UP), (800, UP)]);
    assert!(fired.is_empty());
    assert!(d.key_state(KEY).expect("key was read").tap_events.is_empty());
}

#[test]
fn empty_binding_is_never_dispatched() {
    let mut config: KeyConfig<&'static str> = KeyConfig::new(KEY);
    config.add_pattern(TapSequence::new(vec![]), "empty");
    let mut d = detector(vec![config]);
    let fired = run(&mut d, &[(0, UP), (10, DOWN), (50, UP), (1000, UP)]);
    assert!(fired.is_empty());
}

#[test]
fn threshold_decides_pressed() {
    let mut config = media_config(KEY);
    config.pressure_threshold = 500;
    let mut d = detector(vec![config]);
    assert!(run(&mut d, &[(0, Some(400)), (50, Some(0)), (1000, Some(0))]).is_empty());
    assert_eq!(run(&mut d, &[(2000, Some(501)), (2050, Some(500)), (2400, Some(0))]), vec!["single"]);
}

#[test]
fn failed_read_keeps_gesture() {
    let mut d = detector(vec![media_config(KEY)]);
    let fired = run(
        &mut d,
        &[(0, DOWN), (40, None), (60, UP), (90, None), (100, DOWN), (120, None), (150, UP)],
    );
    assert_eq!(fired, vec!["double"]);
}

#[test]
fn failed_read_changes_nothing() {
    let mut d = detector(vec![media_config(KEY)]);
    run(&mut d, &[(0, DOWN), (60, UP)]);
    let before = d.key_state(KEY).expect("key was read").tap_events.len();
    assert!(run(&mut d, &[(1000, None), (2000, None)]).is_empty());
    let state = d.key_state(KEY).expect("key was read");
    assert_eq!(state.tap_events.len(), before);
    assert_eq!(state.last_released, Some(60));
    assert_eq!(run(&mut d, &[(2001, UP)]), vec!["single"]);
}

#[test]
fn state_created_on_first_successful_read() {
    let mut d = detector(vec![media_config(KEY)]);
    assert!(d.key_state(KEY).is_none());
    run(&mut d, &[(0, None)]);
    assert!(d.key_state(KEY).is_none());
    run(&mut d, &[(5, UP)]);
    assert!(d.key_state(KEY).is_some());
}

#[test]
fn keys_are_independent() {
    let a = KeyCode::Raw(1);
    let b = KeyCode::Raw(2);
    let mut ca: KeyConfig<&'static str> = KeyConfig::new(a);
    ca.add_pattern(TapSequence::new(vec![TapDuration::Short]), "a-single");
    ca.add_pattern(TapSequence::new(vec![TapDuration::Short; 2]), "a-double");
    let mut cb: KeyConfig<&'static str> = KeyConfig::new(b);
    cb.add_pattern(TapSequence::new(vec![TapDuration::Short]), "b-single");
    cb.add_pattern(TapSequence::new(vec![TapDuration::Long]), "b-long");
    let mut d = detector(vec![ca, cb]);
    let script: [(u64, [Option<u32>; 2]); 6] = [
        (0, [DOWN, UP]),
        (50, [UP, DOWN]),
        (100, [DOWN, DOWN]),
        (150, [UP, DOWN]),
        (200, [UP, UP]),
        (600, [UP, UP]),
    ];
    let mut fired: Vec<(usize, &'static str)> = Vec::new();
    for (now, readings) in script.iter() {
        for dispatch in d.tick(&readings.to_vec(), *now) {
            fired.push((dispatch.config, *d.action(dispatch)));
        }
    }
    assert_eq!(fired, vec![(0, "a-double"), (1, "b-single")]);
}

#[test]
fn configs_for_same_key_share_gesture() {
    let mut first: KeyConfig<&'static str> = KeyConfig::new(KEY);
    first.add_pattern(TapSequence::new(vec![TapDuration::Long]), "first-long");
    let second = media_config(KEY);
    let mut d = detector(vec![first, second]);
    let mut fired = Vec::new();
    for (now, r) in [(0, DOWN), (50, UP), (400, UP)] {
        for dispatch in d.tick(&vec![r, r], now) {
            fired.push(dispatch);
        }
    }
    assert!(fired.is_empty());
}

#[test]
fn tick_reports_config_and_pattern_indices() {
    let mut d = detector(vec![media_config(KEY)]);
    let mut all = Vec::new();
    for (now, r) in [(0, DOWN), (50, UP), (60, DOWN), (90, UP)] {
        all.extend(d.tick(&vec![r], now));
    }
    assert_eq!(all, vec![Dispatch { config: 0, pattern: 1 }]);
}

#[test]
fn poll_reads_through_provider() {
    let mut d = detector(vec![media_config(KEY), media_config(KeyCode::Wooting(0x68))]);
    assert!(d.poll(0).is_empty());
    assert!(d.key_state(KEY).is_some());
    assert!(d.key_state(KeyCode::Wooting(0x68)).is_none());
}

#[test]
fn initialization_error_is_returned() {
    let r: Result<PatternDetector<DefaultKeyboardProvider, u32>, String> =
        PatternDetector::with_initialization(DefaultKeyboardProvider, Err("no device".to_string()));
    assert_eq!(r.err(), Some("no device".to_string()));
    let ok: Result<PatternDetector<DefaultKeyboardProvider, u32>, String> =
        PatternDetector::with_initialization(DefaultKeyboardProvider, Ok(()));
    let ok = ok.expect("initialization succeeded");
    assert!(ok.is_running());
    assert!(ok.configs.is_empty());
}

#[test]
fn stop_clears_running_flag() {
    let mut d = detector(vec![media_config(KEY)]);
    assert!(d.is_running());
    d.stop();
    assert!(!d.is_running());
    assert_eq!(d.configs.len(), 1);
}

#[test]
fn default_provider_reads_raw_keys_only() {
    let p = DefaultKeyboardProvider;
    assert_eq!(p.initialize(), Ok(()));
    assert_eq!(p.read_key_pressure(KeyCode::Raw(3)), Ok(0));
    assert_eq!(
        p.read_key_pressure(KeyCode::Wooting(3)),
        Err("Invalid key type for keyboard".to_string())
    );
}

#[test]
fn key_code_from_raw_number() {
    assert_eq!(KeyCode::from(0x68u16), KeyCode::Raw(0x68));
}
