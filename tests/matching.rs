use smart_media_key::{KeyCode, KeyConfig, Tap, TapDuration, TapEvent, TapSequence};
use std::collections::VecDeque;

fn events(kinds: &[TapDuration]) -> VecDeque<TapEvent> {
    kinds
        .iter()
        .map(|k| TapEvent { tap: Tap { duration: 1, pressure: 0, tap_type: *k } })
        .collect()
}

#[test]
fn matches_needs_equal_length_and_categories() {
    let seq = TapSequence::new(vec![TapDuration::Short, TapDuration::Long]);
    assert!(seq.matches(&events(&[TapDuration::Short, TapDuration::Long])));
    assert!(!seq.matches(&events(&[TapDuration::Long, TapDuration::Short])));
    assert!(!seq.matches(&events(&[TapDuration::Short])));
    assert!(!seq.matches(&events(&[TapDuration::Short, TapDuration::Long, TapDuration::Short])));
}

#[test]
fn empty_sequence_matches_only_no_taps() {
    let seq = TapSequence::new(vec![]);
    assert!(seq.matches(&events(&[])));
    assert!(!seq.matches(&events(&[TapDuration::Short])));
}

#[test]
fn extends_is_strict_prefix() {
    let seq = TapSequence::new(vec![TapDuration::Short, TapDuration::Short]);
    assert!(seq.extends_events(&events(&[TapDuration::Short])));
    assert!(seq.extends_events(&events(&[])));
    assert!(!seq.extends_events(&events(&[TapDuration::Short, TapDuration::Short])));
    assert!(!seq.extends_events(&events(&[TapDuration::Long])));
}

#[test]
fn first_registered_match_wins() {
    let mut config: KeyConfig<u32> = KeyConfig::new(KeyCode::Raw(1));
    config.add_pattern(TapSequence::new(vec![TapDuration::Long]), 10);
    config.add_pattern(TapSequence::new(vec![TapDuration::Short]), 20);
    config.add_pattern(TapSequence::new(vec![TapDuration::Short]), 30);
    assert_eq!(config.find_matching_pattern(&events(&[TapDuration::Short])), Some(1));
    assert_eq!(config.find_matching_pattern(&events(&[TapDuration::Long])), Some(0));
    assert_eq!(config.find_matching_pattern(&events(&[TapDuration::Long, TapDuration::Long])), None);
}

#[test]
fn longer_patterns_detected() {
    let mut config: KeyConfig<u32> = KeyConfig::new(KeyCode::Raw(1));
    config.add_pattern(TapSequence::new(vec![TapDuration::Short]), 1);
    config.add_pattern(TapSequence::new(vec![TapDuration::Short, TapDuration::Short]), 2);
    assert!(config.has_longer_patterns(&events(&[TapDuration::Short])));
    assert!(!config.has_longer_patterns(&events(&[TapDuration::Short, TapDuration::Short])));
    assert!(!config.has_longer_patterns(&events(&[TapDuration::Long])));
}

#[test]
fn add_pattern_appends_in_order() {
    let mut config: KeyConfig<&'static str> = KeyConfig::new(KeyCode::Raw(1));
    config.add_pattern(TapSequence::new(vec![TapDuration::Short]), "play");
    config.add_pattern(TapSequence::new(vec![TapDuration::Long]), "f14");
    assert_eq!(config.patterns.len(), 2);
    assert_eq!(config.patterns[0].action, "play");
    assert_eq!(config.patterns[1].action, "f14");
    assert_eq!(config.patterns[1].sequence.sequence, vec![TapDuration::Long]);
}
