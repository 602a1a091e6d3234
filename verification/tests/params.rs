use markov_chains_bot::params::{apply_update, stored_or_default, GenerationSettings, SettingsUpdate};

fn current() -> GenerationSettings {
    GenerationSettings {
        temperature: 0.75f64.to_bits(),
        temperature_alpha: 0.5f64.to_bits(),
        repeat_penalty: 0.25f64.to_bits(),
        repeat_penalty_window: 8,
        k_normal: 0.9f64.to_bits(),
        min_len: 1,
        max_len: 50,
        no_bigrams: false,
        no_trigrams: false,
    }
}

#[test]
fn update_replaces_given_parameters_only() {
    let update = SettingsUpdate {
        temperature: Some(1.5f64.to_bits()),
        max_len: Some(10),
        no_trigrams: Some(true),
        ..Default::default()
    };
    let next = apply_update(current(), update);
    assert_eq!(f64::from_bits(next.temperature), 1.5);
    assert_eq!(next.max_len, 10);
    assert!(next.no_trigrams);
    assert_eq!(next.temperature_alpha, current().temperature_alpha);
    assert_eq!(next.repeat_penalty_window, 8);
    assert_eq!(next.min_len, 1);
    assert!(!next.no_bigrams);
}

#[test]
fn empty_update_keeps_everything() {
    assert_eq!(apply_update(current(), SettingsUpdate::default()), current());
}

#[test]
fn update_twice_is_update_once() {
    let update = SettingsUpdate { k_normal: Some(0.1f64.to_bits()), min_len: Some(3), ..Default::default() };
    let once = apply_update(current(), update);
    assert_eq!(apply_update(once, update), once);
}

#[test]
fn later_update_wins() {
    let first = SettingsUpdate { min_len: Some(3), max_len: Some(30), ..Default::default() };
    let second = SettingsUpdate { max_len: Some(99), ..Default::default() };
    let r = apply_update(apply_update(current(), first), second);
    assert_eq!(r.min_len, 3);
    assert_eq!(r.max_len, 99);
}

#[test]
fn stored_parameters_or_defaults() {
    let mut other = current();
    other.max_len = 7;
    assert_eq!(stored_or_default(Some(other), current()), other);
    assert_eq!(stored_or_default(None, current()), current());
}
