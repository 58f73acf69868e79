use mudras::input::utils::{has_any_mod, has_released, KeyState, KeyboardState, State};

fn state_of(keys: Vec<(u16, KeyState)>) -> State {
    let mut state = State::new();
    for (key, value) in keys {
        state.insert(key, value);
    }
    state
}

#[test]
fn a_new_state_is_empty() {
    let state = State::new();
    assert_eq!(state.len(), 0);
    assert_eq!(state.get(30), None);
    assert!(!state.contains_key(30));
    assert_eq!(State::default(), state);
    assert_eq!(KeyState::default(), KeyState::Undefined);
    let keyboard = KeyboardState::default();
    assert_eq!(keyboard.current.keys, Vec::new());
    assert_eq!(keyboard.previous.keys, Vec::new());
}

#[test]
fn insert_keeps_the_keys_ascending_and_overwrites() {
    let mut state = State::new();
    state.insert(125, KeyState::Pressed);
    state.insert(20, KeyState::Pressed);
    state.insert(57, KeyState::Released);
    assert_eq!(
        state.keys,
        vec![(20, KeyState::Pressed), (57, KeyState::Released), (125, KeyState::Pressed)]
    );
    state.insert(20, KeyState::Released);
    assert_eq!(
        state.keys,
        vec![(20, KeyState::Released), (57, KeyState::Released), (125, KeyState::Pressed)]
    );
    assert_eq!(state.len(), 3);
    assert_eq!(state.get(57), Some(KeyState::Released));
    assert_eq!(state.get(125), Some(KeyState::Pressed));
    assert_eq!(state.get(58), None);
    assert!(state.contains_key(20));
    assert!(!state.contains_key(0));
}

#[test]
fn pruning_drops_the_released_keys() {
    let state = state_of(vec![
        (1, KeyState::Released),
        (20, KeyState::Pressed),
        (57, KeyState::Released),
        (125, KeyState::Pressed),
        (126, KeyState::Undefined),
    ]);
    assert_eq!(
        state.pruned().keys,
        vec![(20, KeyState::Pressed), (125, KeyState::Pressed), (126, KeyState::Undefined)]
    );
    assert_eq!(State::new().pruned().keys, Vec::new());
    assert_eq!(state.snapshot(), state);
}

#[test]
fn previous_is_current_as_it_was_before_the_event() {
    let mut keyboard = KeyboardState::new();
    let events = vec![
        (125u16, KeyState::Pressed),
        (20, KeyState::Pressed),
        (20, KeyState::Released),
        (125, KeyState::Released),
        (30, KeyState::Pressed),
        (30, KeyState::Released),
        (30, KeyState::Released),
    ];
    for (key, value) in events {
        let before = keyboard.current.snapshot();
        keyboard.update(key, value);
        assert_eq!(keyboard.previous, before);
        assert_eq!(keyboard.current.get(key), Some(value));
    }
}

#[test]
fn a_released_key_leaves_with_the_next_event() {
    let mut keyboard = KeyboardState::new();
    keyboard.update(125, KeyState::Pressed);
    keyboard.update(20, KeyState::Pressed);
    assert_eq!(keyboard.current.keys, vec![(20, KeyState::Pressed), (125, KeyState::Pressed)]);
    keyboard.update(20, KeyState::Released);
    assert_eq!(keyboard.current.keys, vec![(20, KeyState::Released), (125, KeyState::Pressed)]);
    assert_eq!(keyboard.previous.keys, vec![(20, KeyState::Pressed), (125, KeyState::Pressed)]);
    keyboard.update(125, KeyState::Released);
    assert_eq!(keyboard.current.keys, vec![(125, KeyState::Released)]);
    assert_eq!(keyboard.previous.keys, vec![(20, KeyState::Released), (125, KeyState::Pressed)]);
    keyboard.update(30, KeyState::Pressed);
    assert_eq!(keyboard.current.keys, vec![(30, KeyState::Pressed)]);
    assert_eq!(keyboard.previous.keys, vec![(125, KeyState::Released)]);
}

#[test]
fn no_stale_release_survives_any_event() {
    let keys: Vec<u16> = vec![1, 20, 30, 125];
    let states = vec![KeyState::Pressed, KeyState::Released];
    for &first in &keys {
        for &second in &keys {
            for &third in &keys {
                for &s2 in &states {
                    for &s3 in &states {
                        let mut keyboard = KeyboardState::new();
                        keyboard.update(first, KeyState::Pressed);
                        keyboard.update(second, s2);
                        let before = keyboard.current.snapshot();
                        keyboard.update(third, s3);
                        for &(key, value) in &before.keys {
                            if value == KeyState::Released && key != third {
                                assert!(!keyboard.current.contains_key(key));
                            }
                        }
                        assert_eq!(keyboard.previous, before);
                    }
                }
            }
        }
    }
}

#[test]
fn a_second_release_of_a_key_keeps_it_released() {
    let mut keyboard = KeyboardState::new();
    keyboard.update(30, KeyState::Released);
    keyboard.update(30, KeyState::Released);
    assert_eq!(keyboard.current.keys, vec![(30, KeyState::Released)]);
    assert_eq!(keyboard.previous.keys, vec![(30, KeyState::Released)]);
}

#[test]
fn a_modifier_counts_pressed_or_released() {
    let state = state_of(vec![(20, KeyState::Pressed), (125, KeyState::Released)]);
    assert!(has_any_mod(&vec![125], &state));
    assert!(has_any_mod(&vec![1, 20], &state));
    assert!(!has_any_mod(&vec![1, 30], &state));
    assert!(!has_any_mod(&Vec::new(), &state));
    assert!(!has_any_mod(&vec![125], &State::new()));
}

#[test]
fn a_release_chord_has_a_released_key() {
    assert!(has_released(&vec![(20, KeyState::Pressed), (125, KeyState::Released)]));
    assert!(!has_released(&vec![(20, KeyState::Pressed), (125, KeyState::Pressed)]));
    assert!(!has_released(&Vec::new()));
}
