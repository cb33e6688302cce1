use rustzilla::input::{action_for_key, Action};

#[test]
fn maps_known_keys() {
    assert_eq!(action_for_key('f'), Some(Action::Feed));
    assert_eq!(action_for_key('a'), Some(Action::AddFish));
    assert_eq!(action_for_key('s'), Some(Action::Shark));
    assert_eq!(action_for_key('q'), Some(Action::Quit));
}

#[test]
fn unknown_keys_map_to_none() {
    assert_eq!(action_for_key('z'), None);
}

#[test]
fn is_case_insensitive() {
    assert_eq!(action_for_key('Q'), Some(Action::Quit));
}

#[test]
fn every_bound_key_works_in_both_cases() {
    for (lower, upper) in [('f', 'F'), ('a', 'A'), ('s', 'S'), ('q', 'Q')] {
        assert_eq!(action_for_key(lower), action_for_key(upper));
        assert!(action_for_key(lower).is_some());
    }
}

#[test]
fn non_letters_and_other_letters_are_unbound() {
    for c in ['1', ' ', '\n', 'x', 'Z', 'é'] {
        assert_eq!(action_for_key(c), None);
    }
}
