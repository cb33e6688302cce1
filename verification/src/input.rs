use vstd::prelude::*;

verus! {

/// What a key press asks the aquarium to do.
#[derive(Clone, Copy, Debug, PartialEq, Eq, Structural)]
pub enum Action {
    Feed,
    AddFish,
    Shark,
    Quit,
}

/// A single thing the loop reacts to: a mapped key action or a terminal resize.
#[derive(Clone, Copy, Debug, PartialEq, Eq)]
pub enum Input {
    Action(Action),
    Resize(u16, u16),
}

/// ASCII lower-casing: upper-case ASCII letters map to their lower-case
/// counterpart, every other character is left alone.
pub open spec fn ascii_lower(c: char) -> char {
    if 'A' <= c && c <= 'Z' {
        ((c as u32) + 32) as char
    } else {
        c
    }
}

/// The action bound to a key, compared without regard to ASCII case.
pub open spec fn key_action(c: char) -> Option<Action> {
    let l = ascii_lower(c);
    if l == 'f' {
        Some(Action::Feed)
    } else if l == 'a' {
        Some(Action::AddFish)
    } else if l == 's' {
        Some(Action::Shark)
    } else if l == 'q' {
        Some(Action::Quit)
    } else {
        None
    }
}

/// Key to action mapping shared by every frontend.
pub fn action_for_key(c: char) -> (res: Option<Action>)
    ensures
        res == key_action(c),
{
    match c {
        'f' | 'F' => Some(Action::Feed),
        'a' | 'A' => Some(Action::AddFish),
        's' | 'S' => Some(Action::Shark),
        'q' | 'Q' => Some(Action::Quit),
        _ => None,
    }
}

/// Keys are matched without regard to ASCII case.
pub proof fn law_keys_ignore_case(c: char)
    ensures
        key_action(c) == key_action(ascii_lower(c)),
{
}

} // verus!
