use rustzilla::entity::Kind;
use rustzilla::tank::{Population, Species, MAX_FISH};

#[test]
fn fish_cap_blocks_extra_spawns() {
    let mut t = Population::new();
    for _ in 0..MAX_FISH + 5 {
        t.add_fish();
    }
    assert_eq!(t.fish_count(), MAX_FISH);
}

#[test]
fn summon_shark_adds_one_and_only_one() {
    let mut t = Population::new();
    t.summon_shark();
    assert_eq!(t.count_kind(Kind::Shark), 1);
    t.summon_shark(); // already present → no-op
    assert_eq!(t.count_kind(Kind::Shark), 1);
}

#[test]
fn spawns_rotate_through_the_cast() {
    let mut t = Population::new();
    let got: Vec<Option<Species>> = (0..6).map(|_| t.add_fish()).collect();
    assert_eq!(
        got,
        vec![
            Some(Species::Googly),
            Some(Species::Cool),
            Some(Species::Upsidedown),
            Some(Species::Ducky),
            Some(Species::Googly),
            Some(Species::Cool),
        ]
    );
}

#[test]
fn capped_spawn_returns_none_and_changes_nothing() {
    let mut t = Population::new();
    for _ in 0..MAX_FISH {
        assert!(t.add_fish().is_some());
    }
    assert_eq!(t.add_fish(), None);
    assert_eq!(t.len(), MAX_FISH);
}

#[test]
fn direct_adds_are_counted_by_kind() {
    let mut t = Population::new();
    t.add(Kind::Food);
    t.add(Kind::Fish);
    t.add(Kind::Food);
    assert_eq!(t.count_kind(Kind::Food), 2);
    assert_eq!(t.fish_count(), 1);
    assert_eq!(t.count_kind(Kind::Shark), 0);
}

#[test]
fn retain_alive_drops_only_the_dead() {
    let mut t = Population::new();
    t.add(Kind::Food);
    t.add(Kind::Fish);
    t.add(Kind::Shark);
    t.retain_alive(&vec![true, false, true]);
    assert_eq!(t.len(), 1);
    assert_eq!(t.fish_count(), 1);
    assert_eq!(t.count_kind(Kind::Food), 0);
    // After removing the shark, a new one may be summoned.
    assert!(t.summon_shark());
    assert!(!t.summon_shark());
}

#[test]
fn spawning_resumes_after_fish_die() {
    let mut t = Population::new();
    for _ in 0..MAX_FISH {
        t.add_fish();
    }
    let mut dead = vec![false; MAX_FISH];
    dead[0] = true;
    t.retain_alive(&dead);
    assert_eq!(t.fish_count(), MAX_FISH - 1);
    assert_eq!(t.add_fish(), Some(Species::Upsidedown)); // the 31st spawn in the rotation
    assert_eq!(t.fish_count(), MAX_FISH);
}
