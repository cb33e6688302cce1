use vstd::prelude::*;

use crate::entity::Kind;

verus! {

/// The most fish the tank holds; further spawns are a gentle no-op.
pub const MAX_FISH: usize = 30;

/// The fish the tank spawns, in turn.
#[derive(Clone, Copy, Debug, PartialEq, Eq, Structural)]
pub enum Species {
    Googly,
    Cool,
    Upsidedown,
    Ducky,
}

/// The species of the `n`-th fish spawned: the cast comes round in the
/// order Googly, Cool, Upside-down, Ducky.
pub open spec fn species_for(n: int) -> Species {
    let r = n % 4;
    if r == 0 {
        Species::Googly
    } else if r == 1 {
        Species::Cool
    } else if r == 2 {
        Species::Upsidedown
    } else {
        Species::Ducky
    }
}

/// How many entries of `kinds` are `kind`.
pub open spec fn count_of(kinds: Seq<Kind>, kind: Kind) -> nat
    decreases kinds.len(),
{
    if kinds.len() == 0 {
        0
    } else {
        count_of(kinds.drop_last(), kind) + if kinds.last() == kind {
            1nat
        } else {
            0nat
        }
    }
}

/// Appending one entry adds one to its kind's count and leaves the others.
pub proof fn lemma_count_push(kinds: Seq<Kind>, k: Kind, kind: Kind)
    ensures
        count_of(kinds.push(k), kind) == count_of(kinds, kind) + if k == kind {
            1nat
        } else {
            0nat
        },
{
    assert(kinds.push(k).drop_last() =~= kinds);
}

/// The entries of `kinds` whose flag in `dead` is not set, in order.
pub open spec fn survivors(kinds: Seq<Kind>, dead: Seq<bool>) -> Seq<Kind>
    decreases kinds.len(),
{
    if kinds.len() == 0 {
        Seq::empty()
    } else {
        let rest = survivors(kinds.drop_last(), dead.take(kinds.len() - 1));
        if dead[kinds.len() - 1] {
            rest
        } else {
            rest.push(kinds.last())
        }
    }
}

/// The kinds after one request for a fish: one more fish when under the cap.
pub open spec fn with_fish_added(kinds: Seq<Kind>) -> Seq<Kind> {
    if count_of(kinds, Kind::Fish) < MAX_FISH {
        kinds.push(Kind::Fish)
    } else {
        kinds
    }
}

/// The kinds after `n` requests for a fish in a row.
pub open spec fn with_fish_requests(kinds: Seq<Kind>, n: nat) -> Seq<Kind>
    decreases n,
{
    if n == 0 {
        kinds
    } else {
        with_fish_added(with_fish_requests(kinds, (n - 1) as nat))
    }
}

/// The kinds after summoning a shark: one shark more when there is none.
pub open spec fn with_shark_summoned(kinds: Seq<Kind>) -> Seq<Kind> {
    if count_of(kinds, Kind::Shark) == 0 {
        kinds.push(Kind::Shark)
    } else {
        kinds
    }
}

/// The species that follows `s` in the spawn rotation.
pub open spec fn next_species(s: Species) -> Species {
    match s {
        Species::Googly => Species::Cool,
        Species::Cool => Species::Upsidedown,
        Species::Upsidedown => Species::Ducky,
        Species::Ducky => Species::Googly,
    }
}

/// The tank's population: the kind of every entity, in the order they were
/// added, and how many fish it has spawned so far. The tank keeps one entry
/// here per entity it holds.
pub struct Population {
    kinds: Vec<Kind>,
    spawned: usize,
}

impl View for Population {
    type V = (Seq<Kind>, nat);

    /// The kinds in order, and the spawn counter.
    closed spec fn view(&self) -> (Seq<Kind>, nat) {
        (self.kinds@, self.spawned as nat)
    }
}

impl Population {
    /// Fish in the population.
    pub open spec fn fish(&self) -> nat {
        count_of(self@.0, Kind::Fish)
    }

    /// An empty tank that has spawned nothing yet.
    pub fn new() -> (p: Population)
        ensures
            p@.0 == Seq::<Kind>::empty(),
            p@.1 == 0,
    {
        Population { kinds: Vec::new(), spawned: 0 }
    }

    /// Number of entities in the tank.
    pub fn len(&self) -> (n: usize)
        ensures
            n == self@.0.len(),
    {
        self.kinds.len()
    }

    /// Record one more entity of `kind` (the tank adds it last).
    pub fn add(&mut self, kind: Kind)
        ensures
            final(self)@.0 == old(self)@.0.push(kind),
            final(self)@.1 == old(self)@.1,
    {
        self.kinds.push(kind);
    }

    /// How many entities of `kind` the tank holds.
    pub fn count_kind(&self, kind: Kind) -> (n: usize)
        ensures
            n == count_of(self@.0, kind),
    {
        let mut n: usize = 0;
        let mut i: usize = 0;
        while i < self.kinds.len()
            invariant
                i <= self.kinds@.len(),
                n == count_of(self.kinds@.take(i as int), kind),
                n <= i,
            decreases self.kinds@.len() - i,
        {
            assert(self.kinds@.take(i + 1).drop_last() =~= self.kinds@.take(i as int));
            if self.kinds[i] == kind {
                n = n + 1;
            }
            i = i + 1;
        }
        assert(self.kinds@.take(self.kinds@.len() as int) =~= self.kinds@);
        n
    }

    /// How many fish the tank holds.
    pub fn fish_count(&self) -> (n: usize)
        ensures
            n == self.fish(),
    {
        self.count_kind(Kind::Fish)
    }

    /// Spawn a fish if under the cap; a gentle no-op otherwise. The species
    /// comes round in turn with every fish spawned.
    pub fn add_fish(&mut self) -> (spawned: Option<Species>)
        ensures
            final(self)@.0 == with_fish_added(old(self)@.0),
            old(self).fish() >= MAX_FISH ==> spawned is None && final(self)@ == old(self)@,
            old(self).fish() < MAX_FISH ==> {
                &&& spawned == Some(species_for(old(self)@.1 as int))
                &&& final(self)@.0 == old(self)@.0.push(Kind::Fish)
                &&& final(self)@.1 == if old(self)@.1 == usize::MAX {
                    0
                } else {
                    old(self)@.1 + 1
                }
            },
    {
        if self.fish_count() >= MAX_FISH {
            return None;
        }
        let species = match self.spawned % 4 {
            0 => Species::Googly,
            1 => Species::Cool,
            2 => Species::Upsidedown,
            _ => Species::Ducky,
        };
        self.spawned = self.spawned.wrapping_add(1);
        self.kinds.push(Kind::Fish);
        Some(species)
    }

    /// Summon a shark, unless one is already cruising. Returns whether one
    /// was added.
    pub fn summon_shark(&mut self) -> (added: bool)
        ensures
            final(self)@.0 == with_shark_summoned(old(self)@.0),
            added == (count_of(old(self)@.0, Kind::Shark) == 0),
            added ==> final(self)@.0 == old(self)@.0.push(Kind::Shark),
            !added ==> final(self)@.0 == old(self)@.0,
            final(self)@.1 == old(self)@.1,
    {
        if self.count_kind(Kind::Shark) > 0 {
            return false;
        }
        self.kinds.push(Kind::Shark);
        true
    }

    /// Drop the entities flagged dead, keeping the rest in order.
    pub fn retain_alive(&mut self, dead: &Vec<bool>)
        requires
            dead@.len() == old(self)@.0.len(),
        ensures
            final(self)@.0 == survivors(old(self)@.0, dead@),
            final(self)@.1 == old(self)@.1,
    {
        let ghost all = self.kinds@;
        let n = self.kinds.len();
        let mut kept: Vec<Kind> = Vec::new();
        let mut i: usize = 0;
        while i < n
            invariant
                n == all.len(),
                n == dead@.len(),
                all == self.kinds@,
                i <= n,
                kept@ == survivors(all.take(i as int), dead@.take(i as int)),
            decreases n - i,
        {
            assert(all.take(i + 1).drop_last() =~= all.take(i as int));
            assert(dead@.take(i + 1).take(i as int) =~= dead@.take(i as int));
            if !dead[i] {
                kept.push(self.kinds[i]);
            }
            i = i + 1;
        }
        assert(all.take(n as int) =~= all);
        assert(dead@.take(n as int) =~= dead@);
        self.kinds = kept;
    }
}

/// The population cap: however many fish are requested in a row, the tank
/// ends up with one more fish per request until it holds `MAX_FISH`, and
/// never more than that (or than it already had).
pub proof fn law_fish_cap(kinds: Seq<Kind>, n: nat)
    ensures
        count_of(with_fish_requests(kinds, n), Kind::Fish) == if count_of(kinds, Kind::Fish)
            >= MAX_FISH {
            count_of(kinds, Kind::Fish) as int
        } else if count_of(kinds, Kind::Fish) + n <= MAX_FISH {
            (count_of(kinds, Kind::Fish) + n) as int
        } else {
            MAX_FISH as int
        },
    decreases n,
{
    if n > 0 {
        law_fish_cap(kinds, (n - 1) as nat);
        let before = with_fish_requests(kinds, (n - 1) as nat);
        lemma_count_push(before, Kind::Fish, Kind::Fish);
    }
}

/// Requesting a fish never changes how many entities of another kind there are.
pub proof fn law_fish_requests_keep_other_kinds(kinds: Seq<Kind>, n: nat, kind: Kind)
    requires
        kind != Kind::Fish,
    ensures
        count_of(with_fish_requests(kinds, n), kind) == count_of(kinds, kind),
    decreases n,
{
    if n > 0 {
        law_fish_requests_keep_other_kinds(kinds, (n - 1) as nat, kind);
        lemma_count_push(with_fish_requests(kinds, (n - 1) as nat), Kind::Fish, kind);
    }
}

/// One shark at a time: summoning into a shark-free tank adds exactly one,
/// summoning again changes nothing.
pub proof fn law_one_shark(kinds: Seq<Kind>)
    ensures
        count_of(kinds, Kind::Shark) == 0 ==> count_of(with_shark_summoned(kinds), Kind::Shark)
            == 1,
        count_of(kinds, Kind::Shark) > 0 ==> with_shark_summoned(kinds) == kinds,
        with_shark_summoned(with_shark_summoned(kinds)) == with_shark_summoned(kinds),
{
    lemma_count_push(kinds, Kind::Shark, Kind::Shark);
}

/// The spawn rotation: the fish spawned after one of species `s` is
/// `next_species(s)`, also when the spawn counter wraps around.
pub proof fn law_species_rotate(n: nat)
    requires
        n <= usize::MAX,
    ensures
        species_for(if n == usize::MAX {
            0
        } else {
            n + 1int
        }) == next_species(species_for(n as int)),
{
    assert(usize::MAX == 0xffff_ffff || usize::MAX == 0xffff_ffff_ffff_ffff);
    if n == usize::MAX {
        assert((n as int) % 4 == 3);
    }
}

/// Removing the dead keeps exactly the entities not flagged: no more of any
/// kind than before, and everything when nothing is flagged.
pub proof fn law_survivors(kinds: Seq<Kind>, dead: Seq<bool>, kind: Kind)
    requires
        dead.len() == kinds.len(),
    ensures
        count_of(survivors(kinds, dead), kind) <= count_of(kinds, kind),
        (forall|i: int| 0 <= i < dead.len() ==> !#[trigger] dead[i]) ==> survivors(kinds, dead)
            == kinds,
    decreases kinds.len(),
{
    if kinds.len() > 0 {
        let rest = kinds.drop_last();
        let d = dead.take(kinds.len() - 1);
        law_survivors(rest, d, kind);
        lemma_count_push(survivors(rest, d), kinds.last(), kind);
        if forall|i: int| 0 <= i < dead.len() ==> !#[trigger] dead[i] {
            assert forall|i: int| 0 <= i < d.len() implies !#[trigger] d[i] by {
                assert(d[i] == dead[i]);
            }
            assert(!dead[kinds.len() - 1]);
            assert(rest.push(kinds.last()) =~= kinds);
        }
    }
}

/// Removing the dead keeps exactly the unflagged entries, in order: the
/// returned places `ix` are increasing, survivor `j` is entry `ix[j]` of the
/// old population and is not flagged, and every unflagged entry is kept.
pub proof fn law_survivors_are_the_unflagged_entries(kinds: Seq<Kind>, dead: Seq<bool>) -> (ix: Seq<int>)
    requires
        dead.len() == kinds.len(),
    ensures
        ix.len() == survivors(kinds, dead).len(),
        forall|j: int|
            0 <= j < ix.len() ==> 0 <= #[trigger] ix[j] < kinds.len() && !dead[ix[j]] && survivors(
                kinds,
                dead,
            )[j] == kinds[ix[j]],
        forall|j1: int, j2: int| 0 <= j1 < j2 < ix.len() ==> #[trigger] ix[j1] < #[trigger] ix[j2],
        forall|i: int| 0 <= i < kinds.len() && !dead[i] ==> exists|j: int| 0 <= j < ix.len() && #[trigger] ix[j] == i,
    decreases kinds.len(),
{
    if kinds.len() == 0 {
        Seq::empty()
    } else {
        let n = kinds.len() - 1;
        let rest = kinds.drop_last();
        let d = dead.take(n);
        let prev = law_survivors_are_the_unflagged_entries(rest, d);
        assert forall|j: int| 0 <= j < prev.len() implies 0 <= #[trigger] prev[j] < n && !dead[prev[j]]
            && survivors(rest, d)[j] == kinds[prev[j]] by {
            assert(d[prev[j]] == dead[prev[j]]);
        }
        if dead[n] {
            assert forall|i: int| 0 <= i < kinds.len() && !dead[i] implies exists|j: int|
                0 <= j < prev.len() && #[trigger] prev[j] == i by {
                assert(i < n);
                assert(d[i] == dead[i]);
            }
            prev
        } else {
            let ix = prev.push(n);
            let sv = survivors(kinds, dead);
            assert(sv == survivors(rest, d).push(kinds.last()));
            assert forall|j: int| 0 <= j < ix.len() implies 0 <= #[trigger] ix[j] < kinds.len() && !dead[ix[j]]
                && sv[j] == kinds[ix[j]] by {
                if j < prev.len() {
                    assert(ix[j] == prev[j]);
                }
            }
            assert forall|j1: int, j2: int| 0 <= j1 < j2 < ix.len() implies #[trigger] ix[j1]
                < #[trigger] ix[j2] by {
                if j2 < prev.len() {
                    assert(ix[j1] == prev[j1] && ix[j2] == prev[j2]);
                } else {
                    assert(ix[j1] == prev[j1]);
                }
            }
            assert forall|i: int| 0 <= i < kinds.len() && !dead[i] implies exists|j: int|
                0 <= j < ix.len() && #[trigger] ix[j] == i by {
                if i == n {
                    assert(ix[prev.len() as int] == i);
                } else {
                    assert(d[i] == dead[i]);
                    let j = choose|j: int| 0 <= j < prev.len() && #[trigger] prev[j] == i;
                    assert(ix[j] == prev[j]);
                }
            }
            ix
        }
    }
}

/// Removing the dead when exactly one entry is flagged takes out that entry
/// and keeps the rest in order.
pub proof fn law_survivors_remove_the_one_flagged(kinds: Seq<Kind>, dead: Seq<bool>, i: int)
    requires
        dead.len() == kinds.len(),
        0 <= i < kinds.len(),
        dead[i],
        forall|k: int| 0 <= k < dead.len() && k != i ==> !#[trigger] dead[k],
    ensures
        survivors(kinds, dead) == kinds.remove(i),
    decreases kinds.len(),
{
    let n = kinds.len() - 1;
    let rest = kinds.drop_last();
    let d = dead.take(n);
    if i == n {
        law_survivors(rest, d, Kind::Food);
        assert forall|k: int| 0 <= k < d.len() implies !#[trigger] d[k] by {
            assert(d[k] == dead[k]);
        }
        assert(survivors(rest, d) == rest);
        assert(rest =~= kinds.remove(i));
    } else {
        assert forall|k: int| 0 <= k < d.len() && k != i implies !#[trigger] d[k] by {
            assert(d[k] == dead[k]);
        }
        assert(d[i] == dead[i]);
        law_survivors_remove_the_one_flagged(rest, d, i);
        assert(rest.remove(i).push(kinds.last()) =~= kinds.remove(i));
    }
}

} // verus!
