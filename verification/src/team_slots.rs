//! The slots of the teams of a match: each slot constraint stands for one
//! position in every team, and records in which teams it is still free.

use vstd::prelude::*;

use crate::matchmaker::QueueTank;
use crate::tank::TankClass;
use crate::matchmaker::TankSubClass;
use crate::team_mask::{lemma_empty_set, team_free, within_teams};

verus! {

/// An equal constraint for all teams when searching tanks that fits.
#[derive(Debug, Clone, Copy)]
pub(crate) struct TeamSlotConstraints {
    /// Bit vector that defines in which teams this slot is still free.
    pub(crate) free_teams: u32,
    /// The tier constraint for that slot.
    pub(crate) tier: u8,
    /// The class constraint for that slot.
    pub(crate) class: Option<TankClass>,
    /// The subclass constraint for that slot.
    pub(crate) sub_class: Option<TankSubClass>,
}

/// A tank of the queue chosen for a slot of a team.
#[derive(Debug, Clone, Copy)]
pub(crate) struct TeamSlot {
    pub(crate) team_index: usize,
    pub(crate) tank_index: usize,
}

/// A slot constraint stays within the teams and within the tier range.
pub(crate) open spec fn constraint_ok(c: TeamSlotConstraints, n: int, min_tier: u8, max_tier: u8) -> bool {
    &&& within_teams(c.free_teams, n)
    &&& min_tier <= c.tier <= max_tier
}

/// The number of slot constraints in which team `team` is already taken.
pub(crate) open spec fn taken_in(cs: Seq<TeamSlotConstraints>, team: int) -> nat
    decreases cs.len(),
{
    if cs.len() == 0 {
        0
    } else {
        taken_in(cs.drop_last(), team) + if team_free(cs.last().free_teams, team) {
            0nat
        } else {
            1nat
        }
    }
}

/// The number of slots given to team `team`.
pub(crate) open spec fn slots_of_team(slots: Seq<TeamSlot>, team: int) -> nat
    decreases slots.len(),
{
    if slots.len() == 0 {
        0
    } else {
        slots_of_team(slots.drop_last(), team) + if slots.last().team_index == team {
            1nat
        } else {
            0nat
        }
    }
}

/// The slots given to the teams below `n`.
pub(crate) open spec fn slots_below(slots: Seq<TeamSlot>, n: int) -> nat
    decreases n,
{
    if n <= 0 {
        0
    } else {
        slots_below(slots, n - 1) + slots_of_team(slots, n - 1)
    }
}

pub(crate) proof fn lemma_taken_update(cs: Seq<TeamSlotConstraints>, i: int, c: TeamSlotConstraints, team: int)
    requires
        0 <= i < cs.len(),
    ensures
        taken_in(cs.update(i, c), team) + (if team_free(cs[i].free_teams, team) {
            0nat
        } else {
            1nat
        }) == taken_in(cs, team) + if team_free(c.free_teams, team) {
            0nat
        } else {
            1nat
        },
    decreases cs.len(),
{
    if i == cs.len() - 1 {
        assert(cs.update(i, c).drop_last() == cs.drop_last());
    } else {
        lemma_taken_update(cs.drop_last(), i, c, team);
        assert(cs.update(i, c).drop_last() == cs.drop_last().update(i, c));
    }
}

pub(crate) proof fn lemma_taken_bounded(cs: Seq<TeamSlotConstraints>, team: int)
    ensures
        taken_in(cs, team) <= cs.len(),
    decreases cs.len(),
{
    if cs.len() > 0 {
        lemma_taken_bounded(cs.drop_last(), team);
    }
}

pub(crate) proof fn lemma_taken_none(cs: Seq<TeamSlotConstraints>, team: int)
    requires
        forall|c: int| 0 <= c < cs.len() ==> team_free(#[trigger] cs[c].free_teams, team),
    ensures
        taken_in(cs, team) == 0,
    decreases cs.len(),
{
    if cs.len() > 0 {
        lemma_taken_none(cs.drop_last(), team);
        assert(team_free(cs[cs.len() - 1].free_teams, team));
    }
}

pub(crate) proof fn lemma_slots_below_push(slots: Seq<TeamSlot>, s: TeamSlot, n: int)
    ensures
        slots_below(slots.push(s), n) == slots_below(slots, n) + if 0 <= s.team_index < n {
            1nat
        } else {
            0nat
        },
    decreases n,
{
    if n > 0 {
        lemma_slots_below_push(slots, s, n - 1);
        assert(slots.push(s).drop_last() == slots);
    }
}

pub(crate) proof fn lemma_slots_below_empty(slots: Seq<TeamSlot>, n: int)
    requires
        slots.len() == 0,
    ensures
        slots_below(slots, n) == 0,
    decreases n,
{
    if n > 0 {
        lemma_slots_below_empty(slots, n - 1);
    }
}

/// When every slot goes to a team below `n`, the teams below `n` share all of
/// them.
pub(crate) proof fn lemma_slots_below_all(slots: Seq<TeamSlot>, n: int)
    requires
        forall|s: int| 0 <= s < slots.len() ==> #[trigger] slots[s].team_index < n,
    ensures
        slots_below(slots, n) == slots.len(),
    decreases slots.len(),
{
    if slots.len() == 0 {
        lemma_slots_below_empty(slots, n);
    } else {
        let t = slots.drop_last();
        assert forall|s: int| 0 <= s < t.len() implies #[trigger] t[s].team_index < n by {
            assert(t[s] == slots[s]);
        }
        lemma_slots_below_all(t, n);
        lemma_slots_below_push(t, slots.last(), n);
        assert(t.push(slots.last()) == slots);
    }
}

/// When every team below `m` holds `size` slots, they hold `m * size`.
pub(crate) proof fn lemma_slots_below_uniform(slots: Seq<TeamSlot>, m: int, size: int)
    requires
        0 <= m,
        forall|j: int| 0 <= j < m ==> slots_of_team(slots, j) == size,
    ensures
        slots_below(slots, m) == m * size,
    decreases m,
{
    if m > 0 {
        lemma_slots_below_uniform(slots, m - 1, size);
        assert((m - 1) * size + size == m * size) by (nonlinear_arith);
    } else {
        assert(m * size == 0) by (nonlinear_arith)
            requires
                m == 0,
        ;
    }
}

/// A team taken in every slot constraint is taken as many times as there are
/// constraints.
pub(crate) proof fn lemma_taken_all(cs: Seq<TeamSlotConstraints>, team: int)
    requires
        forall|c: int| 0 <= c < cs.len() ==> !team_free(#[trigger] cs[c].free_teams, team),
    ensures
        taken_in(cs, team) == cs.len(),
    decreases cs.len(),
{
    if cs.len() > 0 {
        lemma_taken_all(cs.drop_last(), team);
        assert(!team_free(cs[cs.len() - 1].free_teams, team));
    }
}

/// When no slot constraint has a free team left, the slots given to the
/// teams below `n` are `n` per constraint.
pub(crate) proof fn lemma_all_taken_fills(slots: Seq<TeamSlot>, cs: Seq<TeamSlotConstraints>, n: int)
    requires
        0 <= n,
        forall|s: int| 0 <= s < slots.len() ==> #[trigger] slots[s].team_index < n,
        forall|c: int| 0 <= c < cs.len() ==> #[trigger] cs[c].free_teams == 0,
        forall|j: int| 0 <= j < n ==> slots_of_team(slots, j) == taken_in(cs, j),
    ensures
        slots.len() == n * cs.len(),
{
    assert forall|j: int| 0 <= j < n implies slots_of_team(slots, j) == cs.len() by {
        assert forall|c: int| 0 <= c < cs.len() implies !team_free(#[trigger] cs[c].free_teams, j) by {
            assert(cs[c].free_teams == 0);
            lemma_empty_set(j);
        }
        lemma_taken_all(cs, j);
    }
    lemma_slots_below_uniform(slots, n, cs.len() as int);
    lemma_slots_below_all(slots, n);
}

/// When none of the teams below `m` holds more than `size` slots, they hold
/// at most `m * size`, and less when one of them holds less.
pub(crate) proof fn lemma_slots_below_bound(slots: Seq<TeamSlot>, m: int, size: int, short: int)
    requires
        0 <= m,
        forall|j: int| 0 <= j < m ==> slots_of_team(slots, j) <= size,
    ensures
        slots_below(slots, m) <= m * size,
        0 <= short < m && slots_of_team(slots, short) < size ==> slots_below(slots, m) < m * size,
    decreases m,
{
    if m > 0 {
        lemma_slots_below_bound(slots, m - 1, size, short);
        assert((m - 1) * size + size == m * size) by (nonlinear_arith);
    } else {
        assert(m * size == 0) by (nonlinear_arith)
            requires
                m == 0,
        ;
    }
}

/// The number of slot constraints of tier `tier` in which team `team` is
/// already taken.
pub(crate) open spec fn taken_tier_in(cs: Seq<TeamSlotConstraints>, team: int, tier: u8) -> nat
    decreases cs.len(),
{
    if cs.len() == 0 {
        0
    } else {
        taken_tier_in(cs.drop_last(), team, tier) + if cs.last().tier == tier && !team_free(
            cs.last().free_teams,
            team,
        ) {
            1nat
        } else {
            0nat
        }
    }
}

/// The number of slot constraints of tier `tier`.
pub(crate) open spec fn constraints_of_tier(cs: Seq<TeamSlotConstraints>, tier: u8) -> nat
    decreases cs.len(),
{
    if cs.len() == 0 {
        0
    } else {
        constraints_of_tier(cs.drop_last(), tier) + if cs.last().tier == tier {
            1nat
        } else {
            0nat
        }
    }
}

/// The number of slots given to team `team` for a tank of tier `tier`.
pub(crate) open spec fn slots_of_team_tier<'reg>(
    slots: Seq<TeamSlot>,
    queue: Seq<QueueTank<'reg>>,
    team: int,
    tier: u8,
) -> nat
    decreases slots.len(),
{
    if slots.len() == 0 {
        0
    } else {
        slots_of_team_tier(slots.drop_last(), queue, team, tier) + if slots.last().team_index == team
            && queue[slots.last().tank_index as int].tank.spec_tier() == tier {
            1nat
        } else {
            0nat
        }
    }
}

pub(crate) proof fn lemma_taken_tier_update(
    cs: Seq<TeamSlotConstraints>,
    i: int,
    c: TeamSlotConstraints,
    team: int,
    tier: u8,
)
    requires
        0 <= i < cs.len(),
    ensures
        taken_tier_in(cs.update(i, c), team, tier) + (if cs[i].tier == tier && !team_free(
            cs[i].free_teams,
            team,
        ) {
            1nat
        } else {
            0nat
        }) == taken_tier_in(cs, team, tier) + if c.tier == tier && !team_free(c.free_teams, team) {
            1nat
        } else {
            0nat
        },
    decreases cs.len(),
{
    if i == cs.len() - 1 {
        assert(cs.update(i, c).drop_last() == cs.drop_last());
    } else {
        lemma_taken_tier_update(cs.drop_last(), i, c, team, tier);
        assert(cs.update(i, c).drop_last() == cs.drop_last().update(i, c));
    }
}

pub(crate) proof fn lemma_taken_tier_none(cs: Seq<TeamSlotConstraints>, team: int, tier: u8)
    requires
        forall|c: int| 0 <= c < cs.len() ==> team_free(#[trigger] cs[c].free_teams, team),
    ensures
        taken_tier_in(cs, team, tier) == 0,
    decreases cs.len(),
{
    if cs.len() > 0 {
        lemma_taken_tier_none(cs.drop_last(), team, tier);
        assert(team_free(cs[cs.len() - 1].free_teams, team));
    }
}

/// When a team is taken in every slot constraint, it is taken in all the
/// constraints of each tier.
pub(crate) proof fn lemma_taken_everywhere(cs: Seq<TeamSlotConstraints>, team: int, tier: u8)
    requires
        taken_in(cs, team) == cs.len(),
    ensures
        taken_tier_in(cs, team, tier) == constraints_of_tier(cs, tier),
    decreases cs.len(),
{
    if cs.len() > 0 {
        lemma_taken_bounded(cs.drop_last(), team);
        lemma_taken_everywhere(cs.drop_last(), team, tier);
    }
}

/// Slot constraint `c` counts for team `team` and this tier, class and role:
/// team `team` is taken in it, and it holds them.
pub(crate) open spec fn kind_taken(
    c: TeamSlotConstraints,
    team: int,
    tier: u8,
    class: TankClass,
    sub_class: TankSubClass,
) -> bool {
    &&& c.tier == tier
    &&& c.class == Some(class)
    &&& c.sub_class == Some(sub_class)
    &&& !team_free(c.free_teams, team)
}

/// The number of slot constraints of this tier, class and role in which team
/// `team` is already taken.
pub(crate) open spec fn taken_kind_in(
    cs: Seq<TeamSlotConstraints>,
    team: int,
    tier: u8,
    class: TankClass,
    sub_class: TankSubClass,
) -> nat
    decreases cs.len(),
{
    if cs.len() == 0 {
        0
    } else {
        taken_kind_in(cs.drop_last(), team, tier, class, sub_class) + if kind_taken(
            cs.last(),
            team,
            tier,
            class,
            sub_class,
        ) {
            1nat
        } else {
            0nat
        }
    }
}

/// The number of slot constraints of this tier, class and role.
pub(crate) open spec fn constraints_of_kind(
    cs: Seq<TeamSlotConstraints>,
    tier: u8,
    class: TankClass,
    sub_class: TankSubClass,
) -> nat
    decreases cs.len(),
{
    if cs.len() == 0 {
        0
    } else {
        constraints_of_kind(cs.drop_last(), tier, class, sub_class) + if cs.last().tier == tier
            && cs.last().class == Some(class) && cs.last().sub_class == Some(sub_class) {
            1nat
        } else {
            0nat
        }
    }
}

/// The number of slots given to team `team` for a tank of this tier, class and
/// role.
pub(crate) open spec fn slots_of_team_kind<'reg>(
    slots: Seq<TeamSlot>,
    queue: Seq<QueueTank<'reg>>,
    team: int,
    tier: u8,
    class: TankClass,
    sub_class: TankSubClass,
) -> nat
    decreases slots.len(),
{
    if slots.len() == 0 {
        0
    } else {
        let q = queue[slots.last().tank_index as int];
        slots_of_team_kind(slots.drop_last(), queue, team, tier, class, sub_class) + if slots.last().team_index
            == team && q.tank.spec_tier() == tier && q.tank.spec_class() == class && q.sub_class
            == sub_class {
            1nat
        } else {
            0nat
        }
    }
}

pub(crate) proof fn lemma_taken_kind_update(
    cs: Seq<TeamSlotConstraints>,
    i: int,
    c: TeamSlotConstraints,
    team: int,
    tier: u8,
    class: TankClass,
    sub_class: TankSubClass,
)
    requires
        0 <= i < cs.len(),
    ensures
        taken_kind_in(cs.update(i, c), team, tier, class, sub_class) + (if kind_taken(
            cs[i],
            team,
            tier,
            class,
            sub_class,
        ) {
            1nat
        } else {
            0nat
        }) == taken_kind_in(cs, team, tier, class, sub_class) + if kind_taken(
            c,
            team,
            tier,
            class,
            sub_class,
        ) {
            1nat
        } else {
            0nat
        },
    decreases cs.len(),
{
    if i == cs.len() - 1 {
        assert(cs.update(i, c).drop_last() == cs.drop_last());
    } else {
        lemma_taken_kind_update(cs.drop_last(), i, c, team, tier, class, sub_class);
        assert(cs.update(i, c).drop_last() == cs.drop_last().update(i, c));
    }
}

pub(crate) proof fn lemma_taken_kind_none(
    cs: Seq<TeamSlotConstraints>,
    team: int,
    tier: u8,
    class: TankClass,
    sub_class: TankSubClass,
)
    requires
        forall|c: int| 0 <= c < cs.len() ==> team_free(#[trigger] cs[c].free_teams, team),
    ensures
        taken_kind_in(cs, team, tier, class, sub_class) == 0,
    decreases cs.len(),
{
    if cs.len() > 0 {
        lemma_taken_kind_none(cs.drop_last(), team, tier, class, sub_class);
        assert(team_free(cs[cs.len() - 1].free_teams, team));
    }
}

/// When a team is taken in every slot constraint, and every constraint that a
/// team is taken in has its class and role, the team is taken in all the
/// constraints of each kind.
pub(crate) proof fn lemma_taken_kind_everywhere(
    cs: Seq<TeamSlotConstraints>,
    team: int,
    tier: u8,
    class: TankClass,
    sub_class: TankSubClass,
)
    requires
        taken_in(cs, team) == cs.len(),
        forall|c: int|
            0 <= c < cs.len() && !team_free(cs[c].free_teams, team) ==> (#[trigger] cs[c]).class is Some
                && cs[c].sub_class is Some,
    ensures
        taken_kind_in(cs, team, tier, class, sub_class) == constraints_of_kind(
            cs,
            tier,
            class,
            sub_class,
        ),
    decreases cs.len(),
{
    if cs.len() > 0 {
        let rest = cs.drop_last();
        lemma_taken_bounded(rest, team);
        assert forall|c: int|
            0 <= c < rest.len() && !team_free(rest[c].free_teams, team) implies (
            #[trigger] rest[c]).class is Some && rest[c].sub_class is Some by {
            assert(rest[c] == cs[c]);
        }
        lemma_taken_kind_everywhere(rest, team, tier, class, sub_class);
        assert(cs[cs.len() - 1] == cs.last());
    }
}

/// A slot constraint in which a team is taken knows its class and role.
pub(crate) open spec fn kinds_named(cs: Seq<TeamSlotConstraints>, n: int) -> bool {
    forall|c: int, j: int|
        #![trigger team_free(cs[c].free_teams, j)]
        0 <= c < cs.len() && 0 <= j < n && !team_free(cs[c].free_teams, j) ==> cs[c].class is Some
            && cs[c].sub_class is Some
}

/// The slots of each team and kind are the constraints of that kind in which
/// the team is taken.
pub(crate) open spec fn kinds_counted<'reg>(
    slots: Seq<TeamSlot>,
    queue: Seq<QueueTank<'reg>>,
    cs: Seq<TeamSlotConstraints>,
    n: int,
) -> bool {
    forall|j: int, t: u8, k: TankClass, l: TankSubClass|
        0 <= j < n ==> #[trigger] slots_of_team_kind(slots, queue, j, t, k, l) == taken_kind_in(
            cs,
            j,
            t,
            k,
            l,
        )
}

/// Giving a slot constraint its class, or keeping it, leaves the kinds as
/// they were.
pub(crate) proof fn lemma_kinds_kept<'reg>(
    slots: Seq<TeamSlot>,
    queue: Seq<QueueTank<'reg>>,
    cs: Seq<TeamSlotConstraints>,
    i: int,
    c: TeamSlotConstraints,
    n: int,
    handle_longest_wait: bool,
)
    requires
        0 <= i < cs.len(),
        c.free_teams == cs[i].free_teams,
        c.tier == cs[i].tier,
        c.sub_class == cs[i].sub_class,
        cs[i].class is Some ==> c.class == cs[i].class,
        kinds_named(cs, n),
        !handle_longest_wait ==> kinds_counted(slots, queue, cs, n),
    ensures
        kinds_named(cs.update(i, c), n),
        !handle_longest_wait ==> kinds_counted(slots, queue, cs.update(i, c), n),
{
    let after = cs.update(i, c);
    assert forall|d: int, j: int|
        #![trigger team_free(after[d].free_teams, j)]
        0 <= d < after.len() && 0 <= j < n && !team_free(after[d].free_teams, j) implies after[d].class is Some
        && after[d].sub_class is Some by {
        assert(!team_free(cs[d].free_teams, j));
    }
    if !handle_longest_wait {
        assert forall|j: int, t: u8, k: TankClass, l: TankSubClass|
            0 <= j < n implies #[trigger] slots_of_team_kind(slots, queue, j, t, k, l) == taken_kind_in(
            after,
            j,
            t,
            k,
            l,
        ) by {
            lemma_taken_kind_update(cs, i, c, j, t, k, l);
            if !team_free(cs[i].free_teams, j) {
                assert(cs[i].class is Some);
            }
            assert(kind_taken(cs[i], j, t, k, l) == kind_taken(c, j, t, k, l));
        }
    }
}

/// Taking team `slot.team_index` in a slot constraint that now holds the
/// class and role of the slot's tank counts the slot in that kind.
pub(crate) proof fn lemma_kinds_taken<'reg>(
    slots: Seq<TeamSlot>,
    slot: TeamSlot,
    queue: Seq<QueueTank<'reg>>,
    cs: Seq<TeamSlotConstraints>,
    i: int,
    c: TeamSlotConstraints,
    old_free: u32,
    n: int,
    handle_longest_wait: bool,
)
    requires
        0 <= i < cs.len(),
        0 <= slot.team_index < n,
        slot.tank_index < queue.len(),
        cs[i].free_teams == old_free,
        team_free(old_free, slot.team_index as int),
        forall|j: int| #[trigger]
            team_free(c.free_teams, j) <==> (j != slot.team_index && team_free(old_free, j)),
        c.tier == cs[i].tier,
        c.class is Some,
        c.sub_class is Some,
        cs[i].class is Some ==> c.class == cs[i].class,
        cs[i].sub_class is Some ==> c.sub_class == cs[i].sub_class,
        !handle_longest_wait ==> {
            let q = queue[slot.tank_index as int];
            &&& c.tier == q.tank.spec_tier()
            &&& c.class == Some(q.tank.spec_class())
            &&& c.sub_class == Some(q.sub_class)
        },
        kinds_named(cs, n),
        !handle_longest_wait ==> kinds_counted(slots, queue, cs, n),
    ensures
        kinds_named(cs.update(i, c), n),
        !handle_longest_wait ==> kinds_counted(slots.push(slot), queue, cs.update(i, c), n),
{
    let after = cs.update(i, c);
    assert forall|d: int, j: int|
        #![trigger team_free(after[d].free_teams, j)]
        0 <= d < after.len() && 0 <= j < n && !team_free(after[d].free_teams, j) implies after[d].class is Some
        && after[d].sub_class is Some by {
        if d != i {
            assert(!team_free(cs[d].free_teams, j));
        }
    }
    if !handle_longest_wait {
        assert forall|j: int, t: u8, k: TankClass, l: TankSubClass|
            0 <= j < n implies #[trigger] slots_of_team_kind(slots.push(slot), queue, j, t, k, l)
            == taken_kind_in(after, j, t, k, l) by {
            lemma_taken_kind_update(cs, i, c, j, t, k, l);
            assert(slots.push(slot).drop_last() == slots);
            assert(slots.push(slot).last() == slot);
            if j != slot.team_index && !team_free(cs[i].free_teams, j) {
                assert(cs[i].class is Some);
                assert(cs[i].sub_class is Some);
            }
            assert(slots_of_team_kind(slots, queue, j, t, k, l) == taken_kind_in(cs, j, t, k, l));
        }
    }
}

} // verus!
