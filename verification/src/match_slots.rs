//! Slot by slot, teams with the same composition hold the same tanks: within a
//! sorted team the rank of a tank fixes its slot, so teams that hold as many
//! tanks of each rank hold them in the same slots.

use vstd::prelude::*;

use crate::matchmaker::{
    match_sorted, match_tank_lt, same_class_slots, same_kinds_in_teams, same_tier_slots,
    same_tiers_in_teams, slot_of, team_kind_count, team_tier_count, MatchTank, TankSubClass,
};
use crate::tank::{class_rank, TankClass};

verus! {

/// The number of elements of `s` for which `p` holds.
spec fn count_where<'reg>(s: Seq<MatchTank<'reg>>, p: spec_fn(MatchTank<'reg>) -> bool) -> nat
    decreases s.len(),
{
    if s.len() == 0 {
        0
    } else {
        count_where(s.drop_last(), p) + if p(s.last()) {
            1nat
        } else {
            0nat
        }
    }
}

/// The tanks of team `team` whose rank is `kv`.
spec fn rank_is<'reg>(rank: spec_fn(MatchTank<'reg>) -> int, team: int, kv: int) -> spec_fn(
    MatchTank<'reg>,
) -> bool {
    |x: MatchTank<'reg>| x.spec_team_index() == team && rank(x) == kv
}

/// The tanks of team `team` whose rank is at most `kv`.
spec fn rank_at_most<'reg>(rank: spec_fn(MatchTank<'reg>) -> int, team: int, kv: int) -> spec_fn(
    MatchTank<'reg>,
) -> bool {
    |x: MatchTank<'reg>| x.spec_team_index() == team && rank(x) <= kv
}

/// The rank of a tank by tier, the highest tier first.
spec fn tier_rank<'reg>() -> spec_fn(MatchTank<'reg>) -> int {
    |x: MatchTank<'reg>| 255 - x.spec_tank().spec_tier()
}

/// The rank of a tank by tier, the highest tier first, then by class.
spec fn kind_rank<'reg>() -> spec_fn(MatchTank<'reg>) -> int {
    |x: MatchTank<'reg>| (255 - x.spec_tank().spec_tier()) * 5 + class_rank(
        x.spec_tank().spec_class(),
    )
}

proof fn lemma_count_at_least<'reg>(
    s: Seq<MatchTank<'reg>>,
    p: spec_fn(MatchTank<'reg>) -> bool,
    lo: int,
    hi: int,
)
    requires
        0 <= lo <= hi <= s.len(),
        forall|i: int| lo <= i < hi ==> #[trigger] p(s[i]),
    ensures
        count_where(s, p) >= hi - lo,
    decreases s.len(),
{
    if s.len() > 0 {
        let t = s.drop_last();
        if hi == s.len() && lo < hi {
            assert forall|i: int| lo <= i < hi - 1 implies #[trigger] p(t[i]) by {
                assert(t[i] == s[i]);
                assert(p(s[i]));
            }
            lemma_count_at_least(t, p, lo, hi - 1);
            assert(p(s[hi - 1]));
        } else if hi < s.len() {
            assert forall|i: int| lo <= i < hi implies #[trigger] p(t[i]) by {
                assert(t[i] == s[i]);
                assert(p(s[i]));
            }
            lemma_count_at_least(t, p, lo, hi);
        }
    }
}

proof fn lemma_count_at_most<'reg>(
    s: Seq<MatchTank<'reg>>,
    p: spec_fn(MatchTank<'reg>) -> bool,
    lo: int,
    hi: int,
)
    requires
        lo <= hi,
        forall|i: int| 0 <= i < s.len() && #[trigger] p(s[i]) ==> lo <= i < hi,
    ensures
        count_where(s, p) <= hi - lo,
    decreases s.len(),
{
    if s.len() > 0 {
        let t = s.drop_last();
        let n = s.len() - 1;
        if p(s[n]) {
            assert forall|i: int| 0 <= i < t.len() && #[trigger] p(t[i]) implies lo <= i < n by {
                assert(t[i] == s[i]);
            }
            lemma_count_at_most(t, p, lo, n);
        } else {
            assert forall|i: int| 0 <= i < t.len() && #[trigger] p(t[i]) implies lo <= i < hi by {
                assert(t[i] == s[i]);
            }
            lemma_count_at_most(t, p, lo, hi);
        }
    }
}

proof fn lemma_rank_split<'reg>(s: Seq<MatchTank<'reg>>, rank: spec_fn(MatchTank<'reg>) -> int, team: int, kv: int)
    ensures
        count_where(s, rank_at_most(rank, team, kv)) == count_where(s, rank_at_most(rank, team, kv - 1))
            + count_where(s, rank_is(rank, team, kv)),
    decreases s.len(),
{
    if s.len() > 0 {
        lemma_rank_split(s.drop_last(), rank, team, kv);
    }
}

/// Teams with as many tanks of each rank hold as many tanks up to each rank.
proof fn lemma_rank_prefix_equal<'reg>(
    s: Seq<MatchTank<'reg>>,
    rank: spec_fn(MatchTank<'reg>) -> int,
    a: int,
    b: int,
    kv: int,
)
    requires
        kv >= -1,
        forall|i: int| 0 <= i < s.len() ==> rank(#[trigger] s[i]) >= 0,
        forall|v: int|
            0 <= v <= kv ==> #[trigger] count_where(s, rank_is(rank, a, v)) == count_where(
                s,
                rank_is(rank, b, v),
            ),
    ensures
        count_where(s, rank_at_most(rank, a, kv)) == count_where(s, rank_at_most(rank, b, kv)),
    decreases kv + 1,
{
    if kv == -1 {
        assert forall|i: int|
            0 <= i < s.len() && #[trigger] rank_at_most(rank, a, kv)(s[i]) implies 0 <= i < 0 by {
            assert(rank(s[i]) >= 0);
        }
        assert forall|i: int|
            0 <= i < s.len() && #[trigger] rank_at_most(rank, b, kv)(s[i]) implies 0 <= i < 0 by {
            assert(rank(s[i]) >= 0);
        }
        lemma_count_at_most(s, rank_at_most(rank, a, kv), 0, 0);
        lemma_count_at_most(s, rank_at_most(rank, b, kv), 0, 0);
    } else {
        lemma_rank_prefix_equal(s, rank, a, b, kv - 1);
        lemma_rank_split(s, rank, a, kv);
        lemma_rank_split(s, rank, b, kv);
        assert(count_where(s, rank_is(rank, a, kv)) == count_where(s, rank_is(rank, b, kv)));
    }
}

proof fn lemma_team_bounds(i: int, size: int, team: int)
    requires
        size > 0,
        i >= 0,
    ensures
        i / size == team <==> team * size <= i < team * size + size,
{
    assert(i / size == team ==> team * size <= i < team * size + size) by (nonlinear_arith)
        requires
            size > 0,
            i >= 0,
    ;
    assert(team * size <= i < team * size + size ==> i / size == team) by (nonlinear_arith)
        requires
            size > 0,
            i >= 0,
    ;
}

/// In teams laid out one after the other, each ordered by a rank, teams with
/// as many tanks of each rank hold tanks of the same rank slot by slot.
proof fn lemma_slots_by_rank<'reg>(
    s: Seq<MatchTank<'reg>>,
    rank: spec_fn(MatchTank<'reg>) -> int,
    bound: int,
    teams: int,
    size: int,
    a: int,
    b: int,
    k: int,
)
    requires
        size > 0,
        0 <= a < teams,
        0 <= b < teams,
        0 <= k < size,
        s.len() == teams * size,
        forall|i: int| 0 <= i < s.len() ==> #[trigger] s[i].spec_team_index() == i / size,
        forall|i: int| 0 <= i < s.len() ==> 0 <= rank(#[trigger] s[i]) < bound,
        forall|i: int, j: int|
            0 <= i < j < s.len() && s[i].spec_team_index() == s[j].spec_team_index() ==> rank(
                #[trigger] s[i],
            ) <= rank(#[trigger] s[j]),
        forall|v: int|
            0 <= v < bound ==> #[trigger] count_where(s, rank_is(rank, a, v)) == count_where(
                s,
                rank_is(rank, b, v),
            ),
    ensures
        rank(s[a * size + k]) == rank(s[b * size + k]),
{
    assert(0 <= a * size + k < s.len() && 0 <= b * size + k < s.len()) by (nonlinear_arith)
        requires
            size > 0,
            0 <= a < teams,
            0 <= b < teams,
            0 <= k < size,
            s.len() == teams * size,
    ;
    let ia = a * size + k;
    let ib = b * size + k;
    let (ka, kb) = (rank(s[ia]), rank(s[ib]));
    if ka != kb {
        // Let `x` be the team whose slot holds the lower rank, `y` the other.
        let (x, y, kx, ix, iy) = if ka < kb {
            (a, b, ka, ia, ib)
        } else {
            (b, a, kb, ib, ia)
        };
        assert(0 <= x < teams && 0 <= y < teams);
        assert(kx < bound);
        // Up to its slot `k`, team `x` holds ranks at most `kx`.
        lemma_team_bounds(ix, size, x);
        assert forall|i: int| x * size <= i < ix + 1 implies #[trigger] rank_at_most(rank, x, kx)(
            s[i],
        ) by {
            lemma_team_bounds(i, size, x);
            if i < ix {
                assert(rank(s[i]) <= rank(s[ix]));
            }
        }
        lemma_count_at_least(s, rank_at_most(rank, x, kx), x * size, ix + 1);
        // From its slot `k` on, team `y` holds ranks above `kx`.
        lemma_team_bounds(iy, size, y);
        assert forall|i: int|
            0 <= i < s.len() && #[trigger] rank_at_most(rank, y, kx)(s[i]) implies y * size <= i
            < iy by {
            lemma_team_bounds(i, size, y);
            if i > iy {
                assert(rank(s[iy]) <= rank(s[i]));
            }
        }
        lemma_count_at_most(s, rank_at_most(rank, y, kx), y * size, iy);
        lemma_rank_prefix_equal(s, rank, x, y, kx);
        assert(false);
    }
}

/// A sorted match of full teams ranks its tanks within each team by tier,
/// the highest first, then by class.
proof fn lemma_sorted_ranks<'reg>(s: Seq<MatchTank<'reg>>)
    requires
        match_sorted(s),
    ensures
        forall|i: int, j: int|
            0 <= i < j < s.len() && s[i].spec_team_index() == s[j].spec_team_index() ==> kind_rank()(
                #[trigger] s[i],
            ) <= kind_rank()(#[trigger] s[j]),
        forall|i: int, j: int|
            0 <= i < j < s.len() && s[i].spec_team_index() == s[j].spec_team_index() ==> tier_rank()(
                #[trigger] s[i],
            ) <= tier_rank()(#[trigger] s[j]),
{
    assert forall|i: int, j: int|
        0 <= i < j < s.len() && s[i].spec_team_index() == s[j].spec_team_index() implies kind_rank()(
        #[trigger] s[i],
    ) <= kind_rank()(#[trigger] s[j]) && tier_rank()(s[i]) <= tier_rank()(s[j]) by {
        assert(!match_tank_lt(s[j], s[i]));
        let (ti, tj) = (s[i].spec_tank().spec_tier() as int, s[j].spec_tank().spec_tier() as int);
        let (ri, rj) = (
            class_rank(s[i].spec_tank().spec_class()) as int,
            class_rank(s[j].spec_tank().spec_class()) as int,
        );
        assert(tj <= ti);
        assert(ri <= 4 && rj <= 4);
        if tj < ti {
            assert((255 - ti) * 5 + ri <= (255 - tj) * 5 + rj) by (nonlinear_arith)
                requires
                    tj < ti,
                    0 <= ri <= 4,
                    0 <= rj <= 4,
            ;
        }
    }
}

proof fn lemma_tier_rank_count<'reg>(s: Seq<MatchTank<'reg>>, team: int, tier: u8)
    ensures
        count_where(s, rank_is(tier_rank(), team, 255 - tier)) == team_tier_count(s, team, tier),
    decreases s.len(),
{
    if s.len() > 0 {
        lemma_tier_rank_count(s.drop_last(), team, tier);
    }
}

/// The class of each rank.
spec fn class_of_rank(r: int) -> TankClass {
    if r == 0 {
        TankClass::Heavy
    } else if r == 1 {
        TankClass::Medium
    } else if r == 2 {
        TankClass::Destroyer
    } else if r == 3 {
        TankClass::Light
    } else {
        TankClass::Clicker
    }
}

/// The number of tanks of a team of this tier and class, whatever their role.
spec fn team_tier_class_count<'reg>(s: Seq<MatchTank<'reg>>, team: int, tier: u8, class: TankClass) -> nat {
    team_kind_count(s, team, tier, class, TankSubClass::Standard) + team_kind_count(
        s,
        team,
        tier,
        class,
        TankSubClass::Wheeled,
    ) + team_kind_count(s, team, tier, class, TankSubClass::Bourrasque)
}

proof fn lemma_kind_rank_count<'reg>(s: Seq<MatchTank<'reg>>, team: int, tier: u8, r: int)
    requires
        0 <= r < 5,
    ensures
        count_where(s, rank_is(kind_rank(), team, (255 - tier) * 5 + r)) == team_tier_class_count(
            s,
            team,
            tier,
            class_of_rank(r),
        ),
    decreases s.len(),
{
    if s.len() > 0 {
        lemma_kind_rank_count(s.drop_last(), team, tier, r);
        let x = s.last();
        let (t, c) = (x.spec_tank().spec_tier() as int, class_rank(x.spec_tank().spec_class()) as int);
        assert(0 <= c < 5);
        assert((255 - t) * 5 + c == (255 - tier) * 5 + r <==> t == tier && c == r) by (nonlinear_arith)
            requires
                0 <= c < 5,
                0 <= r < 5,
        ;
        assert(c == r <==> x.spec_tank().spec_class() == class_of_rank(r));
    }
}

/// Teams holding as many tanks of each tier hold tanks of the same tier slot
/// by slot.
pub(crate) proof fn lemma_same_tier_slots<'reg>(s: Seq<MatchTank<'reg>>, teams: int, size: int)
    requires
        size > 0,
        teams >= 0,
        s.len() == teams * size,
        match_sorted(s),
        forall|i: int| 0 <= i < s.len() ==> #[trigger] s[i].spec_team_index() == i / size,
        same_tiers_in_teams(s, teams),
    ensures
        same_tier_slots(s, teams, size),
{
    lemma_sorted_ranks(s);
    assert forall|a: int, b: int, k: int| 0 <= a < teams && 0 <= b < teams && 0 <= k < size implies
        #[trigger] slot_of(s, size, a, k).spec_tank().spec_tier() == #[trigger] slot_of(
        s,
        size,
        b,
        k,
    ).spec_tank().spec_tier() by {
        assert forall|v: int| 0 <= v < 256 implies #[trigger] count_where(
            s,
            rank_is(tier_rank(), a, v),
        ) == count_where(s, rank_is(tier_rank(), b, v)) by {
            let t = (255 - v) as u8;
            lemma_tier_rank_count(s, a, t);
            lemma_tier_rank_count(s, b, t);
            assert(team_tier_count(s, a, t) == team_tier_count(s, b, t));
        }
        lemma_slots_by_rank(s, tier_rank(), 256, teams, size, a, b, k);
    }
}

/// Teams holding as many tanks of each tier, class and role hold tanks of the
/// same tier and class slot by slot.
pub(crate) proof fn lemma_same_class_slots<'reg>(s: Seq<MatchTank<'reg>>, teams: int, size: int)
    requires
        size > 0,
        teams >= 0,
        s.len() == teams * size,
        match_sorted(s),
        forall|i: int| 0 <= i < s.len() ==> #[trigger] s[i].spec_team_index() == i / size,
        same_kinds_in_teams(s, teams),
    ensures
        same_class_slots(s, teams, size),
{
    lemma_sorted_ranks(s);
    assert forall|i: int| 0 <= i < s.len() implies 0 <= kind_rank()(#[trigger] s[i]) < 1280 by {
        assert(class_rank(s[i].spec_tank().spec_class()) < 5);
    }
    assert forall|a: int, b: int, k: int| 0 <= a < teams && 0 <= b < teams && 0 <= k < size implies
        #[trigger] slot_of(s, size, a, k).spec_tank().spec_class() == #[trigger] slot_of(
        s,
        size,
        b,
        k,
    ).spec_tank().spec_class() by {
        assert forall|v: int| 0 <= v < 1280 implies #[trigger] count_where(
            s,
            rank_is(kind_rank(), a, v),
        ) == count_where(s, rank_is(kind_rank(), b, v)) by {
            let t = (255 - v / 5) as u8;
            let r = v % 5;
            assert(v == (255 - t) * 5 + r);
            lemma_kind_rank_count(s, a, t, r);
            lemma_kind_rank_count(s, b, t, r);
            let c = class_of_rank(r);
            assert(team_kind_count(s, a, t, c, TankSubClass::Standard) == team_kind_count(s, b, t, c, TankSubClass::Standard));
            assert(team_kind_count(s, a, t, c, TankSubClass::Wheeled) == team_kind_count(s, b, t, c, TankSubClass::Wheeled));
            assert(team_kind_count(s, a, t, c, TankSubClass::Bourrasque) == team_kind_count(s, b, t, c, TankSubClass::Bourrasque));
        }
        lemma_slots_by_rank(s, kind_rank(), 1280, teams, size, a, b, k);
        let (x, y) = (slot_of(s, size, a, k), slot_of(s, size, b, k));
        let (tx, ty) = (x.spec_tank().spec_tier() as int, y.spec_tank().spec_tier() as int);
        let (rx, ry) = (
            class_rank(x.spec_tank().spec_class()) as int,
            class_rank(y.spec_tank().spec_class()) as int,
        );
        assert(0 <= rx < 5 && 0 <= ry < 5);
        assert((255 - tx) * 5 + rx == (255 - ty) * 5 + ry ==> rx == ry) by (nonlinear_arith)
            requires
                0 <= rx < 5,
                0 <= ry < 5,
        ;
    }
}

} // verus!
