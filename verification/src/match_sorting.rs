//! The order of the tanks of a match, and what sorting them keeps: their
//! multiset, the size of each team, the tiers of each team and the total wait.

use vstd::prelude::*;

use crate::matchmaker::{
    match_entries, match_entry, match_sorted, match_tank_lt, tank_placed_as, team_count, team_kind_count,
    team_tier_count, total_wait, MatchTank, TankSubClass,
};
use crate::tank::{Tank, TankClass};
use crate::positions::{lemma_filter_insert, lemma_filter_push, lemma_insert_to_multiset};
use crate::text::{lemma_lex_irreflexive, lemma_lex_transitive, lex_lt, str_compare};

verus! {

pub(crate) proof fn lemma_match_tank_lt_order<'reg>(a: MatchTank<'reg>, b: MatchTank<'reg>, c: MatchTank<'reg>)
    ensures
        !match_tank_lt(a, a),
        match_tank_lt(a, b) && match_tank_lt(b, c) ==> match_tank_lt(a, c),
{
    lemma_lex_irreflexive(a.spec_tank().spec_name());
    if match_tank_lt(a, b) && match_tank_lt(b, c) {
        if lex_lt(a.spec_tank().spec_name(), b.spec_tank().spec_name()) && lex_lt(
            b.spec_tank().spec_name(),
            c.spec_tank().spec_name(),
        ) {
            lemma_lex_transitive(
                a.spec_tank().spec_name(),
                b.spec_tank().spec_name(),
                c.spec_tank().spec_name(),
            );
        }
    }
}

pub(crate) fn match_tank_before<'reg>(a: &MatchTank<'reg>, b: &MatchTank<'reg>) -> (r: bool)
    ensures
        r == match_tank_lt(*a, *b),
{
    if a.team_index() != b.team_index() {
        return a.team_index() < b.team_index();
    }
    let (ta, tb) = (a.tank(), b.tank());
    if ta.tier() != tb.tier() {
        return ta.tier() > tb.tier();
    }
    let (ra, rb) = (ta.class().rank(), tb.class().rank());
    if ra != rb {
        return ra < rb;
    }
    str_compare(ta.name(), tb.name()) < 0
}

pub(crate) proof fn lemma_total_wait_concat<'reg>(a: Seq<MatchTank<'reg>>, b: Seq<MatchTank<'reg>>)
    ensures
        total_wait(a + b) == total_wait(a) + total_wait(b),
    decreases b.len(),
{
    if b.len() == 0 {
        assert(a + b == a);
    } else {
        lemma_total_wait_concat(a, b.drop_last());
        assert((a + b).drop_last() == a + b.drop_last());
    }
}

pub(crate) proof fn lemma_total_wait_insert<'reg>(s: Seq<MatchTank<'reg>>, p: int, x: MatchTank<'reg>)
    requires
        0 <= p <= s.len(),
    ensures
        total_wait(s.insert(p, x)) == total_wait(s) + x.spec_wait_duration(),
{
    let (a, b) = (s.take(p), s.skip(p));
    assert(s == a + b);
    assert(s.insert(p, x) == a.push(x) + b);
    lemma_total_wait_concat(a, b);
    lemma_total_wait_concat(a.push(x), b);
    assert(a.push(x).drop_last() == a);
}

pub(crate) proof fn lemma_team_tier_count_concat<'reg>(a: Seq<MatchTank<'reg>>, b: Seq<MatchTank<'reg>>, team: int, tier: u8)
    ensures
        team_tier_count(a + b, team, tier) == team_tier_count(a, team, tier) + team_tier_count(b, team, tier),
    decreases b.len(),
{
    if b.len() == 0 {
        assert(a + b == a);
    } else {
        lemma_team_tier_count_concat(a, b.drop_last(), team, tier);
        assert((a + b).drop_last() == a + b.drop_last());
    }
}

pub(crate) proof fn lemma_team_tier_count_insert<'reg>(s: Seq<MatchTank<'reg>>, p: int, x: MatchTank<'reg>, team: int, tier: u8)
    requires
        0 <= p <= s.len(),
    ensures
        team_tier_count(s.insert(p, x), team, tier) == team_tier_count(s, team, tier) + if x.spec_team_index() == team
            && x.spec_tank().spec_tier() == tier {
            1nat
        } else {
            0nat
        },
{
    let (a, b) = (s.take(p), s.skip(p));
    assert(s == a + b);
    assert(s.insert(p, x) == a.push(x) + b);
    lemma_team_tier_count_concat(a, b, team, tier);
    lemma_team_tier_count_concat(a.push(x), b, team, tier);
    assert(a.push(x).drop_last() == a);
}

/// The number of tanks of a team below `team`.
pub(crate) open spec fn count_teams_below<'reg>(s: Seq<MatchTank<'reg>>, team: int) -> nat
    decreases s.len(),
{
    if s.len() == 0 {
        0
    } else {
        count_teams_below(s.drop_last(), team) + if s.last().spec_team_index() < team {
            1nat
        } else {
            0nat
        }
    }
}

pub(crate) proof fn lemma_team_count_concat<'reg>(a: Seq<MatchTank<'reg>>, b: Seq<MatchTank<'reg>>, team: int)
    ensures
        team_count(a + b, team) == team_count(a, team) + team_count(b, team),
    decreases b.len(),
{
    if b.len() == 0 {
        assert(a + b == a);
    } else {
        lemma_team_count_concat(a, b.drop_last(), team);
        assert((a + b).drop_last() == a + b.drop_last());
    }
}

pub(crate) proof fn lemma_team_count_insert<'reg>(s: Seq<MatchTank<'reg>>, p: int, x: MatchTank<'reg>, team: int)
    requires
        0 <= p <= s.len(),
    ensures
        team_count(s.insert(p, x), team) == team_count(s, team) + if x.spec_team_index() == team {
            1nat
        } else {
            0nat
        },
{
    let (a, b) = (s.take(p), s.skip(p));
    assert(s == a + b);
    assert(s.insert(p, x) == a.push(x) + b);
    lemma_team_count_concat(a, b, team);
    lemma_team_count_concat(a.push(x), b, team);
    assert(a.push(x).drop_last() == a);
}

pub(crate) proof fn lemma_team_count_step<'reg>(s: Seq<MatchTank<'reg>>, team: int)
    ensures
        count_teams_below(s, team + 1) == count_teams_below(s, team) + team_count(s, team),
    decreases s.len(),
{
    if s.len() > 0 {
        lemma_team_count_step(s.drop_last(), team);
    }
}

pub(crate) proof fn lemma_count_teams_below_uniform<'reg>(s: Seq<MatchTank<'reg>>, team: int, size: int)
    requires
        0 <= team,
        forall|j: int| 0 <= j < team ==> team_count(s, j) == size,
    ensures
        count_teams_below(s, team) == team * size,
    decreases team,
{
    if team == 0 {
        lemma_count_teams_below_zero(s);
    } else {
        lemma_count_teams_below_uniform(s, team - 1, size);
        lemma_team_count_step(s, team - 1);
        assert(count_teams_below(s, team) == (team - 1) * size + size);
        assert((team - 1) * size + size == team * size) by (nonlinear_arith);
    }
}

pub(crate) proof fn lemma_count_teams_below_zero<'reg>(s: Seq<MatchTank<'reg>>)
    ensures
        count_teams_below(s, 0) == 0,
    decreases s.len(),
{
    if s.len() > 0 {
        lemma_count_teams_below_zero(s.drop_last());
    }
}

/// In a sequence sorted by team, the tanks of a team below `team` come first.
pub(crate) proof fn lemma_teams_below_prefix<'reg>(s: Seq<MatchTank<'reg>>, team: int)
    requires
        match_sorted(s),
    ensures
        count_teams_below(s, team) <= s.len(),
        forall|k: int|
            0 <= k < s.len() ==> (#[trigger] s[k].spec_team_index() < team <==> k
                < count_teams_below(s, team)),
    decreases s.len(),
{
    if s.len() > 0 {
        let t = s.drop_last();
        assert(match_sorted(t)) by {
            assert forall|i: int, j: int| 0 <= i < j < t.len() implies !match_tank_lt(
                #[trigger] t[j],
                #[trigger] t[i],
            ) by {
                assert(t[i] == s[i] && t[j] == s[j]);
            }
        }
        lemma_teams_below_prefix(t, team);
        let n = s.len() - 1;
        assert forall|k: int| 0 <= k < s.len() implies (#[trigger] s[k].spec_team_index() < team
            <==> k < count_teams_below(s, team)) by {
            if k < n {
                assert(s[k] == t[k]);
                assert(!match_tank_lt(s[n], s[k]));
            }
            if s.last().spec_team_index() < team && k < n {
                assert(!match_tank_lt(s[n], s[k]));
            }
        }
        if s.last().spec_team_index() < team {
            assert forall|k: int| 0 <= k < n implies #[trigger] t[k].spec_team_index() < team by {
                assert(s[k] == t[k]);
                assert(!match_tank_lt(s[n], s[k]));
            }
            if count_teams_below(t, team) < n {
                let k = count_teams_below(t, team) as int;
                assert(t[k].spec_team_index() < team);
            }
        }
    }
}

/// In a sequence sorted by team where each of the first teams holds `size`
/// tanks, the tank at position `k` is of team `k / size`.
pub(crate) proof fn lemma_team_of_position<'reg>(s: Seq<MatchTank<'reg>>, teams: int, size: int)
    requires
        match_sorted(s),
        size > 0,
        teams >= 0,
        s.len() == teams * size,
        forall|j: int| 0 <= j < teams ==> team_count(s, j) == size,
    ensures
        forall|k: int| 0 <= k < s.len() ==> #[trigger] s[k].spec_team_index() == k / size,
{
    assert forall|k: int| 0 <= k < s.len() implies #[trigger] s[k].spec_team_index() == k / size by {
        let j = k / size;
        assert(0 <= j < teams) by (nonlinear_arith)
            requires
                0 <= k < teams * size,
                size > 0,
                j == k / size,
        ;
        assert(j * size <= k < (j + 1) * size) by (nonlinear_arith)
            requires
                size > 0,
                j == k / size,
                k >= 0,
        ;
        lemma_count_teams_below_uniform(s, j, size);
        lemma_count_teams_below_uniform(s, j + 1, size);
        lemma_teams_below_prefix(s, j);
        lemma_teams_below_prefix(s, j + 1);
    }
}

/// Sorts the tanks of a match, keeping tanks of equal rank in their order.
pub(crate) fn sort_match_tanks<'reg>(tanks: Vec<MatchTank<'reg>>) -> (r: Vec<MatchTank<'reg>>)
    ensures
        match_sorted(r@),
        r@.to_multiset() == tanks@.to_multiset(),
        match_entries(r@).to_multiset() == match_entries(tanks@).to_multiset(),
        forall|team: int| team_count(r@, team) == team_count(tanks@, team),
        forall|team: int, tier: u8| #[trigger] team_tier_count(r@, team, tier) == team_tier_count(
            tanks@,
            team,
            tier,
        ),
        forall|team: int, tier: u8, class: TankClass, sub_class: TankSubClass| #[trigger]
            team_kind_count(r@, team, tier, class, sub_class) == team_kind_count(
                tanks@,
                team,
                tier,
                class,
                sub_class,
            ),
        total_wait(r@) == total_wait(tanks@),
        forall|e: (Tank, usize, u128)| #[trigger] r@.filter(tank_placed_as(e)) == tanks@.filter(
            tank_placed_as(e),
        ),
{
    broadcast use vstd::seq_lib::group_to_multiset_ensures;

    let mut sorted: Vec<MatchTank<'reg>> = Vec::new();
    let mut i: usize = 0;
    while i < tanks.len()
        invariant
            i <= tanks.len(),
            match_sorted(sorted@),
            sorted@.to_multiset() == tanks@.take(i as int).to_multiset(),
            match_entries(sorted@).to_multiset() == match_entries(tanks@.take(i as int)).to_multiset(),
            forall|team: int| team_count(sorted@, team) == team_count(tanks@.take(i as int), team),
            forall|team: int, tier: u8| #[trigger] team_tier_count(sorted@, team, tier)
                == team_tier_count(tanks@.take(i as int), team, tier),
            forall|team: int, tier: u8, class: TankClass, sub_class: TankSubClass| #[trigger]
                team_kind_count(sorted@, team, tier, class, sub_class) == team_kind_count(
                    tanks@.take(i as int),
                    team,
                    tier,
                    class,
                    sub_class,
                ),
            total_wait(sorted@) == total_wait(tanks@.take(i as int)),
            forall|e: (Tank, usize, u128)| #[trigger] sorted@.filter(tank_placed_as(e))
                == tanks@.take(i as int).filter(tank_placed_as(e)),
        decreases tanks.len() - i,
    {
        let x = tanks[i];
        let mut p: usize = 0;
        while p < sorted.len() && !match_tank_before(&x, &sorted[p])
            invariant
                p <= sorted.len(),
                forall|k: int| 0 <= k < p ==> !match_tank_lt(x, #[trigger] sorted@[k]),
            decreases sorted.len() - p,
        {
            p = p + 1;
        }
        let ghost old_sorted = sorted@;
        sorted.insert(p, x);
        proof {
            assert forall|a: int, b: int| 0 <= a < b < sorted@.len() implies !match_tank_lt(
                #[trigger] sorted@[b],
                #[trigger] sorted@[a],
            ) by {
                if a < p && b == p {
                } else if a == p && b > p {
                    lemma_match_tank_lt_order(old_sorted[b - 1], x, old_sorted[p as int]);
                    lemma_match_tank_lt_order(old_sorted[b - 1], old_sorted[p as int], x);
                    if b - 1 > p {
                        assert(!match_tank_lt(old_sorted[b - 1], old_sorted[p as int]));
                    }
                } else if b < p {
                    assert(sorted@[a] == old_sorted[a] && sorted@[b] == old_sorted[b]);
                } else if a < p {
                    assert(sorted@[a] == old_sorted[a] && sorted@[b] == old_sorted[b - 1]);
                } else {
                    assert(sorted@[a] == old_sorted[a - 1] && sorted@[b] == old_sorted[b - 1]);
                }
            }
            let prefix = tanks@.take(i as int);
            assert(tanks@.take(i + 1) == prefix.push(x));
            lemma_insert_to_multiset(old_sorted, p as int, x);
            prefix.to_multiset_ensures();
            assert(match_entries(sorted@) == match_entries(old_sorted).insert(
                p as int,
                match_entry(x),
            ));
            lemma_insert_to_multiset(match_entries(old_sorted), p as int, match_entry(x));
            assert(match_entries(prefix.push(x)) == match_entries(prefix).push(match_entry(x)));
            match_entries(prefix).to_multiset_ensures();
            lemma_total_wait_insert(old_sorted, p as int, x);
            assert(prefix.push(x).drop_last() == prefix);
            assert forall|team: int, tier: u8, class: TankClass, sub_class: TankSubClass|
                #[trigger] team_kind_count(sorted@, team, tier, class, sub_class) == team_kind_count(
                tanks@.take(i + 1),
                team,
                tier,
                class,
                sub_class,
            ) by {
                lemma_team_kind_count_insert(old_sorted, p as int, x, team, tier, class, sub_class);
                assert(old_sorted.push(x).drop_last() == old_sorted);
                assert(old_sorted.push(x).last() == x);
                assert(tanks@.take(i + 1).drop_last() == tanks@.take(i as int));
                assert(tanks@.take(i + 1).last() == x);
                assert(team_kind_count(old_sorted, team, tier, class, sub_class)
                    == team_kind_count(tanks@.take(i as int), team, tier, class, sub_class));
                assert(team_kind_count(old_sorted.push(x), team, tier, class, sub_class)
                    == team_kind_count(tanks@.take(i + 1), team, tier, class, sub_class));
            }
            assert forall|team: int, tier: u8| #[trigger] team_tier_count(sorted@, team, tier)
                == team_tier_count(tanks@.take(i + 1), team, tier) by {
                lemma_team_tier_count_insert(old_sorted, p as int, x, team, tier);
                assert(tanks@.take(i + 1).drop_last() == tanks@.take(i as int));
            }
            assert forall|e: (Tank, usize, u128)| #[trigger] sorted@.filter(tank_placed_as(e))
                == tanks@.take(i + 1).filter(tank_placed_as(e)) by {
                let pred = tank_placed_as::<'reg>(e);
                if pred(x) {
                    assert forall|k: int| p <= k < old_sorted.len() implies !pred(
                        #[trigger] old_sorted[k],
                    ) by {
                        lemma_match_tank_lt_order(old_sorted[p as int], x, old_sorted[p as int]);
                        if k > p && pred(old_sorted[k]) {
                            assert(match_tank_lt(x, old_sorted[p as int]));
                            assert(match_tank_lt(old_sorted[k], old_sorted[p as int]));
                        }
                    }
                }
                lemma_filter_insert(old_sorted, p as int, x, pred);
                lemma_filter_push(old_sorted, x, pred);
                lemma_filter_push(prefix, x, pred);
                assert(old_sorted.filter(pred) == prefix.filter(pred));
            }
            assert forall|team: int| team_count(sorted@, team) == team_count(
                tanks@.take(i + 1),
                team,
            ) by {
                lemma_team_count_insert(old_sorted, p as int, x, team);
                assert(tanks@.take(i + 1).drop_last() == tanks@.take(i as int));
            }
        }
        i = i + 1;
    }
    proof {
        assert(tanks@.take(tanks@.len() as int) == tanks@);
    }
    sorted
}

pub(crate) proof fn lemma_team_kind_count_concat<'reg>(
    a: Seq<MatchTank<'reg>>,
    b: Seq<MatchTank<'reg>>,
    team: int,
    tier: u8,
    class: TankClass,
    sub_class: TankSubClass,
)
    ensures
        team_kind_count(a + b, team, tier, class, sub_class) == team_kind_count(
            a,
            team,
            tier,
            class,
            sub_class,
        ) + team_kind_count(b, team, tier, class, sub_class),
    decreases b.len(),
{
    if b.len() == 0 {
        assert(a + b == a);
    } else {
        lemma_team_kind_count_concat(a, b.drop_last(), team, tier, class, sub_class);
        assert((a + b).drop_last() == a + b.drop_last());
    }
}

pub(crate) proof fn lemma_team_kind_count_insert<'reg>(
    s: Seq<MatchTank<'reg>>,
    p: int,
    x: MatchTank<'reg>,
    team: int,
    tier: u8,
    class: TankClass,
    sub_class: TankSubClass,
)
    requires
        0 <= p <= s.len(),
    ensures
        team_kind_count(s.insert(p, x), team, tier, class, sub_class) == team_kind_count(
            s.push(x),
            team,
            tier,
            class,
            sub_class,
        ),
{
    let (a, b) = (s.take(p), s.skip(p));
    assert(s == a + b);
    assert(s.insert(p, x) == a.push(x) + b);
    lemma_team_kind_count_concat(a, b, team, tier, class, sub_class);
    lemma_team_kind_count_concat(a.push(x), b, team, tier, class, sub_class);
    assert(a.push(x).drop_last() == a);
    assert(s.push(x).drop_last() == s);
}

} // verus!
