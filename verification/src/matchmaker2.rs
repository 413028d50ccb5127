//! Second iteration of the matchmaker algorithm: each queued tank joins at once
//! the match and team where it fits best, and a match is played as soon as it
//! is full.

use std::collections::HashMap;

use vstd::prelude::*;
use vstd::multiset::Multiset;

use crate::positions::{lemma_filter_insert, lemma_filter_push, lemma_insert_to_multiset};
use crate::tank::{class_rank, Tank, TankClass};
use crate::text::{lemma_lex_irreflexive, lemma_lex_transitive, lex_lt, str_compare};

verus! {

broadcast use vstd::std_specs::hash::group_hash_axioms;

/// The number of teams of a match.
pub const TEAMS_COUNT: usize = 2;

/// The number of tanks of a full team.
pub const MAX_TEAMS_SIZE: usize = 15;

/// Represent a player and its configuration.
#[derive(Debug, Clone, Copy)]
pub struct Player<'reg> {
    tank: &'reg Tank,
}

impl<'reg> Player<'reg> {
    pub closed spec fn spec_tank(&self) -> Tank {
        *self.tank
    }

    pub fn new(tank: &'reg Tank) -> (r: Self)
        ensures
            r.spec_tank() == *tank,
    {
        Self { tank }
    }

    pub fn tank(&self) -> (r: &'reg Tank)
        ensures
            *r == self.spec_tank(),
    {
        self.tank
    }
}

/// The range of tiers that a tank of the given tier and class can meet, from
/// tier 1 up to tier 10.
pub open spec fn player_tier_range(tier: u8, class: TankClass) -> (u8, u8) {
    let (down, up) = if 1 <= tier <= 3 {
        (1int, 1int)
    } else {
        match class {
            TankClass::Heavy => (2int, 2int),
            TankClass::Medium => (2int, 2int),
            TankClass::Light => (2int, 3int),
            TankClass::Destroyer => (2int, 2int),
            TankClass::Clicker => (1int, 3int),
        }
    };
    let lo = tier - down;
    let hi = tier + up;
    ((if lo < 1 { 1 } else { lo }) as u8, (if hi > 10 { 10 } else { hi }) as u8)
}

fn player_tier_range_of(tier: u8, class: TankClass) -> (r: (u8, u8))
    ensures
        r == player_tier_range(tier, class),
{
    let (down, up): (i16, i16) = if 1 <= tier && tier <= 3 {
        (1, 1)
    } else {
        match class {
            TankClass::Heavy => (2, 2),
            TankClass::Medium => (2, 2),
            TankClass::Light => (2, 3),
            TankClass::Destroyer => (2, 2),
            TankClass::Clicker => (1, 3),
        }
    };
    let lo = tier as i16 - down;
    let hi = tier as i16 + up;
    ((if lo < 1 { 1 } else { lo }) as u8, (if hi > 10 { 10 } else { hi }) as u8)
}

/// The number of players of tier `tier`.
pub open spec fn count_tier<'reg>(players: Seq<Player<'reg>>, tier: u8) -> nat
    decreases players.len(),
{
    if players.len() == 0 {
        0
    } else {
        count_tier(players.drop_last(), tier) + if players.last().spec_tank().spec_tier() == tier {
            1nat
        } else {
            0nat
        }
    }
}

/// The number of players of tier `tier` and class `class`.
pub open spec fn count_class<'reg>(players: Seq<Player<'reg>>, tier: u8, class: TankClass) -> nat
    decreases players.len(),
{
    if players.len() == 0 {
        0
    } else {
        count_class(players.drop_last(), tier, class) + if players.last().spec_tank().spec_tier()
            == tier && players.last().spec_tank().spec_class() == class {
            1nat
        } else {
            0nat
        }
    }
}

proof fn lemma_counts_bounded<'reg>(players: Seq<Player<'reg>>, tier: u8, class: TankClass)
    ensures
        count_class(players, tier, class) <= count_tier(players, tier) <= players.len(),
    decreases players.len(),
{
    if players.len() > 0 {
        lemma_counts_bounded(players.drop_last(), tier, class);
    }
}

/// A queued match as its players see it: the players of each team, the tier
/// range that the last player to join allowed, and the range of the tiers of
/// its players.
pub type MatchView<'reg> = (Seq<Seq<Player<'reg>>>, (u8, u8), (u8, u8));

/// All the players of a match.
pub open spec fn match_players<'reg>(m: MatchView<'reg>) -> Seq<Player<'reg>> {
    m.0[0] + m.0[1]
}

/// `x / n`, rounded up.
pub open spec fn ceil_div(x: int, n: int) -> int {
    (x + n - 1) / n
}

/// A player of tier range `lo..=hi` may join the match: its range covers the
/// range the match allows, or at least the tiers already in the match.
pub open spec fn match_admits<'reg>(m: MatchView<'reg>, lo: u8, hi: u8) -> bool {
    let (limit_min, limit_max) = m.1;
    let (actual_min, actual_max) = m.2;
    !(lo > limit_min || hi < limit_max) || !(actual_min < lo || actual_max > hi)
}

/// Team `j` of the match has room for a tank of this tier and class, and does
/// not already hold more than its share of them (half of the match's, rounded
/// up).
pub open spec fn team_admits<'reg>(m: MatchView<'reg>, j: int, tier: u8, class: TankClass) -> bool {
    let team = m.0[j];
    let all = match_players(m);
    &&& team.len() < MAX_TEAMS_SIZE
    &&& count_tier(team, tier) <= ceil_div(count_tier(all, tier) as int, TEAMS_COUNT as int)
    &&& count_class(team, tier, class) <= ceil_div(
        count_class(all, tier, class) as int,
        TEAMS_COUNT as int,
    )
}

/// How well a tank fits in team `j` of the match, six times over: matches of
/// a narrow tier range, close to the tank's tier, and teams missing tanks of
/// its tier and class score higher.
pub open spec fn fit_score<'reg>(m: MatchView<'reg>, j: int, tier: u8, class: TankClass) -> int {
    let (actual_min, actual_max) = m.2;
    let team = m.0[j];
    let all = match_players(m);
    let range = actual_max - actual_min;
    let diff = if tier < actual_min {
        actual_min - tier
    } else if tier > actual_max {
        tier - actual_max
    } else {
        0
    };
    let tier_diff = ceil_div(count_tier(all, tier) as int, TEAMS_COUNT as int) - count_tier(
        team,
        tier,
    );
    let class_diff = ceil_div(count_class(all, tier, class) as int, TEAMS_COUNT as int)
        - count_class(team, tier, class);
    24 - 2 * range - 3 * diff + 6 * (if tier_diff < 1 {
        tier_diff
    } else {
        1
    }) + 6 * (if class_diff < 1 {
        class_diff
    } else {
        1
    })
}

/// Team `j` of match `i` is a candidate for a tank.
pub open spec fn is_candidate<'reg>(
    ms: Seq<MatchView<'reg>>,
    i: int,
    j: int,
    tier: u8,
    class: TankClass,
) -> bool {
    &&& 0 <= i < ms.len()
    &&& 0 <= j < TEAMS_COUNT
    &&& match_admits(ms[i], player_tier_range(tier, class).0, player_tier_range(tier, class).1)
    &&& team_admits(ms[i], j, tier, class)
}

/// Team `j` of match `i` is the best candidate: no candidate scores higher,
/// and every candidate before it, matches first then teams, scores lower.
pub open spec fn is_best_candidate<'reg>(
    ms: Seq<MatchView<'reg>>,
    i: int,
    j: int,
    tier: u8,
    class: TankClass,
) -> bool {
    &&& is_candidate(ms, i, j, tier, class)
    &&& forall|i2: int, j2: int|
        #[trigger] is_candidate(ms, i2, j2, tier, class) ==> {
            &&& fit_score(ms[i2], j2, tier, class) <= fit_score(ms[i], j, tier, class)
            &&& (i2 < i || (i2 == i && j2 < j)) ==> fit_score(ms[i2], j2, tier, class)
                < fit_score(ms[i], j, tier, class)
        }
}

/// Match `m` after `player` joins team `j`.
pub open spec fn joined<'reg>(m: MatchView<'reg>, j: int, player: Player<'reg>) -> MatchView<'reg> {
    let tier = player.spec_tank().spec_tier();
    let (actual_min, actual_max) = m.2;
    (
        m.0.update(j, m.0[j].push(player)),
        player_tier_range(tier, player.spec_tank().spec_class()),
        (if tier < actual_min { tier } else { actual_min }, if tier > actual_max {
            tier
        } else {
            actual_max
        }),
    )
}

/// A match holds as many players as its teams can.
pub open spec fn is_full<'reg>(m: MatchView<'reg>) -> bool {
    match_players(m).len() == TEAMS_COUNT * MAX_TEAMS_SIZE
}

/// The matches after match `i` leaves: the last one takes its place.
pub open spec fn without_match<'reg>(ms: Seq<MatchView<'reg>>, i: int) -> Seq<MatchView<'reg>> {
    ms.update(i, ms.last()).drop_last()
}

/// The order of the players of a team: from the highest tier down, then by
/// class, then by name.
pub open spec fn player_lt<'reg>(a: Player<'reg>, b: Player<'reg>) -> bool {
    let (ta, tb) = (a.spec_tank(), b.spec_tank());
    ||| ta.spec_tier() > tb.spec_tier()
    ||| ta.spec_tier() == tb.spec_tier() && class_rank(ta.spec_class()) < class_rank(
        tb.spec_class(),
    )
    ||| ta.spec_tier() == tb.spec_tier() && ta.spec_class() == tb.spec_class() && lex_lt(
        ta.spec_name(),
        tb.spec_name(),
    )
}

/// No player comes after a later one.
pub open spec fn players_sorted<'reg>(s: Seq<Player<'reg>>) -> bool {
    forall|i: int, j: int| 0 <= i < j < s.len() ==> !player_lt(#[trigger] s[j], #[trigger] s[i])
}

/// The number of tanks of each class, within a tier.
#[derive(Debug, Clone, Copy)]
struct ClassCounts {
    heavy: usize,
    medium: usize,
    destroyer: usize,
    light: usize,
    clicker: usize,
}

spec fn class_count(counts: ClassCounts, class: TankClass) -> usize {
    match class {
        TankClass::Heavy => counts.heavy,
        TankClass::Medium => counts.medium,
        TankClass::Destroyer => counts.destroyer,
        TankClass::Light => counts.light,
        TankClass::Clicker => counts.clicker,
    }
}

impl ClassCounts {
    fn zero() -> (r: Self)
        ensures
            forall|c: TankClass| class_count(r, c) == 0,
    {
        ClassCounts { heavy: 0, medium: 0, destroyer: 0, light: 0, clicker: 0 }
    }

    fn get(&self, class: TankClass) -> (r: usize)
        ensures
            r == class_count(*self, class),
    {
        match class {
            TankClass::Heavy => self.heavy,
            TankClass::Medium => self.medium,
            TankClass::Destroyer => self.destroyer,
            TankClass::Light => self.light,
            TankClass::Clicker => self.clicker,
        }
    }

    fn incremented(self, class: TankClass) -> (r: Self)
        requires
            class_count(self, class) < usize::MAX,
        ensures
            forall|c: TankClass|
                class_count(r, c) == class_count(self, c) + if c == class {
                    1int
                } else {
                    0int
                },
    {
        let mut r = self;
        match class {
            TankClass::Heavy => r.heavy = r.heavy + 1,
            TankClass::Medium => r.medium = r.medium + 1,
            TankClass::Destroyer => r.destroyer = r.destroyer + 1,
            TankClass::Light => r.light = r.light + 1,
            TankClass::Clicker => r.clicker = r.clicker + 1,
        }
        r
    }
}

/// Information about a tier in a match or a team to ease matchmaking.
#[derive(Debug, Clone, Copy)]
struct QueueTierInfo {
    /// The number of players of that tier.
    count: usize,
    /// The expected maximum count of this tier, recomputed each time the actual tier
    /// range is modified.
    limit: usize,
    /// The number of players of that tier in each class.
    classes: ClassCounts,
}

/// A tank that has been queued.
#[derive(Debug, Clone, Copy)]
struct QueuePlayer<'reg> {
    /// The actual tank definition from the registry.
    inner: Player<'reg>,
    /// The minimum tier this tank can play with in the same game.
    min_tier: u8,
    /// The maximum tier this tank can play with in the same game.
    max_tier: u8,
}

/// The tier table counts the players of each tier and class.
spec fn tiers_count(tiers: Map<u8, QueueTierInfo>, players: Seq<Player>) -> bool {
    &&& forall|t: u8| #[trigger]
        tiers.contains_key(t) ==> tiers[t].count == count_tier(players, t) && forall|
            c: TankClass,
        | #[trigger] class_count(tiers[t].classes, c) == count_class(players, t, c)
    &&& forall|t: u8| #[trigger] count_tier(players, t) > 0 ==> tiers.contains_key(t)
}

/// A team queued into a match.
#[derive(Debug)]
struct QueueTeam<'reg> {
    /// All tanks in the team, filled when tanks are queued in the team.
    players: Vec<QueuePlayer<'reg>>,
    /// Contains the number of tanks at that tier in the team.
    tiers: HashMap<u8, QueueTierInfo>,
}

impl<'reg> QueueTeam<'reg> {
    spec fn view_players(&self) -> Seq<Player<'reg>> {
        self.players@.map_values(|q: QueuePlayer<'reg>| q.inner)
    }

    spec fn wf(&self) -> bool {
        &&& self.players@.len() <= MAX_TEAMS_SIZE
        &&& tiers_count(self.tiers@, self.view_players())
    }

    fn new() -> (r: Self)
        ensures
            r.wf(),
            r.view_players() == Seq::<Player<'reg>>::empty(),
    {
        let r = QueueTeam { players: Vec::new(), tiers: HashMap::new() };
        assert(r.view_players() =~= Seq::<Player<'reg>>::empty());
        r
    }
}

/// A match queued with players into, ready to play.
#[derive(Debug)]
struct QueueMatch<'reg> {
    /// All teams in this match.
    teams: Vec<QueueTeam<'reg>>,
    /// The maximum size in tanks for each team in a match.
    max_teams_size: usize,
    /// The minimum tier for tanks that can play this match.
    limit_min_tier: u8,
    /// The maximum tier for tanks that can play this match.
    limit_max_tier: u8,
    /// The current minimum tier between all tanks in all teams.
    actual_min_tier: u8,
    /// The current maximum tier between all tanks in all teams.
    actual_max_tier: u8,
    /// Contains the number of tanks at that tier in all teams.
    tiers: HashMap<u8, QueueTierInfo>,
    /// Total count of players in all teams.
    players_count: usize,
}

impl<'reg> QueueMatch<'reg> {
    spec fn view(&self) -> MatchView<'reg> {
        (
            self.teams@.map_values(|t: QueueTeam<'reg>| t.view_players()),
            (self.limit_min_tier, self.limit_max_tier),
            (self.actual_min_tier, self.actual_max_tier),
        )
    }

    spec fn wf(&self) -> bool {
        &&& self.teams@.len() == TEAMS_COUNT
        &&& forall|j: int| 0 <= j < TEAMS_COUNT ==> #[trigger] self.teams@[j].wf()
        &&& self.max_teams_size == MAX_TEAMS_SIZE
        &&& self.actual_min_tier <= self.actual_max_tier
        &&& self.players_count == match_players(self.view()).len()
        &&& tiers_count(self.tiers@, match_players(self.view()))
    }
}

proof fn lemma_counts_push<'reg>(players: Seq<Player<'reg>>, p: Player<'reg>)
    ensures
        forall|t: u8| #[trigger]
            count_tier(players.push(p), t) == count_tier(players, t) + if p.spec_tank().spec_tier()
                == t {
                1int
            } else {
                0int
            },
        forall|t: u8, c: TankClass| #[trigger]
            count_class(players.push(p), t, c) == count_class(players, t, c) + if p.spec_tank().spec_tier()
                == t && p.spec_tank().spec_class() == c {
                1int
            } else {
                0int
            },
{
    assert(players.push(p).drop_last() == players);
}

proof fn lemma_counts_concat<'reg>(a: Seq<Player<'reg>>, b: Seq<Player<'reg>>)
    ensures
        forall|t: u8| #[trigger] count_tier(a + b, t) == count_tier(a, t) + count_tier(b, t),
        forall|t: u8, c: TankClass| #[trigger]
            count_class(a + b, t, c) == count_class(a, t, c) + count_class(b, t, c),
    decreases b.len(),
{
    if b.len() == 0 {
        assert(a + b == a);
    } else {
        lemma_counts_concat(a, b.drop_last());
        assert((a + b).drop_last() == a + b.drop_last());
        assert((a + b).last() == b.last());
        assert forall|t: u8| #[trigger] count_tier(a + b, t) == count_tier(a, t) + count_tier(b, t) by {
            assert(count_tier(a + b.drop_last(), t) == count_tier(a, t) + count_tier(b.drop_last(), t));
        }
        assert forall|t: u8, c: TankClass| #[trigger] count_class(a + b, t, c) == count_class(a, t, c)
            + count_class(b, t, c) by {
            assert(count_class(a + b.drop_last(), t, c) == count_class(a, t, c) + count_class(
                b.drop_last(),
                t,
                c,
            ));
        }
    }
}

/// The counts of a tier and of a class within it, as a tier table holds them.
fn table_counts<'reg>(
    tiers: &HashMap<u8, QueueTierInfo>,
    tier: u8,
    class: TankClass,
    Ghost(players): Ghost<Seq<Player<'reg>>>,
) -> (r: (usize, usize))
    requires
        tiers_count(tiers@, players),
    ensures
        r.0 == count_tier(players, tier),
        r.1 == count_class(players, tier, class),
{
    match tiers.get(&tier) {
        Some(info) => (info.count, info.classes.get(class)),
        None => {
            proof {
                lemma_counts_bounded(players, tier, class);
            }
            (0, 0)
        },
    }
}

/// Counts one more tank of this tier and class in a tier table.
fn table_add<'reg>(
    tiers: &mut HashMap<u8, QueueTierInfo>,
    tier: u8,
    class: TankClass,
    Ghost(before): Ghost<Seq<Player<'reg>>>,
    Ghost(after): Ghost<Seq<Player<'reg>>>,
)
    requires
        tiers_count(old(tiers)@, before),
        count_tier(before, tier) < usize::MAX,
        forall|t: u8| #[trigger]
            count_tier(after, t) == count_tier(before, t) + if t == tier {
                1int
            } else {
                0int
            },
        forall|t: u8, c: TankClass| #[trigger]
            count_class(after, t, c) == count_class(before, t, c) + if t == tier && c == class {
                1int
            } else {
                0int
            },
    ensures
        tiers_count(final(tiers)@, after),
{
    let info = match tiers.get(&tier) {
        Some(info) => *info,
        None => {
            proof {
                assert forall|c: TankClass| count_class(before, tier, c) == 0 by {
                    lemma_counts_bounded(before, tier, c);
                }
            }
            QueueTierInfo { count: 0, limit: 0, classes: ClassCounts::zero() }
        },
    };
    proof {
        lemma_counts_bounded(before, tier, class);
    }
    let updated = QueueTierInfo {
        count: info.count + 1,
        limit: info.limit,
        classes: info.classes.incremented(class),
    };
    tiers.insert(tier, updated);
    proof {
        assert forall|t: u8| #[trigger] tiers@.contains_key(t) implies tiers@[t].count == count_tier(
            after,
            t,
        ) && forall|c: TankClass| #[trigger]
            class_count(tiers@[t].classes, c) == count_class(after, t, c) by {
            if t != tier {
                assert(old(tiers)@.contains_key(t));
            }
        }
        assert forall|t: u8| #[trigger] count_tier(after, t) > 0 implies tiers@.contains_key(t) by {
            if t != tier {
                assert(count_tier(before, t) > 0);
            }
        }
    }
}

/// Sets the expected maximum count of a tier in a tier table, registering the
/// tier if needed.
fn table_set_limit<'reg>(
    tiers: &mut HashMap<u8, QueueTierInfo>,
    tier: u8,
    limit: usize,
    Ghost(players): Ghost<Seq<Player<'reg>>>,
)
    requires
        tiers_count(old(tiers)@, players),
    ensures
        tiers_count(final(tiers)@, players),
        final(tiers)@.dom() == old(tiers)@.dom().insert(tier),
        forall|t: u8|
            t != tier && #[trigger] old(tiers)@.contains_key(t) ==> final(tiers)@[t] == old(
                tiers,
            )@[t],
        final(tiers)@[tier].limit == limit,
        old(tiers)@.contains_key(tier) ==> final(tiers)@[tier].count == old(tiers)@[tier].count
            && final(tiers)@[tier].classes == old(tiers)@[tier].classes,
        !old(tiers)@.contains_key(tier) ==> final(tiers)@[tier].count == 0 && forall|c: TankClass|
            #[trigger] class_count(final(tiers)@[tier].classes, c) == 0,
{
    let info = match tiers.get(&tier) {
        Some(info) => *info,
        None => {
            proof {
                assert forall|c: TankClass| count_class(players, tier, c) == 0 by {
                    lemma_counts_bounded(players, tier, c);
                }
            }
            QueueTierInfo { count: 0, limit: 0, classes: ClassCounts::zero() }
        },
    };
    tiers.insert(tier, QueueTierInfo { count: info.count, limit, classes: info.classes });
    proof {
        assert forall|t: u8| #[trigger] tiers@.contains_key(t) implies tiers@[t].count == count_tier(
            players,
            t,
        ) && forall|c: TankClass| #[trigger]
            class_count(tiers@[t].classes, c) == count_class(players, t, c) by {
            if t != tier {
                assert(old(tiers)@.contains_key(t));
            }
        }
    }
}

impl<'reg> QueueMatch<'reg> {
    /// A new match for a tank of this tier and tier range, with empty teams.
    fn new(tier: u8, limit_min_tier: u8, limit_max_tier: u8) -> (r: Self)
        ensures
            r.wf(),
            r.view() == (
                seq![Seq::<Player<'reg>>::empty(), Seq::<Player<'reg>>::empty()],
                (limit_min_tier, limit_max_tier),
                (tier, tier),
            ),
    {
        let mut teams: Vec<QueueTeam<'reg>> = Vec::new();
        teams.push(QueueTeam::new());
        teams.push(QueueTeam::new());
        let r = QueueMatch {
            teams,
            max_teams_size: MAX_TEAMS_SIZE,
            limit_min_tier,
            limit_max_tier,
            actual_min_tier: tier,
            actual_max_tier: tier,
            tiers: HashMap::new(),
            players_count: 0,
        };
        proof {
            assert(r.view().0 =~= seq![Seq::<Player<'reg>>::empty(), Seq::<Player<'reg>>::empty()]);
            assert(match_players(r.view()) =~= Seq::<Player<'reg>>::empty());
        }
        r
    }

    /// Recomputes the expected maximum count of each tier of the match's tier
    /// range, in the match and in its teams: from the lowest tier up, each tier
    /// expects half of the team slots that the tiers below leave.
    fn refresh_tier_limits(&mut self)
        requires
            old(self).wf(),
        ensures
            final(self).wf(),
            final(self).view() == old(self).view(),
    {
        let ghost v1 = self.view();
        let mut remaining = self.max_teams_size;
        let mut t: u16 = self.actual_min_tier as u16;
        while t <= self.actual_max_tier as u16
            invariant
                self.wf(),
                self.view() == v1,
                self.actual_min_tier <= t <= self.actual_max_tier as int + 1,
                remaining <= MAX_TEAMS_SIZE,
            decreases self.actual_max_tier as int + 1 - t,
        {
            let limit = remaining / 2;
            remaining = remaining - limit;
            let mut k: usize = 0;
            while k < self.teams.len()
                invariant
                    self.teams@.len() == TEAMS_COUNT,
                    forall|j: int| 0 <= j < TEAMS_COUNT ==> #[trigger] self.teams@[j].wf(),
                    self.view() == v1,
                    k <= TEAMS_COUNT,
                    limit <= MAX_TEAMS_SIZE,
                    tiers_count(self.tiers@, match_players(v1)),
                    self.max_teams_size == MAX_TEAMS_SIZE,
                    self.players_count == match_players(v1).len(),
                    self.actual_min_tier <= self.actual_max_tier,
                decreases TEAMS_COUNT - k,
            {
                let ghost before = self.teams@;
                assert(before[k as int].wf());
                let mut team = self.teams.remove(k);
                let ghost players = team.view_players();
                table_set_limit(&mut team.tiers, t as u8, limit, Ghost(players));
                self.teams.insert(k, team);
                proof {
                    assert(self.teams@ == before.update(k as int, team));
                    assert(self.view().0 =~= v1.0);
                    assert forall|j: int| 0 <= j < TEAMS_COUNT implies #[trigger] self.teams@[j].wf() by {
                        if j != k {
                            assert(self.teams@[j] == before[j]);
                        }
                    }
                }
                k = k + 1;
            }
            let ghost players = match_players(self.view());
            assert(tiers_count(self.tiers@, players));
            let teams_len = self.teams.len();
            assert(teams_len == TEAMS_COUNT);
            let match_limit = limit * teams_len;
            table_set_limit(&mut self.tiers, t as u8, match_limit, Ghost(players));
            assert(self.view() == v1);
            t = t + 1;
        }
    }

    /// Adds a tank to team `team_index`: the tank's range becomes the range the
    /// match allows, the tier range of the match grows to the tank's tier, and
    /// the tier tables count it.
    #[verifier::spinoff_prover]
    #[verifier::rlimit(40)]
    fn join(&mut self, team_index: usize, qp: QueuePlayer<'reg>)
        requires
            old(self).wf(),
            team_index < TEAMS_COUNT,
            old(self).view().0[team_index as int].len() < MAX_TEAMS_SIZE,
            (qp.min_tier, qp.max_tier) == player_tier_range(
                qp.inner.spec_tank().spec_tier(),
                qp.inner.spec_tank().spec_class(),
            ),
        ensures
            final(self).wf(),
            final(self).view() == joined(old(self).view(), team_index as int, qp.inner),
    {
        let tier = qp.inner.tank.tier();
        let class = qp.inner.tank.class();
        let ghost v0 = self.view();

        // We know that we can force update the allowed tier range.
        self.limit_min_tier = qp.min_tier;
        self.limit_max_tier = qp.max_tier;

        // Update actual tier range.
        let mut update_tiers = false;
        if tier < self.actual_min_tier {
            self.actual_min_tier = tier;
            update_tiers = true;
        }
        if tier > self.actual_max_tier {
            self.actual_max_tier = tier;
            update_tiers = true;
        }
        let ghost v1 = self.view();
        proof {
            assert(v1.0 == v0.0);
            assert(self.wf());
        }

        // If actual min or max tiers have been modified, ensure that they exists in the
        // tiers info map of the match and all teams.
        if update_tiers {
            self.refresh_tier_limits();
        }

        // Update tier informations in match and team.
        let ghost before = match_players(self.view());
        let ghost teams_before = self.teams@;
        assert(teams_before[team_index as int].wf());
        assert(teams_before[0].wf());
        assert(teams_before[1].wf());
        let mut team = self.teams.remove(team_index);
        let ghost team_before = team.view_players();
        proof {
            assert(team_before == v0.0[team_index as int]);
            lemma_counts_push(team_before, qp.inner);
            lemma_counts_bounded(team_before, tier, class);
        }
        table_add(&mut team.tiers, tier, class, Ghost(team_before), Ghost(team_before.push(qp.inner)));
        team.players.push(qp);
        proof {
            assert(team.view_players() =~= team_before.push(qp.inner));
        }
        self.teams.insert(team_index, team);
        proof {
            assert(self.teams@ == teams_before.update(team_index as int, team));
            assert(self.view().0 =~= v0.0.update(team_index as int, team_before.push(qp.inner)));
            let (a, b) = (v0.0[0], v0.0[1]);
            lemma_counts_concat(a, b);
            lemma_counts_concat(self.view().0[0], self.view().0[1]);
            lemma_counts_push(a, qp.inner);
            lemma_counts_push(b, qp.inner);
            lemma_counts_bounded(before, tier, class);
            assert(before.len() <= 2 * MAX_TEAMS_SIZE);
        }
        let ghost after = match_players(self.view());
        table_add(&mut self.tiers, tier, class, Ghost(before), Ghost(after));
        self.players_count = self.players_count + 1;
        proof {
            assert forall|j: int| 0 <= j < TEAMS_COUNT implies #[trigger] self.teams@[j].wf() by {
                if j != team_index {
                    assert(self.teams@[j] == teams_before[j]);
                }
            }
            assert(self.view() =~= joined(v0, team_index as int, qp.inner));
        }
    }
}

proof fn lemma_player_lt_order<'reg>(a: Player<'reg>, b: Player<'reg>, c: Player<'reg>)
    ensures
        !player_lt(a, a),
        player_lt(a, b) && player_lt(b, c) ==> player_lt(a, c),
{
    lemma_lex_irreflexive(a.spec_tank().spec_name());
    if player_lt(a, b) && player_lt(b, c) {
        if lex_lt(a.spec_tank().spec_name(), b.spec_tank().spec_name()) && lex_lt(
            b.spec_tank().spec_name(),
            c.spec_tank().spec_name(),
        ) {
            lemma_lex_transitive(
                a.spec_tank().spec_name(),
                b.spec_tank().spec_name(),
                c.spec_tank().spec_name(),
            );
        }
    }
}

fn player_before<'reg>(a: &Player<'reg>, b: &Player<'reg>) -> (r: bool)
    ensures
        r == player_lt(*a, *b),
{
    let (ta, tb) = (a.tank, b.tank);
    if ta.tier() != tb.tier() {
        return ta.tier() > tb.tier();
    }
    let (ra, rb) = (ta.class().rank(), tb.class().rank());
    if ra != rb {
        return ra < rb;
    }
    str_compare(ta.name(), tb.name()) < 0
}

/// Where player `x` goes among the sorted players `s`, looking from position
/// `k` on: before the first player it comes before, else at the end.
pub open spec fn insert_position<'reg>(s: Seq<Player<'reg>>, x: Player<'reg>, k: int) -> int
    decreases s.len() - k,
{
    if k < 0 || k >= s.len() {
        s.len() as int
    } else if player_lt(x, s[k]) {
        k
    } else {
        insert_position(s, x, k + 1)
    }
}

/// The players sorted one after the other as they joined: each goes before
/// the first of the players already sorted that it comes before.
pub open spec fn sorted_players<'reg>(s: Seq<Player<'reg>>) -> Seq<Player<'reg>>
    decreases s.len(),
{
    if s.len() == 0 {
        s
    } else {
        let rest = sorted_players(s.drop_last());
        rest.insert(insert_position(rest, s.last(), 0), s.last())
    }
}

proof fn lemma_insert_position_skip<'reg>(s: Seq<Player<'reg>>, x: Player<'reg>, a: int, b: int)
    requires
        0 <= a <= b <= s.len(),
        forall|k: int| a <= k < b ==> !player_lt(x, #[trigger] s[k]),
    ensures
        insert_position(s, x, a) == insert_position(s, x, b),
    decreases b - a,
{
    if a < b {
        lemma_insert_position_skip(s, x, a + 1, b);
    }
}

/// What a player is ordered by: the tier, the class and the name of its tank.
pub open spec fn player_key<'reg>(p: Player<'reg>) -> (u8, TankClass, Seq<char>) {
    (p.spec_tank().spec_tier(), p.spec_tank().spec_class(), p.spec_tank().spec_name())
}

/// The players ordered alike with `e`.
pub open spec fn same_rank_as<'reg>(e: Player<'reg>) -> spec_fn(Player<'reg>) -> bool {
    |x: Player<'reg>| player_key(x) == player_key(e)
}

/// Sorts the players of a team, keeping players of equal rank in their order.
fn sort_players<'reg>(players: Vec<Player<'reg>>) -> (r: Vec<Player<'reg>>)
    ensures
        players_sorted(r@),
        r@.to_multiset() == players@.to_multiset(),
        r@.len() == players@.len(),
        forall|e: Player<'reg>| #[trigger] r@.filter(same_rank_as(e)) == players@.filter(
            same_rank_as(e),
        ),
        r@ == sorted_players(players@),
{
    broadcast use vstd::seq_lib::group_to_multiset_ensures;

    let mut sorted: Vec<Player<'reg>> = Vec::new();
    let mut i: usize = 0;
    while i < players.len()
        invariant
            i <= players.len(),
            players_sorted(sorted@),
            sorted@.to_multiset() == players@.take(i as int).to_multiset(),
            sorted@.len() == i,
            forall|e: Player<'reg>| #[trigger] sorted@.filter(same_rank_as(e)) == players@.take(
                i as int,
            ).filter(same_rank_as(e)),
            sorted@ == sorted_players(players@.take(i as int)),
        decreases players.len() - i,
    {
        let x = players[i];
        let mut p: usize = 0;
        while p < sorted.len() && !player_before(&x, &sorted[p])
            invariant
                p <= sorted.len(),
                forall|k: int| 0 <= k < p ==> !player_lt(x, #[trigger] sorted@[k]),
            decreases sorted.len() - p,
        {
            p = p + 1;
        }
        let ghost old_sorted = sorted@;
        sorted.insert(p, x);
        proof {
            assert forall|a: int, b: int| 0 <= a < b < sorted@.len() implies !player_lt(
                #[trigger] sorted@[b],
                #[trigger] sorted@[a],
            ) by {
                if a < p && b == p {
                } else if a == p && b > p {
                    lemma_player_lt_order(old_sorted[b - 1], x, old_sorted[p as int]);
                    lemma_player_lt_order(old_sorted[b - 1], old_sorted[p as int], x);
                    if b - 1 > p {
                        assert(!player_lt(old_sorted[b - 1], old_sorted[p as int]));
                    }
                } else if b < p {
                    assert(sorted@[a] == old_sorted[a] && sorted@[b] == old_sorted[b]);
                } else if a < p {
                    assert(sorted@[a] == old_sorted[a] && sorted@[b] == old_sorted[b - 1]);
                } else {
                    assert(sorted@[a] == old_sorted[a - 1] && sorted@[b] == old_sorted[b - 1]);
                }
            }
            let prefix = players@.take(i as int);
            assert(players@.take(i + 1) == prefix.push(x));
            lemma_insert_position_skip(old_sorted, x, 0, p as int);
            assert(insert_position(old_sorted, x, p as int) == p);
            assert(prefix.push(x).drop_last() == prefix);
            assert(sorted@ == sorted_players(players@.take(i + 1)));
            lemma_insert_to_multiset(old_sorted, p as int, x);
            prefix.to_multiset_ensures();
            assert forall|e: Player<'reg>| #[trigger] sorted@.filter(same_rank_as(e))
                == players@.take(i + 1).filter(same_rank_as(e)) by {
                let pred = same_rank_as(e);
                if pred(x) {
                    assert forall|k: int| p <= k < old_sorted.len() implies !pred(
                        #[trigger] old_sorted[k],
                    ) by {
                        lemma_player_lt_order(old_sorted[p as int], x, old_sorted[p as int]);
                        if k > p && pred(old_sorted[k]) {
                            assert(player_lt(x, old_sorted[p as int]));
                            assert(player_lt(old_sorted[k], old_sorted[p as int]));
                        }
                    }
                }
                lemma_filter_insert(old_sorted, p as int, x, pred);
                lemma_filter_push(old_sorted, x, pred);
                lemma_filter_push(prefix, x, pred);
                assert(old_sorted.filter(pred) == prefix.filter(pred));
            }
        }
        i = i + 1;
    }
    proof {
        assert(players@.take(players@.len() as int) == players@);
        assert(players@.take(0) == Seq::<Player<'reg>>::empty());
    }
    sorted
}

/// A completed match.
#[derive(Debug)]
pub struct Match<'reg> {
    players: Vec<Player<'reg>>,
    teams_size: usize,
}

/// Match `m` holds the given teams, each sorted, team after team.
pub open spec fn made_of<'reg>(m: Match<'reg>, teams: Seq<Seq<Player<'reg>>>) -> bool {
    &&& m.wf()
    &&& m.spec_teams_size() == MAX_TEAMS_SIZE
    &&& m.spec_players().len() == TEAMS_COUNT * MAX_TEAMS_SIZE
    &&& forall|t: int|
        0 <= t < TEAMS_COUNT ==> {
            let part = #[trigger] m.spec_players().subrange(
                t * MAX_TEAMS_SIZE,
                (t + 1) * MAX_TEAMS_SIZE,
            );
            &&& players_sorted(part)
            &&& part.to_multiset() == teams[t].to_multiset()
            &&& forall|e: Player<'reg>| #[trigger] part.filter(same_rank_as(e)) == teams[t].filter(
                same_rank_as(e),
            )
            &&& part == sorted_players(teams[t])
        }
}

impl<'reg> Match<'reg> {
    /// The players of the match, team after team.
    pub closed spec fn spec_players(&self) -> Seq<Player<'reg>> {
        self.players@
    }

    pub closed spec fn spec_teams_size(&self) -> usize {
        self.teams_size
    }

    /// Team `t` holds positions `t * teams_size` up to `(t + 1) * teams_size`.
    pub open spec fn wf(&self) -> bool {
        &&& self.spec_teams_size() > 0
        &&& (self.spec_players().len() as int) % (self.spec_teams_size() as int) == 0
    }

    pub fn teams_size(&self) -> (r: usize)
        ensures
            r == self.spec_teams_size(),
    {
        self.teams_size
    }

    pub fn teams_count(&self) -> (r: usize)
        requires
            self.wf(),
        ensures
            r == (self.spec_players().len() as int) / (self.spec_teams_size() as int),
    {
        self.players.len() / self.teams_size
    }

    pub fn players_count(&self) -> (r: usize)
        ensures
            r == self.spec_players().len(),
    {
        self.players.len()
    }

    /// The players of team `team_index`.
    pub fn team_players(&self, team_index: usize) -> (r: &[Player<'reg>])
        requires
            self.wf(),
            self.spec_teams_size() * team_index < self.spec_players().len(),
        ensures
            r@ == self.spec_players().subrange(
                self.spec_teams_size() * team_index,
                self.spec_teams_size() * team_index + self.spec_teams_size(),
            ),
    {
        let n = self.players.len();
        let start = self.teams_size * team_index;
        proof {
            let (ts, len, i) = (self.teams_size as int, n as int, team_index as int);
            assert(start + ts <= len) by (nonlinear_arith)
                requires
                    ts > 0,
                    len % ts == 0,
                    start == ts * i,
                    start < len,
                    len >= 0,
                    i >= 0,
            ;
        }
        vstd::slice::slice_subrange(self.players.as_slice(), start, start + self.teams_size)
    }

    /// The player at position `tank_index` in team `team_index`.
    pub fn player(&self, team_index: usize, tank_index: usize) -> (r: &Player<'reg>)
        requires
            tank_index < self.spec_teams_size(),
            team_index * self.spec_teams_size() + tank_index < self.spec_players().len(),
        ensures
            *r == self.spec_players()[team_index * self.spec_teams_size() + tank_index],
    {
        let n = self.players.len();
        proof {
            assert(team_index * self.teams_size <= team_index * self.teams_size + tank_index);
        }
        let index = team_index * self.teams_size + tank_index;
        &self.players[index]
    }
}

/// The match that a full queued match makes: each team sorted, team after team.
fn build_match<'reg>(queue_match: &QueueMatch<'reg>) -> (r: Match<'reg>)
    requires
        queue_match.wf(),
        is_full(queue_match.view()),
    ensures
        made_of(r, queue_match.view().0),
{
    let ghost teams = queue_match.view().0;
    proof {
        assert(queue_match.teams@[0].wf());
        assert(queue_match.teams@[1].wf());
        assert(teams[0].len() == MAX_TEAMS_SIZE);
        assert(teams[1].len() == MAX_TEAMS_SIZE);
    }
    let mut players: Vec<Player<'reg>> = Vec::new();
    let mut t: usize = 0;
    while t < queue_match.teams.len()
        invariant
            queue_match.wf(),
            teams == queue_match.view().0,
            forall|j: int| 0 <= j < TEAMS_COUNT ==> #[trigger] teams[j].len() == MAX_TEAMS_SIZE,
            t <= TEAMS_COUNT,
            players@.len() == t * MAX_TEAMS_SIZE,
            forall|u: int|
                0 <= u < t ==> {
                    let part = #[trigger] players@.subrange(
                        u * MAX_TEAMS_SIZE,
                        (u + 1) * MAX_TEAMS_SIZE,
                    );
                    &&& players_sorted(part)
                    &&& part.to_multiset() == teams[u].to_multiset()
                    &&& forall|e: Player<'reg>| #[trigger] part.filter(same_rank_as(e))
                        == teams[u].filter(same_rank_as(e))
                    &&& part == sorted_players(teams[u])
                },
        decreases TEAMS_COUNT - t,
    {
        let team = &queue_match.teams[t];
        let mut team_players: Vec<Player<'reg>> = Vec::new();
        let mut k: usize = 0;
        while k < team.players.len()
            invariant
                k <= team.players@.len(),
                team_players@ == team.view_players().take(k as int),
            decreases team.players@.len() - k,
        {
            team_players.push(team.players[k].inner);
            proof {
                assert(team.view_players().take(k + 1) == team.view_players().take(k as int).push(
                    team.players@[k as int].inner,
                ));
            }
            k = k + 1;
        }
        proof {
            assert(team.view_players().take(k as int) == team.view_players());
            assert(team.view_players() == teams[t as int]);
        }
        let sorted = sort_players(team_players);
        let ghost before = players@;
        let mut k: usize = 0;
        while k < sorted.len()
            invariant
                k <= sorted@.len(),
                sorted@.len() == MAX_TEAMS_SIZE,
                players@ == before + sorted@.take(k as int),
            decreases sorted@.len() - k,
        {
            players.push(sorted[k]);
            proof {
                assert(sorted@.take(k + 1) == sorted@.take(k as int).push(sorted@[k as int]));
            }
            k = k + 1;
        }
        proof {
            assert(sorted@.take(k as int) == sorted@);
            assert(players@.subrange(t * MAX_TEAMS_SIZE, (t + 1) * MAX_TEAMS_SIZE) == sorted@);
            assert forall|u: int| 0 <= u < t + 1 implies {
                let part = #[trigger] players@.subrange(u * MAX_TEAMS_SIZE, (u + 1) * MAX_TEAMS_SIZE);
                &&& players_sorted(part)
                &&& part.to_multiset() == teams[u].to_multiset()
                &&& forall|e: Player<'reg>| #[trigger] part.filter(same_rank_as(e))
                    == teams[u].filter(same_rank_as(e))
                &&& part == sorted_players(teams[u])
            } by {
                if u < t {
                    assert(players@.subrange(u * MAX_TEAMS_SIZE, (u + 1) * MAX_TEAMS_SIZE)
                        == before.subrange(u * MAX_TEAMS_SIZE, (u + 1) * MAX_TEAMS_SIZE));
                }
            }
        }
        t = t + 1;
    }
    let r = Match { players, teams_size: MAX_TEAMS_SIZE };
    proof {
        assert((r.players@.len() as int) % (MAX_TEAMS_SIZE as int) == 0);
    }
    r
}

/// A new match made for a tank that no queued match could take.
pub open spec fn opened_for<'reg>(player: Player<'reg>) -> MatchView<'reg> {
    let tier = player.spec_tank().spec_tier();
    (
        seq![seq![player], Seq::<Player<'reg>>::empty()],
        player_tier_range(tier, player.spec_tank().spec_class()),
        (tier, tier),
    )
}

/// Second iteration of the matchmaker algorithm.
#[derive(Debug)]
pub struct Matchmaker<'reg> {
    matches: Vec<QueueMatch<'reg>>,
}

impl<'reg> Matchmaker<'reg> {
    /// The matches being filled, oldest first.
    pub closed spec fn spec_matches(&self) -> Seq<MatchView<'reg>> {
        self.matches@.map_values(|m: QueueMatch<'reg>| m.view())
    }

    /// Every queued match has two teams.
    proof fn lemma_views_have_two_teams(self)
        requires
            self.wf(),
        ensures
            forall|k: int|
                0 <= k < self.spec_matches().len() ==> (#[trigger] self.spec_matches()[k]).0.len()
                    == TEAMS_COUNT,
    {
        assert forall|k: int| 0 <= k < self.spec_matches().len() implies (
        #[trigger] self.spec_matches()[k]).0.len() == TEAMS_COUNT by {
            assert(self.matches@[k].wf());
        }
    }

    /// Every queued match keeps its teams and tier tables consistent.
    pub closed spec fn wf(&self) -> bool {
        forall|i: int|
            0 <= i < self.matches@.len() ==> #[trigger] self.matches@[i].wf() && match_kept(
                self.matches@[i].view(),
            )
    }

    /// Queued matches that are each well formed, and whose views are kept, make
    /// a well-formed matchmaker.
    proof fn lemma_kept_from_views(&self)
        requires
            forall|i: int| 0 <= i < self.matches@.len() ==> #[trigger] self.matches@[i].wf(),
            forall|k: int|
                0 <= k < self.spec_matches().len() ==> #[trigger] teams_balanced(
                    self.spec_matches()[k].0,
                ),
            forall|k: int|
                0 <= k < self.spec_matches().len() ==> #[trigger] window_kept(self.spec_matches()[k]),
        ensures
            self.wf(),
    {
        assert forall|i: int| 0 <= i < self.matches@.len() implies #[trigger] self.matches@[i].wf()
            && match_kept(self.matches@[i].view()) by {
            assert(self.spec_matches()[i] == self.matches@[i].view());
            assert(teams_balanced(self.spec_matches()[i].0));
            assert(window_kept(self.spec_matches()[i]));
        }
    }

    /// Every queued match has two balanced teams and keeps its tier window.
    pub proof fn lemma_queued_matches_kept(&self)
        requires
            self.wf(),
        ensures
            forall|k: int|
                0 <= k < self.spec_matches().len() ==> #[trigger] teams_balanced(
                    self.spec_matches()[k].0,
                ),
            forall|k: int|
                0 <= k < self.spec_matches().len() ==> #[trigger] window_kept(self.spec_matches()[k]),
            forall|k: int|
                0 <= k < self.spec_matches().len() ==> (#[trigger] self.spec_matches()[k]).0.len()
                    == TEAMS_COUNT,
    {
        assert forall|k: int| 0 <= k < self.spec_matches().len() implies #[trigger] teams_balanced(
            self.spec_matches()[k].0,
        ) && window_kept(self.spec_matches()[k]) && self.spec_matches()[k].0.len() == TEAMS_COUNT by {
            assert(self.matches@[k].wf());
            assert(match_kept(self.matches@[k].view()));
            assert(self.spec_matches()[k] == self.matches@[k].view());
        }
        assert forall|k: int| 0 <= k < self.spec_matches().len() implies #[trigger] window_kept(
            self.spec_matches()[k],
        ) by {
            assert(teams_balanced(self.spec_matches()[k].0));
        }
        assert forall|k: int| 0 <= k < self.spec_matches().len() implies (
        #[trigger] self.spec_matches()[k]).0.len() == TEAMS_COUNT by {
            assert(teams_balanced(self.spec_matches()[k].0));
        }
    }

    pub fn new() -> (r: Self)
        ensures
            r.wf(),
            r.spec_matches() == Seq::<MatchView<'reg>>::empty(),
    {
        let r = Self { matches: Vec::new() };
        assert(r.spec_matches() =~= Seq::<MatchView<'reg>>::empty());
        r
    }

    /// The scoring step: among the teams of the queued matches that can take
    /// the tank, the first one of the best score.
    fn best_candidate(&self, tier: u8, class: TankClass, min_tier: u8, max_tier: u8) -> (r: Option<
        (usize, usize),
    >)
        requires
            self.wf(),
            (min_tier, max_tier) == player_tier_range(tier, class),
        ensures
            r is None ==> forall|i: int, j: int|
                !#[trigger] is_candidate(self.spec_matches(), i, j, tier, class),
            r matches Some((i, j)) ==> is_best_candidate(
                self.spec_matches(),
                i as int,
                j as int,
                tier,
                class,
            ),
    {
        let ghost ms = self.spec_matches();
        let mut best: Option<(usize, usize)> = None;
        let mut best_score: i64 = 0;
        let mut match_index: usize = 0;
        while match_index < self.matches.len()
            invariant
                self.wf(),
                ms == self.spec_matches(),
                (min_tier, max_tier) == player_tier_range(tier, class),
                match_index <= ms.len(),
                best is None ==> forall|i: int, j: int|
                    #[trigger] is_candidate(ms, i, j, tier, class) ==> i >= match_index,
                best matches Some((bi, bj)) ==> {
                    &&& is_candidate(ms, bi as int, bj as int, tier, class)
                    &&& bi < match_index
                    &&& best_score == fit_score(ms[bi as int], bj as int, tier, class)
                    &&& forall|i: int, j: int|
                        #[trigger] is_candidate(ms, i, j, tier, class) && i < match_index ==> {
                            &&& fit_score(ms[i], j, tier, class) <= best_score
                            &&& (i < bi || (i == bi && j < bj)) ==> fit_score(ms[i], j, tier, class)
                                < best_score
                        }
                },
            decreases ms.len() - match_index,
        {
            let queue_match = &self.matches[match_index];
            let ghost m = ms[match_index as int];
            proof {
                assert(self.matches@[match_index as int].wf());
                assert(m == queue_match.view());
            }

            // First, pick a team that has the right tier range.
            if min_tier > queue_match.limit_min_tier || max_tier < queue_match.limit_max_tier {
                // Secondary condition to allow a tank to be included with a stricter
                // tier range, only if no tanks in the team are outside of this range.
                if queue_match.actual_min_tier < min_tier || queue_match.actual_max_tier
                    > max_tier {
                    match_index = match_index + 1;
                    continue;
                }
            }

            // Match tier range is used to prefer games that are of the same tier.
            let match_tier_range = queue_match.actual_max_tier - queue_match.actual_min_tier;

            // Tier range diff from extremums.
            let tier_range_diff = if tier < queue_match.actual_min_tier {
                queue_match.actual_min_tier - tier
            } else if tier > queue_match.actual_max_tier {
                tier - queue_match.actual_max_tier
            } else {
                0
            };

            // Find info about tier and the class in that match.
            let (match_tier_count, match_class_count) = table_counts(
                &queue_match.tiers,
                tier,
                class,
                Ghost(match_players(m)),
            );
            proof {
                assert(queue_match.teams@[0].wf());
                assert(queue_match.teams@[1].wf());
                lemma_counts_bounded(match_players(m), tier, class);
            }

            // Compute how many tanks of each type should be in each team.
            let teams_len = queue_match.teams.len();
            let match_tier_balance = (match_tier_count + teams_len - 1) / teams_len;
            let match_class_balance = (match_class_count + teams_len - 1) / teams_len;

            // Here we check every team to find the good one.
            let mut team_index: usize = 0;
            while team_index < queue_match.teams.len()
                invariant
                    self.wf(),
                    ms == self.spec_matches(),
                    match_index < ms.len(),
                    queue_match == &self.matches@[match_index as int],
                    m == queue_match.view(),
                    queue_match.wf(),
                    match_admits(m, min_tier, max_tier),
                    (min_tier, max_tier) == player_tier_range(tier, class),
                    teams_len == TEAMS_COUNT,
                    match_tier_balance == ceil_div(count_tier(match_players(m), tier) as int, 2),
                    match_class_balance == ceil_div(
                        count_class(match_players(m), tier, class) as int,
                        2,
                    ),
                    match_tier_range == m.2.1 - m.2.0,
                    match_tier_balance <= 2 * MAX_TEAMS_SIZE,
                    match_class_balance <= 2 * MAX_TEAMS_SIZE,
                    tier_range_diff == (if tier < m.2.0 {
                        m.2.0 - tier
                    } else if tier > m.2.1 {
                        tier - m.2.1
                    } else {
                        0
                    }),
                    team_index <= TEAMS_COUNT,
                    best is None ==> forall|i: int, j: int|
                        #[trigger] is_candidate(ms, i, j, tier, class) ==> (i > match_index || (i
                            == match_index && j >= team_index)),
                    best matches Some((bi, bj)) ==> {
                        &&& is_candidate(ms, bi as int, bj as int, tier, class)
                        &&& (bi < match_index || (bi == match_index && bj < team_index))
                        &&& best_score == fit_score(ms[bi as int], bj as int, tier, class)
                        &&& forall|i: int, j: int|
                            #[trigger] is_candidate(ms, i, j, tier, class) && (i < match_index || (i
                                == match_index && j < team_index)) ==> {
                                &&& fit_score(ms[i], j, tier, class) <= best_score
                                &&& (i < bi || (i == bi && j < bj)) ==> fit_score(ms[i], j, tier, class)
                                    < best_score
                            }
                    },
                decreases TEAMS_COUNT - team_index,
            {
                let queue_team = &queue_match.teams[team_index];
                proof {
                    assert(queue_match.teams@[team_index as int].wf());
                }

                // Ignore teams that are already full!
                if queue_team.players.len() >= queue_match.max_teams_size {
                    team_index = team_index + 1;
                    continue;
                }

                // Find info about tier and class in that team.
                let (team_tier_count, team_class_count) = table_counts(
                    &queue_team.tiers,
                    tier,
                    class,
                    Ghost(queue_team.view_players()),
                );
                proof {
                    lemma_counts_bounded(queue_team.view_players(), tier, class);
                }
                let team_tier_diff = match_tier_balance as isize - team_tier_count as isize;
                let team_class_diff = match_class_balance as isize - team_class_count as isize;

                // Ignore this team if it already has more tanks of the same type.
                if team_tier_diff <= -1 || team_class_diff <= -1 {
                    team_index = team_index + 1;
                    continue;
                }

                // The score, six times the sum of four terms that each favour a better fit.
                let score: i64 = 24 - 2 * (match_tier_range as i64) - 3 * (tier_range_diff as i64)
                    + 6 * (if team_tier_diff < 1 {
                    team_tier_diff as i64
                } else {
                    1
                }) + 6 * (if team_class_diff < 1 {
                    team_class_diff as i64
                } else {
                    1
                });
                proof {
                    assert(is_candidate(ms, match_index as int, team_index as int, tier, class));
                    assert(score == fit_score(m, team_index as int, tier, class));
                }
                if best.is_none() || score > best_score {
                    best = Some((match_index, team_index));
                    best_score = score;
                }
                team_index = team_index + 1;
            }
            match_index = match_index + 1;
        }
        best
    }
}

/// `after` and `r` are what queueing `player` into team `j` of match `i` of
/// `before` gives: the match takes the player and, once full, leaves the queue
/// as the returned match.
pub open spec fn queued_into<'reg>(
    before: Seq<MatchView<'reg>>,
    after: Seq<MatchView<'reg>>,
    r: Option<Match<'reg>>,
    i: int,
    j: int,
    player: Player<'reg>,
) -> bool {
    let m = joined(before[i], j, player);
    if is_full(m) {
        &&& after == without_match(before, i)
        &&& r matches Some(done) && made_of(done, m.0)
    } else {
        &&& after == before.update(i, m)
        &&& r is None
    }
}

impl<'reg> Matchmaker<'reg> {
    /// Queue a tank in the matchmaker: it joins the best team that can take it,
    /// or a new match when none can. A match that becomes full is returned.
    #[verifier::spinoff_prover]
    #[verifier::rlimit(60)]
    pub fn queue(&mut self, player: Player<'reg>) -> (r: Option<Match<'reg>>)
        requires
            old(self).wf(),
        ensures
            final(self).wf(),
            queued_as(old(self).spec_matches(), final(self).spec_matches(), r, player),
            r matches Some(m) ==> teams_balanced(match_teams(m)),
            r matches Some(m) ==> (in_tier_bounds(m.spec_players()) ==> players_close(
                m.spec_players(),
            )),
            queued_players(final(self).spec_matches()) + (if r is Some {
                TEAMS_COUNT * MAX_TEAMS_SIZE
            } else {
                0
            }) == queued_players(old(self).spec_matches()) + 1,
            r matches Some(m) ==> m.spec_players().contains(player),
            r matches Some(m) ==> exists|i: int|
                0 <= i < old(self).spec_matches().len() && m.spec_players().to_multiset() == match_players(
                    #[trigger] old(self).spec_matches()[i],
                ).push(player).to_multiset(),
            one_kind_queue(
                old(self).spec_matches(),
                player.spec_tank().spec_tier(),
                player.spec_tank().spec_class(),
            ) ==> one_kind_queue(
                final(self).spec_matches(),
                player.spec_tank().spec_tier(),
                player.spec_tank().spec_class(),
            ) && (r is Some <==> queued_players(old(self).spec_matches()) == TEAMS_COUNT
                * MAX_TEAMS_SIZE - 1),
    {
        let ghost before = self.spec_matches();

        // Calculate the tier range of this tank.
        let tier = player.tank.tier();
        let class = player.tank.class();
        let (min_tier, max_tier) = player_tier_range_of(tier, class);

        // Try to find a match where this player fits.
        let best = self.best_candidate(tier, class, min_tier, max_tier);

        // If no candidate, create a new game for that player.
        let (match_index, team_index) = match best {
            Some((match_index, team_index)) => (match_index, team_index),
            None => {
                self.matches.push(QueueMatch::new(tier, min_tier, max_tier));
                proof {
                    assert forall|i: int| 0 <= i < self.matches@.len() implies #[trigger] self.matches@[i].wf() by {
                        if i < before.len() {
                            assert(old(self).matches@[i].wf());
                        }
                    }
                }
                (self.matches.len() - 1, 0)
            },
        };
        let ghost middle = self.spec_matches();
        proof {
            assert(self.matches@[match_index as int].wf());
            if best is None {
                assert(middle == before.push(self.matches@[match_index as int].view()));
            } else {
                assert(middle == before);
            }
        }

        // Finally add the player.
        let mut best_match = self.matches.remove(match_index);
        let ghost joined_before = best_match.view();
        best_match.join(team_index, QueuePlayer { inner: player, min_tier, max_tier });
        self.matches.insert(match_index, best_match);
        let ghost m = joined(joined_before, team_index as int, player);
        proof {
            assert(self.spec_matches() =~= middle.update(match_index as int, m));
            assert forall|i: int| 0 <= i < self.matches@.len() implies #[trigger] self.matches@[i].wf() by {
                if i != match_index {
                    assert(old(self).matches@.len() <= self.matches@.len());
                }
            }
        }

        // The match is full!
        let full = {
            let queue_match = &self.matches[match_index];
            queue_match.players_count == queue_match.max_teams_size * queue_match.teams.len()
        };
        proof {
            assert(self.matches@[match_index as int].wf());
            assert(self.matches@[match_index as int].view() == m);
            if best is None {
                assert(joined_before.0 =~= seq![Seq::<Player<'reg>>::empty(), Seq::<Player<'reg>>::empty()]);
                assert(m.0 =~= seq![seq![player], Seq::<Player<'reg>>::empty()]);
                assert(m == opened_for(player));
                assert(match_players(m) =~= seq![player]);
                assert(!full);
            }
        }
        if full {
            let ghost ms = self.spec_matches();
            let complete_match = self.matches.swap_remove(match_index);
            let result = Some(build_match(&complete_match));
            proof {
                assert(self.spec_matches() =~= ms.update(match_index as int, ms.last()).drop_last());
                assert(complete_match.view() == m);
                if match_index as int == before.len() - 1 {
                    assert(self.spec_matches() =~= without_match(before, match_index as int));
                } else {
                    assert(ms.last() == before.last());
                    assert(self.spec_matches() =~= without_match(before, match_index as int));
                }
                assert(queued_into(before, self.spec_matches(), result, match_index as int, team_index as int, player));
                old(self).lemma_queued_matches_kept();
                lemma_queued_tiers_close(
                    before,
                    self.spec_matches(),
                    result,
                    match_index as int,
                    team_index as int,
                    player,
                );
                lemma_queued_balanced(
                    before,
                    self.spec_matches(),
                    result,
                    match_index as int,
                    team_index as int,
                    player,
                );
                self.lemma_kept_from_views();
                assert(is_best_candidate(before, match_index as int, team_index as int, tier, class));
                assert(is_candidate(before, match_index as int, team_index as int, tier, class));
                assert(queued_as(before, self.spec_matches(), result, player));
                old(self).lemma_views_have_two_teams();
                lemma_queue_conserves_players(
                    before,
                    self.spec_matches(),
                    result,
                    match_index as int,
                    team_index as int,
                    player,
                );
                lemma_made_of_holds_player(result->0, before[match_index as int], team_index as int, player);
                lemma_made_of_joined_multiset(result->0, before[match_index as int], team_index as int, player);
                if one_kind_queue(before, tier, class) {
                    lemma_one_kind_step(
                        before,
                        self.spec_matches(),
                        result,
                        match_index as int,
                        team_index as int,
                        player,
                    );
                }
            }
            result
        } else {
            proof {
                if best is None {
                    assert(self.spec_matches() =~= before.push(opened_for(player)));
                    old(self).lemma_queued_matches_kept();
                    lemma_opened_window_kept(player);
                    lemma_opened_balanced(player);
                    assert(forall|k: int|
                        0 <= k < before.len() ==> #[trigger] self.spec_matches()[k] == before[k]);
                    assert(self.spec_matches()[before.len() as int] == opened_for(player));
                    self.lemma_kept_from_views();
                    assert(queued_as(before, self.spec_matches(), None, player));
                    lemma_opened_match_holds_player(before, player);
                    if one_kind_queue(before, tier, class) {
                        if before.len() == 1 {
                            lemma_one_kind_candidate(before, tier, class);
                        }
                        assert(before == Seq::<MatchView<'reg>>::empty());
                        lemma_one_kind_opened(player);
                        assert(queued_players(before) == 0);
                    }
                } else {
                    assert(queued_into(before, self.spec_matches(), None, match_index as int, team_index as int, player));
                    old(self).lemma_queued_matches_kept();
                    lemma_queued_tiers_close(
                        before,
                        self.spec_matches(),
                        None,
                        match_index as int,
                        team_index as int,
                        player,
                    );
                    lemma_queued_balanced(
                        before,
                        self.spec_matches(),
                        None,
                        match_index as int,
                        team_index as int,
                        player,
                    );
                    self.lemma_kept_from_views();
                    assert(is_best_candidate(before, match_index as int, team_index as int, tier, class));
                    assert(is_candidate(before, match_index as int, team_index as int, tier, class));
                    assert(queued_as(before, self.spec_matches(), None, player));
                    old(self).lemma_views_have_two_teams();
                    lemma_queue_conserves_players(
                        before,
                        self.spec_matches(),
                        None,
                        match_index as int,
                        team_index as int,
                        player,
                    );
                    if one_kind_queue(before, tier, class) {
                        lemma_one_kind_step(
                            before,
                            self.spec_matches(),
                            None,
                            match_index as int,
                            team_index as int,
                            player,
                        );
                    }
                }
            }
            None
        }
    }
}

/// The number of players waiting in the queued matches.
pub open spec fn queued_players<'reg>(ms: Seq<MatchView<'reg>>) -> nat
    decreases ms.len(),
{
    if ms.len() == 0 {
        0
    } else {
        queued_players(ms.drop_last()) + match_players(ms.last()).len()
    }
}

proof fn lemma_queued_players_update<'reg>(ms: Seq<MatchView<'reg>>, i: int, m: MatchView<'reg>)
    requires
        0 <= i < ms.len(),
    ensures
        queued_players(ms.update(i, m)) + match_players(ms[i]).len() == queued_players(ms)
            + match_players(m).len(),
    decreases ms.len(),
{
    if i == ms.len() - 1 {
        assert(ms.update(i, m).drop_last() == ms.drop_last());
    } else {
        lemma_queued_players_update(ms.drop_last(), i, m);
        assert(ms.update(i, m).drop_last() == ms.drop_last().update(i, m));
    }
}

impl<'reg> Matchmaker<'reg> {
    /// Every queued match has two teams of at most fifteen players.
    pub proof fn lemma_teams_bounded(&self)
        requires
            self.wf(),
        ensures
            forall|i: int|
                0 <= i < self.spec_matches().len() ==> {
                    &&& (#[trigger] self.spec_matches()[i]).0.len() == TEAMS_COUNT
                    &&& self.spec_matches()[i].0[0].len() <= MAX_TEAMS_SIZE
                    &&& self.spec_matches()[i].0[1].len() <= MAX_TEAMS_SIZE
                },
    {
        assert forall|i: int| 0 <= i < self.spec_matches().len() implies {
            &&& (#[trigger] self.spec_matches()[i]).0.len() == TEAMS_COUNT
            &&& self.spec_matches()[i].0[0].len() <= MAX_TEAMS_SIZE
            &&& self.spec_matches()[i].0[1].len() <= MAX_TEAMS_SIZE
        } by {
            assert(self.matches@[i].wf());
            assert(self.matches@[i].teams@[0].wf());
            assert(self.matches@[i].teams@[1].wf());
        }
    }
}

/// Queueing a player adds exactly one player to the queue, and a match that
/// leaves takes all of its players with it.
pub proof fn lemma_queue_conserves_players<'reg>(
    before: Seq<MatchView<'reg>>,
    after: Seq<MatchView<'reg>>,
    r: Option<Match<'reg>>,
    i: int,
    j: int,
    player: Player<'reg>,
)
    requires
        0 <= i < before.len(),
        0 <= j < TEAMS_COUNT,
        before[i].0.len() == TEAMS_COUNT,
        queued_into(before, after, r, i, j, player),
    ensures
        queued_players(after) + (if r is Some {
            TEAMS_COUNT * MAX_TEAMS_SIZE
        } else {
            0
        }) == queued_players(before) + 1,
{
    let m = joined(before[i], j, player);
    assert(match_players(m).len() == match_players(before[i]).len() + 1) by {
        if j == 0 {
            assert(m.0[0] == before[i].0[0].push(player));
            assert(m.0[1] == before[i].0[1]);
        } else {
            assert(m.0[0] == before[i].0[0]);
            assert(m.0[1] == before[i].0[1].push(player));
        }
    }
    lemma_queued_players_update(before, i, m);
    if is_full(m) {
        let ms = before.update(i, before.last());
        lemma_queued_players_update(before, i, before.last());
        assert(ms.drop_last().push(ms.last()) == ms);
        assert(queued_players(ms) == queued_players(ms.drop_last()) + match_players(ms.last()).len());
        if i == before.len() - 1 {
            assert(ms.last() == before.last());
        } else {
            assert(ms.last() == before.last());
        }
    }
}

/// A new match opened for a player holds that player alone.
pub proof fn lemma_opened_match_holds_player<'reg>(before: Seq<MatchView<'reg>>, player: Player<'reg>)
    ensures
        queued_players(before.push(opened_for(player))) == queued_players(before) + 1,
{
    let m = opened_for(player);
    assert(before.push(m).drop_last() == before);
    assert(match_players(m) =~= seq![player]);
}

/// Any two of these players are at most three tiers apart.
pub open spec fn players_close<'reg>(s: Seq<Player<'reg>>) -> bool {
    forall|x: Player<'reg>, y: Player<'reg>|
        #[trigger] s.contains(x) && #[trigger] s.contains(y) ==> x.spec_tank().spec_tier()
            <= y.spec_tank().spec_tier() + 3
}

/// The tier window of a queued match holds: the tiers of its players lie in
/// its actual range, which lies in the range it allows, and any two of its
/// players are at most three tiers apart.
pub open spec fn tiers_close<'reg>(m: MatchView<'reg>) -> bool {
    let players = match_players(m);
    &&& m.0.len() == TEAMS_COUNT
    &&& m.1.0 <= m.2.0
    &&& m.2.1 <= m.1.1
    &&& forall|x: Player<'reg>|
        #[trigger] players.contains(x) ==> m.2.0 <= x.spec_tank().spec_tier() <= m.2.1
    &&& players_close(players)
}

/// A tank of a tier within 1..=10 can meet tiers from two below to three
/// above its own, and its own.
proof fn lemma_player_range_window(tier: u8, class: TankClass)
    requires
        1 <= tier <= 10,
    ensures
        tier - 2 <= player_tier_range(tier, class).0 <= tier <= player_tier_range(tier, class).1
            <= tier + 3,
{
}

/// The players of a match after one joins it are the players before and the
/// one that joined.
proof fn lemma_joined_players<'reg>(m: MatchView<'reg>, j: int, player: Player<'reg>)
    requires
        m.0.len() == TEAMS_COUNT,
        0 <= j < TEAMS_COUNT,
    ensures
        forall|x: Player<'reg>| #[trigger] match_players(joined(m, j, player)).contains(x) <==> (
        match_players(m).contains(x) || x == player),
{
    let n = joined(m, j, player);
    assert forall|x: Player<'reg>| #[trigger] match_players(n).contains(x) <==> (match_players(
        m,
    ).contains(x) || x == player) by {
        let (a, b) = (m.0[0], m.0[1]);
        if match_players(n).contains(x) {
            let k = choose|k: int| 0 <= k < match_players(n).len() && match_players(n)[k] == x;
            if j == 0 {
                assert(match_players(n) == a.push(player) + b);
                if k < a.len() {
                    assert(match_players(m)[k] == x);
                } else if k > a.len() {
                    assert(match_players(m)[k - 1] == x);
                }
            } else {
                assert(match_players(n) == a + b.push(player));
                if k < a.len() + b.len() {
                    assert(match_players(m)[k] == x);
                }
            }
        }
        if match_players(m).contains(x) {
            let k = choose|k: int| 0 <= k < match_players(m).len() && match_players(m)[k] == x;
            if j == 0 {
                assert(match_players(n) == a.push(player) + b);
                if k < a.len() {
                    assert(match_players(n)[k] == x);
                } else {
                    assert(match_players(n)[k + 1] == x);
                }
            } else {
                assert(match_players(n) == a + b.push(player));
                assert(match_players(n)[k] == x);
            }
        }
        if x == player {
            if j == 0 {
                assert(match_players(n) == a.push(player) + b);
                assert(match_players(n)[a.len() as int] == x);
            } else {
                assert(match_players(n) == a + b.push(player));
                assert(match_players(n)[(a.len() + b.len()) as int] == x);
            }
        }
    }
}

/// A match opened for a player of a tier within 1..=10 keeps its tier window.
pub proof fn lemma_opened_tiers_close<'reg>(player: Player<'reg>)
    requires
        1 <= player.spec_tank().spec_tier() <= 10,
    ensures
        tiers_close(opened_for(player)),
{
    let m = opened_for(player);
    lemma_player_range_window(player.spec_tank().spec_tier(), player.spec_tank().spec_class());
    assert(match_players(m) == seq![player]);
    assert forall|x: Player<'reg>| #[trigger] match_players(m).contains(x) implies x == player by {
        let k = choose|k: int| 0 <= k < match_players(m).len() && match_players(m)[k] == x;
    }
}

/// A player of a tier within 1..=10 that a match admits keeps the match's tier
/// window: the range it allows covers the tiers already in the match, and its
/// own range lies within three tiers of its own.
pub proof fn lemma_joined_tiers_close<'reg>(m: MatchView<'reg>, j: int, player: Player<'reg>)
    requires
        tiers_close(m),
        0 <= j < TEAMS_COUNT,
        1 <= player.spec_tank().spec_tier() <= 10,
        match_admits(
            m,
            player_tier_range(player.spec_tank().spec_tier(), player.spec_tank().spec_class()).0,
            player_tier_range(player.spec_tank().spec_tier(), player.spec_tank().spec_class()).1,
        ),
    ensures
        tiers_close(joined(m, j, player)),
{
    let t = player.spec_tank().spec_tier();
    lemma_player_range_window(t, player.spec_tank().spec_class());
    lemma_joined_players(m, j, player);
    let n = joined(m, j, player);
    assert forall|x: Player<'reg>, y: Player<'reg>|
        #[trigger] match_players(n).contains(x) && #[trigger] match_players(n).contains(y)
        implies x.spec_tank().spec_tier() <= y.spec_tank().spec_tier() + 3 by {
        if match_players(m).contains(x) && match_players(m).contains(y) {
        }
    }
}

/// Every player here has a tank of a tier within 1..=10.
pub open spec fn in_tier_bounds<'reg>(s: Seq<Player<'reg>>) -> bool {
    forall|x: Player<'reg>| #[trigger] s.contains(x) ==> 1 <= x.spec_tank().spec_tier() <= 10
}

/// A queued match of players of tiers within 1..=10 keeps its tier window.
pub open spec fn window_kept<'reg>(m: MatchView<'reg>) -> bool {
    in_tier_bounds(match_players(m)) ==> tiers_close(m)
}

/// A queued match has balanced teams and keeps its tier window.
pub open spec fn match_kept<'reg>(m: MatchView<'reg>) -> bool {
    teams_balanced(m.0) && window_kept(m)
}

/// A match opened for a player keeps its tier window.
proof fn lemma_opened_window_kept<'reg>(player: Player<'reg>)
    ensures
        window_kept(opened_for(player)),
{
    let m = opened_for(player);
    assert(match_players(m) =~= seq![player]);
    if in_tier_bounds(match_players(m)) {
        assert(match_players(m)[0] == player);
        assert(match_players(m).contains(player));
        lemma_opened_tiers_close(player);
    }
}

/// Queueing a player into matches that all keep their tier window leaves
/// matches that all keep it, and a match it completes, of players of tiers
/// within 1..=10, holds players at most three tiers apart.
pub proof fn lemma_queued_tiers_close<'reg>(
    before: Seq<MatchView<'reg>>,
    after: Seq<MatchView<'reg>>,
    r: Option<Match<'reg>>,
    i: int,
    j: int,
    player: Player<'reg>,
)
    requires
        forall|k: int| 0 <= k < before.len() ==> #[trigger] window_kept(before[k]),
        forall|k: int| 0 <= k < before.len() ==> (#[trigger] before[k]).0.len() == TEAMS_COUNT,
        is_candidate(before, i, j, player.spec_tank().spec_tier(), player.spec_tank().spec_class()),
        queued_into(before, after, r, i, j, player),
    ensures
        forall|k: int| 0 <= k < after.len() ==> #[trigger] window_kept(after[k]),
        r matches Some(done) ==> (in_tier_bounds(done.spec_players()) ==> players_close(
            done.spec_players(),
        )),
{
    let m = joined(before[i], j, player);
    assert(window_kept(before[i]));
    assert(before[i].0.len() == TEAMS_COUNT);
    lemma_joined_players(before[i], j, player);
    if in_tier_bounds(match_players(m)) {
        assert(match_players(m).contains(player));
        assert forall|x: Player<'reg>| #[trigger] match_players(before[i]).contains(x) implies 1
            <= x.spec_tank().spec_tier() <= 10 by {
            assert(match_players(m).contains(x));
        }
        lemma_joined_tiers_close(before[i], j, player);
    }
    assert(window_kept(m));
    if is_full(m) {
        assert forall|k: int| 0 <= k < after.len() implies #[trigger] window_kept(after[k]) by {
            if k == i {
                assert(after[k] == before.last());
                assert(window_kept(before[before.len() - 1]));
            } else {
                assert(after[k] == before[k]);
            }
        }
        let done = r->0;
        assert(m.0.len() == TEAMS_COUNT);
        lemma_made_of_players(done, m);
        if in_tier_bounds(done.spec_players()) {
            assert forall|x: Player<'reg>| #[trigger] match_players(m).contains(x) implies 1
                <= x.spec_tank().spec_tier() <= 10 by {
                assert(done.spec_players().contains(x));
            }
            assert(tiers_close(m));
            assert forall|x: Player<'reg>, y: Player<'reg>|
                #[trigger] done.spec_players().contains(x) && #[trigger] done.spec_players().contains(
                    y,
                ) implies x.spec_tank().spec_tier() <= y.spec_tank().spec_tier() + 3 by {
                assert(match_players(m).contains(x) && match_players(m).contains(y));
            }
        }
    } else {
        assert forall|k: int| 0 <= k < after.len() implies #[trigger] window_kept(after[k]) by {
            if k != i {
                assert(after[k] == before[k]);
            }
        }
    }
}

/// A match made of the teams of a queued match holds the players of that
/// queued match.
proof fn lemma_made_of_players<'reg>(done: Match<'reg>, m: MatchView<'reg>)
    requires
        made_of(done, m.0),
        m.0.len() == TEAMS_COUNT,
    ensures
        forall|x: Player<'reg>|
            #[trigger] done.spec_players().contains(x) <==> match_players(m).contains(x),
{
    broadcast use vstd::seq_lib::group_to_multiset_ensures;

    let s = done.spec_players();
    let size = MAX_TEAMS_SIZE as int;
    let part0 = s.subrange(0, size);
    let part1 = s.subrange(size, 2 * size);
    assert(part0 == s.subrange(0 * size, (0 + 1) * size));
    assert(part1 == s.subrange(1 * size, (1 + 1) * size));
    assert(part0.to_multiset() == m.0[0].to_multiset());
    assert(part1.to_multiset() == m.0[1].to_multiset());
    assert forall|x: Player<'reg>| #[trigger] s.contains(x) implies match_players(m).contains(x) by {
        let k = choose|k: int| 0 <= k < s.len() && s[k] == x;
        if k < size {
            assert(part0[k] == x);
            assert(part0.to_multiset().count(x) > 0);
            let q = choose|q: int| 0 <= q < m.0[0].len() && m.0[0][q] == x;
            assert(match_players(m)[q] == x);
        } else {
            assert(part1[k - size] == x);
            assert(part1.to_multiset().count(x) > 0);
            let q = choose|q: int| 0 <= q < m.0[1].len() && m.0[1][q] == x;
            assert(match_players(m)[m.0[0].len() + q] == x);
        }
    }
    assert forall|x: Player<'reg>| #[trigger] match_players(m).contains(x) implies s.contains(x) by {
        let k = choose|k: int| 0 <= k < match_players(m).len() && match_players(m)[k] == x;
        if k < m.0[0].len() {
            assert(m.0[0][k] == x);
            assert(m.0[0].to_multiset().count(x) > 0);
            let q = choose|q: int| 0 <= q < part0.len() && part0[q] == x;
            assert(s[q] == x);
        } else {
            assert(m.0[1][k - m.0[0].len()] == x);
            assert(m.0[1].to_multiset().count(x) > 0);
            let q = choose|q: int| 0 <= q < part1.len() && part1[q] == x;
            assert(s[size + q] == x);
        }
    }
}

/// The two teams hold, for each tier and for each tier and class, numbers of
/// players at most two apart.
pub open spec fn teams_balanced<'reg>(teams: Seq<Seq<Player<'reg>>>) -> bool {
    &&& forall|t: u8|
        #![trigger count_tier(teams[0], t)]
        #![trigger count_tier(teams[1], t)]
        count_tier(teams[0], t) <= count_tier(teams[1], t) + 2 && count_tier(teams[1], t)
            <= count_tier(teams[0], t) + 2
    &&& forall|t: u8, c: TankClass|
        #![trigger count_class(teams[0], t, c)]
        #![trigger count_class(teams[1], t, c)]
        count_class(teams[0], t, c) <= count_class(teams[1], t, c) + 2 && count_class(
            teams[1],
            t,
            c,
        ) <= count_class(teams[0], t, c) + 2
}

/// The two teams of a match, as its players are laid out.
pub open spec fn match_teams<'reg>(m: Match<'reg>) -> Seq<Seq<Player<'reg>>> {
    seq![
        m.spec_players().subrange(0, MAX_TEAMS_SIZE as int),
        m.spec_players().subrange(MAX_TEAMS_SIZE as int, 2 * MAX_TEAMS_SIZE as int),
    ]
}

/// A match opened for a player has balanced teams.
pub proof fn lemma_opened_balanced<'reg>(player: Player<'reg>)
    ensures
        teams_balanced(opened_for(player).0),
{
    let teams = opened_for(player).0;
    assert(teams[0] == Seq::<Player<'reg>>::empty().push(player));
    assert(teams[0].drop_last() == Seq::<Player<'reg>>::empty());
}

/// A player that a team admits keeps the teams of its match balanced: the
/// team holds no more than its half, rounded up, of the match's players of the
/// player's tier and of its tier and class.
pub proof fn lemma_joined_balanced<'reg>(m: MatchView<'reg>, j: int, player: Player<'reg>)
    requires
        m.0.len() == TEAMS_COUNT,
        0 <= j < TEAMS_COUNT,
        teams_balanced(m.0),
        team_admits(m, j, player.spec_tank().spec_tier(), player.spec_tank().spec_class()),
    ensures
        teams_balanced(joined(m, j, player).0),
{
    let n = joined(m, j, player).0;
    let (tier, class) = (player.spec_tank().spec_tier(), player.spec_tank().spec_class());
    lemma_counts_push(m.0[j], player);
    lemma_counts_concat(m.0[0], m.0[1]);
    assert(n[j] == m.0[j].push(player));
    assert(n[1 - j] == m.0[1 - j]);
    assert forall|t: u8|
        #![trigger count_tier(n[0], t)]
        #![trigger count_tier(n[1], t)]
        count_tier(n[0], t) <= count_tier(n[1], t) + 2 && count_tier(n[1], t) <= count_tier(n[0], t)
            + 2 by {
        assert(count_tier(m.0[0], t) <= count_tier(m.0[1], t) + 2);
        assert(count_tier(m.0[1], t) <= count_tier(m.0[0], t) + 2);
    }
    assert forall|t: u8, c: TankClass|
        #![trigger count_class(n[0], t, c)]
        #![trigger count_class(n[1], t, c)]
        count_class(n[0], t, c) <= count_class(n[1], t, c) + 2 && count_class(n[1], t, c)
            <= count_class(n[0], t, c) + 2 by {
        assert(count_class(m.0[0], t, c) <= count_class(m.0[1], t, c) + 2);
        assert(count_class(m.0[1], t, c) <= count_class(m.0[0], t, c) + 2);
    }
}

/// Players with the same multiset hold as many players of each tier and of
/// each tier and class.
proof fn lemma_counts_of_multiset<'reg>(a: Seq<Player<'reg>>, b: Seq<Player<'reg>>)
    requires
        a.to_multiset() == b.to_multiset(),
    ensures
        forall|t: u8| #[trigger] count_tier(a, t) == count_tier(b, t),
        forall|t: u8, c: TankClass| #[trigger] count_class(a, t, c) == count_class(b, t, c),
    decreases a.len(),
{
    broadcast use vstd::seq_lib::group_to_multiset_ensures;

    if a.len() == 0 {
        assert(a.to_multiset().len() == a.len());
        assert(b.to_multiset().len() == b.len());
        assert(b.len() == 0);
        assert(b == Seq::<Player<'reg>>::empty());
    } else {
        let x = a.last();
        let rest = a.drop_last();
        assert(rest.push(x) == a);
        assert(a.to_multiset().count(x) > 0);
        assert(b.contains(x));
        let k = choose|k: int| 0 <= k < b.len() && b[k] == x;
        let br = b.remove(k);
        assert(br.to_multiset() == b.to_multiset().remove(x));
        assert(rest.to_multiset() == a.to_multiset().remove(x));
        lemma_counts_of_multiset(rest, br);
        let (b0, b1) = (b.take(k), b.skip(k + 1));
        assert(b == b0.push(x) + b1);
        assert(br == b0 + b1);
        lemma_counts_concat(b0.push(x), b1);
        lemma_counts_concat(b0, b1);
        lemma_counts_push(b0, x);
        lemma_counts_push(rest, x);
    }
}

/// Queueing a player into matches whose teams are all balanced leaves matches
/// whose teams are all balanced, and a match it completes has balanced teams.
pub proof fn lemma_queued_balanced<'reg>(
    before: Seq<MatchView<'reg>>,
    after: Seq<MatchView<'reg>>,
    r: Option<Match<'reg>>,
    i: int,
    j: int,
    player: Player<'reg>,
)
    requires
        forall|k: int| 0 <= k < before.len() ==> #[trigger] teams_balanced(before[k].0),
        forall|k: int| 0 <= k < before.len() ==> (#[trigger] before[k]).0.len() == TEAMS_COUNT,
        is_candidate(before, i, j, player.spec_tank().spec_tier(), player.spec_tank().spec_class()),
        queued_into(before, after, r, i, j, player),
    ensures
        forall|k: int| 0 <= k < after.len() ==> #[trigger] teams_balanced(after[k].0),
        r matches Some(done) ==> teams_balanced(match_teams(done)),
{
    let m = joined(before[i], j, player);
    assert(teams_balanced(before[i].0));
    assert(before[i].0.len() == TEAMS_COUNT);
    lemma_joined_balanced(before[i], j, player);
    if is_full(m) {
        assert forall|k: int| 0 <= k < after.len() implies #[trigger] teams_balanced(after[k].0) by {
            if k == i {
                assert(after[k] == before.last());
                assert(teams_balanced(before[before.len() - 1].0));
            } else {
                assert(after[k] == before[k]);
            }
        }
        let done = r->0;
        let s = done.spec_players();
        let size = MAX_TEAMS_SIZE as int;
        assert(s.subrange(0, size) == s.subrange(0 * size, (0 + 1) * size));
        assert(s.subrange(size, 2 * size) == s.subrange(1 * size, (1 + 1) * size));
        lemma_counts_of_multiset(s.subrange(0, size), m.0[0]);
        lemma_counts_of_multiset(s.subrange(size, 2 * size), m.0[1]);
        let teams = match_teams(done);
        assert(teams[0] == s.subrange(0, size));
        assert(teams[1] == s.subrange(size, 2 * size));
        assert forall|t: u8|
            #![trigger count_tier(teams[0], t)]
            #![trigger count_tier(teams[1], t)]
            count_tier(teams[0], t) <= count_tier(teams[1], t) + 2 && count_tier(teams[1], t)
                <= count_tier(teams[0], t) + 2 by {
            assert(count_tier(m.0[0], t) <= count_tier(m.0[1], t) + 2);
            assert(count_tier(m.0[1], t) <= count_tier(m.0[0], t) + 2);
        }
        assert forall|t: u8, c: TankClass|
            #![trigger count_class(teams[0], t, c)]
            #![trigger count_class(teams[1], t, c)]
            count_class(teams[0], t, c) <= count_class(teams[1], t, c) + 2 && count_class(
                teams[1],
                t,
                c,
            ) <= count_class(teams[0], t, c) + 2 by {
            assert(count_class(m.0[0], t, c) <= count_class(m.0[1], t, c) + 2);
            assert(count_class(m.0[1], t, c) <= count_class(m.0[0], t, c) + 2);
        }
    } else {
        assert forall|k: int| 0 <= k < after.len() implies #[trigger] teams_balanced(after[k].0) by {
            if k != i {
                assert(after[k] == before[k]);
            }
        }
    }
}

/// A match made of the teams of a queued match that a player just joined
/// holds that player.
proof fn lemma_made_of_holds_player<'reg>(
    done: Match<'reg>,
    before: MatchView<'reg>,
    j: int,
    player: Player<'reg>,
)
    requires
        before.0.len() == TEAMS_COUNT,
        0 <= j < TEAMS_COUNT,
        made_of(done, joined(before, j, player).0),
    ensures
        done.spec_players().contains(player),
{
    broadcast use vstd::seq_lib::group_to_multiset_ensures;

    let m = joined(before, j, player);
    let s = done.spec_players();
    let size = MAX_TEAMS_SIZE as int;
    let part = s.subrange(j * size, (j + 1) * size);
    assert(m.0[j] == before.0[j].push(player));
    assert(m.0[j][m.0[j].len() - 1] == player);
    assert(m.0[j].contains(player));
    assert(m.0[j].to_multiset().count(player) > 0);
    assert(part.to_multiset() == m.0[j].to_multiset());
    assert(part.contains(player));
    let k = choose|k: int| 0 <= k < part.len() && part[k] == player;
    assert(0 <= j * size && (j + 1) * size <= s.len()) by (nonlinear_arith)
        requires
            0 <= j < 2,
            size == 15,
            s.len() == 30,
    ;
    assert(s[j * size + k] == player);
}

/// Every player here has a tank of this tier and class.
pub open spec fn all_of_kind<'reg>(s: Seq<Player<'reg>>, tier: u8, class: TankClass) -> bool {
    forall|k: int|
        0 <= k < s.len() ==> (#[trigger] s[k]).spec_tank().spec_tier() == tier && s[k].spec_tank().spec_class()
            == class
}

/// The queue holds at most one match, not yet full, of players of one tier and
/// class, whose ranges it keeps.
pub open spec fn one_kind_queue<'reg>(ms: Seq<MatchView<'reg>>, tier: u8, class: TankClass) -> bool {
    ms.len() == 0 || {
        let m = ms[0];
        &&& ms.len() == 1
        &&& m.0.len() == TEAMS_COUNT
        &&& m.1 == player_tier_range(tier, class)
        &&& m.2 == (tier, tier)
        &&& all_of_kind(m.0[0], tier, class)
        &&& all_of_kind(m.0[1], tier, class)
        &&& m.0[0].len() <= MAX_TEAMS_SIZE
        &&& m.0[1].len() <= MAX_TEAMS_SIZE
        &&& match_players(m).len() < TEAMS_COUNT * MAX_TEAMS_SIZE
    }
}

proof fn lemma_kind_counts<'reg>(s: Seq<Player<'reg>>, tier: u8, class: TankClass)
    requires
        all_of_kind(s, tier, class),
    ensures
        count_tier(s, tier) == s.len(),
        count_class(s, tier, class) == s.len(),
    decreases s.len(),
{
    if s.len() > 0 {
        let t = s.drop_last();
        assert forall|k: int| 0 <= k < t.len() implies (#[trigger] t[k]).spec_tank().spec_tier() == tier
            && t[k].spec_tank().spec_class() == class by {
            assert(t[k] == s[k]);
        }
        lemma_kind_counts(t, tier, class);
        assert(s[s.len() - 1] == s.last());
    }
}

/// In a one-kind queue with a match, a player of that kind has a candidate:
/// the smaller team.
proof fn lemma_one_kind_candidate<'reg>(ms: Seq<MatchView<'reg>>, tier: u8, class: TankClass)
    requires
        one_kind_queue(ms, tier, class),
        ms.len() == 1,
    ensures
        is_candidate(ms, 0, if ms[0].0[0].len() <= ms[0].0[1].len() {
            0
        } else {
            1
        }, tier, class),
{
    let m = ms[0];
    let j: int = if m.0[0].len() <= m.0[1].len() {
        0
    } else {
        1
    };
    let all = match_players(m);
    lemma_kind_counts(m.0[0], tier, class);
    lemma_kind_counts(m.0[1], tier, class);
    lemma_counts_concat(m.0[0], m.0[1]);
    assert(m.0[j].len() * 2 <= all.len());
    assert(count_tier(all, tier) == all.len());
    assert(m.0[j].len() <= ceil_div(all.len() as int, TEAMS_COUNT as int));
}

/// Queueing a player into a one-kind queue, of the same kind: the queue stays
/// one-kind, and the call completes a match exactly when twenty-nine players
/// were waiting.
proof fn lemma_one_kind_step<'reg>(
    before: Seq<MatchView<'reg>>,
    after: Seq<MatchView<'reg>>,
    r: Option<Match<'reg>>,
    i: int,
    j: int,
    player: Player<'reg>,
)
    requires
        one_kind_queue(before, player.spec_tank().spec_tier(), player.spec_tank().spec_class()),
        is_candidate(before, i, j, player.spec_tank().spec_tier(), player.spec_tank().spec_class()),
        queued_into(before, after, r, i, j, player),
    ensures
        one_kind_queue(after, player.spec_tank().spec_tier(), player.spec_tank().spec_class()),
        r is Some <==> queued_players(before) == TEAMS_COUNT * MAX_TEAMS_SIZE - 1,
{
    let (tier, class) = (player.spec_tank().spec_tier(), player.spec_tank().spec_class());
    let m0 = before[0];
    assert(i == 0);
    let m = joined(m0, j, player);
    assert(before.drop_last() == Seq::<MatchView<'reg>>::empty());
    assert(queued_players(Seq::<MatchView<'reg>>::empty()) == 0);
    assert(before.last() == m0);
    assert(queued_players(before) == match_players(m0).len());
    assert(match_players(m).len() == match_players(m0).len() + 1) by {
        if j == 0 {
            assert(m.0[0] == m0.0[0].push(player));
            assert(m.0[1] == m0.0[1]);
        } else {
            assert(m.0[0] == m0.0[0]);
            assert(m.0[1] == m0.0[1].push(player));
        }
    }
    if !is_full(m) {
        assert(after == seq![m]);
        assert(m.0[j] == m0.0[j].push(player));
        assert(m.0[1 - j] == m0.0[1 - j]);
        assert forall|k: int| 0 <= k < m.0[j].len() implies (#[trigger] m.0[j][k]).spec_tank().spec_tier()
            == tier && m.0[j][k].spec_tank().spec_class() == class by {
            if k < m0.0[j].len() {
                assert(m.0[j][k] == m0.0[j][k]);
            }
        }
    }
}

/// A match opened for a player is a one-kind queue of that player's kind.
proof fn lemma_one_kind_opened<'reg>(player: Player<'reg>)
    ensures
        one_kind_queue(
            Seq::<MatchView<'reg>>::empty().push(opened_for(player)),
            player.spec_tank().spec_tier(),
            player.spec_tank().spec_class(),
        ),
{
    let m = opened_for(player);
    assert(match_players(m) =~= seq![player]);
}

/// What queueing `player` does to the queued matches `before`: with no team
/// to take it, a new match opens for it; otherwise it joins the best team,
/// and a match it fills leaves, made of its teams.
pub open spec fn queued_as<'reg>(
    before: Seq<MatchView<'reg>>,
    after: Seq<MatchView<'reg>>,
    r: Option<Match<'reg>>,
    player: Player<'reg>,
) -> bool {
    &&& (forall|i: int, j: int|
        !#[trigger] is_candidate(
            before,
            i,
            j,
            player.spec_tank().spec_tier(),
            player.spec_tank().spec_class(),
        )) ==> r is None && after == before.push(opened_for(player))
    &&& (exists|i: int, j: int|
        #[trigger] is_candidate(
            before,
            i,
            j,
            player.spec_tank().spec_tier(),
            player.spec_tank().spec_class(),
        )) ==> exists|i: int, j: int|
        #[trigger] is_best_candidate(
            before,
            i,
            j,
            player.spec_tank().spec_tier(),
            player.spec_tank().spec_class(),
        ) && queued_into(before, after, r, i, j, player)
}

/// There is one best candidate at most.
proof fn lemma_best_candidate_unique<'reg>(
    ms: Seq<MatchView<'reg>>,
    i1: int,
    j1: int,
    i2: int,
    j2: int,
    tier: u8,
    class: TankClass,
)
    requires
        is_best_candidate(ms, i1, j1, tier, class),
        is_best_candidate(ms, i2, j2, tier, class),
    ensures
        i1 == i2 && j1 == j2,
{
    assert(is_candidate(ms, i1, j1, tier, class));
    assert(is_candidate(ms, i2, j2, tier, class));
}

/// Queueing is deterministic: the same player queued into the same matches
/// leaves the same matches, and makes a match of the same players in the same
/// order, or none.
pub proof fn lemma_queue_deterministic<'reg>(
    before: Seq<MatchView<'reg>>,
    after1: Seq<MatchView<'reg>>,
    r1: Option<Match<'reg>>,
    after2: Seq<MatchView<'reg>>,
    r2: Option<Match<'reg>>,
    player: Player<'reg>,
)
    requires
        queued_as(before, after1, r1, player),
        queued_as(before, after2, r2, player),
    ensures
        after1 == after2,
        r1 is Some <==> r2 is Some,
        r1 matches Some(m1) ==> r2 matches Some(m2) && m1.spec_players() == m2.spec_players()
            && m1.spec_teams_size() == m2.spec_teams_size(),
{
    let (tier, class) = (player.spec_tank().spec_tier(), player.spec_tank().spec_class());
    if exists|i: int, j: int| #[trigger] is_candidate(before, i, j, tier, class) {
        let (i1, j1) = choose|i: int, j: int|
            #[trigger] is_best_candidate(before, i, j, tier, class) && queued_into(
                before,
                after1,
                r1,
                i,
                j,
                player,
            );
        let (i2, j2) = choose|i: int, j: int|
            #[trigger] is_best_candidate(before, i, j, tier, class) && queued_into(
                before,
                after2,
                r2,
                i,
                j,
                player,
            );
        lemma_best_candidate_unique(before, i1, j1, i2, j2, tier, class);
        let m = joined(before[i1], j1, player);
        if is_full(m) {
            let (d1, d2) = (r1->0, r2->0);
            let (s1, s2) = (d1.spec_players(), d2.spec_players());
            let size = MAX_TEAMS_SIZE as int;
            assert(s1.subrange(0, size) == s1.subrange(0 * size, (0 + 1) * size));
            assert(s1.subrange(size, 2 * size) == s1.subrange(1 * size, (1 + 1) * size));
            assert(s2.subrange(0, size) == s2.subrange(0 * size, (0 + 1) * size));
            assert(s2.subrange(size, 2 * size) == s2.subrange(1 * size, (1 + 1) * size));
            assert(s1 =~= s1.subrange(0, size) + s1.subrange(size, 2 * size));
            assert(s2 =~= s2.subrange(0, size) + s2.subrange(size, 2 * size));
        }
    }
}

/// A match made of the teams of a queued match that a player just joined
/// holds the players that waited in it and that player.
proof fn lemma_made_of_joined_multiset<'reg>(
    done: Match<'reg>,
    before: MatchView<'reg>,
    j: int,
    player: Player<'reg>,
)
    requires
        before.0.len() == TEAMS_COUNT,
        0 <= j < TEAMS_COUNT,
        made_of(done, joined(before, j, player).0),
    ensures
        done.spec_players().to_multiset() == match_players(before).push(player).to_multiset(),
{
    broadcast use vstd::seq_lib::group_to_multiset_ensures;

    let m = joined(before, j, player);
    let s = done.spec_players();
    let size = MAX_TEAMS_SIZE as int;
    assert(s.subrange(0, size) == s.subrange(0 * size, (0 + 1) * size));
    assert(s.subrange(size, 2 * size) == s.subrange(1 * size, (1 + 1) * size));
    assert(s =~= s.subrange(0, size) + s.subrange(size, 2 * size));
    vstd::seq_lib::lemma_multiset_commutative(s.subrange(0, size), s.subrange(size, 2 * size));
    vstd::seq_lib::lemma_multiset_commutative(m.0[0], m.0[1]);
    vstd::seq_lib::lemma_multiset_commutative(before.0[0], before.0[1]);
    let (a, b) = (before.0[0], before.0[1]);
    if j == 0 {
        assert(m.0[0] == a.push(player));
        assert(m.0[1] == b);
        assert(a.push(player).to_multiset() == a.to_multiset().insert(player));
    } else {
        assert(m.0[0] == a);
        assert(m.0[1] == b.push(player));
        assert(b.push(player).to_multiset() == b.to_multiset().insert(player));
    }
    assert((a + b).push(player).to_multiset() == (a + b).to_multiset().insert(player));
    assert(match_players(m).to_multiset() =~= match_players(before).push(player).to_multiset());
}


/// What a call of `queue` with `player` does to the queued matches, going
/// from `before` to `after` and returning `r`, as its contract states it.
pub open spec fn queue_call<'reg>(
    before: Seq<MatchView<'reg>>,
    after: Seq<MatchView<'reg>>,
    r: Option<Match<'reg>>,
    player: Player<'reg>,
) -> bool {
    let (tier, class) = (player.spec_tank().spec_tier(), player.spec_tank().spec_class());
    &&& queued_as(before, after, r, player)
    &&& queued_players(after) + (if r is Some {
        TEAMS_COUNT * MAX_TEAMS_SIZE
    } else {
        0
    }) == queued_players(before) + 1
    &&& one_kind_queue(before, tier, class) ==> one_kind_queue(after, tier, class) && (r is Some
        <==> queued_players(before) == TEAMS_COUNT * MAX_TEAMS_SIZE - 1)
}

/// A run of `queue` calls from a new matchmaker: `runs[k]` holds the queued
/// matches before call `k`, which queues `players[k]` and returns
/// `results[k]`.
pub open spec fn queue_run<'reg>(
    runs: Seq<Seq<MatchView<'reg>>>,
    results: Seq<Option<Match<'reg>>>,
    players: Seq<Player<'reg>>,
) -> bool {
    &&& runs.len() == players.len() + 1
    &&& results.len() == players.len()
    &&& runs[0] == Seq::<MatchView<'reg>>::empty()
    &&& forall|k: int|
        0 <= k < players.len() ==> #[trigger] queue_call(runs[k], runs[k + 1], results[k], players[k])
}

proof fn lemma_one_kind_prefix<'reg>(
    runs: Seq<Seq<MatchView<'reg>>>,
    results: Seq<Option<Match<'reg>>>,
    players: Seq<Player<'reg>>,
    tier: u8,
    class: TankClass,
    k: int,
)
    requires
        queue_run(runs, results, players),
        forall|i: int|
            0 <= i < players.len() ==> (#[trigger] players[i]).spec_tank().spec_tier() == tier
                && players[i].spec_tank().spec_class() == class,
        0 <= k <= players.len(),
    ensures
        one_kind_queue(runs[k], tier, class),
        queued_players(runs[k]) == k % (TEAMS_COUNT * MAX_TEAMS_SIZE) as int,
        forall|i: int|
            0 <= i < k ==> (#[trigger] results[i] is Some <==> (i + 1) % (TEAMS_COUNT
                * MAX_TEAMS_SIZE) as int == 0),
    decreases k,
{
    if k > 0 {
        lemma_one_kind_prefix(runs, results, players, tier, class, k - 1);
        let j = k - 1;
        assert(queue_call(runs[j], runs[j + 1], results[j], players[j]));
    }
}

/// Players of one tier and class, queued one by one into a new matchmaker,
/// make a match exactly at every thirtieth call, and between two matches the
/// players wait in the queue.
pub proof fn lemma_one_kind_run<'reg>(
    runs: Seq<Seq<MatchView<'reg>>>,
    results: Seq<Option<Match<'reg>>>,
    players: Seq<Player<'reg>>,
    tier: u8,
    class: TankClass,
)
    requires
        queue_run(runs, results, players),
        forall|i: int|
            0 <= i < players.len() ==> (#[trigger] players[i]).spec_tank().spec_tier() == tier
                && players[i].spec_tank().spec_class() == class,
    ensures
        forall|k: int|
            0 <= k < players.len() ==> (#[trigger] results[k] is Some <==> (k + 1) % (TEAMS_COUNT
                * MAX_TEAMS_SIZE) as int == 0),
        forall|k: int|
            0 <= k <= players.len() ==> #[trigger] queued_players(runs[k]) == k % (TEAMS_COUNT
                * MAX_TEAMS_SIZE) as int,
{
    lemma_one_kind_prefix(runs, results, players, tier, class, players.len() as int);
    assert forall|k: int| 0 <= k <= players.len() implies #[trigger] queued_players(runs[k]) == k
        % (TEAMS_COUNT * MAX_TEAMS_SIZE) as int by {
        lemma_one_kind_prefix(runs, results, players, tier, class, k);
    }
}

proof fn lemma_runs_agree_prefix<'reg>(
    runs_a: Seq<Seq<MatchView<'reg>>>,
    results_a: Seq<Option<Match<'reg>>>,
    runs_b: Seq<Seq<MatchView<'reg>>>,
    results_b: Seq<Option<Match<'reg>>>,
    players: Seq<Player<'reg>>,
    k: int,
)
    requires
        queue_run(runs_a, results_a, players),
        queue_run(runs_b, results_b, players),
        0 <= k <= players.len(),
    ensures
        runs_a[k] == runs_b[k],
    decreases k,
{
    if k > 0 {
        lemma_runs_agree_prefix(runs_a, results_a, runs_b, results_b, players, k - 1);
        let j = k - 1;
        assert(queue_call(runs_a[j], runs_a[j + 1], results_a[j], players[j]));
        assert(queue_call(runs_b[j], runs_b[j + 1], results_b[j], players[j]));
        lemma_queue_deterministic(runs_a[j], runs_a[j + 1], results_a[j], runs_b[j + 1], results_b[j], players[j]);
    }
}

/// Two new matchmakers fed the same players in the same order go through the
/// same queued matches and return the same matches at the same calls.
pub proof fn lemma_queue_runs_agree<'reg>(
    runs_a: Seq<Seq<MatchView<'reg>>>,
    results_a: Seq<Option<Match<'reg>>>,
    runs_b: Seq<Seq<MatchView<'reg>>>,
    results_b: Seq<Option<Match<'reg>>>,
    players: Seq<Player<'reg>>,
)
    requires
        queue_run(runs_a, results_a, players),
        queue_run(runs_b, results_b, players),
    ensures
        forall|k: int| 0 <= k <= players.len() ==> #[trigger] runs_a[k] == runs_b[k],
        forall|k: int|
            0 <= k < players.len() ==> {
                &&& (#[trigger] results_a[k] is Some <==> results_b[k] is Some)
                &&& results_a[k] matches Some(m_a) ==> results_b[k] matches Some(m_b)
                    && m_a.spec_players() == m_b.spec_players() && m_a.spec_teams_size()
                    == m_b.spec_teams_size()
            },
{
    assert forall|k: int| 0 <= k <= players.len() implies #[trigger] runs_a[k] == runs_b[k] by {
        lemma_runs_agree_prefix(runs_a, results_a, runs_b, results_b, players, k);
    }
    assert forall|k: int| 0 <= k < players.len() implies {
        &&& (#[trigger] results_a[k] is Some <==> results_b[k] is Some)
        &&& results_a[k] matches Some(m_a) ==> results_b[k] matches Some(m_b)
            && m_a.spec_players() == m_b.spec_players() && m_a.spec_teams_size()
            == m_b.spec_teams_size()
    } by {
        lemma_runs_agree_prefix(runs_a, results_a, runs_b, results_b, players, k);
        assert(queue_call(runs_a[k], runs_a[k + 1], results_a[k], players[k]));
        assert(queue_call(runs_b[k], runs_b[k + 1], results_b[k], players[k]));
        lemma_queue_deterministic(runs_a[k], runs_a[k + 1], results_a[k], runs_b[k + 1], results_b[k], players[k]);
    }
}


/// All the players waiting in the queued matches.
pub open spec fn waiting_players<'reg>(ms: Seq<MatchView<'reg>>) -> Multiset<Player<'reg>>
    decreases ms.len(),
{
    if ms.len() == 0 {
        Multiset::empty()
    } else {
        waiting_players(ms.drop_last()).add(match_players(ms.last()).to_multiset())
    }
}

/// The players of the matches returned by the first `k` calls of a run.
pub open spec fn returned_players<'reg>(results: Seq<Option<Match<'reg>>>, k: int) -> Multiset<
    Player<'reg>,
>
    decreases k,
{
    if k <= 0 {
        Multiset::empty()
    } else {
        returned_players(results, k - 1).add(
            match results[k - 1] {
                Some(m) => m.spec_players().to_multiset(),
                None => Multiset::empty(),
            },
        )
    }
}

proof fn lemma_waiting_update<'reg>(ms: Seq<MatchView<'reg>>, i: int, m: MatchView<'reg>)
    requires
        0 <= i < ms.len(),
    ensures
        waiting_players(ms.update(i, m)).add(match_players(ms[i]).to_multiset())
            =~= waiting_players(ms).add(match_players(m).to_multiset()),
    decreases ms.len(),
{
    broadcast use vstd::multiset::group_multiset_axioms;

    let u = ms.update(i, m);
    let w = waiting_players(ms.drop_last());
    assert(waiting_players(u) == waiting_players(u.drop_last()).add(match_players(u.last()).to_multiset()));
    assert(waiting_players(ms) == w.add(match_players(ms.last()).to_multiset()));
    if i == ms.len() - 1 {
        assert(u.drop_last() == ms.drop_last());
        assert(u.last() == m);
        assert(ms.last() == ms[i]);
    } else {
        lemma_waiting_update(ms.drop_last(), i, m);
        assert(u.drop_last() == ms.drop_last().update(i, m));
        assert(u.last() == ms.last());
        assert(ms.drop_last()[i] == ms[i]);
        let v = waiting_players(ms.drop_last().update(i, m));
        let big_l = match_players(ms.last()).to_multiset();
        let y = match_players(ms[i]).to_multiset();
        let mm = match_players(m).to_multiset();
        assert forall|p: Player<'reg>| #[trigger] waiting_players(u).add(y).count(p)
            == waiting_players(ms).add(mm).count(p) by {
            assert(v.add(y).count(p) == w.add(mm).count(p));
        }
    }
}

proof fn lemma_waiting_without<'reg>(ms: Seq<MatchView<'reg>>, i: int)
    requires
        0 <= i < ms.len(),
    ensures
        waiting_players(without_match(ms, i)).add(match_players(ms[i]).to_multiset())
            =~= waiting_players(ms),
{
    broadcast use vstd::multiset::group_multiset_axioms;

    let ms2 = ms.update(i, ms.last());
    lemma_waiting_update(ms, i, ms.last());
    assert(ms2.last() == ms.last());
    assert(waiting_players(ms2) == waiting_players(ms2.drop_last()).add(
        match_players(ms2.last()).to_multiset(),
    ));
    assert(without_match(ms, i) == ms2.drop_last());
    let a = waiting_players(ms2.drop_last());
    let x = match_players(ms.last()).to_multiset();
    let y = match_players(ms[i]).to_multiset();
    assert(a.add(x).add(y) =~= waiting_players(ms).add(x));
    assert(a.add(y).add(x) =~= a.add(x).add(y));
    assert forall|p: Player<'reg>| #[trigger] a.add(y).count(p) == waiting_players(ms).count(p) by {
        assert(a.add(y).add(x).count(p) == waiting_players(ms).add(x).count(p));
    }
}

/// The players of a match made of two teams are those of the teams.
proof fn lemma_made_of_multiset<'reg>(done: Match<'reg>, teams: Seq<Seq<Player<'reg>>>)
    requires
        made_of(done, teams),
        teams.len() == TEAMS_COUNT,
    ensures
        done.spec_players().to_multiset() =~= (teams[0] + teams[1]).to_multiset(),
{
    broadcast use vstd::seq_lib::group_to_multiset_ensures;
    broadcast use vstd::multiset::group_multiset_axioms;

    let ps = done.spec_players();
    let n = MAX_TEAMS_SIZE as int;
    let part0 = ps.subrange(0 * n, (0 + 1) * n);
    let part1 = ps.subrange(1 * n, (1 + 1) * n);
    assert(ps =~= part0 + part1);
    assert(part0.to_multiset() == teams[0].to_multiset());
    assert(part1.to_multiset() == teams[1].to_multiset());
    vstd::seq_lib::lemma_multiset_commutative(part0, part1);
    vstd::seq_lib::lemma_multiset_commutative(teams[0], teams[1]);
}

/// One call of `queue` adds its player to the players waiting, less those of
/// the match it returns.
proof fn lemma_queue_call_players<'reg>(
    before: Seq<MatchView<'reg>>,
    after: Seq<MatchView<'reg>>,
    r: Option<Match<'reg>>,
    player: Player<'reg>,
)
    requires
        queue_call(before, after, r, player),
        forall|i: int| 0 <= i < before.len() ==> (#[trigger] before[i]).0.len() == TEAMS_COUNT,
    ensures
        waiting_players(after).add(
            match r {
                Some(m) => m.spec_players().to_multiset(),
                None => Multiset::empty(),
            },
        ) =~= waiting_players(before).insert(player),
{
    broadcast use vstd::seq_lib::group_to_multiset_ensures;
    broadcast use vstd::multiset::group_multiset_axioms;

    let (tier, class) = (player.spec_tank().spec_tier(), player.spec_tank().spec_class());
    if exists|i: int, j: int| #[trigger] is_candidate(before, i, j, tier, class) {
        let (i, j) = choose|i: int, j: int|
            #[trigger] is_best_candidate(before, i, j, tier, class) && queued_into(
                before,
                after,
                r,
                i,
                j,
                player,
            );
        let m = joined(before[i], j, player);
        let t0 = before[i].0[0];
        let t1 = before[i].0[1];
        assert(match_players(m).to_multiset() =~= match_players(before[i]).to_multiset().insert(
            player,
        )) by {
            vstd::seq_lib::lemma_multiset_commutative(t0, t1);
            if j == 0 {
                assert(m.0[0] == t0.push(player));
                assert(m.0[1] == t1);
                vstd::seq_lib::lemma_multiset_commutative(t0.push(player), t1);
            } else {
                assert(m.0[0] == t0);
                assert(m.0[1] == t1.push(player));
                vstd::seq_lib::lemma_multiset_commutative(t0, t1.push(player));
            }
        }
        let y = match_players(before[i]).to_multiset();
        let ym = match_players(m).to_multiset();
        if is_full(m) {
            lemma_waiting_without(before, i);
            let done = r->0;
            assert(m.0.len() == TEAMS_COUNT);
            lemma_made_of_multiset(done, m.0);
            assert(done.spec_players().to_multiset() == ym);
            assert forall|p: Player<'reg>| #[trigger] waiting_players(after).add(ym).count(p)
                == waiting_players(before).insert(player).count(p) by {
                assert(waiting_players(after).add(y).count(p) == waiting_players(before).count(p));
            }
        } else {
            lemma_waiting_update(before, i, m);
            assert forall|p: Player<'reg>| #[trigger] waiting_players(after).add(
                Multiset::empty(),
            ).count(p) == waiting_players(before).insert(player).count(p) by {
                assert(waiting_players(after).add(y).count(p) == waiting_players(before).add(ym).count(p));
            }
        }
    } else {
        assert(after == before.push(opened_for(player)));
        assert(after.drop_last() == before);
        assert(after.last() == opened_for(player));
        assert(match_players(opened_for(player)) =~= Seq::<Player<'reg>>::empty().push(player));
        let one = match_players(opened_for(player)).to_multiset();
        assert(one =~= Multiset::<Player<'reg>>::empty().insert(player));
        assert(waiting_players(after) == waiting_players(before).add(one));
        assert forall|p: Player<'reg>| #[trigger] waiting_players(after).add(Multiset::empty()).count(p)
            == waiting_players(before).insert(player).count(p) by {}
    }
}

proof fn lemma_queue_run_players_prefix<'reg>(
    runs: Seq<Seq<MatchView<'reg>>>,
    results: Seq<Option<Match<'reg>>>,
    players: Seq<Player<'reg>>,
    k: int,
)
    requires
        queue_run(runs, results, players),
        forall|k: int, i: int|
            0 <= k <= players.len() && 0 <= i < runs[k].len() ==> (#[trigger] runs[k][i]).0.len()
                == TEAMS_COUNT,
        0 <= k <= players.len(),
    ensures
        waiting_players(runs[k]).add(returned_players(results, k)) =~= players.take(k).to_multiset(),
    decreases k,
{
    broadcast use vstd::seq_lib::group_to_multiset_ensures;
    broadcast use vstd::multiset::group_multiset_axioms;

    if k == 0 {
        assert(players.take(0) =~= Seq::<Player<'reg>>::empty());
        assert(waiting_players(runs[0]) == Multiset::<Player<'reg>>::empty());
        assert(waiting_players(runs[k]).add(returned_players(results, k)) =~= Multiset::empty());
    } else {
        let j = k - 1;
        lemma_queue_run_players_prefix(runs, results, players, j);
        assert(queue_call(runs[j], runs[j + 1], results[j], players[j]));
        assert forall|i: int| 0 <= i < runs[j].len() implies (#[trigger] runs[j][i]).0.len()
            == TEAMS_COUNT by {}
        lemma_queue_call_players(runs[j], runs[j + 1], results[j], players[j]);
        assert(players.take(k) == players.take(j).push(players[j]));
        let rj = match results[j] {
            Some(m) => m.spec_players().to_multiset(),
            None => Multiset::empty(),
        };
        assert(returned_players(results, k) == returned_players(results, j).add(rj));
        assert forall|p: Player<'reg>| #[trigger] waiting_players(runs[k]).add(
            returned_players(results, k),
        ).count(p) == players.take(k).to_multiset().count(p) by {
            assert(waiting_players(runs[j + 1]).add(rj).count(p) == waiting_players(runs[j]).insert(
                players[j],
            ).count(p));
            assert(waiting_players(runs[j]).add(returned_players(results, j)).count(p)
                == players.take(j).to_multiset().count(p));
        }
    }
}

/// Over a run of `queue` calls from a new matchmaker, every player queued so
/// far either waits in a queued match or is in exactly one of the matches
/// returned: each match is made of players of distinct calls, none of them
/// in an earlier match.
pub proof fn lemma_queue_run_players<'reg>(
    runs: Seq<Seq<MatchView<'reg>>>,
    results: Seq<Option<Match<'reg>>>,
    players: Seq<Player<'reg>>,
)
    requires
        queue_run(runs, results, players),
        forall|k: int, i: int|
            0 <= k <= players.len() && 0 <= i < runs[k].len() ==> (#[trigger] runs[k][i]).0.len()
                == TEAMS_COUNT,
    ensures
        forall|k: int|
            0 <= k <= players.len() ==> #[trigger] waiting_players(runs[k]).add(
                returned_players(results, k),
            ) == players.take(k).to_multiset(),
{
    assert forall|k: int| 0 <= k <= players.len() implies #[trigger] waiting_players(runs[k]).add(
        returned_players(results, k),
    ) == players.take(k).to_multiset() by {
        lemma_queue_run_players_prefix(runs, results, players, k);
    }
}


/// How many tiers `tier` lies outside the tiers `lo..=hi`.
pub open spec fn tier_distance(tier: u8, lo: u8, hi: u8) -> int {
    if tier < lo {
        lo - tier
    } else if tier > hi {
        tier - hi
    } else {
        0
    }
}

/// Of two teams alike in the width of their match's tiers and in how many
/// tanks of the tank's tier and class the team and its match hold, the one
/// whose match lies nearer to the tank's tier scores strictly higher.
pub proof fn lemma_nearer_match_scores_higher<'reg>(
    m1: MatchView<'reg>,
    j1: int,
    m2: MatchView<'reg>,
    j2: int,
    tier: u8,
    class: TankClass,
)
    requires
        m1.2.1 - m1.2.0 == m2.2.1 - m2.2.0,
        count_tier(m1.0[j1], tier) == count_tier(m2.0[j2], tier),
        count_tier(match_players(m1), tier) == count_tier(match_players(m2), tier),
        count_class(m1.0[j1], tier, class) == count_class(m2.0[j2], tier, class),
        count_class(match_players(m1), tier, class) == count_class(match_players(m2), tier, class),
        tier_distance(tier, m1.2.0, m1.2.1) < tier_distance(tier, m2.2.0, m2.2.1),
    ensures
        fit_score(m1, j1, tier, class) > fit_score(m2, j2, tier, class),
{
}

/// The team where `queue` puts a tank never lies in a match farther from the
/// tank's tier than another candidate team alike in the width of its
/// match's tiers and in the tanks of the tank's tier and class.
pub proof fn lemma_best_candidate_is_nearest<'reg>(
    ms: Seq<MatchView<'reg>>,
    i: int,
    j: int,
    i2: int,
    j2: int,
    tier: u8,
    class: TankClass,
)
    requires
        is_best_candidate(ms, i, j, tier, class),
        is_candidate(ms, i2, j2, tier, class),
        ms[i].2.1 - ms[i].2.0 == ms[i2].2.1 - ms[i2].2.0,
        count_tier(ms[i].0[j], tier) == count_tier(ms[i2].0[j2], tier),
        count_tier(match_players(ms[i]), tier) == count_tier(match_players(ms[i2]), tier),
        count_class(ms[i].0[j], tier, class) == count_class(ms[i2].0[j2], tier, class),
        count_class(match_players(ms[i]), tier, class) == count_class(
            match_players(ms[i2]),
            tier,
            class,
        ),
    ensures
        tier_distance(tier, ms[i].2.0, ms[i].2.1) <= tier_distance(tier, ms[i2].2.0, ms[i2].2.1),
{
    if tier_distance(tier, ms[i2].2.0, ms[i2].2.1) < tier_distance(tier, ms[i].2.0, ms[i].2.1) {
        lemma_nearer_match_scores_higher(ms[i2], j2, ms[i], j, tier, class);
    }
}

/// A match lets a tank of tier range `lo..=hi` join exactly when that range
/// covers the tiers the match allows, or covers every tier already in it.
pub proof fn lemma_match_admits<'reg>(m: MatchView<'reg>, lo: u8, hi: u8)
    ensures
        match_admits(m, lo, hi) <==> (lo <= m.1.0 && m.1.1 <= hi) || (lo <= m.2.0 && m.2.1 <= hi),
{
}

/// A team with room and balance for a tank, in a match whose tiers all lie
/// within the tank's range, is a candidate for it.
pub proof fn lemma_covering_range_is_candidate<'reg>(
    ms: Seq<MatchView<'reg>>,
    i: int,
    j: int,
    tier: u8,
    class: TankClass,
)
    requires
        0 <= i < ms.len(),
        0 <= j < TEAMS_COUNT,
        player_tier_range(tier, class).0 <= ms[i].2.0,
        ms[i].2.1 <= player_tier_range(tier, class).1,
        team_admits(ms[i], j, tier, class),
    ensures
        is_candidate(ms, i, j, tier, class),
{
}

} // verus!
