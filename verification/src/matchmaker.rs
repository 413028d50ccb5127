//! Match-maker logic, receiving players in the queue.

use std::collections::HashMap;
use std::time::Instant;

use vstd::prelude::*;

use vstd::std_specs::iter::IteratorSpec;

use crate::clock::nanos_since;
use crate::match_slots::{lemma_same_class_slots, lemma_same_tier_slots};
use crate::match_sorting::{lemma_team_of_position, sort_match_tanks};
use crate::positions::{
    increasing_positions, lemma_filter_push, lemma_map_multiset, lemma_remove_positions_from,
    lemma_remove_positions_map, lemma_remove_positions_multiset, picked_from,
    remove_positions, remove_positions_from,
};
use crate::random::{random_between, random_ratio, thread_rng};
use crate::tank::{class_rank, Tank, TankClass};
use crate::team_mask::{
    count_free, free_below, lemma_clear_team, lemma_nonempty_has_free, lemma_nth_free_team,
    lemma_team_mask, nth_free, nth_free_team, team_free,
};
use crate::team_slots::{
    constraint_ok, lemma_slots_below_all, lemma_slots_below_bound, lemma_taken_bounded,
    lemma_taken_everywhere, lemma_taken_none, lemma_taken_tier_none, lemma_taken_tier_update,
    lemma_taken_update, slots_of_team, slots_of_team_tier, taken_in, taken_tier_in, TeamSlot,
    TeamSlotConstraints, kinds_named, kinds_counted, lemma_kinds_kept, lemma_kinds_taken,
    lemma_taken_kind_none, slots_of_team_kind, taken_kind_in, constraints_of_kind, constraints_of_tier,
    lemma_taken_kind_everywhere, lemma_all_taken_fills,
};
use crate::text::{lex_lt, str_eq};

verus! {

broadcast use vstd::std_specs::hash::group_hash_axioms;

/// A tank role, which is more precise and can be different from the tank class.
#[derive(Debug, Clone, Copy, PartialEq, Eq, Structural)]
pub enum TankSubClass {
    Standard,
    Wheeled,
    Bourrasque,
}

/// The role of a tank, from its name: the wheeled tanks and the two autoloading
/// light tanks play differently from their class.
pub open spec fn sub_class_of(name: Seq<char>) -> TankSubClass {
    if name == "EBR 105"@ || name == "EBR 90"@ || name == "Lynx 6x6"@ || name == "EBR Hotch."@ {
        TankSubClass::Wheeled
    } else if name == "Bourrasque"@ || name == "Miel"@ {
        TankSubClass::Bourrasque
    } else {
        TankSubClass::Standard
    }
}

fn sub_class_of_name(name: &str) -> (r: TankSubClass)
    ensures
        r == sub_class_of(name@),
{
    if str_eq(name, "EBR 105") || str_eq(name, "EBR 90") || str_eq(name, "Lynx 6x6") || str_eq(
        name,
        "EBR Hotch.",
    ) {
        TankSubClass::Wheeled
    } else if str_eq(name, "Bourrasque") || str_eq(name, "Miel") {
        TankSubClass::Bourrasque
    } else {
        TankSubClass::Standard
    }
}

/// The range of tiers that a tank of the given tier and class can meet, clamped
/// to tier 1 below and to the matchmaker's maximum tier above.
pub open spec fn queue_tier_range(tier: u8, class: TankClass, max_tier: u8) -> (u8, u8) {
    let t = tier as int;
    let (lo, hi) = if t == 1 {
        (t, t + 1)
    } else {
        match class {
            TankClass::Light => (t - 2, t + 3),
            TankClass::Medium => (t - 2, t + 2),
            TankClass::Heavy => (t - 2, t + 2),
            TankClass::Destroyer => (t - 2, t + 2),
            TankClass::Clicker => (t - 1, t + 3),
        }
    };
    (
        (if lo < 1 { 1 } else { lo }) as u8,
        (if hi < max_tier { hi } else { max_tier as int }) as u8,
    )
}

fn tier_range_of(tier: u8, class: TankClass, max_tier: u8) -> (r: (u8, u8))
    requires
        tier <= max_tier,
    ensures
        r == queue_tier_range(tier, class, max_tier),
{
    let t = tier as i16;
    let (lo, hi): (i16, i16) = if t == 1 {
        (t, t + 1)
    } else {
        match class {
            TankClass::Light => (t - 2, t + 3),
            TankClass::Medium => (t - 2, t + 2),
            TankClass::Heavy => (t - 2, t + 2),
            TankClass::Destroyer => (t - 2, t + 2),
            TankClass::Clicker => (t - 1, t + 3),
        }
    };
    let lo: i16 = if lo < 1 { 1 } else { lo };
    let hi: i16 = if hi < max_tier as i16 { hi } else { max_tier as i16 };
    (lo as u8, hi as u8)
}

/// Internal structure to keep track of a tank that has been queued in the
/// matchmaker. Times are in nanoseconds since the matchmaker's epoch.
#[derive(Debug, Clone, Copy)]
pub(crate) struct QueueTank<'reg> {
    pub(crate) tank: &'reg Tank,
    pub(crate) queue_time: u128,
    pub(crate) sub_class: TankSubClass,
    pub(crate) min_tier: u8,
    pub(crate) max_tier: u8,
}

/// Internal structure to keep track of a tier and the number of tanks waiting
/// in it. Times are in nanoseconds since the matchmaker's epoch.
#[derive(Debug, Clone, Copy)]
struct QueueTier {
    count: usize,
    last_queue_time: u128,
    last_match_time: Option<u128>,
}

/// What a queued tank carries beside the tank: its role and its tier range.
spec fn entry_ok<'reg>(q: QueueTank<'reg>, max_tier: u8) -> bool {
    &&& q.tank.spec_tier() <= max_tier
    &&& q.sub_class == sub_class_of(q.tank.spec_name())
    &&& (q.min_tier, q.max_tier) == queue_tier_range(
        q.tank.spec_tier(),
        q.tank.spec_class(),
        max_tier,
    )
}

/// The number of queued tanks of tier `tier`.
spec fn tier_count<'reg>(queue: Seq<QueueTank<'reg>>, tier: u8) -> nat
    decreases queue.len(),
{
    if queue.len() == 0 {
        0
    } else {
        tier_count(queue.drop_last(), tier) + if queue.last().tank.spec_tier() == tier {
            1nat
        } else {
            0nat
        }
    }
}

proof fn lemma_tier_count_push<'reg>(queue: Seq<QueueTank<'reg>>, q: QueueTank<'reg>, tier: u8)
    ensures
        tier_count(queue.push(q), tier) == tier_count(queue, tier) + if q.tank.spec_tier()
            == tier {
            1nat
        } else {
            0nat
        },
{
    assert(queue.push(q).drop_last() == queue);
}

proof fn lemma_tier_count_bounded<'reg>(queue: Seq<QueueTank<'reg>>, tier: u8)
    ensures
        tier_count(queue, tier) <= queue.len(),
    decreases queue.len(),
{
    if queue.len() > 0 {
        lemma_tier_count_bounded(queue.drop_last(), tier);
    }
}

proof fn lemma_tier_count_remove<'reg>(queue: Seq<QueueTank<'reg>>, i: int, tier: u8)
    requires
        0 <= i < queue.len(),
    ensures
        tier_count(queue, tier) == tier_count(queue.remove(i), tier) + if queue[i].tank.spec_tier()
            == tier {
            1nat
        } else {
            0nat
        },
    decreases queue.len(),
{
    if i == queue.len() - 1 {
        assert(queue.remove(i) == queue.drop_last());
    } else {
        lemma_tier_count_remove(queue.drop_last(), i, tier);
        assert(queue.remove(i).drop_last() == queue.drop_last().remove(i));
        assert(queue.remove(i).last() == queue.last());
    }
}

proof fn lemma_tier_count_positive<'reg>(queue: Seq<QueueTank<'reg>>, i: int)
    requires
        0 <= i < queue.len(),
    ensures
        tier_count(queue, queue[i].tank.spec_tier()) > 0,
{
    lemma_tier_count_remove(queue, i, queue[i].tank.spec_tier());
}

/// The queued tanks whose tier is one of `tiers`, tier after tier.
spec fn tanks_of_tiers<'reg>(queue: Seq<QueueTank<'reg>>, tiers: Seq<u8>) -> nat
    decreases tiers.len(),
{
    if tiers.len() == 0 {
        0
    } else {
        tanks_of_tiers(queue, tiers.drop_last()) + tier_count(queue, tiers.last())
    }
}

/// The number of times `t` occurs in `tiers`.
spec fn occurrences(tiers: Seq<u8>, t: u8) -> nat
    decreases tiers.len(),
{
    if tiers.len() == 0 {
        0
    } else {
        occurrences(tiers.drop_last(), t) + if tiers.last() == t {
            1nat
        } else {
            0nat
        }
    }
}

/// The tiers of a walk of the tier table, in order.
spec fn keys_of(s: Seq<(&u8, &QueueTier)>) -> Seq<u8> {
    s.map_values(|e: (&u8, &QueueTier)| *e.0)
}

proof fn lemma_tanks_of_tiers_push<'reg>(queue: Seq<QueueTank<'reg>>, q: QueueTank<'reg>, tiers: Seq<u8>)
    ensures
        tanks_of_tiers(queue.push(q), tiers) == tanks_of_tiers(queue, tiers) + occurrences(
            tiers,
            q.tank.spec_tier(),
        ),
    decreases tiers.len(),
{
    if tiers.len() > 0 {
        lemma_tanks_of_tiers_push(queue, q, tiers.drop_last());
        lemma_tier_count_push(queue, q, tiers.last());
    }
}

proof fn lemma_occurrences_of_unique(tiers: Seq<u8>, t: u8)
    requires
        tiers.no_duplicates(),
        tiers.contains(t),
    ensures
        occurrences(tiers, t) == 1,
    decreases tiers.len(),
{
    let rest = tiers.drop_last();
    if tiers.last() == t {
        if rest.contains(t) {
            let k = choose|k: int| 0 <= k < rest.len() && rest[k] == t;
            assert(tiers[k] == tiers[tiers.len() - 1]);
        }
        lemma_occurrences_absent(rest, t);
    } else {
        let k = choose|k: int| 0 <= k < tiers.len() && tiers[k] == t;
        assert(rest[k] == t);
        lemma_occurrences_of_unique(rest, t);
    }
}

proof fn lemma_occurrences_absent(tiers: Seq<u8>, t: u8)
    requires
        !tiers.contains(t),
    ensures
        occurrences(tiers, t) == 0,
    decreases tiers.len(),
{
    if tiers.len() > 0 {
        assert(tiers[tiers.len() - 1] == tiers.last());
        assert(!tiers.drop_last().contains(t)) by {
            if tiers.drop_last().contains(t) {
                let k = choose|k: int| 0 <= k < tiers.drop_last().len() && tiers.drop_last()[k] == t;
                assert(tiers[k] == t);
            }
        }
        lemma_occurrences_absent(tiers.drop_last(), t);
    }
}

/// When the tiers hold every tier of a queued tank, once, their tanks are the
/// whole queue.
proof fn lemma_tanks_of_tiers_all<'reg>(queue: Seq<QueueTank<'reg>>, tiers: Seq<u8>)
    requires
        tiers.no_duplicates(),
        forall|t: u8| #[trigger] tier_count(queue, t) > 0 ==> tiers.contains(t),
    ensures
        tanks_of_tiers(queue, tiers) == queue.len(),
    decreases queue.len(),
{
    if queue.len() == 0 {
        lemma_tanks_of_tiers_empty(queue, tiers);
    } else {
        let rest = queue.drop_last();
        let q = queue.last();
        assert(rest.push(q) == queue);
        assert forall|t: u8| #[trigger] tier_count(rest, t) > 0 implies tiers.contains(t) by {
            lemma_tier_count_push(rest, q, t);
        }
        lemma_tanks_of_tiers_all(rest, tiers);
        lemma_tanks_of_tiers_push(rest, q, tiers);
        lemma_tier_count_push(rest, q, q.tank.spec_tier());
        lemma_occurrences_of_unique(tiers, q.tank.spec_tier());
    }
}

proof fn lemma_tanks_of_tiers_empty<'reg>(queue: Seq<QueueTank<'reg>>, tiers: Seq<u8>)
    requires
        queue.len() == 0,
    ensures
        tanks_of_tiers(queue, tiers) == 0,
    decreases tiers.len(),
{
    if tiers.len() > 0 {
        lemma_tanks_of_tiers_empty(queue, tiers.drop_last());
    }
}

/// A walk of the tier table visits each of its tiers once.
proof fn lemma_keys_of_walk<'reg>(
    queue: Seq<QueueTank<'reg>>,
    m: Map<u8, QueueTier>,
    seq: Seq<(&u8, &QueueTier)>,
)
    requires
        seq.no_duplicates(),
        forall|i: int|
            0 <= i < seq.len() ==> #[trigger] m.contains_key(*seq[i].0) && m[*seq[i].0] == *seq[i].1,
        forall|k: u8| #[trigger] m.contains_key(k) ==> seq.contains((&k, &m[k])),
        forall|t: u8| #[trigger] tier_count(queue, t) > 0 ==> m.contains_key(t),
    ensures
        keys_of(seq).no_duplicates(),
        keys_of(seq).to_set() == m.dom(),
        forall|t: u8| #[trigger] tier_count(queue, t) > 0 ==> keys_of(seq).contains(t),
{
    let keys = keys_of(seq);
    assert forall|a: int, b: int| 0 <= a < keys.len() && 0 <= b < keys.len() && a != b implies keys[a]
        != keys[b] by {
        if keys[a] == keys[b] {
            assert(m.contains_key(*seq[a].0));
            assert(m.contains_key(*seq[b].0));
            assert(seq[a] == seq[b]);
        }
    }
    assert forall|k: u8| keys.to_set().contains(k) <==> m.dom().contains(k) by {
        if m.contains_key(k) {
            let i = choose|i: int| 0 <= i < seq.len() && seq[i] == (&k, &m[k]);
            assert(keys[i] == k);
        }
        if keys.to_set().contains(k) {
            let i = choose|i: int| 0 <= i < keys.len() && keys[i] == k;
            assert(m.contains_key(*seq[i].0));
        }
    }
    assert(keys.to_set() =~= m.dom());
    assert forall|t: u8| #[trigger] tier_count(queue, t) > 0 implies keys.contains(t) by {
        assert(keys.to_set().contains(t));
    }
}

/// The matchmaker, queuing and sending tanks into battles.
#[derive(Debug)]
pub struct Matchmaker<'reg> {
    /// The maximum tier allowed.
    max_tier: u8,
    /// For each queued tier.
    queue_tiers: HashMap<u8, QueueTier>,
    /// All the tanks in the queue!
    queue_tanks: Vec<QueueTank<'reg>>,
    /// Stores the last wait duration, in nanoseconds.
    last_wait_duration: u128,
    /// The instant from which queue times are counted.
    epoch: Instant,
}

impl<'reg> Matchmaker<'reg> {
    /// The queued tanks, oldest first.
    pub closed spec fn spec_tanks(&self) -> Seq<Tank> {
        self.queue_tanks@.map_values(|q: QueueTank<'reg>| *q.tank)
    }

    /// When each queued tank was queued, in nanoseconds since the epoch.
    pub closed spec fn spec_queue_times(&self) -> Seq<u128> {
        self.queue_tanks@.map_values(|q: QueueTank<'reg>| q.queue_time)
    }

    pub closed spec fn spec_max_tier(&self) -> u8 {
        self.max_tier
    }

    /// The tiers the matchmaker has seen queued, whether or not tanks of them
    /// still wait.
    pub closed spec fn spec_known_tiers(&self) -> Set<u8> {
        self.queue_tiers@.dom()
    }

    /// The average wait of the tanks of the last match, in nanoseconds.
    pub closed spec fn spec_last_wait(&self) -> u128 {
        self.last_wait_duration
    }

    /// The tier table counts the queued tanks of each tier.
    pub closed spec fn wf(&self) -> bool {
        &&& forall|t: u8| #[trigger]
            self.queue_tiers@.contains_key(t) ==> self.queue_tiers@[t].count == tier_count(
                self.queue_tanks@,
                t,
            )
        &&& forall|t: u8| #[trigger]
            tier_count(self.queue_tanks@, t) > 0 ==> self.queue_tiers@.contains_key(t)
        &&& forall|i: int|
            0 <= i < self.queue_tanks@.len() ==> #[trigger] entry_ok(
                self.queue_tanks@[i],
                self.max_tier,
            )
    }

    /// The number of queued tanks of a tier, as the tier table holds it.
    fn tier_count_of(&self, tier: u8) -> (r: usize)
        requires
            self.wf(),
        ensures
            r == tier_count(self.queue_tanks@, tier),
    {
        match self.queue_tiers.get(&tier) {
            Some(queue_tier) => queue_tier.count,
            None => 0,
        }
    }

    pub fn new(max_tier: u8) -> (r: Self)
        ensures
            r.wf(),
            r.spec_max_tier() == max_tier,
            r.spec_tanks() == Seq::<Tank>::empty(),
            r.spec_known_tiers() == Set::<u8>::empty(),
            r.spec_last_wait() == 0,
    {
        let r = Self {
            max_tier,
            queue_tiers: HashMap::new(),
            queue_tanks: Vec::new(),
            last_wait_duration: 0,
            epoch: Instant::now(),
        };
        proof {
            assert forall|t: u8| #[trigger] tier_count(r.queue_tanks@, t) == 0 by {}
            assert(r.spec_tanks() =~= Seq::<Tank>::empty());
            assert(r.spec_known_tiers() =~= Set::<u8>::empty());
        }
        r
    }

    /// Number of tanks in the queue.
    pub fn len(&self) -> (r: usize)
        ensures
            r == self.spec_tanks().len(),
    {
        self.queue_tanks.len()
    }

    /// Queue a new tank in the match maker.
    pub fn queue(&mut self, tank: &'reg Tank)
        requires
            old(self).wf(),
            tank.spec_tier() <= old(self).spec_max_tier(),
            old(self).spec_tanks().len() < usize::MAX,
        ensures
            final(self).wf(),
            final(self).spec_max_tier() == old(self).spec_max_tier(),
            final(self).spec_last_wait() == old(self).spec_last_wait(),
            final(self).spec_tanks() == old(self).spec_tanks().push(*tank),
            final(self).spec_queue_times().drop_last() == old(self).spec_queue_times(),
            final(self).spec_known_tiers() == old(self).spec_known_tiers().insert(tank.spec_tier()),
    {
        // Calculate the sub class that is specialize the tank class.
        let sub_class = sub_class_of_name(tank.name());
        // Calculate the tier range of this tank.
        let (min_tier, max_tier) = tier_range_of(tank.tier(), tank.class(), self.max_tier);
        let now = nanos_since(&self.epoch);
        let tier = tank.tier();
        let ghost old_queue = self.queue_tanks@;
        proof {
            lemma_tier_count_bounded(old_queue, tier);
        }
        // Update or register the queue tier.
        match self.queue_tiers.get(&tier) {
            Some(queue_tier) => {
                let updated = QueueTier {
                    count: queue_tier.count + 1,
                    last_queue_time: now,
                    last_match_time: queue_tier.last_match_time,
                };
                self.queue_tiers.insert(tier, updated);
            },
            None => {
                self.queue_tiers.insert(
                    tier,
                    QueueTier { count: 1, last_queue_time: now, last_match_time: None },
                );
            },
        }
        let q = QueueTank { tank, queue_time: now, sub_class, min_tier, max_tier };
        // Finally queue the tank!
        self.queue_tanks.push(q);
        proof {
            assert forall|t: u8| #[trigger]
                self.queue_tiers@.contains_key(t) implies self.queue_tiers@[t].count == tier_count(
                self.queue_tanks@,
                t,
            ) by {
                lemma_tier_count_push(old_queue, q, t);
            }
            assert forall|t: u8| #[trigger]
                tier_count(self.queue_tanks@, t) > 0 implies self.queue_tiers@.contains_key(t) by {
                lemma_tier_count_push(old_queue, q, t);
            }
            assert forall|i: int| 0 <= i < self.queue_tanks@.len() implies #[trigger] entry_ok(
                self.queue_tanks@[i],
                self.max_tier,
            ) by {
                if i < old_queue.len() {
                    assert(entry_ok(old_queue[i], self.max_tier));
                }
            }
            assert(self.spec_tanks() =~= old(self).spec_tanks().push(*tank));
            assert(self.spec_queue_times().drop_last() =~= old(self).spec_queue_times());
            assert(self.spec_known_tiers() =~= old(self).spec_known_tiers().insert(tier));
        }
    }
}

/// A tank in the match.
#[derive(Debug, Clone, Copy)]
pub struct MatchTank<'reg> {
    tank: &'reg Tank,
    team_index: usize,
    /// How long the tank waited in the queue, in nanoseconds.
    wait_duration: u128,
}

impl<'reg> MatchTank<'reg> {
    pub closed spec fn spec_tank(&self) -> Tank {
        *self.tank
    }

    pub closed spec fn spec_team_index(&self) -> usize {
        self.team_index
    }

    pub closed spec fn spec_wait_duration(&self) -> u128 {
        self.wait_duration
    }

    pub fn tank(&self) -> (r: &'reg Tank)
        ensures
            *r == self.spec_tank(),
    {
        self.tank
    }

    pub fn team_index(&self) -> (r: usize)
        ensures
            r == self.spec_team_index(),
    {
        self.team_index
    }

    /// How long the tank waited in the queue, in nanoseconds.
    pub fn wait_duration(&self) -> (r: u128)
        ensures
            r == self.spec_wait_duration(),
    {
        self.wait_duration
    }
}

/// The order of the tanks in a match: by team, then from the highest tier
/// down, then by class, then by name.
pub open spec fn match_tank_lt<'reg>(a: MatchTank<'reg>, b: MatchTank<'reg>) -> bool {
    let (ta, tb) = (a.spec_tank(), b.spec_tank());
    ||| a.spec_team_index() < b.spec_team_index()
    ||| a.spec_team_index() == b.spec_team_index() && ta.spec_tier() > tb.spec_tier()
    ||| a.spec_team_index() == b.spec_team_index() && ta.spec_tier() == tb.spec_tier()
        && class_rank(ta.spec_class()) < class_rank(tb.spec_class())
    ||| a.spec_team_index() == b.spec_team_index() && ta.spec_tier() == tb.spec_tier()
        && ta.spec_class() == tb.spec_class() && lex_lt(ta.spec_name(), tb.spec_name())
}

/// No tank comes after a later one.
pub open spec fn match_sorted<'reg>(s: Seq<MatchTank<'reg>>) -> bool {
    forall|i: int, j: int| 0 <= i < j < s.len() ==> !match_tank_lt(#[trigger] s[j], #[trigger] s[i])
}

/// The number of tanks of team `team`.
pub open spec fn team_count<'reg>(s: Seq<MatchTank<'reg>>, team: int) -> nat
    decreases s.len(),
{
    if s.len() == 0 {
        0
    } else {
        team_count(s.drop_last(), team) + if s.last().spec_team_index() == team {
            1nat
        } else {
            0nat
        }
    }
}

/// What a tank of a match carries: the tank, its team and its wait.
pub open spec fn match_entry<'reg>(t: MatchTank<'reg>) -> (Tank, usize, u128) {
    (t.spec_tank(), t.spec_team_index(), t.spec_wait_duration())
}

/// What the tanks of a match carry, in order.
pub open spec fn match_entries<'reg>(s: Seq<MatchTank<'reg>>) -> Seq<(Tank, usize, u128)> {
    s.map_values(|t: MatchTank<'reg>| match_entry(t))
}

/// Where an entry of a match is ordered: its team, and the tier, class and
/// name of its tank.
pub open spec fn entry_place(e: (Tank, usize, u128)) -> (usize, u8, TankClass, Seq<char>) {
    (e.1, e.0.spec_tier(), e.0.spec_class(), e.0.spec_name())
}

/// The entries ordered alike with `e`.
pub open spec fn placed_as(e: (Tank, usize, u128)) -> spec_fn((Tank, usize, u128)) -> bool {
    |x: (Tank, usize, u128)| entry_place(x) == entry_place(e)
}

/// The match tanks whose entries are ordered alike with `e`.
pub open spec fn tank_placed_as<'reg>(e: (Tank, usize, u128)) -> spec_fn(MatchTank<'reg>) -> bool {
    |x: MatchTank<'reg>| entry_place(match_entry(x)) == entry_place(e)
}

/// The sum of the waits of the tanks of a match.
pub open spec fn total_wait<'reg>(s: Seq<MatchTank<'reg>>) -> nat
    decreases s.len(),
{
    if s.len() == 0 {
        0
    } else {
        total_wait(s.drop_last()) + s.last().spec_wait_duration() as nat
    }
}

/// The number of tanks of tier `tier` in team `team`.
pub open spec fn team_tier_count<'reg>(s: Seq<MatchTank<'reg>>, team: int, tier: u8) -> nat
    decreases s.len(),
{
    if s.len() == 0 {
        0
    } else {
        team_tier_count(s.drop_last(), team, tier) + if s.last().spec_team_index() == team
            && s.last().spec_tank().spec_tier() == tier {
            1nat
        } else {
            0nat
        }
    }
}

/// The number of tanks of this tier, class and role in team `team`.
pub open spec fn team_kind_count<'reg>(
    s: Seq<MatchTank<'reg>>,
    team: int,
    tier: u8,
    class: TankClass,
    sub_class: TankSubClass,
) -> nat
    decreases s.len(),
{
    if s.len() == 0 {
        0
    } else {
        let tank = s.last().spec_tank();
        team_kind_count(s.drop_last(), team, tier, class, sub_class) + if s.last().spec_team_index()
            == team && tank.spec_tier() == tier && tank.spec_class() == class && sub_class_of(
            tank.spec_name(),
        ) == sub_class {
            1nat
        } else {
            0nat
        }
    }
}

/// A completed match.
#[derive(Debug)]
pub struct Match<'reg> {
    tanks: Vec<MatchTank<'reg>>,
    team_size: usize,
    /// The average wait of the tanks of the match, in nanoseconds.
    wait_duration: u128,
}

impl<'reg> Match<'reg> {
    /// The tanks of the match, team after team.
    pub closed spec fn spec_tanks(&self) -> Seq<MatchTank<'reg>> {
        self.tanks@
    }

    pub closed spec fn spec_team_size(&self) -> usize {
        self.team_size
    }

    pub closed spec fn spec_wait_duration(&self) -> u128 {
        self.wait_duration
    }

    /// The tanks are sorted, and team `t` holds positions `t * team_size` up
    /// to `(t + 1) * team_size`.
    pub open spec fn wf(&self) -> bool {
        &&& self.spec_team_size() > 0
        &&& (self.spec_tanks().len() as int) % (self.spec_team_size() as int) == 0
        &&& match_sorted(self.spec_tanks())
        &&& forall|k: int|
            0 <= k < self.spec_tanks().len() ==> #[trigger] self.spec_tanks()[k].spec_team_index()
                == k / (self.spec_team_size() as int)
    }

    pub fn team_size(&self) -> (r: usize)
        ensures
            r == self.spec_team_size(),
    {
        self.team_size
    }

    pub fn teams_count(&self) -> (r: usize)
        requires
            self.wf(),
        ensures
            r == (self.spec_tanks().len() as int) / (self.spec_team_size() as int),
    {
        self.tanks.len() / self.team_size
    }

    pub fn tanks_count(&self) -> (r: usize)
        ensures
            r == self.spec_tanks().len(),
    {
        self.tanks.len()
    }

    /// The tanks of team `index`.
    pub fn team_tanks(&self, index: usize) -> (r: &[MatchTank<'reg>])
        requires
            self.wf(),
            self.spec_team_size() * index < self.spec_tanks().len(),
        ensures
            r@ == self.spec_tanks().subrange(
                self.spec_team_size() * index,
                self.spec_team_size() * index + self.spec_team_size(),
            ),
            forall|k: int| 0 <= k < r@.len() ==> #[trigger] r@[k].spec_team_index() == index,
    {
        let n = self.tanks.len();
        let start = self.team_size * index;
        proof {
            let (ts, n, i) = (self.team_size as int, self.tanks@.len() as int, index as int);
            assert(start + ts <= n) by (nonlinear_arith)
                requires
                    ts > 0,
                    n % ts == 0,
                    start == ts * i,
                    start < n,
                    n >= 0,
                    i >= 0,
            ;
            assert forall|k: int| start <= k < start + ts implies #[trigger] self.tanks@[k].spec_team_index() == index by {
                assert(k / ts == i) by (nonlinear_arith)
                    requires
                        ts > 0,
                        start == ts * i,
                        start <= k < start + ts,
                ;
            }
        }
        vstd::slice::slice_subrange(self.tanks.as_slice(), start, start + self.team_size)
    }

    /// The tank at position `tank_index` in team `team_index`.
    pub fn tank(&self, team_index: usize, tank_index: usize) -> (r: &MatchTank<'reg>)
        requires
            self.wf(),
            tank_index < self.spec_team_size(),
            team_index * self.spec_team_size() + tank_index < self.spec_tanks().len(),
        ensures
            *r == self.spec_tanks()[team_index * self.spec_team_size() + tank_index],
            r.spec_team_index() == team_index,
    {
        let n = self.tanks.len();
        proof {
            assert(team_index * self.team_size + tank_index < n);
            assert(team_index * self.team_size <= team_index * self.team_size + tank_index);
        }
        let index = team_index * self.team_size + tank_index;
        proof {
            let (ts, t, k) = (self.team_size as int, team_index as int, tank_index as int);
            assert((t * ts + k) / ts == t) by (nonlinear_arith)
                requires
                    ts > 0,
                    0 <= k < ts,
                    t >= 0,
            ;
        }
        &self.tanks[index]
    }

    /// The average wait of the tanks of the match, in nanoseconds.
    pub fn wait_duration(&self) -> (r: u128)
        ensures
            r == self.spec_wait_duration(),
    {
        self.wait_duration
    }
}

/// The oldest tank waited abnormally long: at least ten times the average wait
/// of the last match.
pub open spec fn wait_abnormal(longest_wait: u128, last_wait: u128) -> bool {
    last_wait != 0 && longest_wait >= 10 * last_wait
}

fn wait_is_abnormal(longest_wait: u128, last_wait: u128) -> (r: bool)
    ensures
        r == wait_abnormal(longest_wait, last_wait),
{
    last_wait != 0 && longest_wait / 10 >= last_wait
}

/// How far the tier range of a match may spread from its base tier. A tier
/// holding its fair share of the queue (one over the number of known tiers)
/// spreads by two tiers; every factor of three above that share removes one.
pub open spec fn tier_spread(count: int, queue_len: int, tiers_len: int) -> u8 {
    let drift = (count * tiers_len) / queue_len;
    if drift / 3 >= 2 {
        0
    } else {
        (2 - drift / 3) as u8
    }
}

fn tier_spread_of(count: usize, queue_len: usize, tiers_len: usize) -> (r: u8)
    requires
        queue_len > 0,
    ensures
        r == tier_spread(count as int, queue_len as int, tiers_len as int),
        r <= 2,
{
    proof {
        assert((count as int) * (tiers_len as int) <= (usize::MAX as int) * (usize::MAX as int))
            by (nonlinear_arith);
        assert((usize::MAX as int) * (usize::MAX as int) <= u128::MAX) by (nonlinear_arith);
    }
    let drift: u128 = (count as u128 * tiers_len as u128) / queue_len as u128;
    let steps: u128 = drift / 3;
    if steps >= 2 {
        0
    } else {
        (2 - steps) as u8
    }
}

/// The tiers of the slot constraints, in order.
spec fn tiers_of(cs: Seq<TeamSlotConstraints>) -> Seq<u8> {
    cs.map_values(|c: TeamSlotConstraints| c.tier)
}

/// `k` slots of tier `t`.
pub open spec fn repeat_tier(k: int, t: int) -> Seq<u8> {
    Seq::new(k as nat, |_i: int| t as u8)
}

/// `x` brought within `lo..=hi`.
spec fn clamp(x: int, lo: int, hi: int) -> int {
    if x < lo {
        lo
    } else if x > hi {
        hi
    } else {
        x
    }
}

/// The tiers of the slots that the plan gives a team, from tier `t` up to
/// `max`, after the slots `acc`: each tier below `max` takes half of the
/// missing slots, or one more when the coin `bits[t]` drawn for it says so,
/// as far as the queue fills it in every team; tier `max` takes the rest, or
/// fails when it cannot and the oldest tank is not being handled.
pub open spec fn planned_tiers(
    tanks: Seq<Tank>,
    n: nat,
    size: int,
    t: int,
    max: int,
    handle: bool,
    bits: Seq<bool>,
    acc: Seq<u8>,
) -> Option<Seq<u8>>
    decreases max + 1 - t,
{
    if t > max {
        Some(acc)
    } else {
        let missing = size - acc.len();
        let avail = tanks_of_tier(tanks, t as u8) / n;
        if t == max {
            if handle {
                Some(acc + repeat_tier(if avail < missing { avail as int } else { missing }, t))
            } else if avail < missing {
                None
            } else {
                Some(acc + repeat_tier(missing, t))
            }
        } else {
            let lo = missing / 2;
            if lo == 0 {
                planned_tiers(tanks, n, size, t + 1, max, handle, bits, acc)
            } else {
                let hi = if lo + 1 < missing { lo + 1 } else { missing };
                let p = if bits[t] { hi } else { lo };
                planned_tiers(
                    tanks,
                    n,
                    size,
                    t + 1,
                    max,
                    handle,
                    bits,
                    acc + repeat_tier(if p < avail { p } else { avail as int }, t),
                )
            }
        }
    }
}

/// The tiers of a plan, if there is one.
spec fn plan_view(r: Option<Vec<TeamSlotConstraints>>) -> Option<Seq<u8>> {
    match r {
        Some(v) => Some(tiers_of(v@)),
        None => None,
    }
}

/// Each slot constraint knows its role exactly when it knows its class.
spec fn aligned(cs: Seq<TeamSlotConstraints>) -> bool {
    forall|c: int| 0 <= c < cs.len() ==> ((#[trigger] cs[c]).class is Some <==> cs[c].sub_class is Some)
}

/// Fresh slot constraints: free in every team, within the tier range, with
/// no class or role yet, each of a tier with at least one queued tank per team.
spec fn fresh_constraints<'reg>(
    cs: Seq<TeamSlotConstraints>,
    queue: Seq<QueueTank<'reg>>,
    n: nat,
    teams_mask: u32,
    min_tier: u8,
    max_tier: u8,
) -> bool {
    forall|c: int|
        0 <= c < cs.len() ==> {
            &&& #[trigger] cs[c].free_teams == teams_mask
            &&& min_tier <= cs[c].tier <= max_tier
            &&& cs[c].class is None
            &&& cs[c].sub_class is None
            &&& tier_count(queue, cs[c].tier) >= n
        }
}

impl<'reg> Matchmaker<'reg> {
    /// The tier that the value `x` picks: the tiers of the tier table are laid
    /// end to end in the order the table is walked, each as long as its count
    /// of queued tanks. That order is left to the table.
    fn pick_tier(&self, x: usize) -> (t: u8)
        requires
            self.wf(),
            x < self.queue_tanks@.len(),
        ensures
            tier_count(self.queue_tanks@, t) > 0,
            exists|order: Seq<u8>, i: int|
                #![trigger order.take(i)]
                {
                    &&& order.no_duplicates()
                    &&& order.to_set() == self.queue_tiers@.dom()
                    &&& 0 <= i < order.len()
                    &&& order[i] == t
                    &&& tanks_of_tiers(self.queue_tanks@, order.take(i)) <= x
                    &&& x < tanks_of_tiers(self.queue_tanks@, order.take(i)) + tier_count(
                        self.queue_tanks@,
                        t,
                    )
                },
    {
        let ghost queue = self.queue_tanks@;
        let ghost m = self.queue_tiers@;
        let mut rest: usize = x;
        let tiers_walk = self.queue_tiers.iter();
        let ghost walk = tiers_walk.remaining();
        for (tier, queue_tier) in it: tiers_walk
            invariant
                it.seq() == walk,
                self.wf(),
                queue == self.queue_tanks@,
                m == self.queue_tiers@,
                x < queue.len(),
                walk.no_duplicates(),
                walk.len() == m.dom().len(),
                forall|i: int|
                    0 <= i < walk.len() ==> #[trigger] m.contains_key(*walk[i].0) && m[*walk[i].0]
                        == *walk[i].1,
                forall|k: u8| #[trigger] m.contains_key(k) ==> walk.contains((&k, &m[k])),
                tanks_of_tiers(queue, keys_of(walk.take(it.index()))) <= x,
                rest == x - tanks_of_tiers(queue, keys_of(walk.take(it.index()))),
        {
            let ghost i = it.index();
            let ghost seq = walk;
            proof {
                assert(seq[i] == (tier, queue_tier));
                assert(m.contains_key(*tier));
                assert(keys_of(seq.take(i + 1)) == keys_of(seq.take(i)).push(*tier));
                assert(keys_of(seq.take(i + 1)).drop_last() == keys_of(seq.take(i)));
            }
            if rest < queue_tier.count {
                proof {
                    let order = keys_of(seq);
                    lemma_keys_of_walk(queue, m, seq);
                    assert(order.take(i) == keys_of(seq.take(i)));
                }
                return *tier;
            }
            rest = rest - queue_tier.count;
        }
        proof {
            let seq = walk;
            assert(seq.take(seq.len() as int) == seq);
            lemma_keys_of_walk(queue, m, seq);
            lemma_tanks_of_tiers_all(queue, keys_of(seq));
        }
        0
    }

    /// The slots of a team, one per tank, as constraints on the tier of the
    /// tank: from the lowest tier up, each tier below the highest takes about
    /// half of the slots still missing, as far as the queue can fill them in
    /// every team; the highest tier takes the rest. Each tier below the highest
    /// takes one slot more when the coin `plan_bits[tier]` says so.
    #[verifier::spinoff_prover]
    #[verifier::rlimit(30)]
    fn plan_slots(
        &self,
        plan_bits: &Vec<bool>,
        teams_count: usize,
        team_size: usize,
        min_tier: u8,
        max_tier: u8,
        handle_longest_wait: bool,
        teams_mask: u32,
    ) -> (r: Option<Vec<TeamSlotConstraints>>)
        requires
            self.wf(),
            2 <= teams_count <= 32,
            plan_bits.len() > max_tier,
        ensures
            handle_longest_wait || tier_count(self.queue_tanks@, max_tier) / (teams_count as nat)
                >= team_size ==> r is Some,
            r matches Some(v) ==> {
                &&& v.len() <= team_size
                &&& fresh_constraints(v@, self.queue_tanks@, teams_count as nat, teams_mask, min_tier, max_tier)
                &&& forall|t: u8| #[trigger] constraints_of_tier(v@, t)
                    <= tier_count(self.queue_tanks@, t) / (teams_count as nat)
                &&& min_tier <= max_tier && (!handle_longest_wait || tier_count(
                    self.queue_tanks@,
                    max_tier,
                ) / (teams_count as nat) >= team_size) ==> v.len() == team_size
            },
            planned_tiers(
                self.spec_tanks(),
                teams_count as nat,
                team_size as int,
                min_tier as int,
                max_tier as int,
                handle_longest_wait,
                plan_bits@,
                Seq::<u8>::empty(),
            ) == plan_view(r),
    {
        let ghost queue = self.queue_tanks@;
        let ghost n = teams_count as nat;
        let ghost size = team_size as int;
        let ghost bits = plan_bits@;
        let ghost tanks = self.spec_tanks();
        let mut slots_constraints: Vec<TeamSlotConstraints> = Vec::new();
        proof {
            assert(tiers_of(slots_constraints@) =~= Seq::<u8>::empty());
        }
        let mut tier: u16 = min_tier as u16;
        while tier <= max_tier as u16
            invariant
                self.wf(),
                queue == self.queue_tanks@,
                n == teams_count,
                2 <= teams_count <= 32,
                min_tier <= tier,
                tier <= max_tier as int + 1 || tier == min_tier,
                slots_constraints.len() <= team_size,
                fresh_constraints(slots_constraints@, queue, n, teams_mask, min_tier, max_tier),
                forall|t: u8| #[trigger]
                    constraints_of_tier(slots_constraints@, t) <= if t < tier {
                        tier_count(queue, t) / n
                    } else {
                        0
                    },
                min_tier <= max_tier && tier > max_tier && (!handle_longest_wait || tier_count(
                    queue,
                    max_tier,
                ) / n >= team_size) ==> slots_constraints.len() == team_size,
                size == team_size,
                bits == plan_bits@,
                tanks == self.spec_tanks(),
                plan_bits.len() > max_tier,
                planned_tiers(
                    tanks,
                    n,
                    size,
                    min_tier as int,
                    max_tier as int,
                    handle_longest_wait,
                    bits,
                    Seq::<u8>::empty(),
                ) == planned_tiers(
                    tanks,
                    n,
                    size,
                    tier as int,
                    max_tier as int,
                    handle_longest_wait,
                    bits,
                    tiers_of(slots_constraints@),
                ),
            decreases max_tier as int + 1 - tier,
        {
            let ghost acc0 = tiers_of(slots_constraints@);
            let missing_count = team_size - slots_constraints.len();
            let available_count = self.tier_count_of(tier as u8) / teams_count;
            proof {
                lemma_tier_count_tanks(queue, tier as u8);
                assert(available_count == tier_count(queue, tier as u8) / n);
                assert(available_count >= 1 ==> tier_count(queue, tier as u8) >= n) by (nonlinear_arith)
                    requires
                        available_count == tier_count(queue, tier as u8) / n,
                        n > 0,
                ;
            }
            let slots_count: usize = if tier == max_tier as u16 {
                if handle_longest_wait {
                    // If we need to handle longest wait, we ignore the missing count
                    // and we create teams with less tanks than the requested team size.
                    if available_count < missing_count {
                        available_count
                    } else {
                        missing_count
                    }
                } else if available_count < missing_count {
                    // We need to fill the remaining slots of the team, so we use the missing
                    // count and abort if the available count at this tier is not enough.
                    proof {
                        assert(planned_tiers(tanks, n, size, tier as int, max_tier as int, handle_longest_wait, bits, acc0) is None);
                        assert(plan_view(None) is None);
                    }
                    return None;
                } else {
                    missing_count
                }
            } else {
                let missing_min_count = missing_count / 2;
                if missing_min_count == 0 {
                    // There is 0 or 1 remaining slot, keep it for the max tier.
                    proof {
                        assert(planned_tiers(tanks, n, size, tier as int, max_tier as int, handle_longest_wait, bits, acc0)
                            == planned_tiers(tanks, n, size, tier + 1, max_tier as int, handle_longest_wait, bits, acc0));
                    }
                    tier = tier + 1;
                    continue;
                }
                let missing_max_count = if missing_min_count + 1 < missing_count {
                    missing_min_count + 1
                } else {
                    missing_count
                };
                let picked = if plan_bits[tier as usize] {
                    missing_max_count
                } else {
                    missing_min_count
                };
                if picked < available_count {
                    picked
                } else {
                    available_count
                }
            };
            proof {
                assert(acc0 + repeat_tier(0, tier as int) == acc0);
                assert(planned_tiers(tanks, n, size, tier as int, max_tier as int, handle_longest_wait, bits, acc0)
                    == planned_tiers(tanks, n, size, tier + 1, max_tier as int, handle_longest_wait, bits,
                    acc0 + repeat_tier(slots_count as int, tier as int)));
            }
            let mut k: usize = 0;
            while k < slots_count
                invariant
                    k <= slots_count,
                    slots_constraints.len() + slots_count - k <= team_size,
                    min_tier <= tier <= max_tier,
                    n == teams_count,
                    n > 0,
                    slots_count <= available_count,
                    available_count >= 1 ==> tier_count(queue, tier as u8) >= n,
                    fresh_constraints(slots_constraints@, queue, n, teams_mask, min_tier, max_tier),
                    forall|t: u8| #[trigger]
                        constraints_of_tier(slots_constraints@, t) <= if t < tier {
                            tier_count(queue, t) / n
                        } else if t == tier {
                            k as nat
                        } else {
                            0
                        },
                    available_count == tier_count(queue, tier as u8) / n,
                    tier == max_tier && (!handle_longest_wait || available_count >= team_size)
                        ==> slots_constraints.len() + slots_count - k == team_size,
                    tiers_of(slots_constraints@) == acc0 + repeat_tier(k as int, tier as int),
                decreases slots_count - k,
            {
                let ghost before = slots_constraints@;
                let constraint = TeamSlotConstraints {
                    free_teams: teams_mask,
                    tier: tier as u8,
                    class: None,
                    sub_class: None,
                };
                slots_constraints.push(constraint);
                proof {
                    assert(constraint.tier == tier);
                    assert(slots_constraints@.drop_last() == before);
                    assert(tiers_of(slots_constraints@) == tiers_of(before).push(tier as u8));
                    assert(acc0 + repeat_tier(k + 1, tier as int) == (acc0 + repeat_tier(
                        k as int,
                        tier as int,
                    )).push(tier as u8));
                    assert forall|t: u8| #[trigger]
                        constraints_of_tier(slots_constraints@, t) <= if t < tier {
                            tier_count(queue, t) / n
                        } else if t == tier {
                            (k + 1) as nat
                        } else {
                            0
                        } by {
                        assert(constraints_of_tier(slots_constraints@, t) == constraints_of_tier(
                            before,
                            t,
                        ) + if t == tier {
                            1nat
                        } else {
                            0nat
                        });
                    }
                    assert forall|c: int| 0 <= c < slots_constraints.len() implies {
                        &&& #[trigger] slots_constraints[c].free_teams == teams_mask
                        &&& min_tier <= slots_constraints[c].tier <= max_tier
                        &&& slots_constraints[c].class is None
                        &&& slots_constraints[c].sub_class is None
                        &&& tier_count(queue, slots_constraints[c].tier) >= n
                    } by {
                        if c < before.len() {
                            assert(slots_constraints[c] == before[c]);
                        } else {
                            assert(slots_constraints[c] == constraint);
                        }
                    }
                }
                k = k + 1;
            }
            tier = tier + 1;
        }
        proof {
            assert forall|t: u8| #[trigger] constraints_of_tier(slots_constraints@, t)
                <= tier_count(queue, t) / n by {
                if t >= tier {
                    assert(constraints_of_tier(slots_constraints@, t) == 0);
                }
            }
            assert(tier > max_tier);
            assert(planned_tiers(
                tanks,
                n,
                size,
                min_tier as int,
                max_tier as int,
                handle_longest_wait,
                bits,
                Seq::<u8>::empty(),
            ) == plan_view(Some(slots_constraints)));
        }
        Some(slots_constraints)
    }
}

/// Every queued tank fits every slot constraint alike: its tier range covers
/// `min_tier..=max_tier`, and all the tanks share the tier of every
/// constraint, one class and one role, which no constraint contradicts.
spec fn fits_alike<'reg>(
    queue: Seq<QueueTank<'reg>>,
    cs: Seq<TeamSlotConstraints>,
    min_tier: u8,
    max_tier: u8,
) -> bool {
    &&& queue.len() > 0
    &&& forall|i: int|
        #![trigger queue[i]]
        0 <= i < queue.len() ==> {
            &&& queue[i].min_tier <= min_tier
            &&& max_tier <= queue[i].max_tier
            &&& queue[i].tank.spec_tier() == queue[0].tank.spec_tier()
            &&& queue[i].tank.spec_class() == queue[0].tank.spec_class()
            &&& queue[i].sub_class == queue[0].sub_class
        }
    &&& forall|c: int|
        #![trigger cs[c]]
        0 <= c < cs.len() ==> {
            &&& cs[c].tier == queue[0].tank.spec_tier()
            &&& (cs[c].class is None || cs[c].class == Some(queue[0].tank.spec_class()))
            &&& (cs[c].sub_class is None || cs[c].sub_class == Some(queue[0].sub_class))
        }
}

/// Slot constraint `c` takes tank `q`: some team is still free in it, it is
/// of the tank's tier, and its class and role, once known, are the tank's,
/// unless the oldest tank is being handled.
spec fn takes<'reg>(c: TeamSlotConstraints, q: QueueTank<'reg>, handle: bool) -> bool {
    &&& c.free_teams != 0
    &&& c.tier == q.tank.spec_tier()
    &&& (handle || c.class is None || c.class == Some(q.tank.spec_class()))
    &&& (handle || c.sub_class is None || c.sub_class == Some(q.sub_class))
}

/// The first slot constraint from position `k` on that takes tank `q`.
spec fn first_taker<'reg>(cs: Seq<TeamSlotConstraints>, q: QueueTank<'reg>, handle: bool, k: int) -> Option<int>
    decreases cs.len() - k,
{
    if k < 0 || k >= cs.len() {
        None
    } else if takes(cs[k], q, handle) {
        Some(k)
    } else {
        first_taker(cs, q, handle, k + 1)
    }
}

/// Slot constraint `c` once tank `q` took it in team `team`: the team is no
/// longer free, and the class and role are known.
spec fn taken_by<'reg>(c: TeamSlotConstraints, q: QueueTank<'reg>, team: int) -> TeamSlotConstraints {
    TeamSlotConstraints {
        free_teams: c.free_teams & !(1u32 << (team as u32)),
        tier: c.tier,
        class: if c.class is Some {
            c.class
        } else {
            Some(q.tank.spec_class())
        },
        sub_class: if c.sub_class is Some {
            c.sub_class
        } else {
            Some(q.sub_class)
        },
    }
}

/// The slot constraints and the slots after walking the queue from tank `i`:
/// each tank whose tier range covers `min_tier..=max_tier` goes to the first
/// constraint that takes it, in the free team of the rank drawn for that
/// constraint when `k` of its teams are taken, `ranks[ci * n + k]` for
/// constraint `ci`, until `tanks_count` slots are given.
spec fn filled<'reg>(
    queue: Seq<QueueTank<'reg>>,
    cs: Seq<TeamSlotConstraints>,
    slots: Seq<TeamSlot>,
    i: int,
    n: int,
    tanks_count: int,
    min_tier: u8,
    max_tier: u8,
    handle: bool,
    ranks: Seq<u32>,
) -> (Seq<TeamSlotConstraints>, Seq<TeamSlot>)
    decreases queue.len() - i,
{
    if i < 0 || i >= queue.len() || slots.len() >= tanks_count {
        (cs, slots)
    } else {
        let q = queue[i];
        if q.min_tier > min_tier || q.max_tier < max_tier {
            filled(queue, cs, slots, i + 1, n, tanks_count, min_tier, max_tier, handle, ranks)
        } else {
            match first_taker(cs, q, handle, 0) {
                None => filled(queue, cs, slots, i + 1, n, tanks_count, min_tier, max_tier, handle, ranks),
                Some(ci) => {
                    let c = cs[ci];
                    let free = free_below(c.free_teams, n);
                    let rank = clamp(ranks[ci * n + (n - free)] as int, 0, free - 1);
                    let team = nth_free_team(c.free_teams, n, rank);
                    filled(
                        queue,
                        cs.update(ci, taken_by(c, q, team)),
                        slots.push(TeamSlot { team_index: team as usize, tank_index: i as usize }),
                        i + 1,
                        n,
                        tanks_count,
                        min_tier,
                        max_tier,
                        handle,
                        ranks,
                    )
                },
            }
        }
    }
}

/// No constraint from `a` up to `b` takes the tank, so the first taker from
/// `a` on is the first from `b` on.
proof fn lemma_first_taker_skip<'reg>(
    cs: Seq<TeamSlotConstraints>,
    q: QueueTank<'reg>,
    handle: bool,
    a: int,
    b: int,
)
    requires
        0 <= a <= b <= cs.len(),
        forall|k: int| a <= k < b ==> !takes(#[trigger] cs[k], q, handle),
    ensures
        first_taker(cs, q, handle, a) == first_taker(cs, q, handle, b),
    decreases b - a,
{
    if a < b {
        lemma_first_taker_skip(cs, q, handle, a + 1, b);
    }
}

impl<'reg> Matchmaker<'reg> {
    /// Walks the queue from the oldest tank and gives each tank whose tier range
    /// covers `min_tier..=max_tier` the first slot constraint that it meets, in
    /// the team of the rank drawn for it among those where that slot is still
    /// free. Stops once `tanks_count` slots are given.
    #[verifier::spinoff_prover]
    #[verifier::rlimit(60)]
    fn fill_slots(
        &self,
        ranks: &Vec<u32>,
        constraints: &mut Vec<TeamSlotConstraints>,
        teams_count: usize,
        tanks_count: usize,
        min_tier: u8,
        max_tier: u8,
        handle_longest_wait: bool,
    ) -> (slots: Vec<TeamSlot>)
        requires
            self.wf(),
            2 <= teams_count <= 32,
            tanks_count > 0,
            ranks.len() >= old(constraints).len() * teams_count,
            forall|c: int|
                0 <= c < old(constraints)@.len() ==> #[trigger] constraint_ok(
                    old(constraints)@[c],
                    teams_count as int,
                    min_tier,
                    max_tier,
                ),
            forall|j: int| 0 <= j < teams_count ==> taken_in(old(constraints)@, j) == 0,
            forall|j: int, t: u8|
                0 <= j < teams_count ==> #[trigger] taken_tier_in(old(constraints)@, j, t) == 0,
            kinds_named(old(constraints)@, teams_count as int),
            !handle_longest_wait ==> kinds_counted(
                Seq::<TeamSlot>::empty(),
                self.queue_tanks@,
                old(constraints)@,
                teams_count as int,
            ),
            aligned(old(constraints)@),
        ensures
            kinds_named(final(constraints)@, teams_count as int),
            !handle_longest_wait ==> kinds_counted(
                slots@,
                self.queue_tanks@,
                final(constraints)@,
                teams_count as int,
            ),
            final(constraints).len() == old(constraints).len(),
            slots.len() <= tanks_count,
            forall|s: int|
                #![trigger slots[s]]
                0 <= s < slots.len() ==> {
                    let q = self.queue_tanks@[slots[s].tank_index as int];
                    &&& slots[s].team_index < teams_count
                    &&& slots[s].tank_index < self.queue_tanks@.len()
                    &&& q.min_tier <= min_tier
                    &&& max_tier <= q.max_tier
                    &&& min_tier <= q.tank.spec_tier() <= max_tier
                },
            forall|a: int, b: int|
                0 <= a < b < slots.len() ==> #[trigger] slots[a].tank_index
                    < #[trigger] slots[b].tank_index,
            forall|j: int|
                0 <= j < teams_count ==> slots_of_team(slots@, j) == taken_in(
                    final(constraints)@,
                    j,
                ),
            forall|j: int, t: u8|
                0 <= j < teams_count ==> #[trigger] slots_of_team_tier(
                    slots@,
                    self.queue_tanks@,
                    j,
                    t,
                ) == taken_tier_in(final(constraints)@, j, t),
            forall|c: int|
                0 <= c < final(constraints)@.len() ==> #[trigger] final(constraints)@[c].tier
                    == old(constraints)@[c].tier,
            fits_alike(self.queue_tanks@, old(constraints)@, min_tier, max_tier) && tanks_count
                == teams_count * old(constraints).len() && tanks_count <= self.queue_tanks@.len()
                ==> slots.len() == tanks_count,
            filled(
                self.queue_tanks@,
                old(constraints)@,
                Seq::<TeamSlot>::empty(),
                0,
                teams_count as int,
                tanks_count as int,
                min_tier,
                max_tier,
                handle_longest_wait,
                ranks@,
            ) == (final(constraints)@, slots@),
    {
        let mut slots: Vec<TeamSlot> = Vec::with_capacity(tanks_count);
        let mut tank_index: usize = 0;
        let ghost n = teams_count as int;
        let ghost old_cs = constraints@;
        let ghost rk = ranks@;
        let ghost count = constraints.len();
        let ghost alike = fits_alike(self.queue_tanks@, constraints@, min_tier, max_tier)
            && tanks_count == teams_count * constraints.len() && tanks_count
            <= self.queue_tanks@.len();
        while tank_index < self.queue_tanks.len() && slots.len() < tanks_count
            invariant
                self.wf(),
                n == teams_count,
                2 <= teams_count <= 32,
                constraints.len() == count,
                tank_index <= self.queue_tanks@.len(),
                slots.len() <= tanks_count,
                forall|c: int|
                    0 <= c < constraints@.len() ==> #[trigger] constraint_ok(
                        constraints@[c],
                        n,
                        min_tier,
                        max_tier,
                    ),
                forall|s: int|
                    #![trigger slots[s]]
                    0 <= s < slots.len() ==> {
                        let q = self.queue_tanks@[slots[s].tank_index as int];
                        &&& slots[s].team_index < teams_count
                        &&& slots[s].tank_index < tank_index
                        &&& q.min_tier <= min_tier
                        &&& max_tier <= q.max_tier
                        &&& min_tier <= q.tank.spec_tier() <= max_tier
                    },
                forall|a: int, b: int|
                    0 <= a < b < slots.len() ==> #[trigger] slots[a].tank_index
                        < #[trigger] slots[b].tank_index,
                forall|j: int| 0 <= j < n ==> slots_of_team(slots@, j) == taken_in(constraints@, j),
                forall|j: int, t: u8|
                    0 <= j < n ==> #[trigger] slots_of_team_tier(slots@, self.queue_tanks@, j, t)
                        == taken_tier_in(constraints@, j, t),
                forall|c: int|
                    0 <= c < constraints@.len() ==> #[trigger] constraints@[c].tier
                        == old(constraints)@[c].tier,
                kinds_named(constraints@, n),
                !handle_longest_wait ==> kinds_counted(slots@, self.queue_tanks@, constraints@, n),
                alike ==> fits_alike(self.queue_tanks@, constraints@, min_tier, max_tier),
                alike ==> tanks_count == n * count && tanks_count <= self.queue_tanks@.len(),
                alike ==> slots.len() == tank_index,
                old_cs == old(constraints)@,
                aligned(constraints@),
                rk == ranks@,
                ranks.len() >= count * n,
                filled(self.queue_tanks@, old_cs, Seq::<TeamSlot>::empty(), 0, n, tanks_count as int, min_tier, max_tier, handle_longest_wait, rk) == filled(self.queue_tanks@, constraints@, slots@, tank_index as int, n, tanks_count as int, min_tier, max_tier, handle_longest_wait, rk),
            decreases self.queue_tanks@.len() - tank_index,
        {
            let tank = self.queue_tanks[tank_index];
            // Exclude tanks that are not in the good range.
            if tank.min_tier > min_tier || tank.max_tier < max_tier {
                proof {
                    assert(tank == self.queue_tanks@[tank_index as int]);
                    assert(filled(self.queue_tanks@, constraints@, slots@, tank_index as int, n, tanks_count as int, min_tier, max_tier, handle_longest_wait, rk) == filled(self.queue_tanks@, constraints@, slots@, tank_index + 1, n, tanks_count as int, min_tier, max_tier, handle_longest_wait, rk));
                }
                tank_index = tank_index + 1;
                continue;
            }
            let ghost cs_start = constraints@;
            let ghost mut found_ci: int = 0;
            let ghost mut found_team: int = 0;
            let ghost mut found_pick: int = 0;
            let ghost mut found_free: int = 0;
            let tank_tier = tank.tank.tier();
            let tank_class = tank.tank.class();
            let ghost slots_before = slots@;
            let mut found = false;
            let mut ci: usize = 0;
            while ci < constraints.len() && !found
                invariant
                    self.wf(),
                    n == teams_count,
                    2 <= teams_count <= 32,
                    constraints.len() == count,
                    tank_index < self.queue_tanks@.len(),
                    ranks.len() >= count * n,
                    rk == ranks@,
                    tank == self.queue_tanks@[tank_index as int],
                    tank_tier == tank.tank.spec_tier(),
                    tank_class == tank.tank.spec_class(),
                    tank.min_tier <= min_tier,
                    max_tier <= tank.max_tier,
                    slots_before.len() < tanks_count,
                    ci <= constraints.len(),
                    !found ==> slots@ == slots_before,
                    found ==> slots@.len() == slots_before.len() + 1 && slots@.drop_last()
                        == slots_before && slots@.last().tank_index == tank_index,
                    forall|c: int|
                    0 <= c < constraints@.len() ==> #[trigger] constraint_ok(
                        constraints@[c],
                        n,
                        min_tier,
                        max_tier,
                    ),
                    forall|s: int|
                        #![trigger slots_before[s]]
                        0 <= s < slots_before.len() ==> {
                            let q = self.queue_tanks@[slots_before[s].tank_index as int];
                            &&& slots_before[s].team_index < teams_count
                            &&& slots_before[s].tank_index < tank_index
                            &&& q.min_tier <= min_tier
                            &&& max_tier <= q.max_tier
                            &&& min_tier <= q.tank.spec_tier() <= max_tier
                        },
                    found ==> slots@.last().team_index < teams_count && min_tier <= tank_tier
                        <= max_tier,
                    forall|a: int, b: int|
                        0 <= a < b < slots_before.len() ==> #[trigger] slots_before[a].tank_index
                            < #[trigger] slots_before[b].tank_index,
                    forall|j: int|
                        0 <= j < n ==> slots_of_team(slots@, j) == taken_in(constraints@, j),
                    forall|j: int, t: u8|
                        0 <= j < n ==> #[trigger] slots_of_team_tier(slots@, self.queue_tanks@, j, t)
                            == taken_tier_in(constraints@, j, t),
                    forall|c: int|
                        0 <= c < constraints@.len() ==> #[trigger] constraints@[c].tier
                            == old(constraints)@[c].tier,
                    kinds_named(constraints@, n),
                    !handle_longest_wait ==> kinds_counted(slots@, self.queue_tanks@, constraints@, n),
                    tank.sub_class == self.queue_tanks@[tank_index as int].sub_class,
                    alike ==> fits_alike(self.queue_tanks@, constraints@, min_tier, max_tier),
                    alike ==> tanks_count == n * count,
                    alike ==> slots_before.len() == tank_index,
                    alike && !found ==> forall|c: int|
                        0 <= c < ci ==> (#[trigger] constraints@[c]).free_teams == 0,
                    aligned(constraints@),
                    cs_start.len() == constraints@.len(),
                    aligned(cs_start),
                    !found ==> constraints@ == cs_start,
                    !found ==> forall|k: int| 0 <= k < ci ==> !takes(#[trigger] cs_start[k], tank, handle_longest_wait),
                    found ==> {
                        &&& 0 <= found_ci < cs_start.len()
                        &&& first_taker(cs_start, tank, handle_longest_wait, 0) == Some(found_ci)
                        &&& constraints@ == cs_start.update(
                            found_ci,
                            taken_by(cs_start[found_ci], tank, found_team),
                        )
                        &&& slots@ == slots_before.push(
                            TeamSlot { team_index: found_team as usize, tank_index: tank_index },
                        )
                        &&& found_free == free_below(cs_start[found_ci].free_teams, n)
                        &&& 1 <= found_free <= n
                        &&& found_pick == clamp(rk[found_ci * n + (n - found_free)] as int, 0, found_free - 1)
                        &&& found_team == nth_free_team(cs_start[found_ci].free_teams, n, found_pick)
                    },
                decreases constraints.len() - ci + if found {
                    0int
                } else {
                    1int
                },
            {
                let mut constraint = constraints[ci];
                assert(constraint_ok(constraints@[ci as int], n, min_tier, max_tier));
                // Ignore this slot if all teams have found a player for it.
                if constraint.free_teams == 0 {
                    ci = ci + 1;
                    continue;
                }
                // Ignore this slot if tier isn't matching.
                if constraint.tier != tank_tier {
                    ci = ci + 1;
                    continue;
                }
                // Ignore this slot if class isn't matching, or set the class.
                match constraint.class {
                    Some(class) => {
                        if !handle_longest_wait && class != tank_class {
                            ci = ci + 1;
                            continue;
                        }
                    },
                    None => {
                        constraint.class = Some(tank_class);
                    },
                }
                // Ignore this slot if sub class isn't matching, or set the sub class.
                match constraint.sub_class {
                    Some(sub_class) => {
                        if !handle_longest_wait && sub_class != tank.sub_class {
                            let ghost before = constraints@;
                            proof {
                                assert(before[ci as int].class is Some);
                                assert(constraint == before[ci as int]);
                            }
                            constraints.set(ci, constraint);
                            proof {
                                assert(constraints@ =~= before);
                                assert forall|c: int|
                                    0 <= c < constraints@.len() implies #[trigger] constraint_ok(
                                    constraints@[c],
                                    n,
                                    min_tier,
                                    max_tier,
                                ) by {
                                    if c != ci {
                                        assert(constraints@[c] == before[c]);
                                    }
                                }
                                assert forall|j: int| 0 <= j < n implies slots_of_team(slots@, j)
                                    == taken_in(constraints@, j) by {
                                    lemma_taken_update(before, ci as int, constraint, j);
                                }
                                assert forall|j: int, t: u8|
                                    0 <= j < n implies #[trigger] slots_of_team_tier(
                                    slots@,
                                    self.queue_tanks@,
                                    j,
                                    t,
                                ) == taken_tier_in(constraints@, j, t) by {
                                    lemma_taken_tier_update(before, ci as int, constraint, j, t);
                                }
                                assert forall|c: int|
                                    0 <= c < constraints@.len() implies #[trigger] constraints@[c].tier
                                    == old(constraints)@[c].tier by {
                                    if c != ci {
                                        assert(constraints@[c] == before[c]);
                                    }
                                }
                                lemma_kinds_kept(
                                    slots@,
                                    self.queue_tanks@,
                                    before,
                                    ci as int,
                                    constraint,
                                    n,
                                    handle_longest_wait,
                                );
                            }
                            ci = ci + 1;
                            continue;
                        }
                    },
                    None => {
                        constraint.sub_class = Some(tank.sub_class);
                    },
                }
                // We found a valid slot, we choose the team!
                proof {
                    lemma_nonempty_has_free(constraint.free_teams, n);
                }
                let free_count = count_free(constraint.free_teams, teams_count);
                proof {
                    assert(ci * teams_count + (teams_count - free_count) < ranks.len()) by (nonlinear_arith)
                        requires
                            ci < count,
                            1 <= free_count <= teams_count,
                            ranks.len() >= count * teams_count,
                    ;
                }
                let drawn = ranks[ci * teams_count + (teams_count - free_count as usize)];
                let one_index = if drawn < free_count {
                    drawn
                } else {
                    free_count - 1
                };
                let team_index = nth_free(constraint.free_teams, teams_count, one_index);
                let ghost old_free = constraint.free_teams;
                // We zero-out this bit.
                constraint.free_teams = constraint.free_teams & !(1u32 << (team_index as u32));
                let ghost before = constraints@;
                constraints.set(ci, constraint);
                let slot = TeamSlot { team_index, tank_index };
                slots.push(slot);
                found = true;
                proof {
                    found_ci = ci as int;
                    found_team = team_index as int;
                    found_pick = one_index as int;
                    found_free = free_count as int;
                    lemma_nth_free_team(old_free, n, team_index as int, one_index as int);
                    assert(takes(cs_start[ci as int], tank, handle_longest_wait));
                    lemma_first_taker_skip(cs_start, tank, handle_longest_wait, 0, ci as int);
                    assert(constraint == taken_by(cs_start[ci as int], tank, team_index as int));
                    assert(slots@ == slots_before.push(slot));
                    assert forall|c: int| 0 <= c < constraints@.len() implies ((#[trigger] constraints@[c]).class is Some
                        <==> constraints@[c].sub_class is Some) by {
                        if c != ci {
                            assert(constraints@[c] == before[c]);
                        }
                    }
                    lemma_clear_team(old_free, team_index as int);
                    assert forall|c: int|
                        0 <= c < constraints@.len() implies #[trigger] constraint_ok(
                        constraints@[c],
                        n,
                        min_tier,
                        max_tier,
                    ) by {
                        if c == ci {
                            assert forall|k: int| n <= k < 32 implies !#[trigger] team_free(
                                constraint.free_teams,
                                k,
                            ) by {
                                assert(!team_free(old_free, k));
                            }
                        } else {
                            assert(constraints@[c] == before[c]);
                        }
                    }
                    assert forall|j: int| 0 <= j < n implies slots_of_team(slots@, j) == taken_in(
                        constraints@,
                        j,
                    ) by {
                        lemma_taken_update(before, ci as int, constraint, j);
                        assert(slots@.drop_last() == slots_before);
                        assert(constraints@ == before.update(ci as int, constraint));
                        assert(before[ci as int].free_teams == old_free);
                        assert(team_free(old_free, team_index as int));
                        assert(team_free(constraint.free_teams, j) <==> (j != team_index && team_free(old_free, j)));
                        assert(slots_of_team(slots_before, j) == taken_in(before, j));
                        assert(slots@.last() == slot);
                    }
                    assert forall|j: int, t: u8|
                        0 <= j < n implies #[trigger] slots_of_team_tier(
                        slots@,
                        self.queue_tanks@,
                        j,
                        t,
                    ) == taken_tier_in(constraints@, j, t) by {
                        lemma_taken_tier_update(before, ci as int, constraint, j, t);
                        assert(slots@.drop_last() == slots_before);
                        assert(constraints@ == before.update(ci as int, constraint));
                        assert(before[ci as int].free_teams == old_free);
                        assert(before[ci as int].tier == constraint.tier);
                        assert(team_free(old_free, team_index as int));
                        assert(team_free(constraint.free_teams, j) <==> (j != team_index && team_free(old_free, j)));
                        assert(slots_of_team_tier(slots_before, self.queue_tanks@, j, t) == taken_tier_in(before, j, t));
                        assert(slots@.last() == slot);
                    }
                    assert forall|c: int|
                        0 <= c < constraints@.len() implies #[trigger] constraints@[c].tier
                        == old(constraints)@[c].tier by {
                        if c != ci {
                            assert(constraints@[c] == before[c]);
                        }
                    }
                    lemma_kinds_taken(
                        slots_before,
                        slot,
                        self.queue_tanks@,
                        before,
                        ci as int,
                        constraint,
                        old_free,
                        n,
                        handle_longest_wait,
                    );
                    if alike {
                        assert forall|c: int| 0 <= c < constraints@.len() implies {
                            &&& (#[trigger] constraints@[c]).tier == self.queue_tanks@[0].tank.spec_tier()
                            &&& (constraints@[c].class is None || constraints@[c].class == Some(
                                self.queue_tanks@[0].tank.spec_class(),
                            ))
                            &&& (constraints@[c].sub_class is None || constraints@[c].sub_class
                                == Some(self.queue_tanks@[0].sub_class))
                        } by {
                            if c != ci {
                                assert(constraints@[c] == before[c]);
                            }
                        }
                        assert(self.queue_tanks@[tank_index as int] == tank);
                    }
                }
            }
            proof {
                if alike && !found {
                    lemma_all_taken_fills(slots@, constraints@, n);
                }
            }
            proof {
                if !found {
                    lemma_first_taker_skip(cs_start, tank, handle_longest_wait, 0, cs_start.len() as int);
                }
                assert(tank == self.queue_tanks@[tank_index as int]);
                assert(filled(self.queue_tanks@, cs_start, slots_before, tank_index as int, n, tanks_count as int, min_tier, max_tier, handle_longest_wait, rk) == filled(self.queue_tanks@, constraints@, slots@, tank_index + 1, n, tanks_count as int, min_tier, max_tier, handle_longest_wait, rk));
            }
            proof {
                if found {
                    assert forall|s: int|
                        #![trigger slots[s]]
                        0 <= s < slots.len() implies {
                        let q = self.queue_tanks@[slots[s].tank_index as int];
                        &&& slots[s].team_index < teams_count
                        &&& slots[s].tank_index < tank_index + 1
                        &&& q.min_tier <= min_tier
                        &&& max_tier <= q.max_tier
                        &&& min_tier <= q.tank.spec_tier() <= max_tier
                    } by {
                        if s < slots_before.len() {
                            assert(slots[s] == slots_before[s]);
                        }
                    }
                    assert forall|a: int, b: int|
                        0 <= a < b < slots.len() implies #[trigger] slots[a].tank_index
                        < #[trigger] slots[b].tank_index by {
                        assert(slots[a] == slots_before[a]);
                        if b < slots_before.len() {
                            assert(slots[b] == slots_before[b]);
                        }
                    }
                }
            }
            tank_index = tank_index + 1;
        }
        proof {
            assert(filled(self.queue_tanks@, constraints@, slots@, tank_index as int, n, tanks_count as int, min_tier, max_tier, handle_longest_wait, rk) == (constraints@, slots@));
        }
        slots
    }
}

/// `a - b`, or zero when `b` is the later time.
pub open spec fn saturating_diff(a: u128, b: u128) -> u128 {
    if a >= b {
        (a - b) as u128
    } else {
        0
    }
}

/// `x`, or the largest `u128` when `x` does not fit.
pub open spec fn capped(x: nat) -> u128 {
    if x <= u128::MAX {
        x as u128
    } else {
        u128::MAX
    }
}

/// Tank `b` lies within the tier range that tank `a` can meet.
pub open spec fn fits_with(a: Tank, b: Tank, max_tier: u8) -> bool {
    let (lo, hi) = queue_tier_range(a.spec_tier(), a.spec_class(), max_tier);
    lo <= b.spec_tier() <= hi
}

/// The queue went from `before` to `after` by dequeuing the positions `idx`,
/// and the dequeued tanks became the `entries` of a match: tank, team drawn for
/// it, and wait from its queue time up to `now`. Entries ordered alike come in
/// the reverse of their queue order.
pub open spec fn dequeued_into(
    before_tanks: Seq<Tank>,
    before_times: Seq<u128>,
    after_tanks: Seq<Tank>,
    after_times: Seq<u128>,
    entries: Seq<(Tank, usize, u128)>,
    idx: Seq<int>,
    teams: Seq<usize>,
    now: u128,
) -> bool {
    &&& idx.len() == teams.len()
    &&& idx.len() == entries.len()
    &&& increasing_positions(idx, before_tanks.len() as int)
    &&& after_tanks == remove_positions(before_tanks, idx)
    &&& after_times == remove_positions(before_times, idx)
    &&& entries.to_multiset() == Seq::new(
        idx.len(),
        |k: int| (before_tanks[idx[k]], teams[k], saturating_diff(now, before_times[idx[k]])),
    ).to_multiset()
    &&& forall|e: (Tank, usize, u128)| #[trigger] entries.filter(placed_as(e)) == Seq::new(
        idx.len(),
        |k: int| (before_tanks[idx[k]], teams[k], saturating_diff(now, before_times[idx[k]])),
    ).reverse().filter(placed_as(e))
}

/// `m` is a match that the queue of `before` made, leaving `after`: its teams
/// are full and sorted, its wait is the average wait of its tanks in
/// nanoseconds, rounded down as dividing a `Duration` by their number rounds
/// it (the sum stops at the largest `u128` rather than overflow), its tanks
/// are those of some positions of the queue, each with the team drawn for it
/// and its wait, and each of them can meet every other one.
pub open spec fn made_match<'reg>(before: Matchmaker<'reg>, after: Matchmaker<'reg>, m: Match<'reg>) -> bool {
    &&& m.wf()
    &&& m.spec_wait_duration() == after.spec_last_wait()
    &&& m.spec_wait_duration() == (capped(total_wait(m.spec_tanks())) as int) / (
    m.spec_tanks().len() as int)
    &&& exists|idx: Seq<int>, teams: Seq<usize>, now: u128|
        #[trigger] dequeued_into(
            before.spec_tanks(),
            before.spec_queue_times(),
            after.spec_tanks(),
            after.spec_queue_times(),
            match_entries(m.spec_tanks()),
            idx,
            teams,
            now,
        )
    &&& forall|a: int, b: int|
        0 <= a < m.spec_tanks().len() && 0 <= b < m.spec_tanks().len() ==> fits_with(
            #[trigger] m.spec_tanks()[a].spec_tank(),
            #[trigger] m.spec_tanks()[b].spec_tank(),
            before.spec_max_tier(),
        )
}

/// Every team among the first `teams_count` holds as many tanks of each tier,
/// class and role as every other.
pub open spec fn same_kinds_in_teams<'reg>(s: Seq<MatchTank<'reg>>, teams_count: int) -> bool {
    forall|a: int, b: int, tier: u8, class: TankClass, sub_class: TankSubClass|
        0 <= a < teams_count && 0 <= b < teams_count ==> #[trigger] team_kind_count(
            s,
            a,
            tier,
            class,
            sub_class,
        ) == #[trigger] team_kind_count(s, b, tier, class, sub_class)
}

/// The tank in slot `k` of team `team`, teams being `size` tanks long.
pub open spec fn slot_of<'reg>(s: Seq<MatchTank<'reg>>, size: int, team: int, k: int) -> MatchTank<'reg> {
    s[team * size + k]
}

/// Slot by slot, the first `teams_count` teams hold tanks of the same tier.
pub open spec fn same_tier_slots<'reg>(s: Seq<MatchTank<'reg>>, teams_count: int, size: int) -> bool {
    forall|a: int, b: int, k: int|
        0 <= a < teams_count && 0 <= b < teams_count && 0 <= k < size ==> #[trigger] slot_of(
            s,
            size,
            a,
            k,
        ).spec_tank().spec_tier() == #[trigger] slot_of(s, size, b, k).spec_tank().spec_tier()
}

/// Slot by slot, the first `teams_count` teams hold tanks of the same class.
pub open spec fn same_class_slots<'reg>(s: Seq<MatchTank<'reg>>, teams_count: int, size: int) -> bool {
    forall|a: int, b: int, k: int|
        0 <= a < teams_count && 0 <= b < teams_count && 0 <= k < size ==> #[trigger] slot_of(
            s,
            size,
            a,
            k,
        ).spec_tank().spec_class() == #[trigger] slot_of(s, size, b, k).spec_tank().spec_class()
}

/// Every team among the first `teams_count` holds as many tanks of each tier as
/// every other.
pub open spec fn same_tiers_in_teams<'reg>(s: Seq<MatchTank<'reg>>, teams_count: int) -> bool {
    forall|a: int, b: int, tier: u8|
        0 <= a < teams_count && 0 <= b < teams_count ==> #[trigger] team_tier_count(s, a, tier)
            == #[trigger] team_tier_count(s, b, tier)
}

/// Every queued tank is of the matchmaker's maximum tier, which is at least
/// one, and all of them share one class, other than the artillery class, and
/// one role. Whatever tiers and spread are drawn, such a queue fills every
/// slot.
pub open spec fn uniform_top_queue<'reg>(mm: Matchmaker<'reg>) -> bool {
    let tanks = mm.spec_tanks();
    &&& tanks.len() > 0
    &&& mm.spec_max_tier() >= 1
    &&& tanks[0].spec_class() != TankClass::Clicker
    &&& forall|i: int|
        0 <= i < tanks.len() ==> {
            &&& (#[trigger] tanks[i]).spec_tier() == mm.spec_max_tier()
            &&& tanks[i].spec_class() == tanks[0].spec_class()
            &&& sub_class_of(tanks[i].spec_name()) == sub_class_of(tanks[0].spec_name())
        }
}

/// In a queue of a single tier, that tier counts every tank and no other
/// tier counts any.
proof fn lemma_tier_count_single<'reg>(queue: Seq<QueueTank<'reg>>, tier: u8, t: u8)
    requires
        forall|i: int| 0 <= i < queue.len() ==> (#[trigger] queue[i]).tank.spec_tier() == tier,
    ensures
        tier_count(queue, t) == if t == tier {
            queue.len()
        } else {
            0
        },
    decreases queue.len(),
{
    if queue.len() > 0 {
        let rest = queue.drop_last();
        assert forall|i: int| 0 <= i < rest.len() implies (#[trigger] rest[i]).tank.spec_tier()
            == tier by {
            assert(rest[i] == queue[i]);
        }
        lemma_tier_count_single(rest, tier, t);
        assert(queue[queue.len() - 1] == queue.last());
    }
}

/// A queue of one tier, class and role, at the top tier, fits alike the slot
/// constraints planned for it.
proof fn lemma_uniform_fits<'reg>(
    queue: Seq<QueueTank<'reg>>,
    cs: Seq<TeamSlotConstraints>,
    top: u8,
    min_tier: u8,
    n: nat,
    teams_mask: u32,
)
    requires
        top >= 1,
        queue.len() > 0,
        n > 0,
        1 <= min_tier <= top,
        min_tier >= top - 2,
        forall|i: int| 0 <= i < queue.len() ==> #[trigger] entry_ok(queue[i], top),
        forall|i: int|
            0 <= i < queue.len() ==> {
                &&& (#[trigger] queue[i]).tank.spec_tier() == top
                &&& queue[i].tank.spec_class() == queue[0].tank.spec_class()
                &&& queue[i].sub_class == queue[0].sub_class
            },
        queue[0].tank.spec_class() != TankClass::Clicker,
        fresh_constraints(cs, queue, n, teams_mask, min_tier, top),
    ensures
        fits_alike(queue, cs, min_tier, top),
{
    assert forall|i: int| 0 <= i < queue.len() implies {
        &&& (#[trigger] queue[i]).min_tier <= min_tier
        &&& top <= queue[i].max_tier
    } by {
        assert(entry_ok(queue[i], top));
        assert(queue[i].tank.spec_tier() == top);
        assert(queue[i].tank.spec_class() != TankClass::Clicker);
        let (lo, hi) = queue_tier_range(top, queue[i].tank.spec_class(), top);
        assert(lo <= min_tier && top <= hi);
    }
    assert(queue[0].tank.spec_tier() == top);
    assert forall|c: int| 0 <= c < cs.len() implies {
        &&& (#[trigger] cs[c]).tier == queue[0].tank.spec_tier()
        &&& cs[c].class is None
        &&& cs[c].sub_class is None
    } by {
        assert(cs[c].free_teams == teams_mask);
        lemma_tier_count_single(queue, top, cs[c].tier);
    }
}

/// The number of tanks of tier `tier` among `tanks`.
pub open spec fn tanks_of_tier(tanks: Seq<Tank>, tier: u8) -> nat
    decreases tanks.len(),
{
    if tanks.len() == 0 {
        0
    } else {
        tanks_of_tier(tanks.drop_last(), tier) + if tanks.last().spec_tier() == tier {
            1nat
        } else {
            0nat
        }
    }
}

/// The number of tanks whose tier is one of `tiers`, tier after tier.
pub open spec fn tanks_of_tier_list(tanks: Seq<Tank>, tiers: Seq<u8>) -> nat
    decreases tiers.len(),
{
    if tiers.len() == 0 {
        0
    } else {
        tanks_of_tier_list(tanks, tiers.drop_last()) + tanks_of_tier(tanks, tiers.last())
    }
}

/// The base tier that the value `x` picks: the tiers the matchmaker knows,
/// laid end to end in the order its tier table is walked, each as long as
/// its number of queued tanks. That order is left to the table.
pub open spec fn picked_tier<'reg>(mm: Matchmaker<'reg>, x: int, t: u8) -> bool {
    exists|order: Seq<u8>, i: int|
        #![trigger order.take(i)]
        {
            &&& order.no_duplicates()
            &&& order.to_set() == mm.spec_known_tiers()
            &&& 0 <= i < order.len()
            &&& order[i] == t
            &&& tanks_of_tier_list(mm.spec_tanks(), order.take(i)) <= x
            &&& x < tanks_of_tier_list(mm.spec_tanks(), order.take(i)) + tanks_of_tier(
                mm.spec_tanks(),
                t,
            )
        }
}

/// How far the tier range of a match may spread from base tier `tier`: two
/// tiers when the oldest tank is being handled, otherwise by the share of
/// the queue that the tier holds.
pub open spec fn spread_for<'reg>(mm: Matchmaker<'reg>, tier: u8, handle_longest_wait: bool) -> u8 {
    if handle_longest_wait {
        2
    } else {
        tier_spread(
            tanks_of_tier(mm.spec_tanks(), tier) as int,
            mm.spec_tanks().len() as int,
            mm.spec_known_tiers().len() as int,
        )
    }
}

/// The tier range of a match: `down` tiers below its base tier, but not
/// below tier 1, up to `up` tiers above it, but not above the maximum tier.
pub open spec fn tier_bounds(tier: u8, down: u8, up: u8, max_tier: u8) -> (u8, u8) {
    (
        if tier - down < 1 {
            1u8
        } else {
            (tier - down) as u8
        },
        if tier + up < max_tier {
            (tier + up) as u8
        } else {
            max_tier
        },
    )
}

proof fn lemma_tier_count_tanks<'reg>(queue: Seq<QueueTank<'reg>>, t: u8)
    ensures
        tier_count(queue, t) == tanks_of_tier(queue.map_values(|q: QueueTank<'reg>| *q.tank), t),
    decreases queue.len(),
{
    let f = |q: QueueTank<'reg>| *q.tank;
    if queue.len() > 0 {
        lemma_tier_count_tanks(queue.drop_last(), t);
        assert(queue.map_values(f).drop_last() == queue.drop_last().map_values(f));
    }
}

proof fn lemma_tanks_of_tiers_tanks<'reg>(queue: Seq<QueueTank<'reg>>, tiers: Seq<u8>)
    ensures
        tanks_of_tiers(queue, tiers) == tanks_of_tier_list(
            queue.map_values(|q: QueueTank<'reg>| *q.tank),
            tiers,
        ),
    decreases tiers.len(),
{
    if tiers.len() > 0 {
        lemma_tanks_of_tiers_tanks(queue, tiers.drop_last());
        lemma_tier_count_tanks(queue, tiers.last());
    }
}

impl<'reg> Matchmaker<'reg> {
    /// The oldest tank waited abnormally long at time `now`.
    pub fn oldest_wait_abnormal(&self, now: u128) -> (r: bool)
        requires
            self.spec_tanks().len() > 0,
        ensures
            r == wait_abnormal(
                saturating_diff(now, self.spec_queue_times()[0]),
                self.spec_last_wait(),
            ),
    {
        wait_is_abnormal(now.saturating_sub(self.queue_tanks[0].queue_time), self.last_wait_duration)
    }

    /// The range that the value picking the base tier is drawn from, both
    /// ends included: one value per queued tank.
    pub fn tier_draw_range(&self) -> (r: (u64, u64))
        requires
            self.spec_tanks().len() > 0,
        ensures
            r == (0u64, (self.spec_tanks().len() - 1) as u64),
    {
        (0, (self.queue_tanks.len() - 1) as u64)
    }

    /// The base tier of a match: the oldest tank's tier when it is being
    /// handled, otherwise the tier that `x` picks.
    pub fn base_tier(&self, handle_longest_wait: bool, x: usize) -> (t: u8)
        requires
            self.wf(),
            self.spec_tanks().len() > 0,
            !handle_longest_wait ==> x < self.spec_tanks().len(),
        ensures
            handle_longest_wait ==> t == self.spec_tanks()[0].spec_tier(),
            !handle_longest_wait ==> picked_tier(*self, x as int, t),
            tanks_of_tier(self.spec_tanks(), t) > 0,
            t <= self.spec_max_tier(),
    {
        proof {
            lemma_tier_count_tanks(self.queue_tanks@, self.queue_tanks@[0].tank.spec_tier());
            lemma_tier_count_positive(self.queue_tanks@, 0);
            assert(entry_ok(self.queue_tanks@[0], self.max_tier));
        }
        if handle_longest_wait {
            self.queue_tanks[0].tank.tier()
        } else {
            let t = self.pick_tier(x);
            proof {
                lemma_tier_count_tanks(self.queue_tanks@, t);
                let (order, i) = choose|order: Seq<u8>, i: int|
                    #![trigger order.take(i)]
                    {
                        &&& order.no_duplicates()
                        &&& order.to_set() == self.queue_tiers@.dom()
                        &&& 0 <= i < order.len()
                        &&& order[i] == t
                        &&& tanks_of_tiers(self.queue_tanks@, order.take(i)) <= x
                        &&& x < tanks_of_tiers(self.queue_tanks@, order.take(i)) + tier_count(
                            self.queue_tanks@,
                            t,
                        )
                    };
                lemma_tanks_of_tiers_tanks(self.queue_tanks@, order.take(i));
                lemma_tier_count_witness(self.queue_tanks@, t);
                let k = choose|k: int|
                    0 <= k < self.queue_tanks@.len() && #[trigger] self.queue_tanks@[k].tank.spec_tier() == t;
                assert(entry_ok(self.queue_tanks@[k], self.max_tier));
            }
            t
        }
    }

    /// How far the tier range of a match may spread from base tier `tier`.
    pub fn tier_spread_for(&self, tier: u8, handle_longest_wait: bool) -> (r: u8)
        requires
            self.wf(),
            self.spec_tanks().len() > 0,
        ensures
            r == spread_for(*self, tier, handle_longest_wait),
            r <= 2,
    {
        if handle_longest_wait {
            2
        } else {
            proof {
                lemma_tier_count_tanks(self.queue_tanks@, tier);
            }
            tier_spread_of(self.tier_count_of(tier), self.queue_tanks.len(), self.queue_tiers.len())
        }
    }

    /// The tier range of a match from its base tier and the tiers drawn below
    /// and above it.
    pub fn tier_bounds_of(&self, tier: u8, down: u8, up: u8) -> (r: (u8, u8))
        ensures
            r == tier_bounds(tier, down, up, self.spec_max_tier()),
    {
        let min_tier: u8 = if (tier as i16) - (down as i16) < 1 {
            1
        } else {
            tier - down
        };
        let max_tier: u8 = if (tier as u16) + (up as u16) < self.max_tier as u16 {
            tier + up
        } else {
            self.max_tier
        };
        (min_tier, max_tier)
    }
}

/// A tier with queued tanks is the tier of one of them.
proof fn lemma_tier_count_witness<'reg>(queue: Seq<QueueTank<'reg>>, t: u8)
    requires
        tier_count(queue, t) > 0,
    ensures
        exists|k: int| 0 <= k < queue.len() && #[trigger] queue[k].tank.spec_tier() == t,
    decreases queue.len(),
{
    let n = queue.len() - 1;
    if queue[n].tank.spec_tier() != t {
        lemma_tier_count_witness(queue.drop_last(), t);
        let k = choose|k: int| 0 <= k < n && #[trigger] queue.drop_last()[k].tank.spec_tier() == t;
        assert(queue[k] == queue.drop_last()[k]);
    } else {
        assert(queue[n] == queue.last());
    }
}

/// The queue positions and teams of a list of slots.
spec fn slot_pairs(slots: Seq<TeamSlot>) -> Seq<(int, usize)> {
    slots.map_values(|sl: TeamSlot| (sl.tank_index as int, sl.team_index))
}

/// What the tanks at queue positions `ds`, in the teams drawn for them, carry
/// into a match that dequeues them at time `now`.
pub open spec fn slot_entries<'reg>(mm: Matchmaker<'reg>, ds: Seq<(int, usize)>, now: u128) -> Seq<(Tank, usize, u128)> {
    Seq::new(
        ds.len(),
        |k: int| (mm.spec_tanks()[ds[k].0], ds[k].1, saturating_diff(now, mm.spec_queue_times()[ds[k].0])),
    )
}

/// The queue of `mm` can draw these values before a match: `handle` (the
/// oldest tank is handled) only when the oldest tank waited abnormally long
/// at time `now`, and then its tier as base tier `tier`, otherwise the value
/// `x` picking `tier`; and the tiers `down` and `up` within the spread of
/// that tier.
pub open spec fn draws_made<'reg>(
    mm: Matchmaker<'reg>,
    now: u128,
    handle: bool,
    x: int,
    tier: u8,
    down: u8,
    up: u8,
) -> bool {
    &&& handle ==> wait_abnormal(
        saturating_diff(now, mm.spec_queue_times()[0]),
        mm.spec_last_wait(),
    )
    &&& handle ==> tier == mm.spec_tanks()[0].spec_tier()
    &&& !handle ==> 0 <= x < mm.spec_tanks().len() && picked_tier(mm, x, tier)
    &&& down <= spread_for(mm, tier, handle)
    &&& up <= spread_for(mm, tier, handle)
}

/// Match `m` of `teams_count` teams of up to `team_size` tanks is one that the
/// queue of `mm` makes with these draws: `handle` (the oldest tank is handled,
/// only ever when it waited abnormally long at time `now`), the value `x`
/// picking the base tier `tier` otherwise, and the tiers `down` and `up` drawn
/// within the spread. Its tanks lie within the drawn tier range; when the
/// oldest tank is not handled, its teams are of the requested size and hold
/// the same tiers, classes and roles, and the same class slot by slot.
pub open spec fn drawn_match<'reg>(
    mm: Matchmaker<'reg>,
    m: Match<'reg>,
    teams_count: int,
    team_size: int,
    now: u128,
    handle: bool,
    x: int,
    tier: u8,
    down: u8,
    up: u8,
    plan_bits: Seq<bool>,
    ranks: Seq<u32>,
    dequeued_at: u128,
) -> bool {
    let (lo, hi) = tier_bounds(tier, down, up, mm.spec_max_tier());
    &&& draws_made(mm, now, handle, x, tier, down, up)
    &&& forall|k: int|
        0 <= k < m.spec_tanks().len() ==> lo <= #[trigger] m.spec_tanks()[k].spec_tank().spec_tier()
            <= hi
    &&& !handle ==> {
        &&& m.spec_team_size() == team_size
        &&& same_kinds_in_teams(m.spec_tanks(), teams_count)
        &&& same_class_slots(m.spec_tanks(), teams_count, team_size)
    }
    &&& drawn_slots(mm, teams_count, team_size, handle, lo, hi, plan_bits, ranks) matches Some(
        ds,
    ) && ds.len() == m.spec_tanks().len() && slot_entries(mm, ds, dequeued_at).to_multiset()
        == match_entries(m.spec_tanks()).to_multiset()
}

/// The queue positions of a list of slots.
pub open spec fn slot_positions(ds: Seq<(int, usize)>) -> Seq<int> {
    ds.map_values(|d: (int, usize)| d.0)
}

/// The queue went from `before` to `after` by dequeuing the tanks at the
/// positions of `ds` into match `m`, at time `now`: each with the team drawn
/// for it and its wait up to `now`.
pub open spec fn dequeued_slots<'reg>(
    before: Matchmaker<'reg>,
    after: Matchmaker<'reg>,
    m: Match<'reg>,
    ds: Seq<(int, usize)>,
    now: u128,
) -> bool {
    &&& after.spec_tanks() == remove_positions(before.spec_tanks(), slot_positions(ds))
    &&& after.spec_queue_times() == remove_positions(before.spec_queue_times(), slot_positions(ds))
    &&& slot_entries(before, ds, now).to_multiset() == match_entries(m.spec_tanks()).to_multiset()
}

/// The draws `handle`, `tier`, `down`, `up`, `plan_bits` and `ranks` give
/// the queue of `mm` a match of `teams_count` teams of up to `team_size`
/// tanks: the queue holds that many tanks, the plan gives teams of at least
/// seven tanks, and every slot of every team is filled.
pub open spec fn draws_succeed<'reg>(
    mm: Matchmaker<'reg>,
    teams_count: int,
    team_size: int,
    handle: bool,
    tier: u8,
    down: u8,
    up: u8,
    plan_bits: Seq<bool>,
    ranks: Seq<u32>,
) -> bool {
    let (lo, hi) = tier_bounds(tier, down, up, mm.spec_max_tier());
    &&& teams_count * team_size <= mm.spec_tanks().len()
    &&& match (
        drawn_plan(mm, teams_count, team_size, handle, lo, hi, plan_bits),
        drawn_slots(mm, teams_count, team_size, handle, lo, hi, plan_bits, ranks),
    ) {
        (Some(plan), Some(ds)) => plan.len() >= 7 && ds.len() == teams_count * plan.len(),
        _ => false,
    }
}

/// Fresh slot constraints of these tiers, free in the teams of `mask`.
spec fn fresh_from_tiers(tiers: Seq<u8>, mask: u32) -> Seq<TeamSlotConstraints> {
    Seq::new(
        tiers.len(),
        |c: int| TeamSlotConstraints { free_teams: mask, tier: tiers[c], class: None, sub_class: None },
    )
}

/// The tiers of the slots of a team that the queue of `mm` plans for a match
/// of `teams_count` teams of up to `team_size` tanks within tiers `lo..=hi`,
/// with the coins `plan_bits` drawn for the tiers; none when the plan fails.
pub open spec fn drawn_plan<'reg>(
    mm: Matchmaker<'reg>,
    teams_count: int,
    team_size: int,
    handle: bool,
    lo: u8,
    hi: u8,
    plan_bits: Seq<bool>,
) -> Option<Seq<u8>> {
    planned_tiers(
        mm.spec_tanks(),
        teams_count as nat,
        team_size,
        lo as int,
        hi as int,
        handle,
        plan_bits,
        Seq::<u8>::empty(),
    )
}

/// The queue positions and teams of the slots that the queue of `mm` gives a
/// match of `teams_count` teams of up to `team_size` tanks within tiers
/// `lo..=hi`, for the coins `plan_bits` drawn while planning the slots and
/// the `ranks` drawn for their teams; none when the plan fails.
pub closed spec fn drawn_slots<'reg>(
    mm: Matchmaker<'reg>,
    teams_count: int,
    team_size: int,
    handle: bool,
    lo: u8,
    hi: u8,
    plan_bits: Seq<bool>,
    ranks: Seq<u32>,
) -> Option<Seq<(int, usize)>> {
    let queue = mm.queue_tanks@;
    match drawn_plan(mm, teams_count, team_size, handle, lo, hi, plan_bits) {
        None => None,
        Some(tiers) => {
            let mask = u32::MAX >> ((32 - teams_count) as u32);
            let slots = filled(
                queue,
                fresh_from_tiers(tiers, mask),
                Seq::<TeamSlot>::empty(),
                0,
                teams_count,
                teams_count * tiers.len(),
                lo,
                hi,
                handle,
                ranks,
            ).1;
            Some(slot_pairs(slots))
        },
    }
}

/// The match tank that a dequeued tank becomes.
spec fn dequeued<'reg>(q: QueueTank<'reg>, team: usize, now: u128) -> MatchTank<'reg> {
    MatchTank { tank: q.tank, team_index: team, wait_duration: saturating_diff(now, q.queue_time) }
}

impl<'reg> Matchmaker<'reg> {
    /// Try to make a match of `teams_count` teams of at most `team_size` tanks
    /// out of the queue. On success the match's tanks leave the queue.
    #[verifier::spinoff_prover]
    #[verifier::rlimit(40)]
    pub fn poll(&mut self, teams_count: usize, team_size: usize) -> (r: Option<Match<'reg>>)
        requires
            old(self).wf(),
            2 <= teams_count <= 32,
            team_size >= 1,
            teams_count * team_size <= usize::MAX,
        ensures
            final(self).wf(),
            final(self).spec_max_tier() == old(self).spec_max_tier(),
            final(self).spec_known_tiers() == old(self).spec_known_tiers(),
            old(self).spec_tanks().len() < teams_count * team_size ==> r is None,
            r is None ==> {
                &&& final(self).spec_tanks() == old(self).spec_tanks()
                &&& final(self).spec_queue_times() == old(self).spec_queue_times()
                &&& final(self).spec_last_wait() == old(self).spec_last_wait()
            },
            r matches Some(m) ==> {
                &&& 7 <= m.spec_team_size() <= team_size
                &&& m.spec_tanks().len() == teams_count * m.spec_team_size()
                &&& final(self).spec_tanks().len() + m.spec_tanks().len() == old(
                    self,
                ).spec_tanks().len()
                &&& exists|
                    now: u128,
                    handle: bool,
                    x: int,
                    tier: u8,
                    down: u8,
                    up: u8,
                    plan_bits: Seq<bool>,
                    ranks: Seq<u32>,
                    dequeued_at: u128,
                |
                    #[trigger] drawn_match(
                        *old(self),
                        m,
                        teams_count as int,
                        team_size as int,
                        now,
                        handle,
                        x,
                        tier,
                        down,
                        up,
                        plan_bits,
                        ranks,
                        dequeued_at,
                    )
                &&& made_match(*old(self), *final(self), m)
                &&& same_tiers_in_teams(m.spec_tanks(), teams_count as int)
                &&& same_tier_slots(m.spec_tanks(), teams_count as int, m.spec_team_size() as int)
                &&& forall|a: int, b: int|
                    0 <= a < m.spec_tanks().len() && 0 <= b < m.spec_tanks().len()
                        ==> #[trigger] m.spec_tanks()[a].spec_tank().spec_tier()
                        <= #[trigger] m.spec_tanks()[b].spec_tank().spec_tier() + 4
            },
            r is None && teams_count * team_size <= old(self).spec_tanks().len() ==> exists|
                now: u128,
                handle: bool,
                x: int,
                tier: u8,
                down: u8,
                up: u8,
                plan_bits: Seq<bool>,
                ranks: Seq<u32>,
            |
                #![trigger draws_made(*old(self), now, handle, x, tier, down, up), draws_succeed(*old(self), teams_count as int, team_size as int, handle, tier, down, up, plan_bits, ranks)]
                draws_made(*old(self), now, handle, x, tier, down, up) && plan_bits.len()
                    > old(self).spec_max_tier() && ranks.len() >= teams_count * team_size
                    && !draws_succeed(
                    *old(self),
                    teams_count as int,
                    team_size as int,
                    handle,
                    tier,
                    down,
                    up,
                    plan_bits,
                    ranks,
                ),
            uniform_top_queue(*old(self)) && team_size >= 7 && teams_count * team_size
                <= old(self).spec_tanks().len() ==> r is Some,
    {
        let ghost uniform = uniform_top_queue(*old(self)) && team_size >= 7 && teams_count
            * team_size <= old(self).spec_tanks().len();
        let ghost top = self.max_tier;
        let mut rng = thread_rng();

        // Compute the total number of tanks expected.
        let tanks_count = teams_count * team_size;
        if self.queue_tanks.len() < tanks_count {
            return None;
        }
        proof {
            assert(tanks_count >= 2) by (nonlinear_arith)
                requires
                    tanks_count == teams_count * team_size,
                    teams_count >= 2,
                    team_size >= 1,
            ;
        }

        // This is the oldest tank in the queue, if its wait time is too high, we favorise
        // matchmaking its tier.
        let longest_wait_now = nanos_since(&self.epoch);
        let longest_wait_abnormal = self.oldest_wait_abnormal(longest_wait_now);
        let handle_longest_wait = longest_wait_abnormal && random_ratio(&mut rng, 1, 10);

        // Pick the base tier.
        let (low, high) = self.tier_draw_range();
        let x: usize = if handle_longest_wait {
            0
        } else {
            random_between(&mut rng, low, high) as usize
        };
        let tier = self.base_tier(handle_longest_wait, x);

        // We change the tier spread with the drift of this tier's share of the queue.
        let tier_spread = self.tier_spread_for(tier, handle_longest_wait);

        // Random tier distribution.
        let down = random_between(&mut rng, 0, tier_spread as u64) as u8;
        let up = random_between(&mut rng, 0, tier_spread as u64) as u8;

        // While planning the slots, each tier below the highest takes half of
        // the missing slots or one more, at even odds.
        let mut plan_bits: Vec<bool> = Vec::new();
        let mut t: usize = 0;
        while t <= self.max_tier as usize
            invariant
                plan_bits.len() == t,
                t <= self.max_tier as usize + 1,
            decreases self.max_tier as usize + 1 - t,
        {
            plan_bits.push(random_between(&mut rng, 0, 1) == 1);
            t = t + 1;
        }

        // The team of a slot is drawn among the teams where it is still free:
        // rank `i` serves a slot once `i % teams_count` of its teams are taken.
        let mut ranks: Vec<u32> = Vec::new();
        let mut i: usize = 0;
        while i < tanks_count
            invariant
                ranks.len() == i,
                i <= tanks_count,
                2 <= teams_count <= 32,
            decreases tanks_count - i,
        {
            let taken = i % teams_count;
            ranks.push(random_between(&mut rng, 0, (teams_count - 1 - taken) as u64) as u32);
            i = i + 1;
        }

        // Get a new instant after the draws, for the waits of the match.
        let dequeue_now = nanos_since(&self.epoch);
        proof {
            lemma_tier_count_tanks(self.queue_tanks@, tier);
            if uniform {
                let queue = self.queue_tanks@;
                assert forall|i: int| 0 <= i < queue.len() implies (#[trigger] queue[i]).tank.spec_tier()
                    == top by {
                    assert(self.spec_tanks()[i] == *queue[i].tank);
                }
                assert forall|t: u8| #[trigger] tier_count(queue, t) == if t == top {
                    queue.len()
                } else {
                    0
                } by {
                    lemma_tier_count_single(queue, top, t);
                }
                assert(tier == top) by {
                    if !handle_longest_wait {
                        assert(tier_count(self.queue_tanks@, tier) > 0);
                    }
                }
            }
        }
        let r = self.poll_with(
            teams_count,
            team_size,
            handle_longest_wait,
            tier,
            down,
            up,
            &plan_bits,
            &ranks,
            dequeue_now,
        );
        proof {
            assert(draws_made(*old(self), longest_wait_now, handle_longest_wait, x as int, tier, down, up));
            if r is None {
                assert(!draws_succeed(
                    *old(self),
                    teams_count as int,
                    team_size as int,
                    handle_longest_wait,
                    tier,
                    down,
                    up,
                    plan_bits@,
                    ranks@,
                ));
            }
            if r is Some {
                let m = r->0;
                assert(drawn_match(
                    *old(self),
                    m,
                    teams_count as int,
                    team_size as int,
                    longest_wait_now,
                    handle_longest_wait,
                    x as int,
                    tier,
                    down,
                    up,
                    plan_bits@,
                    ranks@,
                    dequeue_now,
                ));
                lemma_made_match_shrinks_queue(*old(self), *self, m);
            }
        }
        r
    }

    /// Makes the match that the given draws give, if any: the oldest tank is
    /// handled when `handle_longest_wait`, the match's tiers are those from
    /// `down` below the base tier `tier` up to `up` above it, each tier of the
    /// plan takes a slot more when its coin in `plan_bits` says so, the team of
    /// each slot is the one of the drawn rank in `ranks` among those where the
    /// slot is still free, and the waits of the match's tanks run up to `now`.
    /// On success the match's tanks leave the queue.
    #[verifier::spinoff_prover]
    #[verifier::rlimit(40)]
    pub fn poll_with(
        &mut self,
        teams_count: usize,
        team_size: usize,
        handle_longest_wait: bool,
        tier: u8,
        down: u8,
        up: u8,
        plan_bits: &Vec<bool>,
        ranks: &Vec<u32>,
        now: u128,
    ) -> (r: Option<Match<'reg>>)
        requires
            old(self).wf(),
            2 <= teams_count <= 32,
            team_size >= 1,
            teams_count * team_size <= usize::MAX,
            plan_bits.len() > old(self).spec_max_tier(),
            ranks.len() >= teams_count * team_size,
        ensures
            final(self).wf(),
            final(self).spec_max_tier() == old(self).spec_max_tier(),
            final(self).spec_known_tiers() == old(self).spec_known_tiers(),
            r is Some <==> draws_succeed(
                *old(self),
                teams_count as int,
                team_size as int,
                handle_longest_wait,
                tier,
                down,
                up,
                plan_bits@,
                ranks@,
            ),
            r is None ==> {
                &&& final(self).spec_tanks() == old(self).spec_tanks()
                &&& final(self).spec_queue_times() == old(self).spec_queue_times()
                &&& final(self).spec_last_wait() == old(self).spec_last_wait()
            },
            r matches Some(m) ==> {
                let (lo, hi) = tier_bounds(tier, down, up, old(self).spec_max_tier());
                &&& drawn_plan(
                    *old(self),
                    teams_count as int,
                    team_size as int,
                    handle_longest_wait,
                    lo,
                    hi,
                    plan_bits@,
                ) matches Some(plan) && m.spec_team_size() == plan.len()
                &&& drawn_slots(
                    *old(self),
                    teams_count as int,
                    team_size as int,
                    handle_longest_wait,
                    lo,
                    hi,
                    plan_bits@,
                    ranks@,
                ) matches Some(ds) && dequeued_slots(*old(self), *final(self), m, ds, now)
                &&& m.spec_tanks().len() == teams_count * m.spec_team_size()
                &&& 7 <= m.spec_team_size() <= team_size
                &&& made_match(*old(self), *final(self), m)
                &&& same_tiers_in_teams(m.spec_tanks(), teams_count as int)
                &&& same_tier_slots(m.spec_tanks(), teams_count as int, m.spec_team_size() as int)
                &&& forall|k: int|
                    0 <= k < m.spec_tanks().len() ==> lo
                        <= #[trigger] m.spec_tanks()[k].spec_tank().spec_tier() <= hi
                &&& !handle_longest_wait ==> {
                    &&& m.spec_team_size() == team_size
                    &&& same_kinds_in_teams(m.spec_tanks(), teams_count as int)
                    &&& same_class_slots(m.spec_tanks(), teams_count as int, team_size as int)
                }
            },
            uniform_top_queue(*old(self)) && team_size >= 7 && teams_count * team_size
                <= old(self).spec_tanks().len() && tier == old(self).spec_max_tier() && down <= 2
                ==> r is Some,
    {
        let ghost uniform = uniform_top_queue(*old(self)) && team_size >= 7 && teams_count
            * team_size <= old(self).spec_tanks().len() && tier == old(self).spec_max_tier()
            && down <= 2;
        let ghost top = self.max_tier;
        proof {
            if uniform {
                let queue = self.queue_tanks@;
                assert forall|i: int| 0 <= i < queue.len() implies {
                    &&& (#[trigger] queue[i]).tank.spec_tier() == top
                    &&& queue[i].tank.spec_class() == queue[0].tank.spec_class()
                    &&& queue[i].sub_class == queue[0].sub_class
                } by {
                    assert(self.spec_tanks()[i] == *queue[i].tank);
                    assert(self.spec_tanks()[0] == *queue[0].tank);
                    assert(entry_ok(queue[i], top));
                    assert(entry_ok(queue[0], top));
                }
                assert forall|t: u8| #[trigger] tier_count(queue, t) == if t == top {
                    queue.len()
                } else {
                    0
                } by {
                    lemma_tier_count_single(queue, top, t);
                }
                assert(queue[0].tank.spec_class() != TankClass::Clicker) by {
                    assert(self.spec_tanks()[0] == *queue[0].tank);
                }
            }
        }
        let teams_mask: u32 = u32::MAX >> ((32 - teams_count) as u32);

        // Compute the total number of tanks expected.
        let tanks_count = teams_count * team_size;
        if self.queue_tanks.len() < tanks_count {
            return None;
        }
        let (min_tier, max_tier) = self.tier_bounds_of(tier, down, up);
        proof {
            if uniform {
                assert(max_tier == top);
                assert(min_tier <= max_tier);
                assert(tier_count(self.queue_tanks@, top) == self.queue_tanks@.len());
                assert(self.queue_tanks@.len() / (teams_count as nat) >= team_size) by (nonlinear_arith)
                    requires
                        teams_count * team_size <= self.queue_tanks@.len(),
                        teams_count > 0,
                ;
            }
        }

        // Each constraint for each slot in a team, all teams have the same constraints.
        let planned = self.plan_slots(
            plan_bits,
            teams_count,
            team_size,
            min_tier,
            max_tier,
            handle_longest_wait,
            teams_mask,
        );
        let mut slots_constraints = match planned {
            Some(v) => v,
            None => {
                return None;
            },
        };

        // Recompute the actual teams size and expected tanks count.
        let requested_team_size = team_size;
        let team_size = slots_constraints.len();
        proof {
            assert(teams_count * team_size <= teams_count * requested_team_size) by (nonlinear_arith)
                requires
                    team_size <= requested_team_size,
            ;
        }
        let tanks_count = teams_count * team_size;
        if team_size < 7 {
            return None;
        }
        proof {
            assert(slots_constraints@[0].free_teams == teams_mask);
            assert(min_tier <= max_tier);
            assert(!handle_longest_wait ==> team_size == requested_team_size);
        }
        proof {
            lemma_team_mask((teams_count) as u32);
            assert forall|c: int| 0 <= c < slots_constraints@.len() implies #[trigger] constraint_ok(
                slots_constraints@[c],
                teams_count as int,
                min_tier,
                max_tier,
            ) by {
                assert(slots_constraints[c].free_teams == teams_mask);
            }
            assert forall|j: int| 0 <= j < teams_count implies taken_in(slots_constraints@, j)
                == 0 by {
                assert forall|c: int| 0 <= c < slots_constraints@.len() implies team_free(
                    #[trigger] slots_constraints@[c].free_teams,
                    j,
                ) by {
                    assert(slots_constraints[c].free_teams == teams_mask);
                }
                lemma_taken_none(slots_constraints@, j);
            }
            assert forall|j: int, t: u8| 0 <= j < teams_count implies #[trigger] taken_tier_in(
                slots_constraints@,
                j,
                t,
            ) == 0 by {
                assert forall|c: int| 0 <= c < slots_constraints@.len() implies team_free(
                    #[trigger] slots_constraints@[c].free_teams,
                    j,
                ) by {
                    assert(slots_constraints[c].free_teams == teams_mask);
                }
                lemma_taken_tier_none(slots_constraints@, j, t);
            }
            assert forall|j: int, t: u8, k: TankClass, l: TankSubClass|
                0 <= j < teams_count implies #[trigger] slots_of_team_kind(
                Seq::<TeamSlot>::empty(),
                self.queue_tanks@,
                j,
                t,
                k,
                l,
            ) == taken_kind_in(slots_constraints@, j, t, k, l) by {
                assert forall|c: int| 0 <= c < slots_constraints@.len() implies team_free(
                    #[trigger] slots_constraints@[c].free_teams,
                    j,
                ) by {
                    assert(slots_constraints[c].free_teams == teams_mask);
                }
                lemma_taken_kind_none(slots_constraints@, j, t, k, l);
            }
            assert(slots_constraints.len() * teams_count <= ranks.len()) by (nonlinear_arith)
                requires
                    slots_constraints.len() <= requested_team_size,
                    ranks.len() >= teams_count * requested_team_size,
            ;
            assert(tanks_count > 0) by (nonlinear_arith)
                requires
                    tanks_count == teams_count * team_size,
                    teams_count >= 2,
                    team_size >= 7,
            ;
        }

        proof {
            if uniform {
                lemma_uniform_fits(
                    self.queue_tanks@,
                    slots_constraints@,
                    top,
                    min_tier,
                    teams_count as nat,
                    teams_mask,
                );
                assert(tanks_count == teams_count * slots_constraints.len());
            }
        }
        proof {
            assert forall|c: int| 0 <= c < slots_constraints@.len() implies ((
            #[trigger] slots_constraints@[c]).class is Some <==> slots_constraints@[c].sub_class is Some) by {
                assert(slots_constraints@[c].free_teams == teams_mask);
            }
        }
        // Now find the tanks by their indices.
        let ghost cs_before = slots_constraints@;
        let slots = self.fill_slots(
            ranks,
            &mut slots_constraints,
            teams_count,
            tanks_count,
            min_tier,
            max_tier,
            handle_longest_wait,
        );
        if slots.len() != tanks_count {
            proof {
                assert(fresh_from_tiers(tiers_of(cs_before), teams_mask) =~= cs_before) by {
                    assert forall|c: int| 0 <= c < cs_before.len() implies #[trigger] cs_before[c]
                        == fresh_from_tiers(tiers_of(cs_before), teams_mask)[c] by {
                        assert(cs_before[c].free_teams == teams_mask);
                    }
                }
            }
            return None;
        }
        let r = self.dequeue_slots(
            &slots,
            teams_count,
            team_size,
            min_tier,
            max_tier,
            now,
            Ghost(slots_constraints@),
            Ghost(!handle_longest_wait),
        );
        proof {
            assert(fresh_from_tiers(tiers_of(cs_before), teams_mask) =~= cs_before) by {
                assert forall|c: int| 0 <= c < cs_before.len() implies #[trigger] cs_before[c]
                    == fresh_from_tiers(tiers_of(cs_before), teams_mask)[c] by {
                    assert(cs_before[c].free_teams == teams_mask);
                }
            }
            assert(drawn_slots(
                *old(self),
                teams_count as int,
                requested_team_size as int,
                handle_longest_wait,
                min_tier,
                max_tier,
                plan_bits@,
                ranks@,
            ) == Some(slot_pairs(slots@)));
            lemma_same_tier_slots(r.spec_tanks(), teams_count as int, team_size as int);
            if !handle_longest_wait {
                lemma_same_class_slots(r.spec_tanks(), teams_count as int, team_size as int);
            }
        }
        Some(r)
    }
}

impl<'reg> Matchmaker<'reg> {
    /// Takes the tanks of the given slots out of the queue, from the last one
    /// down, and makes the match of them.
    #[verifier::spinoff_prover]
    #[verifier::rlimit(30)]
    fn dequeue_slots(
        &mut self,
        slots: &Vec<TeamSlot>,
        teams_count: usize,
        team_size: usize,
        min_tier: u8,
        max_tier: u8,
        now: u128,
        Ghost(constraints): Ghost<Seq<TeamSlotConstraints>>,
        Ghost(balanced): Ghost<bool>,
    ) -> (m: Match<'reg>)
        requires
            old(self).wf(),
            2 <= teams_count <= 32,
            team_size >= 7,
            constraints.len() == team_size,
            slots.len() == teams_count * team_size,
            forall|s: int|
                #![trigger slots[s]]
                0 <= s < slots.len() ==> {
                    let q = old(self).queue_tanks@[slots[s].tank_index as int];
                    &&& slots[s].team_index < teams_count
                    &&& slots[s].tank_index < old(self).queue_tanks@.len()
                    &&& q.min_tier <= min_tier
                    &&& max_tier <= q.max_tier
                    &&& min_tier <= q.tank.spec_tier() <= max_tier
                },
            forall|a: int, b: int|
                0 <= a < b < slots.len() ==> #[trigger] slots[a].tank_index
                    < #[trigger] slots[b].tank_index,
            forall|j: int|
                0 <= j < teams_count ==> slots_of_team(slots@, j) == taken_in(constraints, j),
            forall|j: int, t: u8|
                0 <= j < teams_count ==> #[trigger] slots_of_team_tier(
                    slots@,
                    old(self).queue_tanks@,
                    j,
                    t,
                ) == taken_tier_in(constraints, j, t),
            kinds_named(constraints, teams_count as int),
            balanced ==> kinds_counted(slots@, old(self).queue_tanks@, constraints, teams_count as int),
        ensures
            final(self).wf(),
            final(self).spec_max_tier() == old(self).spec_max_tier(),
            m.spec_team_size() == team_size,
            m.spec_tanks().len() == teams_count * team_size,
            made_match(*old(self), *final(self), m),
            same_tiers_in_teams(m.spec_tanks(), teams_count as int),
            balanced ==> same_kinds_in_teams(m.spec_tanks(), teams_count as int),
            forall|a: int|
                0 <= a < m.spec_tanks().len() ==> min_tier
                    <= #[trigger] m.spec_tanks()[a].spec_tank().spec_tier() <= max_tier,
            final(self).spec_known_tiers() == old(self).spec_known_tiers(),
            dequeued_slots(*old(self), *final(self), m, slot_pairs(slots@), now),
    {
        let ghost old_q = self.queue_tanks@;
        let ghost idx = slots@.map_values(|sl: TeamSlot| sl.tank_index as int);
        let ghost big_l = slots@.len() as int;
        let ghost mt = self.max_tier;
        proof {
            assert(increasing_positions(idx, old_q.len() as int)) by {
                assert forall|a: int, b: int| 0 <= a < b < idx.len() implies #[trigger] idx[a]
                    < #[trigger] idx[b] by {
                    assert(slots[a].tank_index < slots[b].tank_index);
                }
                assert forall|k: int| 0 <= k < idx.len() implies 0 <= #[trigger] idx[k]
                    < old_q.len() by {
                    assert(slots[k].tank_index < old_q.len());
                }
            }
        }

        let mut tanks: Vec<MatchTank<'reg>> = Vec::with_capacity(slots.len());

        // We go in reverse order because tank index will be decreasing, and therefore
        // removing them from the queue will not shuffle the remaining indices.
        self.last_wait_duration = 0;
        let mut k: usize = slots.len();
        proof {
            assert(slots@.take(k as int) == slots@);
            assert(tanks@ == Seq::<MatchTank<'reg>>::empty());
        }
        while k > 0
            invariant
                k <= big_l,
                big_l == slots@.len(),
                idx == slots@.map_values(|sl: TeamSlot| sl.tank_index as int),
                increasing_positions(idx, old_q.len() as int),
                self.queue_tanks@ == remove_positions_from(old_q, idx, k as int),
                self.wf(),
                self.max_tier == mt,
                self.queue_tiers@.dom() == old(self).queue_tiers@.dom(),
                forall|s: int|
                    #![trigger slots[s]]
                    0 <= s < slots.len() ==> {
                        let q = old_q[slots[s].tank_index as int];
                        &&& slots[s].team_index < teams_count
                        &&& q.min_tier <= min_tier
                        &&& max_tier <= q.max_tier
                        &&& min_tier <= q.tank.spec_tier() <= max_tier
                    },
                tanks@.len() == big_l - k,
                forall|t: int|
                    0 <= t < big_l - k ==> #[trigger] tanks@[t] == dequeued(
                        old_q[idx[big_l - 1 - t]],
                        slots@[big_l - 1 - t].team_index,
                        now,
                    ),
                self.last_wait_duration == capped(total_wait(tanks@)),
                forall|j: int|
                    team_count(tanks@, j) + slots_of_team(slots@.take(k as int), j)
                        == slots_of_team(slots@, j),
                forall|j: int, t: u8|
                    #[trigger] team_tier_count(tanks@, j, t) + slots_of_team_tier(
                        slots@.take(k as int),
                        old_q,
                        j,
                        t,
                    ) == slots_of_team_tier(slots@, old_q, j, t),
                forall|j: int, t: u8, c: TankClass, l: TankSubClass|
                    #[trigger] team_kind_count(tanks@, j, t, c, l) + slots_of_team_kind(
                        slots@.take(k as int),
                        old_q,
                        j,
                        t,
                        c,
                        l,
                    ) == slots_of_team_kind(slots@, old_q, j, t, c, l),
            decreases k,
        {
            k = k - 1;
            let slot = slots[k];
            let ghost before = self.queue_tanks@;
            proof {
                lemma_remove_positions_from(old_q, idx, k as int + 1);
                if k + 1 < big_l {
                    assert(idx[k as int] < idx[k + 1]);
                }
                assert(idx[k as int] == slot.tank_index);
            }

            // Definitely un-queue the tank.
            let queue_tank = self.queue_tanks.remove(slot.tank_index);
            let tank_tier = queue_tank.tank.tier();
            proof {
                assert(queue_tank == old_q[idx[k as int]]);
                assert(self.queue_tanks@ == remove_positions_from(old_q, idx, k as int));
                lemma_tier_count_positive(before, slot.tank_index as int);
                assert(self.queue_tiers@.contains_key(tank_tier));
            }

            // Decrement its tier count.
            let queue_tier = match self.queue_tiers.get(&tank_tier) {
                Some(queue_tier) => *queue_tier,
                None => {
                    proof {
                        assert(false);
                    }
                    QueueTier { count: 1, last_queue_time: 0, last_match_time: None }
                },
            };
            proof {
                lemma_tier_count_remove(before, slot.tank_index as int, tank_tier);
            }
            self.queue_tiers.insert(
                tank_tier,
                QueueTier {
                    count: queue_tier.count - 1,
                    last_queue_time: queue_tier.last_queue_time,
                    last_match_time: Some(now),
                },
            );

            // Compute wait duration, and recompute the last average wait time.
            let wait_duration = now.saturating_sub(queue_tank.queue_time);
            let ghost wait_before = self.last_wait_duration;
            assert(wait_before == capped(total_wait(tanks@)));
            self.last_wait_duration = self.last_wait_duration.saturating_add(wait_duration);
            let ghost tanks_before = tanks@;
            let match_tank = MatchTank {
                tank: queue_tank.tank,
                team_index: slot.team_index,
                wait_duration,
            };
            tanks.push(match_tank);
            proof {
                assert(self.queue_tiers@.dom() =~= old(self).queue_tiers@.dom());
                assert forall|t: u8| #[trigger]
                    self.queue_tiers@.contains_key(t) implies self.queue_tiers@[t].count
                    == tier_count(self.queue_tanks@, t) by {
                    lemma_tier_count_remove(before, slot.tank_index as int, t);
                }
                assert forall|t: u8| #[trigger]
                    tier_count(self.queue_tanks@, t) > 0 implies self.queue_tiers@.contains_key(t) by {
                    lemma_tier_count_remove(before, slot.tank_index as int, t);
                }
                assert forall|i: int|
                    0 <= i < self.queue_tanks@.len() implies #[trigger] entry_ok(
                    self.queue_tanks@[i],
                    self.max_tier,
                ) by {
                    if i < slot.tank_index {
                        assert(self.queue_tanks@[i] == before[i]);
                        assert(entry_ok(before[i], mt));
                    } else {
                        assert(self.queue_tanks@[i] == before[i + 1]);
                        assert(entry_ok(before[i + 1], mt));
                    }
                }
                assert(tanks@.drop_last() == tanks_before);
                assert(total_wait(tanks@) == total_wait(tanks_before) + wait_duration);
                let sum = total_wait(tanks_before) + wait_duration;
                if total_wait(tanks_before) > u128::MAX {
                    assert(self.last_wait_duration == u128::MAX);
                } else if sum > u128::MAX {
                    assert(self.last_wait_duration == u128::MAX);
                } else {
                    assert(wait_before == total_wait(tanks_before));
                    assert(wait_before + wait_duration <= u128::MAX);
                    assert(self.last_wait_duration == sum);
                }
                assert forall|t: int| 0 <= t < big_l - k implies #[trigger] tanks@[t] == dequeued(
                    old_q[idx[big_l - 1 - t]],
                    slots@[big_l - 1 - t].team_index,
                    now,
                ) by {
                    if t < big_l - k - 1 {
                        assert(tanks@[t] == tanks_before[t]);
                    }
                }
                assert(slots@.take(k as int + 1) == slots@.take(k as int).push(slot));
                assert(slots@.take(k as int + 1).drop_last() == slots@.take(k as int));
                assert(queue_tank.tank.spec_tier() == old_q[slot.tank_index as int].tank.spec_tier());
                assert forall|j: int, t: u8|
                    #[trigger] team_tier_count(tanks@, j, t) + slots_of_team_tier(
                        slots@.take(k as int),
                        old_q,
                        j,
                        t,
                    ) == slots_of_team_tier(slots@, old_q, j, t) by {
                    assert(team_tier_count(tanks_before, j, t) + slots_of_team_tier(
                        slots@.take(k as int + 1),
                        old_q,
                        j,
                        t,
                    ) == slots_of_team_tier(slots@, old_q, j, t));
                }
                assert(entry_ok(before[slot.tank_index as int], mt));
                assert forall|j: int, t: u8, c: TankClass, l: TankSubClass|
                    #[trigger] team_kind_count(tanks@, j, t, c, l) + slots_of_team_kind(
                        slots@.take(k as int),
                        old_q,
                        j,
                        t,
                        c,
                        l,
                    ) == slots_of_team_kind(slots@, old_q, j, t, c, l) by {
                    assert(team_kind_count(tanks_before, j, t, c, l) + slots_of_team_kind(
                        slots@.take(k as int + 1),
                        old_q,
                        j,
                        t,
                        c,
                        l,
                    ) == slots_of_team_kind(slots@, old_q, j, t, c, l));
                }
            }
        }

        // Compute the average!
        proof {
            assert(big_l > 0) by (nonlinear_arith)
                requires
                    big_l == teams_count * team_size,
                    teams_count >= 2,
                    team_size >= 7,
            ;
        }
        proof {
            assert(slots@.take(0) == Seq::<TeamSlot>::empty());
        }
        self.last_wait_duration = self.last_wait_duration / (tanks.len() as u128);
        let ghost pre = tanks@;

        // Sort to ensure that tanks are in their respective team, and we also sort them
        // by tier, class and lastly by their name.
        let tanks = sort_match_tanks(tanks);
        proof {
            assert forall|s: int| 0 <= s < slots@.len() implies #[trigger] slots@[s].team_index
                < teams_count by {
                assert(old_q[slots[s].tank_index as int] == old_q[slots[s].tank_index as int]);
            }
            assert forall|i: int| 0 <= i < old_q.len() implies #[trigger] queue_entry_ranged(
                old_q[i],
                mt,
            ) by {
                assert(entry_ok(old_q[i], mt));
            }
            lemma_dequeued_match(
                old_q,
                slots@,
                idx,
                pre,
                tanks@,
                now,
                teams_count as int,
                team_size as int,
                min_tier,
                max_tier,
                mt,
                constraints,
                balanced,
            );
            let teams = slots@.map_values(|sl: TeamSlot| sl.team_index);
            let f = |q: QueueTank<'reg>| *q.tank;
            let g = |q: QueueTank<'reg>| q.queue_time;
            lemma_remove_positions_map(old_q, idx, 0, f);
            lemma_remove_positions_map(old_q, idx, 0, g);
            assert(self.queue_tanks@ == remove_positions(old_q, idx));
            assert(self.spec_tanks() == remove_positions(old(self).spec_tanks(), idx));
            assert(self.spec_queue_times() == remove_positions(old(self).spec_queue_times(), idx));
            let entries = match_entries(tanks@);
            let expected = Seq::new(
                idx.len(),
                |k: int| (old(self).spec_tanks()[idx[k]], teams[k], saturating_diff(now, old(self).spec_queue_times()[idx[k]])),
            );
            assert(expected =~= Seq::new(
                big_l as nat,
                |k: int| (*old_q[idx[k]].tank, slots@[k].team_index, saturating_diff(now, old_q[idx[k]].queue_time)),
            ));
            assert(increasing_positions(idx, old(self).spec_tanks().len() as int));
            assert(entries.to_multiset() == expected.to_multiset());
            assert(slot_entries(*old(self), slot_pairs(slots@), now) =~= expected);
            assert(slot_positions(slot_pairs(slots@)) =~= idx);
            assert(self.spec_known_tiers() =~= old(self).spec_known_tiers());
            assert(idx.len() == teams.len());
            assert(idx.len() == entries.len());
            assert(dequeued_into(
                old(self).spec_tanks(),
                old(self).spec_queue_times(),
                self.spec_tanks(),
                self.spec_queue_times(),
                entries,
                idx,
                teams,
                now,
            ));
            assert(((teams_count * team_size) as int) % (team_size as int) == 0) by (nonlinear_arith)
                requires
                    team_size > 0,
            ;
        }
        let m = Match { tanks, team_size, wait_duration: self.last_wait_duration };
        proof {
            assert(m.wf());
            assert(m.spec_wait_duration() == (capped(total_wait(m.spec_tanks())) as int) / (
            m.spec_tanks().len() as int));
            assert(made_match(*old(self), *self, m));
        }
        m
    }
}

/// The tier range of a queued tank is the one its tier and class give.
spec fn queue_entry_ranged<'reg>(q: QueueTank<'reg>, max_tier: u8) -> bool {
    (q.min_tier, q.max_tier) == queue_tier_range(q.tank.spec_tier(), q.tank.spec_class(), max_tier)
}

/// A team taken in every slot constraint, whose constraints all name their
/// class and role, is taken in all the constraints of each kind.
proof fn lemma_named_kinds_everywhere(
    cs: Seq<TeamSlotConstraints>,
    n: int,
    team: int,
    tier: u8,
    class: TankClass,
    sub_class: TankSubClass,
)
    requires
        0 <= team < n,
        taken_in(cs, team) == cs.len(),
        kinds_named(cs, n),
    ensures
        taken_kind_in(cs, team, tier, class, sub_class) == constraints_of_kind(
            cs,
            tier,
            class,
            sub_class,
        ),
{
    assert forall|c: int|
        0 <= c < cs.len() && !team_free(cs[c].free_teams, team) implies (
        #[trigger] cs[c]).class is Some && cs[c].sub_class is Some by {
        assert(!team_free(cs[c].free_teams, team));
    }
    lemma_taken_kind_everywhere(cs, team, tier, class, sub_class);
}

/// What the dequeued tanks make once sorted: full teams, tanks that can all
/// meet, and the entries that the queue gave.
proof fn lemma_dequeued_match<'reg>(
    old_q: Seq<QueueTank<'reg>>,
    slots: Seq<TeamSlot>,
    idx: Seq<int>,
    pre: Seq<MatchTank<'reg>>,
    sorted: Seq<MatchTank<'reg>>,
    now: u128,
    n: int,
    size: int,
    min_tier: u8,
    max_tier: u8,
    mt: u8,
    constraints: Seq<TeamSlotConstraints>,
    balanced: bool,
)
    requires
        2 <= n <= 32,
        size >= 7,
        constraints.len() == size,
        slots.len() == n * size,
        idx == slots.map_values(|sl: TeamSlot| sl.tank_index as int),
        increasing_positions(idx, old_q.len() as int),
        forall|i: int| 0 <= i < old_q.len() ==> #[trigger] queue_entry_ranged(old_q[i], mt),
        forall|s: int| 0 <= s < slots.len() ==> #[trigger] slots[s].team_index < n,
        forall|s: int|
            #![trigger slots[s]]
            0 <= s < slots.len() ==> {
                let q = old_q[slots[s].tank_index as int];
                &&& q.min_tier <= min_tier
                &&& max_tier <= q.max_tier
                &&& min_tier <= q.tank.spec_tier() <= max_tier
            },
        forall|j: int| 0 <= j < n ==> slots_of_team(slots, j) == taken_in(constraints, j),
        pre.len() == slots.len(),
        forall|t: int|
            0 <= t < pre.len() ==> #[trigger] pre[t] == dequeued(
                old_q[idx[pre.len() - 1 - t]],
                slots[pre.len() - 1 - t].team_index,
                now,
            ),
        forall|j: int| team_count(pre, j) == slots_of_team(slots, j),
        match_sorted(sorted),
        sorted.to_multiset() == pre.to_multiset(),
        match_entries(sorted).to_multiset() == match_entries(pre).to_multiset(),
        forall|j: int| team_count(sorted, j) == team_count(pre, j),
        forall|j: int, t: u8|
            0 <= j < n ==> #[trigger] slots_of_team_tier(slots, old_q, j, t) == taken_tier_in(
                constraints,
                j,
                t,
            ),
        forall|j: int, t: u8| #[trigger]
            team_tier_count(pre, j, t) == slots_of_team_tier(slots, old_q, j, t),
        forall|j: int, t: u8| #[trigger]
            team_tier_count(sorted, j, t) == team_tier_count(pre, j, t),
        kinds_named(constraints, n),
        balanced ==> kinds_counted(slots, old_q, constraints, n),
        forall|j: int, t: u8, c: TankClass, l: TankSubClass| #[trigger]
            team_kind_count(pre, j, t, c, l) == slots_of_team_kind(slots, old_q, j, t, c, l),
        forall|j: int, t: u8, c: TankClass, l: TankSubClass| #[trigger]
            team_kind_count(sorted, j, t, c, l) == team_kind_count(pre, j, t, c, l),
        forall|e: (Tank, usize, u128)| #[trigger] sorted.filter(tank_placed_as(e)) == pre.filter(
            tank_placed_as(e),
        ),
    ensures
        forall|e: (Tank, usize, u128)| #[trigger] match_entries(sorted).filter(placed_as(e))
            == Seq::new(
            slots.len(),
            |k: int|
                (*old_q[idx[k]].tank, slots[k].team_index, saturating_diff(now, old_q[idx[k]].queue_time)),
        ).reverse().filter(placed_as(e)),
        same_tiers_in_teams(sorted, n),
        balanced ==> same_kinds_in_teams(sorted, n),
        sorted.len() == slots.len(),
        forall|a: int|
            0 <= a < sorted.len() ==> min_tier <= #[trigger] sorted[a].spec_tank().spec_tier()
                <= max_tier,
        forall|k: int|
            0 <= k < sorted.len() ==> #[trigger] sorted[k].spec_team_index() == k / size,
        forall|a: int, b: int|
            0 <= a < sorted.len() && 0 <= b < sorted.len() ==> fits_with(
                #[trigger] sorted[a].spec_tank(),
                #[trigger] sorted[b].spec_tank(),
                mt,
            ),
        match_entries(sorted).to_multiset() == Seq::new(
            slots.len(),
            |k: int|
                (*old_q[idx[k]].tank, slots[k].team_index, saturating_diff(now, old_q[idx[k]].queue_time)),
        ).to_multiset(),
{
    broadcast use vstd::seq_lib::group_to_multiset_ensures;

    let big_l = slots.len() as int;
    // Every team holds `size` tanks.
    assert forall|j: int| 0 <= j < n implies slots_of_team(slots, j) <= size by {
        lemma_taken_bounded(constraints, j);
    }
    assert(sorted.len() == pre.len()) by {
        sorted.to_multiset_ensures();
        pre.to_multiset_ensures();
    }
    lemma_slots_below_all(slots, n);
    assert forall|j: int| 0 <= j < n implies team_count(sorted, j) == size by {
        lemma_slots_below_bound(slots, n, size, j);
    }
    lemma_team_of_position(sorted, n, size);
    assert forall|a: int, b: int, tier: u8|
        0 <= a < n && 0 <= b < n implies #[trigger] team_tier_count(sorted, a, tier)
        == #[trigger] team_tier_count(sorted, b, tier) by {
        lemma_taken_everywhere(constraints, a, tier);
        lemma_taken_everywhere(constraints, b, tier);
        assert(team_tier_count(sorted, a, tier) == slots_of_team_tier(slots, old_q, a, tier));
        assert(team_tier_count(sorted, b, tier) == slots_of_team_tier(slots, old_q, b, tier));
    }
    if balanced {
        assert forall|a: int, b: int, tier: u8, class: TankClass, sub_class: TankSubClass|
            0 <= a < n && 0 <= b < n implies #[trigger] team_kind_count(
            sorted,
            a,
            tier,
            class,
            sub_class,
        ) == #[trigger] team_kind_count(sorted, b, tier, class, sub_class) by {
            lemma_named_kinds_everywhere(constraints, n, a, tier, class, sub_class);
            lemma_named_kinds_everywhere(constraints, n, b, tier, class, sub_class);
            assert(team_kind_count(sorted, a, tier, class, sub_class) == slots_of_team_kind(
                slots,
                old_q,
                a,
                tier,
                class,
                sub_class,
            ));
            assert(team_kind_count(sorted, b, tier, class, sub_class) == slots_of_team_kind(
                slots,
                old_q,
                b,
                tier,
                class,
                sub_class,
            ));
        }
    }

    // Every tank of the match lies in the tier range, and its own range covers it.
    assert forall|t: int| 0 <= t < pre.len() implies {
        let tank = #[trigger] pre[t].spec_tank();
        let (lo, hi) = queue_tier_range(tank.spec_tier(), tank.spec_class(), mt);
        &&& lo <= min_tier
        &&& max_tier <= hi
        &&& min_tier <= tank.spec_tier() <= max_tier
    } by {
        let s = big_l - 1 - t;
        assert(idx[s] == slots[s].tank_index);
        assert(queue_entry_ranged(old_q[idx[s]], mt));
    }
    assert forall|a: int, b: int|
        0 <= a < sorted.len() && 0 <= b < sorted.len() implies fits_with(
        #[trigger] sorted[a].spec_tank(),
        #[trigger] sorted[b].spec_tank(),
        mt,
    ) by {
        assert(sorted.contains(sorted[a]));
        assert(sorted.contains(sorted[b]));
        assert(pre.to_multiset().count(sorted[a]) > 0);
        assert(pre.to_multiset().count(sorted[b]) > 0);
        assert(pre.contains(sorted[a]));
        assert(pre.contains(sorted[b]));
        let ta = choose|t: int| 0 <= t < pre.len() && pre[t] == sorted[a];
        let tb = choose|t: int| 0 <= t < pre.len() && pre[t] == sorted[b];
        assert(pre[ta].spec_tank() == sorted[a].spec_tank());
        assert(pre[tb].spec_tank() == sorted[b].spec_tank());
    }
    assert forall|a: int| 0 <= a < sorted.len() implies min_tier
        <= #[trigger] sorted[a].spec_tank().spec_tier() <= max_tier by {
        assert(sorted.contains(sorted[a]));
        assert(pre.to_multiset().count(sorted[a]) > 0);
        assert(pre.contains(sorted[a]));
        let ta = choose|t: int| 0 <= t < pre.len() && pre[t] == sorted[a];
        assert(pre[ta].spec_tank() == sorted[a].spec_tank());
    }

    // The entries are those of the dequeued positions, in reverse order.
    let expected = Seq::new(
        slots.len(),
        |k: int|
            (*old_q[idx[k]].tank, slots[k].team_index, saturating_diff(now, old_q[idx[k]].queue_time)),
    );
    assert(match_entries(pre) =~= expected.reverse());
    expected.lemma_reverse_to_multiset();
    assert forall|e: (Tank, usize, u128)| #[trigger] match_entries(sorted).filter(placed_as(e))
        == expected.reverse().filter(placed_as(e)) by {
        lemma_entries_filter(sorted, e);
        lemma_entries_filter(pre, e);
    }
}

/// Filtering the tanks of a match by where they are ordered filters their
/// entries alike.
proof fn lemma_entries_filter<'reg>(s: Seq<MatchTank<'reg>>, e: (Tank, usize, u128))
    ensures
        match_entries(s.filter(tank_placed_as(e))) == match_entries(s).filter(placed_as(e)),
    decreases s.len(),
{
    if s.len() > 0 {
        let t = s.drop_last();
        let x = s.last();
        lemma_entries_filter(t, e);
        assert(t.push(x) == s);
        lemma_filter_push(t, x, tank_placed_as(e));
        assert(match_entries(s) == match_entries(t).push(match_entry(x)));
        lemma_filter_push(match_entries(t), match_entry(x), placed_as(e));
        assert(match_entries(t.filter(tank_placed_as(e)).push(x)) == match_entries(
            t.filter(tank_placed_as(e)),
        ).push(match_entry(x)));
    } else {
        reveal(Seq::filter);
        assert(match_entries(s) == Seq::<(Tank, usize, u128)>::empty());
    }
}

/// A match leaves the queue shorter by exactly its number of tanks.
pub proof fn lemma_made_match_shrinks_queue<'reg>(
    before: Matchmaker<'reg>,
    after: Matchmaker<'reg>,
    m: Match<'reg>,
)
    requires
        made_match(before, after, m),
    ensures
        after.spec_tanks().len() + m.spec_tanks().len() == before.spec_tanks().len(),
{
    let (idx, teams, now) = choose|idx: Seq<int>, teams: Seq<usize>, now: u128|
        #[trigger] dequeued_into(
            before.spec_tanks(),
            before.spec_queue_times(),
            after.spec_tanks(),
            after.spec_queue_times(),
            match_entries(m.spec_tanks()),
            idx,
            teams,
            now,
        );
    lemma_remove_positions_from(before.spec_tanks(), idx, 0);
}

/// The tanks of a match, team after team.
pub open spec fn match_tank_values<'reg>(m: Match<'reg>) -> Seq<Tank> {
    m.spec_tanks().map_values(|t: MatchTank<'reg>| t.spec_tank())
}

/// A match takes its tanks out of the queue: the tanks still queued are the
/// queue without some positions, in their order, and those positions hold
/// the tanks of the match; so the tanks queued before are the tanks still
/// queued and the tanks of the match.
pub proof fn lemma_made_match_keeps_tanks<'reg>(
    before: Matchmaker<'reg>,
    after: Matchmaker<'reg>,
    m: Match<'reg>,
)
    requires
        made_match(before, after, m),
    ensures
        exists|idx: Seq<int>|
            #[trigger] increasing_positions(idx, before.spec_tanks().len() as int) && after.spec_tanks()
                == remove_positions(before.spec_tanks(), idx) && match_tank_values(m).to_multiset()
                == picked_from(before.spec_tanks(), idx, 0).to_multiset(),
        before.spec_tanks().to_multiset() == after.spec_tanks().to_multiset().add(
            match_tank_values(m).to_multiset(),
        ),
{
    let (idx, teams, now) = choose|idx: Seq<int>, teams: Seq<usize>, now: u128|
        #[trigger] dequeued_into(
            before.spec_tanks(),
            before.spec_queue_times(),
            after.spec_tanks(),
            after.spec_queue_times(),
            match_entries(m.spec_tanks()),
            idx,
            teams,
            now,
        );
    let bt = before.spec_tanks();
    let bq = before.spec_queue_times();
    let entries = match_entries(m.spec_tanks());
    let expected = Seq::new(
        idx.len(),
        |k: int| (bt[idx[k]], teams[k], saturating_diff(now, bq[idx[k]])),
    );
    let f = |e: (Tank, usize, u128)| e.0;
    lemma_map_multiset(entries, expected, f);
    assert(entries.map_values(f) =~= match_tank_values(m));
    assert(expected.map_values(f) =~= picked_from(bt, idx, 0));
    lemma_remove_positions_multiset(bt, idx, 0);
}

/// The plan keeps the tiers it was given and adds tiers from `t` up to `max`,
/// never more than the team size; without the oldest tank handled, a plan
/// over a non-empty range fills the team.
proof fn lemma_planned_tiers_facts(
    tanks: Seq<Tank>,
    n: nat,
    size: int,
    t: int,
    max: int,
    handle: bool,
    bits: Seq<bool>,
    acc: Seq<u8>,
)
    requires
        n > 0,
        acc.len() <= size,
        0 <= t,
        max <= 255,
    ensures
        planned_tiers(tanks, n, size, t, max, handle, bits, acc) matches Some(p) ==> {
            &&& acc.len() <= p.len() <= size
            &&& p.take(acc.len() as int) == acc
            &&& forall|k: int| acc.len() <= k < p.len() ==> t <= #[trigger] p[k] <= max
            &&& !handle && t <= max ==> p.len() == size
        },
    decreases max + 1 - t,
{
    if t <= max {
        assert((t as u8) as int == t);
        let missing = size - acc.len();
        let avail = tanks_of_tier(tanks, t as u8) / n;
        if t == max {
            let k = if handle && avail < missing { avail as int } else { missing };
            let p = acc + repeat_tier(k, t);
            assert(p.take(acc.len() as int) =~= acc);
        } else {
            let lo = missing / 2;
            if lo == 0 {
                lemma_planned_tiers_facts(tanks, n, size, t + 1, max, handle, bits, acc);
            } else {
                let hi = if lo + 1 < missing { lo + 1 } else { missing };
                let p = if bits[t] { hi } else { lo };
                let k = if p < avail { p } else { avail as int };
                let acc2 = acc + repeat_tier(k, t);
                lemma_planned_tiers_facts(tanks, n, size, t + 1, max, handle, bits, acc2);
                assert(acc2.len() == acc.len() + k);
                assert forall|j: int| 0 <= j < acc2.len() implies #[trigger] acc2[j] == if j < acc.len() {
                    acc[j]
                } else {
                    t as u8
                } by {}
                if let Some(r) = planned_tiers(tanks, n, size, t + 1, max, handle, bits, acc2) {
                    assert(r.take(acc.len() as int) =~= acc) by {
                        assert(r.take(acc2.len() as int) == acc2);
                        assert forall|j: int| 0 <= j < acc.len() implies r[j] == acc[j] by {
                            assert(r.take(acc2.len() as int)[j] == acc2[j]);
                            assert(acc2[j] == acc[j]);
                        }
                    }
                    assert forall|j: int| acc.len() <= j < r.len() implies t <= #[trigger] r[j]
                        <= max by {
                        if j < acc2.len() {
                            assert(r.take(acc2.len() as int)[j] == acc2[j]);
                            assert(acc2[j] == t as u8);
                        }
                    }
                }
            }
        }
    }
}

/// The first slot constraint that takes a tank does take it.
proof fn lemma_first_taker_takes<'reg>(
    cs: Seq<TeamSlotConstraints>,
    q: QueueTank<'reg>,
    handle: bool,
    k: int,
)
    ensures
        first_taker(cs, q, handle, k) matches Some(c) ==> 0 <= c < cs.len() && takes(
            cs[c],
            q,
            handle,
        ),
    decreases cs.len() - k,
{
    if 0 <= k < cs.len() && !takes(cs[k], q, handle) {
        lemma_first_taker_takes(cs, q, handle, k + 1);
    }
}

/// Filling the slots from queue position `i` on adds slots of later
/// positions, of tanks within `lo..=hi`, up to `tanks_count` slots.
proof fn lemma_filled_facts<'reg>(
    queue: Seq<QueueTank<'reg>>,
    cs: Seq<TeamSlotConstraints>,
    slots: Seq<TeamSlot>,
    i: int,
    n: int,
    tanks_count: int,
    lo: u8,
    hi: u8,
    handle: bool,
    ranks: Seq<u32>,
)
    requires
        0 <= i <= queue.len() <= usize::MAX,
        slots.len() <= tanks_count,
        forall|c: int| 0 <= c < cs.len() ==> lo <= (#[trigger] cs[c]).tier <= hi,
        forall|a: int, b: int|
            0 <= a < b < slots.len() ==> #[trigger] slots[a].tank_index
                < #[trigger] slots[b].tank_index,
        forall|s: int|
            0 <= s < slots.len() ==> {
                &&& (#[trigger] slots[s]).tank_index < i
                &&& lo <= queue[slots[s].tank_index as int].tank.spec_tier() <= hi
            },
    ensures
        ({
            let r = filled(queue, cs, slots, i, n, tanks_count, lo, hi, handle, ranks).1;
            &&& r.len() <= tanks_count
            &&& forall|a: int, b: int|
                0 <= a < b < r.len() ==> #[trigger] r[a].tank_index < #[trigger] r[b].tank_index
            &&& forall|s: int|
                0 <= s < r.len() ==> {
                    &&& (#[trigger] r[s]).tank_index < queue.len()
                    &&& lo <= queue[r[s].tank_index as int].tank.spec_tier() <= hi
                }
        }),
    decreases queue.len() - i,
{
    if i < queue.len() && slots.len() < tanks_count {
        let q = queue[i];
        if q.min_tier > lo || q.max_tier < hi {
            lemma_filled_facts(queue, cs, slots, i + 1, n, tanks_count, lo, hi, handle, ranks);
        } else {
            lemma_first_taker_takes(cs, q, handle, 0);
            match first_taker(cs, q, handle, 0) {
                None => {
                    lemma_filled_facts(queue, cs, slots, i + 1, n, tanks_count, lo, hi, handle, ranks);
                },
                Some(ci) => {
                    let c = cs[ci];
                    let free = free_below(c.free_teams, n);
                    let rank = clamp(ranks[ci * n + (n - free)] as int, 0, free - 1);
                    let team = nth_free_team(c.free_teams, n, rank);
                    let cs2 = cs.update(ci, taken_by(c, q, team));
                    let slot = TeamSlot { team_index: team as usize, tank_index: i as usize };
                    let slots2 = slots.push(slot);
                    assert forall|k: int| 0 <= k < cs2.len() implies lo <= (#[trigger] cs2[k]).tier
                        <= hi by {
                        assert(lo <= cs[k].tier <= hi);
                    }
                    assert forall|s: int| 0 <= s < slots2.len() implies {
                        &&& (#[trigger] slots2[s]).tank_index < i + 1
                        &&& lo <= queue[slots2[s].tank_index as int].tank.spec_tier() <= hi
                    } by {
                        if s < slots.len() {
                            assert(slots2[s] == slots[s]);
                        } else {
                            assert(slots2[s] == slot);
                            assert(lo <= c.tier <= hi);
                        }
                    }
                    assert forall|a: int, b: int|
                        0 <= a < b < slots2.len() implies #[trigger] slots2[a].tank_index
                        < #[trigger] slots2[b].tank_index by {
                        assert(slots2[a] == slots[a]);
                        if b < slots.len() {
                            assert(slots2[b] == slots[b]);
                        }
                    }
                    lemma_filled_facts(queue, cs2, slots2, i + 1, n, tanks_count, lo, hi, handle, ranks);
                },
            }
        }
    }
}

/// What the drawn plan and slots hold, for any draws: the slots exist
/// exactly when the plan does; the plan has at most `team_size` tiers, all
/// within `lo..=hi`, and exactly `team_size` when the oldest tank is not
/// handled and the range is not empty; the slots are at most `teams_count`
/// per tier of the plan, at increasing queue positions, of tanks within
/// `lo..=hi`.
pub proof fn lemma_drawn_slots<'reg>(
    mm: Matchmaker<'reg>,
    teams_count: int,
    team_size: int,
    handle: bool,
    lo: u8,
    hi: u8,
    plan_bits: Seq<bool>,
    ranks: Seq<u32>,
)
    requires
        1 <= teams_count <= 32,
        team_size >= 0,
        mm.spec_tanks().len() <= usize::MAX,
    ensures
        drawn_slots(mm, teams_count, team_size, handle, lo, hi, plan_bits, ranks) is Some
            <==> drawn_plan(mm, teams_count, team_size, handle, lo, hi, plan_bits) is Some,
        drawn_plan(mm, teams_count, team_size, handle, lo, hi, plan_bits) matches Some(plan) ==> {
            &&& plan.len() <= team_size
            &&& forall|k: int| 0 <= k < plan.len() ==> lo <= #[trigger] plan[k] <= hi
            &&& !handle && lo <= hi ==> plan.len() == team_size
        },
        match (
            drawn_plan(mm, teams_count, team_size, handle, lo, hi, plan_bits),
            drawn_slots(mm, teams_count, team_size, handle, lo, hi, plan_bits, ranks),
        ) {
            (Some(plan), Some(ds)) => {
                &&& ds.len() <= teams_count * plan.len()
                &&& forall|a: int, b: int| 0 <= a < b < ds.len() ==> #[trigger] ds[a].0 < #[trigger] ds[b].0
                &&& forall|k: int|
                    0 <= k < ds.len() ==> 0 <= (#[trigger] ds[k]).0 < mm.spec_tanks().len() && lo
                        <= mm.spec_tanks()[ds[k].0].spec_tier() <= hi
            },
            _ => true,
        },
{
    let queue = mm.queue_tanks@;
    lemma_planned_tiers_facts(
        mm.spec_tanks(),
        teams_count as nat,
        team_size,
        lo as int,
        hi as int,
        handle,
        plan_bits,
        Seq::<u8>::empty(),
    );
    if let Some(tiers) = drawn_plan(mm, teams_count, team_size, handle, lo, hi, plan_bits) {
        let mask = u32::MAX >> ((32 - teams_count) as u32);
        let cs = fresh_from_tiers(tiers, mask);
        assert forall|c: int| 0 <= c < cs.len() implies lo <= (#[trigger] cs[c]).tier <= hi by {
            assert(cs[c].tier == tiers[c]);
        }
        assert(tiers.take(0) =~= Seq::<u8>::empty());
        lemma_filled_facts(
            queue,
            cs,
            Seq::<TeamSlot>::empty(),
            0,
            teams_count,
            teams_count * tiers.len(),
            lo,
            hi,
            handle,
            ranks,
        );
        let slots = filled(
            queue,
            cs,
            Seq::<TeamSlot>::empty(),
            0,
            teams_count,
            teams_count * tiers.len(),
            lo,
            hi,
            handle,
            ranks,
        ).1;
        let ds = slot_pairs(slots);
        assert forall|k: int| 0 <= k < ds.len() implies 0 <= (#[trigger] ds[k]).0
            < mm.spec_tanks().len() && lo <= mm.spec_tanks()[ds[k].0].spec_tier() <= hi by {
            assert(ds[k].0 == slots[k].tank_index);
            assert(mm.spec_tanks()[ds[k].0] == *queue[ds[k].0].tank);
        }
        assert forall|a: int, b: int| 0 <= a < b < ds.len() implies #[trigger] ds[a].0
            < #[trigger] ds[b].0 by {
            assert(ds[a].0 == slots[a].tank_index);
            assert(ds[b].0 == slots[b].tank_index);
        }
    }
}

/// The number of tanks queued in a run of calls: `queued[k]` says whether
/// call `k` queued a tank.
pub open spec fn queued_count(queued: Seq<bool>) -> nat
    decreases queued.len(),
{
    if queued.len() == 0 {
        0
    } else {
        queued_count(queued.drop_last()) + if queued.last() {
            1nat
        } else {
            0nat
        }
    }
}

/// The number of tanks of the matches that a run of calls returned.
pub open spec fn matched_count<'reg>(made: Seq<Option<Match<'reg>>>) -> nat
    decreases made.len(),
{
    if made.len() == 0 {
        0
    } else {
        matched_count(made.drop_last()) + match made.last() {
            Some(m) => m.spec_tanks().len(),
            None => 0nat,
        }
    }
}

/// One call on the matchmaker, going from `before` to `after`: it queues a
/// tank when `queued`, and otherwise polls and gives `made`, as the contracts
/// of `queue` and `poll` state them.
pub open spec fn matchmaking_step<'reg>(
    before: Matchmaker<'reg>,
    after: Matchmaker<'reg>,
    queued: bool,
    made: Option<Match<'reg>>,
) -> bool {
    &&& queued ==> made is None && after.spec_tanks().len() == before.spec_tanks().len() + 1
    &&& !queued ==> match made {
        Some(m) => after.spec_tanks().len() + m.spec_tanks().len() == before.spec_tanks().len(),
        None => after.spec_tanks() == before.spec_tanks(),
    }
}

/// A run of calls from a new matchmaker: `runs[k]` is the matchmaker before
/// call `k`.
pub open spec fn matchmaking_run<'reg>(
    runs: Seq<Matchmaker<'reg>>,
    queued: Seq<bool>,
    made: Seq<Option<Match<'reg>>>,
) -> bool {
    &&& runs.len() == queued.len() + 1
    &&& made.len() == queued.len()
    &&& runs[0].spec_tanks().len() == 0
    &&& forall|k: int|
        0 <= k < queued.len() ==> #[trigger] matchmaking_step(runs[k], runs[k + 1], queued[k], made[k])
}

/// After a run of calls from a new matchmaker, the queue holds the tanks
/// queued less those of the matches made.
pub proof fn lemma_matchmaking_run<'reg>(
    runs: Seq<Matchmaker<'reg>>,
    queued: Seq<bool>,
    made: Seq<Option<Match<'reg>>>,
)
    requires
        matchmaking_run(runs, queued, made),
    ensures
        runs.last().spec_tanks().len() + matched_count(made) == queued_count(queued),
    decreases queued.len(),
{
    if queued.len() > 0 {
        let n = queued.len() - 1;
        let shorter = runs.take(n + 1);
        let (qd, md) = (queued.drop_last(), made.drop_last());
        assert(shorter[0] == runs[0]);
        assert forall|k: int| 0 <= k < n implies #[trigger] matchmaking_step(
            shorter[k],
            shorter[k + 1],
            qd[k],
            md[k],
        ) by {
            assert(matchmaking_step(runs[k], runs[k + 1], queued[k], made[k]));
            assert(runs[k + 1] == shorter[k + 1]);
            assert(runs[k] == shorter[k]);
        }
        lemma_matchmaking_run(shorter, qd, md);
        assert(matchmaking_step(runs[n], runs[n + 1], queued[n], made[n]));
        assert(runs.last() == runs[n + 1]);
        assert(shorter.last() == runs[n]);
    }
}


/// The wheeled tanks and the two autoloading light tanks are known by name;
/// every other tank plays the standard role of its class.
pub proof fn lemma_named_roles()
    ensures
        sub_class_of("EBR 105"@) == TankSubClass::Wheeled,
        sub_class_of("EBR 90"@) == TankSubClass::Wheeled,
        sub_class_of("Lynx 6x6"@) == TankSubClass::Wheeled,
        sub_class_of("EBR Hotch."@) == TankSubClass::Wheeled,
        sub_class_of("Bourrasque"@) == TankSubClass::Bourrasque,
        sub_class_of("Miel"@) == TankSubClass::Bourrasque,
        sub_class_of("T-54 ltwt."@) == TankSubClass::Standard,
{
    reveal_strlit("EBR 105");
    reveal_strlit("EBR 90");
    reveal_strlit("Lynx 6x6");
    reveal_strlit("EBR Hotch.");
    reveal_strlit("Bourrasque");
    reveal_strlit("Miel");
    reveal_strlit("T-54 ltwt.");
    assert("EBR 90"@ != "EBR 105"@) by {
        assert("EBR 90"@.len() != "EBR 105"@.len());
    }
    assert("Lynx 6x6"@ != "EBR 105"@) by {
        assert("Lynx 6x6"@[0] != "EBR 105"@[0]);
    }
    assert("Lynx 6x6"@ != "EBR 90"@) by {
        assert("Lynx 6x6"@[0] != "EBR 90"@[0]);
    }
    assert("EBR Hotch."@ != "EBR 105"@) by {
        assert("EBR Hotch."@.len() != "EBR 105"@.len());
    }
    assert("EBR Hotch."@ != "EBR 90"@) by {
        assert("EBR Hotch."@.len() != "EBR 90"@.len());
    }
    assert("EBR Hotch."@ != "Lynx 6x6"@) by {
        assert("EBR Hotch."@[0] != "Lynx 6x6"@[0]);
    }
    // The wheeled names start with 'E' or 'L', the others do not.
    assert forall|w: Seq<char>|
        w == "EBR 105"@ || w == "EBR 90"@ || w == "Lynx 6x6"@ || w == "EBR Hotch."@ implies w[0]
        == 'E' || w[0] == 'L' by {}
    assert("Bourrasque"@[0] == 'B');
    assert("Miel"@[0] == 'M');
    assert("T-54 ltwt."@[0] == 'T');
    assert("Miel"@ != "Bourrasque"@) by {
        assert("Miel"@[0] != "Bourrasque"@[0]);
    }
}

/// The tier range a queued tank carries: from one tier below its own up to
/// three above for an artillery tank, from two below up to three above for a
/// light tank and from two below up to two above for the other classes;
/// tanks of tier 1 meet tiers 1 and 2. The range stops at tier 1 below and at
/// the matchmaker's maximum tier above.
pub proof fn lemma_queue_tier_range(tier: u8, class: TankClass, max_tier: u8)
    requires
        1 <= tier <= max_tier,
    ensures
        ({
            let (lo, hi) = queue_tier_range(tier, class, max_tier);
            let (down, up) = if tier == 1 {
                (0int, 1int)
            } else if class == TankClass::Clicker {
                (1int, 3int)
            } else if class == TankClass::Light {
                (2int, 3int)
            } else {
                (2int, 2int)
            };
            &&& lo == if tier - down < 1 { 1 } else { tier - down }
            &&& hi == if tier + up > max_tier { max_tier as int } else { tier + up }
            &&& lo <= tier <= hi
        }),
{
}

} // verus!
