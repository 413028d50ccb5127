//! The tank registry.

use vstd::prelude::*;

use crate::random::{random_between, thread_rng};

verus! {

/// The class of a tank. The order of the variants is the order in which a
/// match lists the tanks of a tier.
#[derive(Debug, Clone, Copy, PartialEq, Eq, Structural, PartialOrd, Ord, Hash)]
pub enum TankClass {
    Heavy,
    Medium,
    Destroyer,
    Light,
    Clicker,
}

/// The position of a class in the order of `TankClass`.
pub open spec fn class_rank(class: TankClass) -> u8 {
    match class {
        TankClass::Heavy => 0,
        TankClass::Medium => 1,
        TankClass::Destroyer => 2,
        TankClass::Light => 3,
        TankClass::Clicker => 4,
    }
}

impl TankClass {
    /// The position of this class in the declaration order.
    pub fn rank(self) -> (r: u8)
        ensures
            r == class_rank(self),
    {
        match self {
            TankClass::Heavy => 0,
            TankClass::Medium => 1,
            TankClass::Destroyer => 2,
            TankClass::Light => 3,
            TankClass::Clicker => 4,
        }
    }
}

/// Represent a tank.
#[derive(Debug)]
pub struct Tank {
    name: String,
    tier: u8,
    class: TankClass,
    battles: u32,
}

impl Tank {
    pub closed spec fn spec_name(&self) -> Seq<char> {
        self.name@
    }

    pub closed spec fn spec_tier(&self) -> u8 {
        self.tier
    }

    pub closed spec fn spec_class(&self) -> TankClass {
        self.class
    }

    /// The number of battles registered for this tank, its pick weight.
    pub closed spec fn spec_battles(&self) -> u32 {
        self.battles
    }

    pub fn name(&self) -> (r: &str)
        ensures
            r@ == self.spec_name(),
    {
        self.name.as_str()
    }

    #[verifier::when_used_as_spec(spec_tier)]
    pub fn tier(&self) -> (r: u8)
        ensures
            r == self.spec_tier(),
    {
        self.tier
    }

    #[verifier::when_used_as_spec(spec_class)]
    pub fn class(&self) -> (r: TankClass)
        ensures
            r == self.spec_class(),
    {
        self.class
    }
}

/// The sum of the battles of a sequence of tanks.
pub open spec fn total_battles(tanks: Seq<Tank>) -> int
    decreases tanks.len(),
{
    if tanks.len() == 0 {
        0
    } else {
        total_battles(tanks.drop_last()) + tanks.last().spec_battles()
    }
}

/// The battles of the tanks before index `i`: tank `i` is picked by the values
/// from `battles_before(tanks, i)` up to, and not including,
/// `battles_before(tanks, i + 1)`.
pub open spec fn battles_before(tanks: Seq<Tank>, i: int) -> int {
    total_battles(tanks.take(i))
}

/// Tank `i` is the one that the value `x` picks.
pub open spec fn picks(tanks: Seq<Tank>, x: int, i: int) -> bool {
    &&& 0 <= i < tanks.len()
    &&& battles_before(tanks, i) <= x < battles_before(tanks, i) + tanks[i].spec_battles()
}

proof fn lemma_battles_before_step(tanks: Seq<Tank>, i: int)
    requires
        0 <= i < tanks.len(),
    ensures
        battles_before(tanks, i + 1) == battles_before(tanks, i) + tanks[i].spec_battles(),
{
    assert(tanks.take(i + 1).drop_last() == tanks.take(i));
}

proof fn lemma_battles_before_all(tanks: Seq<Tank>)
    ensures
        battles_before(tanks, tanks.len() as int) == total_battles(tanks),
{
    assert(tanks.take(tanks.len() as int) == tanks);
}

/// The battles before a tank never decrease along the sequence.
pub proof fn lemma_battles_before_monotonic(tanks: Seq<Tank>, i: int, j: int)
    requires
        0 <= i <= j <= tanks.len(),
    ensures
        battles_before(tanks, i) <= battles_before(tanks, j),
    decreases j - i,
{
    if i < j {
        lemma_battles_before_monotonic(tanks, i, j - 1);
        lemma_battles_before_step(tanks, j - 1);
    }
}

/// Weighted pick: every value below the total of battles picks exactly one
/// tank, and the values that pick a tank are as many as its battles, so a
/// uniform value picks each tank in proportion to its battles.
pub proof fn lemma_pick_is_a_partition(tanks: Seq<Tank>, x: int)
    requires
        0 <= x < total_battles(tanks),
    ensures
        exists|i: int| picks(tanks, x, i),
        forall|i: int, j: int| picks(tanks, x, i) && picks(tanks, x, j) ==> i == j,
        forall|i: int|
            0 <= i < tanks.len() ==> battles_before(tanks, i + 1) - battles_before(tanks, i)
                == tanks[i].spec_battles(),
{
    lemma_pick_exists_total(tanks, x);
    assert forall|i: int, j: int| picks(tanks, x, i) && picks(tanks, x, j) implies i == j by {
        if i < j {
            lemma_battles_before_step(tanks, i);
            lemma_battles_before_monotonic(tanks, i + 1, j);
        } else if j < i {
            lemma_battles_before_step(tanks, j);
            lemma_battles_before_monotonic(tanks, j + 1, i);
        }
    }
    assert forall|i: int| 0 <= i < tanks.len() implies battles_before(tanks, i + 1)
        - battles_before(tanks, i) == tanks[i].spec_battles() by {
        lemma_battles_before_step(tanks, i);
    }
}

proof fn lemma_pick_exists(tanks: Seq<Tank>, x: int, n: int)
    requires
        0 <= n <= tanks.len(),
        0 <= x < battles_before(tanks, n),
    ensures
        exists|i: int| picks(tanks, x, i),
    decreases n,
{
    if n == 0 {
        assert(tanks.take(0).len() == 0);
    } else {
        lemma_battles_before_step(tanks, n - 1);
        if x < battles_before(tanks, n - 1) {
            lemma_pick_exists(tanks, x, n - 1);
        } else {
            assert(picks(tanks, x, n - 1));
        }
    }
}

proof fn lemma_pick_exists_total(tanks: Seq<Tank>, x: int)
    requires
        0 <= x < total_battles(tanks),
    ensures
        exists|i: int| picks(tanks, x, i),
{
    lemma_battles_before_all(tanks);
    lemma_pick_exists(tanks, x, tanks.len() as int);
}

/// Registry of all tanks and their pick rate.
#[derive(Debug)]
pub struct TankRegistry {
    tanks: Vec<Tank>,
    battles: u32,
}

impl TankRegistry {
    /// The registered tanks, in the order of registration.
    pub closed spec fn spec_tanks(&self) -> Seq<Tank> {
        self.tanks@
    }

    pub closed spec fn spec_battles(&self) -> u32 {
        self.battles
    }

    /// `tank` is the one that some value below the total of battles picks.
    pub open spec fn is_weighted_pick(&self, tank: Tank) -> bool {
        exists|x: int, i: int|
            0 <= x < self.spec_battles() && #[trigger] picks(self.spec_tanks(), x, i) && tank
                == self.spec_tanks()[i]
    }

    /// The total of battles is the sum of the battles of the tanks.
    pub closed spec fn wf(&self) -> bool {
        self.battles == total_battles(self.tanks@)
    }

    /// The total of battles of a registry is the sum of the battles of its
    /// tanks.
    pub proof fn lemma_battles_total(&self)
        requires
            self.wf(),
        ensures
            self.spec_battles() == total_battles(self.spec_tanks()),
    {
    }

    pub fn new() -> (r: Self)
        ensures
            r.wf(),
            r.spec_tanks() == Seq::<Tank>::empty(),
            r.spec_battles() == 0,
    {
        Self { tanks: Vec::new(), battles: 0 }
    }

    /// Length of this registry, the number of registered tanks.
    pub fn len(&self) -> (r: usize)
        ensures
            r == self.spec_tanks().len(),
    {
        self.tanks.len()
    }

    /// The total of battles of all registered tanks.
    #[verifier::when_used_as_spec(spec_battles)]
    pub fn battles(&self) -> (r: u32)
        ensures
            r == self.spec_battles(),
    {
        self.battles
    }

    /// Register a tank with its number of battles, which adds to the total.
    pub fn register(&mut self, name: &str, tier: u8, class: TankClass, battles: u32)
        requires
            old(self).wf(),
            old(self).spec_battles() + battles <= u32::MAX,
        ensures
            final(self).wf(),
            final(self).spec_battles() == old(self).spec_battles() + battles,
            final(self).spec_tanks().len() == old(self).spec_tanks().len() + 1,
            final(self).spec_tanks().drop_last() == old(self).spec_tanks(),
            final(self).spec_tanks().last().spec_name() == name@,
            final(self).spec_tanks().last().spec_tier() == tier,
            final(self).spec_tanks().last().spec_class() == class,
            final(self).spec_tanks().last().spec_battles() == battles,
    {
        let name = name.to_owned();
        self.battles = self.battles + battles;
        self.tanks.push(Tank { name, tier, class, battles });
        proof {
            assert(self.tanks@.drop_last() == old(self).tanks@);
        }
    }

    /// The tank that the value `x` picks: tanks are laid end to end, each as
    /// long as its battles, and `x` falls in exactly one of them.
    pub fn pick_weighted(&self, x: u32) -> (r: &Tank)
        requires
            self.wf(),
            x < self.spec_battles(),
        ensures
            exists|i: int| picks(self.spec_tanks(), x as int, i) && *r == self.spec_tanks()[i],
    {
        let ghost tanks = self.tanks@;
        proof {
            lemma_battles_before_all(tanks);
        }
        let mut rest: u32 = x;
        let mut i: usize = 0;
        while i < self.tanks.len()
            invariant
                tanks == self.tanks@,
                self.wf(),
                x < self.battles,
                battles_before(tanks, tanks.len() as int) == total_battles(tanks),
                i <= tanks.len(),
                battles_before(tanks, i as int) <= x,
                rest == x - battles_before(tanks, i as int),
            decreases tanks.len() - i,
        {
            proof {
                lemma_battles_before_step(tanks, i as int);
            }
            let tank = &self.tanks[i];
            if rest < tank.battles {
                assert(picks(self.spec_tanks(), x as int, i as int));
                return tank;
            }
            rest = rest - tank.battles;
            i = i + 1;
        }
        proof {
            assert(false);
        }
        &self.tanks[0]
    }

    /// The range that a weighted pick draws its value from, both ends
    /// included: every value below the total of battles.
    pub fn draw_range(&self) -> (r: (u64, u64))
        requires
            self.spec_battles() > 0,
        ensures
            r == (0u64, (self.spec_battles() - 1) as u64),
    {
        (0, (self.battles - 1) as u64)
    }

    /// Pick a random tank, weighted by its battle pick rate as registered.
    pub fn pick_random(&self) -> (r: &Tank)
        requires
            self.wf(),
            self.spec_battles() > 0,
        ensures
            self.is_weighted_pick(*r),
    {
        let mut rng = thread_rng();
        let (low, high) = self.draw_range();
        let x = random_between(&mut rng, low, high) as u32;
        self.pick_weighted(x)
    }

    /// Pick `count` random tanks, each weighted by its battle pick rate as
    /// registered, see [`Self::pick_random`].
    pub fn pick_many_random(&self, count: usize) -> (r: Vec<&Tank>)
        requires
            self.wf(),
            count > 0 ==> self.spec_battles() > 0,
        ensures
            r.len() == count,
            forall|k: int| 0 <= k < count ==> self.is_weighted_pick(*#[trigger] r[k]),
    {
        let mut rng = thread_rng();
        let mut picked: Vec<&Tank> = Vec::new();
        while picked.len() < count
            invariant
                self.wf(),
                count > 0 ==> self.spec_battles() > 0,
                picked.len() <= count,
                forall|k: int| 0 <= k < picked.len() ==> self.is_weighted_pick(*#[trigger] picked[k]),
            decreases count - picked.len(),
        {
            let (low, high) = self.draw_range();
            let x = random_between(&mut rng, low, high) as u32;
            let tank = self.pick_weighted(x);
            picked.push(tank);
        }
        picked
    }
}

/// The roman numeral of a tier, `?` beyond tier 10.
pub open spec fn tier_numeral(tier: u8) -> Seq<char> {
    match tier {
        1 => "I"@,
        2 => "II"@,
        3 => "III"@,
        4 => "IV"@,
        5 => "V"@,
        6 => "VI"@,
        7 => "VII"@,
        8 => "VIII"@,
        9 => "IX"@,
        10 => "X"@,
        _ => "?"@,
    }
}

/// The text that displays a tier.
pub fn tier_display(tier: u8) -> (r: &'static str)
    ensures
        r@ == tier_numeral(tier),
{
    match tier {
        1 => "I",
        2 => "II",
        3 => "III",
        4 => "IV",
        5 => "V",
        6 => "VI",
        7 => "VII",
        8 => "VIII",
        9 => "IX",
        10 => "X",
        _ => "?",
    }
}


/// The sum of a list of battle counts.
pub open spec fn sum_battles(battles: Seq<u32>) -> nat
    decreases battles.len(),
{
    if battles.len() == 0 {
        0
    } else {
        sum_battles(battles.drop_last()) + battles.last() as nat
    }
}

/// A run of registrations from a new registry: `runs[k]` is the registry
/// before registration `k`, which registers a tank of `battles[k]` battles,
/// as the contract of `register` states it.
pub open spec fn registration_run(runs: Seq<TankRegistry>, battles: Seq<u32>) -> bool {
    &&& runs.len() == battles.len() + 1
    &&& runs[0].spec_tanks().len() == 0
    &&& runs[0].spec_battles() == 0
    &&& forall|k: int|
        0 <= k < battles.len() ==> {
            &&& (#[trigger] runs[k + 1]).spec_tanks().len() == runs[k].spec_tanks().len() + 1
            &&& runs[k + 1].spec_battles() == runs[k].spec_battles() + battles[k]
        }
}

/// After `n` registrations into a new registry, it holds `n` tanks and its
/// total of battles is the sum of their battles.
pub proof fn lemma_registration_run(runs: Seq<TankRegistry>, battles: Seq<u32>)
    requires
        registration_run(runs, battles),
    ensures
        runs.last().spec_tanks().len() == battles.len(),
        runs.last().spec_battles() == sum_battles(battles),
    decreases battles.len(),
{
    if battles.len() > 0 {
        let n = battles.len() - 1;
        let shorter = runs.take(n + 1);
        assert(shorter[0] == runs[0]);
        assert forall|k: int| 0 <= k < n implies {
            &&& (#[trigger] shorter[k + 1]).spec_tanks().len() == shorter[k].spec_tanks().len() + 1
            &&& shorter[k + 1].spec_battles() == shorter[k].spec_battles() + battles.drop_last()[k]
        } by {
            assert(runs[k + 1].spec_tanks().len() == runs[k].spec_tanks().len() + 1);
        }
        lemma_registration_run(shorter, battles.drop_last());
        assert(runs[n + 1].spec_tanks().len() == runs[n].spec_tanks().len() + 1);
        assert(runs.last() == runs[n + 1]);
        assert(shorter.last() == runs[n]);
    }
}

} // verus!
