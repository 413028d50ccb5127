//! Sets of teams held as the bits of a `u32`: team `j` is in the set when bit
//! `j` is set.

use vstd::prelude::*;

verus! {

/// Team `j` is in the set `x`.
pub open spec fn team_free(x: u32, j: int) -> bool {
    0 <= j < 32 && (x >> (j as u32)) & 1u32 == 1u32
}

/// The number of teams below `n` in the set `x`.
pub open spec fn free_below(x: u32, n: int) -> nat
    decreases n,
{
    if n <= 0 {
        0
    } else {
        free_below(x, n - 1) + if team_free(x, n - 1) {
            1nat
        } else {
            0nat
        }
    }
}

/// No team at or above `n` is in the set `x`.
pub open spec fn within_teams(x: u32, n: int) -> bool {
    forall|k: int| n <= k < 32 ==> !#[trigger] team_free(x, k)
}

pub proof fn lemma_bit_test(x: u32, j: u32)
    requires
        j < 32,
    ensures
        (x & (1u32 << j) != 0) == ((x >> j) & 1u32 == 1u32),
{
    assert((x & (1u32 << j) != 0) == ((x >> j) & 1u32 == 1u32)) by (bit_vector)
        requires
            j < 32,
    ;
}

pub proof fn lemma_bit_clear(x: u32, j: u32, k: u32)
    requires
        j < 32,
        k < 32,
    ensures
        ((x & !(1u32 << j)) >> k) & 1u32 == 1u32 <==> (k != j && (x >> k) & 1u32 == 1u32),
{
    assert(((x & !(1u32 << j)) >> k) & 1u32 == 1u32 <==> (k != j && (x >> k) & 1u32 == 1u32))
        by (bit_vector)
        requires
            j < 32,
            k < 32,
    ;
}

/// The empty set holds no team.
pub proof fn lemma_empty_set(j: int)
    ensures
        !team_free(0u32, j),
{
    if 0 <= j < 32 {
        let k = j as u32;
        assert((0u32 >> k) & 1u32 == 0u32) by (bit_vector);
    }
}

/// Clearing team `j` removes it from the set and keeps every other team.
pub proof fn lemma_clear_team(x: u32, j: int)
    requires
        0 <= j < 32,
    ensures
        forall|k: int| #[trigger]
            team_free(x & !(1u32 << (j as u32)), k) <==> (k != j && team_free(x, k)),
{
    assert forall|k: int| #[trigger]
        team_free(x & !(1u32 << (j as u32)), k) <==> (k != j && team_free(x, k)) by {
        if 0 <= k < 32 {
            lemma_bit_clear(x, j as u32, k as u32);
        }
    }
}

/// The mask of the first `n` teams holds exactly the teams below `n`.
pub proof fn lemma_team_mask(n: u32)
    requires
        1 <= n <= 32,
    ensures
        forall|k: int| #[trigger] team_free(u32::MAX >> ((32 - n) as u32), k) <==> 0 <= k < n,
{
    assert forall|k: int| #[trigger] team_free(u32::MAX >> ((32 - n) as u32), k) <==> 0 <= k < n by {
        if 0 <= k < 32 {
            let kk = k as u32;
            let sh = (32 - n) as u32;
            assert(((u32::MAX >> sh) >> kk) & 1u32 == 1u32 <==> kk < n) by (bit_vector)
                requires
                    1 <= n <= 32,
                    sh == 32 - n,
                    kk < 32,
            ;
        }
    }
}

proof fn lemma_no_bit_is_zero(x: u32)
    requires
        forall|k: int| 0 <= k < 32 ==> !#[trigger] team_free(x, k),
    ensures
        x == 0,
{
    assert(!team_free(x, 0));
    assert(!team_free(x, 1));
    assert(!team_free(x, 2));
    assert(!team_free(x, 3));
    assert(!team_free(x, 4));
    assert(!team_free(x, 5));
    assert(!team_free(x, 6));
    assert(!team_free(x, 7));
    assert(!team_free(x, 8));
    assert(!team_free(x, 9));
    assert(!team_free(x, 10));
    assert(!team_free(x, 11));
    assert(!team_free(x, 12));
    assert(!team_free(x, 13));
    assert(!team_free(x, 14));
    assert(!team_free(x, 15));
    assert(!team_free(x, 16));
    assert(!team_free(x, 17));
    assert(!team_free(x, 18));
    assert(!team_free(x, 19));
    assert(!team_free(x, 20));
    assert(!team_free(x, 21));
    assert(!team_free(x, 22));
    assert(!team_free(x, 23));
    assert(!team_free(x, 24));
    assert(!team_free(x, 25));
    assert(!team_free(x, 26));
    assert(!team_free(x, 27));
    assert(!team_free(x, 28));
    assert(!team_free(x, 29));
    assert(!team_free(x, 30));
    assert(!team_free(x, 31));
    assert(x == 0) by (bit_vector)
        requires
            (x >> 0u32) & 1u32 != 1u32,
            (x >> 1u32) & 1u32 != 1u32,
            (x >> 2u32) & 1u32 != 1u32,
            (x >> 3u32) & 1u32 != 1u32,
            (x >> 4u32) & 1u32 != 1u32,
            (x >> 5u32) & 1u32 != 1u32,
            (x >> 6u32) & 1u32 != 1u32,
            (x >> 7u32) & 1u32 != 1u32,
            (x >> 8u32) & 1u32 != 1u32,
            (x >> 9u32) & 1u32 != 1u32,
            (x >> 10u32) & 1u32 != 1u32,
            (x >> 11u32) & 1u32 != 1u32,
            (x >> 12u32) & 1u32 != 1u32,
            (x >> 13u32) & 1u32 != 1u32,
            (x >> 14u32) & 1u32 != 1u32,
            (x >> 15u32) & 1u32 != 1u32,
            (x >> 16u32) & 1u32 != 1u32,
            (x >> 17u32) & 1u32 != 1u32,
            (x >> 18u32) & 1u32 != 1u32,
            (x >> 19u32) & 1u32 != 1u32,
            (x >> 20u32) & 1u32 != 1u32,
            (x >> 21u32) & 1u32 != 1u32,
            (x >> 22u32) & 1u32 != 1u32,
            (x >> 23u32) & 1u32 != 1u32,
            (x >> 24u32) & 1u32 != 1u32,
            (x >> 25u32) & 1u32 != 1u32,
            (x >> 26u32) & 1u32 != 1u32,
            (x >> 27u32) & 1u32 != 1u32,
            (x >> 28u32) & 1u32 != 1u32,
            (x >> 29u32) & 1u32 != 1u32,
            (x >> 30u32) & 1u32 != 1u32,
            (x >> 31u32) & 1u32 != 1u32,
    ;
}

proof fn lemma_free_below_zero(x: u32, n: int)
    requires
        free_below(x, n) == 0,
    ensures
        forall|k: int| 0 <= k < n ==> !#[trigger] team_free(x, k),
    decreases n,
{
    if n > 0 {
        lemma_free_below_zero(x, n - 1);
    }
}

/// The team of rank `k` among the teams below `n` in the set `x`, counting
/// from team 0.
pub open spec fn nth_free_team(x: u32, n: int, k: int) -> int {
    choose|j: int| 0 <= j < n && team_free(x, j) && free_below(x, j) == k
}

proof fn lemma_free_below_monotonic(x: u32, a: int, b: int)
    requires
        0 <= a <= b,
    ensures
        free_below(x, a) <= free_below(x, b),
    decreases b - a,
{
    if a < b {
        lemma_free_below_monotonic(x, a, b - 1);
    }
}

/// Only one team of the set has a given rank.
pub proof fn lemma_nth_free_team(x: u32, n: int, j: int, k: int)
    requires
        0 <= j < n,
        team_free(x, j),
        free_below(x, j) == k,
    ensures
        nth_free_team(x, n, k) == j,
{
    let j2 = nth_free_team(x, n, k);
    assert(0 <= j2 < n && team_free(x, j2) && free_below(x, j2) == k);
    if j < j2 {
        lemma_free_below_monotonic(x, j + 1, j2);
    } else if j2 < j {
        lemma_free_below_monotonic(x, j2 + 1, j);
    }
}

/// A non-empty set within the first `n` teams holds one of them.
pub proof fn lemma_nonempty_has_free(x: u32, n: int)
    requires
        0 <= n <= 32,
        within_teams(x, n),
        x != 0,
    ensures
        free_below(x, n) > 0,
{
    if free_below(x, n) == 0 {
        lemma_free_below_zero(x, n);
        assert forall|k: int| 0 <= k < 32 implies !#[trigger] team_free(x, k) by {
            if k >= n {
                assert(!team_free(x, k));
            }
        }
        lemma_no_bit_is_zero(x);
    }
}

/// The number of teams below `n` in the set `x`.
pub fn count_free(x: u32, n: usize) -> (r: u32)
    requires
        n <= 32,
    ensures
        r == free_below(x, n as int),
        r <= n,
{
    let mut r: u32 = 0;
    let mut j: usize = 0;
    while j < n
        invariant
            j <= n <= 32,
            r == free_below(x, j as int),
            r <= j,
        decreases n - j,
    {
        proof {
            lemma_bit_test(x, j as u32);
        }
        if x & (1u32 << (j as u32)) != 0 {
            r = r + 1;
        }
        j = j + 1;
    }
    r
}

/// The team of rank `one_index` among the teams below `n` in the set `x`,
/// counting from team 0.
pub fn nth_free(x: u32, n: usize, one_index: u32) -> (r: usize)
    requires
        n <= 32,
        one_index < free_below(x, n as int),
    ensures
        r < n,
        team_free(x, r as int),
        free_below(x, r as int) == one_index,
{
    let mut left = one_index;
    let mut j: usize = 0;
    while j < n
        invariant
            j <= n <= 32,
            left + free_below(x, j as int) < free_below(x, n as int),
            left + free_below(x, j as int) == one_index,
        decreases n - j,
    {
        proof {
            lemma_bit_test(x, j as u32);
        }
        if x & (1u32 << (j as u32)) != 0 {
            if left == 0 {
                return j;
            }
            left = left - 1;
        }
        j = j + 1;
    }
    proof {
        assert(false);
    }
    0
}

} // verus!
