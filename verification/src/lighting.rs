//! Mirror settings.

use vstd::prelude::*;

verus! {

/// How far mirror reflections are followed.
#[derive(Debug, Clone, Copy, PartialEq, Eq, Structural)]
pub struct ReflectionSettings {
    /// What a reflected point is shaded with: 0 is no reflection, 3 all of it.
    pub tier: u32,
    /// Mirrors within mirrors: 0, 1, 2 or 4.
    pub nest: u32,
}

/// Number of tiers.
pub const REFLECTION_TIERS: u32 = 4;

/// Number of choices for nested mirrors.
pub const NEST_CHOICES: usize = 4;

/// The `i`-th choice for nested mirrors.
pub open spec fn nest_level(i: int) -> u32 {
    if i == 0 {
        0
    } else if i == 1 {
        1
    } else if i == 2 {
        2
    } else {
        4
    }
}

/// The `i`-th choice for nested mirrors.
pub fn nest_choice(i: usize) -> (r: u32)
    requires
        i < NEST_CHOICES,
    ensures
        r == nest_level(i as int),
{
    if i == 0 {
        0
    } else if i == 1 {
        1
    } else if i == 2 {
        2
    } else {
        4
    }
}

/// Distance of two numbers.
pub open spec fn apart(a: u32, b: u32) -> int {
    if a >= b {
        a - b
    } else {
        b - a
    }
}

/// `r` is the choice nearest to `n`; of two, the lower one.
pub open spec fn is_nearest(r: u32, n: u32) -> bool {
    exists|k: int|
        0 <= k < NEST_CHOICES && r == #[trigger] nest_level(k) && (forall|i: int|
            0 <= i < NEST_CHOICES ==> apart(nest_level(k), n) <= apart(#[trigger] nest_level(i), n))
            && (forall|i: int|
            0 <= i < k ==> apart(nest_level(k), n) < apart(#[trigger] nest_level(i), n))
}

impl Default for ReflectionSettings {
    fn default() -> (r: Self)
        ensures
            r == (ReflectionSettings { tier: 2, nest: 0 }),
    {
        ReflectionSettings { tier: 2, nest: 0 }
    }
}

impl ReflectionSettings {
    /// The tier in force.
    pub fn tier(&self) -> (r: u32)
        ensures
            r == (if self.tier < 3 {
                self.tier
            } else {
                3
            }),
    {
        if self.tier < REFLECTION_TIERS - 1 {
            self.tier
        } else {
            REFLECTION_TIERS - 1
        }
    }

    /// The choice nearest to the number that was set; of two, the lower one.
    pub fn nest(&self) -> (r: u32)
        ensures
            is_nearest(r, self.nest),
            exists|k: int|
                0 <= k < NEST_CHOICES && r == #[trigger] nest_level(k) && (forall|i: int|
                    0 <= i < NEST_CHOICES ==> apart(nest_level(k), self.nest) <= apart(
                        #[trigger] nest_level(i),
                        self.nest,
                    )) && (forall|i: int|
                    0 <= i < k ==> apart(nest_level(k), self.nest) < apart(
                        #[trigger] nest_level(i),
                        self.nest,
                    )),
    {
        let mut best: usize = 0;
        let mut i: usize = 1;
        while i < NEST_CHOICES
            invariant
                1 <= i <= NEST_CHOICES,
                best < i,
                forall|j: int|
                    0 <= j < i ==> apart(nest_level(best as int), self.nest) <= apart(
                        #[trigger] nest_level(j),
                        self.nest,
                    ),
                forall|j: int|
                    0 <= j < best ==> apart(nest_level(best as int), self.nest) < apart(
                        #[trigger] nest_level(j),
                        self.nest,
                    ),
            decreases NEST_CHOICES - i,
        {
            if distance(nest_choice(i), self.nest) < distance(nest_choice(best), self.nest) {
                best = i;
            }
            i += 1;
        }
        nest_choice(best)
    }
}

fn distance(a: u32, b: u32) -> (r: u32)
    ensures
        r == apart(a, b),
{
    if a >= b {
        a - b
    } else {
        b - a
    }
}

/// The choices are none, one, and twice the one before. A number that is a choice is kept, a greater
/// one than all is cut to the greatest, and between two the lower one is taken.
pub proof fn lemma_nest(r: u32, n: u32, i: int)
    requires
        is_nearest(r, n),
        2 <= i < NEST_CHOICES,
    ensures
        nest_level(0) == 0,
        nest_level(1) == 1,
        nest_level(i) == 2 * nest_level(i - 1),
        n <= 2 ==> r == n,
        n >= 4 ==> r == 4,
        n == 3 ==> r == 2,
{
    assert(nest_level(0) == 0 && nest_level(1) == 1 && nest_level(2) == 2 && nest_level(3) == 4);
    let k = choose|k: int|
        0 <= k < NEST_CHOICES && r == #[trigger] nest_level(k) && (forall|i: int|
            0 <= i < NEST_CHOICES ==> apart(nest_level(k), n) <= apart(#[trigger] nest_level(i), n))
            && (forall|i: int|
            0 <= i < k ==> apart(nest_level(k), n) < apart(#[trigger] nest_level(i), n));
    assert(apart(nest_level(k), n) <= apart(nest_level(0), n));
    assert(apart(nest_level(k), n) <= apart(nest_level(1), n));
    assert(apart(nest_level(k), n) <= apart(nest_level(2), n));
    assert(apart(nest_level(k), n) <= apart(nest_level(3), n));
    if k == 3 {
        assert(apart(nest_level(k), n) < apart(nest_level(2), n));
    }
}

} // verus!
