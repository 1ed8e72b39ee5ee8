//! The removal signal that lifecycle systems read each tick, and the count of
//! living enemies that bounds spawning.

use vstd::prelude::*;
use crate::damage::{DamageSource, Health};

verus! {

/// An entity is to be removed when its lifetime has run out, when it has
/// health and that health is zero or below, or when it deals damage and has
/// none left.
pub open spec fn inert(lifetime_over: bool, health: Option<Health>, source: Option<DamageSource>) -> bool {
    ||| lifetime_over
    ||| (health is Some && health->Some_0.hp <= 0)
    ||| (source is Some && source->Some_0.damage <= 0)
}

/// Whether an entity with these parts is to be removed this tick.
pub fn should_despawn(lifetime_over: bool, health: Option<Health>, source: Option<DamageSource>) -> (r: bool)
    ensures
        r == inert(lifetime_over, health, source),
{
    if lifetime_over {
        return true;
    }
    match health {
        Some(h) => {
            if h.hp <= 0 {
                return true;
            }
        },
        None => {},
    }
    match source {
        Some(s) => s.damage <= 0,
        None => false,
    }
}

/// How many enemies are alive, and how many may be.
#[derive(Clone, Copy, Debug, PartialEq, Eq)]
pub struct EnemyCount {
    pub count: u32,
    pub max: u32,
}

impl Default for EnemyCount {
    fn default() -> (r: EnemyCount)
        ensures
            r.count == 0,
            r.max == 1000,
    {
        EnemyCount { count: 0, max: 1000 }
    }
}

impl EnemyCount {
    /// How many enemies one spawning round adds: `per_round`, or fewer when
    /// that would pass the maximum.
    pub fn spawn_batch(&self, per_round: u32) -> (r: u32)
        ensures
            self.count >= self.max ==> r == 0,
            self.count < self.max ==> r == if per_round <= self.max - self.count {
                per_round as int
            } else {
                self.max - self.count
            },
    {
        if self.count >= self.max {
            0
        } else if per_round <= self.max - self.count {
            per_round
        } else {
            self.max - self.count
        }
    }

    /// Counts `n` new enemies.
    pub fn record_spawns(&mut self, n: u32)
        requires
            old(self).count + n <= u32::MAX,
        ensures
            final(self).count == old(self).count + n,
            final(self).max == old(self).max,
    {
        self.count = self.count + n;
    }

    /// Counts one enemy removed.
    pub fn record_despawn(&mut self)
        requires
            old(self).count > 0,
        ensures
            final(self).count == old(self).count - 1,
            final(self).max == old(self).max,
    {
        self.count = self.count - 1;
    }
}

} // verus!
