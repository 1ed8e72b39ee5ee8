//! Contact damage between projectiles and targets.
//!
//! A hit takes the projectile's remaining damage off the target's health and
//! the target's health, as it was before the hit, off the projectile's
//! remaining damage. A projectile that fails to kill is used up; one that
//! kills keeps what is left and goes on to the next candidate.

use vstd::prelude::*;

verus! {

/// Health of a target; the target is dead once `hp` is zero or below.
#[derive(Clone, Copy, Debug, PartialEq, Eq)]
pub struct Health {
    pub hp: i32,
    pub max: i32,
}

impl Health {
    /// Full health of `max` points.
    pub fn from_max(max: i32) -> (r: Health)
        requires
            max > 0,
        ensures
            r.hp == max,
            r.max == max,
    {
        Health { hp: max, max }
    }

    /// The target has no health left.
    pub fn is_dead(&self) -> (r: bool)
        ensures
            r == (self.hp <= 0),
    {
        self.hp <= 0
    }
}

/// The damage a projectile can still deal; it is spent once zero or below.
#[derive(Clone, Copy, Debug, PartialEq, Eq)]
pub struct DamageSource {
    pub damage: i32,
}

impl Default for DamageSource {
    fn default() -> (r: DamageSource)
        ensures
            r.damage == 1,
    {
        DamageSource { damage: 1 }
    }
}

impl DamageSource {
    /// The projectile has no damage left to deal.
    pub fn is_spent(&self) -> (r: bool)
        ensures
            r == (self.damage <= 0),
    {
        self.damage <= 0
    }
}

/// Remaining damage of a projectile with `damage` after it hits a target
/// that had `hp` health.
pub open spec fn damage_after_hit(damage: int, hp: int) -> int {
    damage - hp
}

/// Health of a target that had `hp` after a hit of `damage`.
pub open spec fn health_after_hit(damage: int, hp: int) -> int {
    hp - damage
}

/// One hit of a projectile with damage left on a living target.
pub fn apply_hit(source: &mut DamageSource, target: &mut Health)
    requires
        old(source).damage > 0,
        old(target).hp > 0,
    ensures
        final(target).hp == health_after_hit(old(source).damage as int, old(target).hp as int),
        final(target).max == old(target).max,
        final(source).damage == damage_after_hit(old(source).damage as int, old(target).hp as int),
{
    let hp = target.hp;
    target.hp = target.hp - source.damage;
    source.damage = source.damage - hp;
}

/// A candidate met by a projectile, in the order the spatial index gave it:
/// the target's index, and whether the projectile's hit circle touches the
/// target's collision circle.
#[derive(Clone, Copy, Debug, PartialEq, Eq)]
pub struct Contact {
    pub target: usize,
    pub touching: bool,
}

/// The projectile's remaining damage and the targets' health after the
/// projectile meets `contacts` in order. It stops at the first contact it
/// meets with no damage left. It passes over a contact whose index names no
/// target, whose target is already dead, or that it does not touch; every
/// other contact is a hit. Both values of a hit are positive `i32`s, so the
/// target's new health fits an `i32`.
pub open spec fn resolve_contacts(damage: int, targets: Seq<Health>, contacts: Seq<Contact>) -> (int, Seq<Health>)
    decreases contacts.len(),
{
    if contacts.len() == 0 || damage <= 0 {
        (damage, targets)
    } else {
        let c = contacts[0];
        let rest = contacts.skip(1);
        if c.target >= targets.len() || targets[c.target as int].hp <= 0 || !c.touching {
            resolve_contacts(damage, targets, rest)
        } else {
            let h = targets[c.target as int];
            resolve_contacts(
                damage_after_hit(damage, h.hp as int),
                targets.update(
                    c.target as int,
                    Health { hp: health_after_hit(damage, h.hp as int) as i32, max: h.max },
                ),
                rest,
            )
        }
    }
}

/// Runs one projectile through its contacts, in order, as `resolve_contacts`
/// describes.
pub fn resolve_projectile(source: &mut DamageSource, targets: &mut Vec<Health>, contacts: &Vec<Contact>)
    ensures
        (final(source).damage as int, final(targets)@) == resolve_contacts(
            old(source).damage as int,
            old(targets)@,
            contacts@,
        ),
{
    let mut k: usize = 0;
    assert(contacts@.skip(0) =~= contacts@);
    while k < contacts.len() && source.damage > 0
        invariant
            0 <= k <= contacts@.len(),
            resolve_contacts(source.damage as int, targets@, contacts@.skip(k as int))
                == resolve_contacts(old(source).damage as int, old(targets)@, contacts@),
        decreases contacts@.len() - k,
    {
        let c = contacts[k];
        let ghost rest = contacts@.skip(k as int);
        assert(rest.skip(1) =~= contacts@.skip(k as int + 1));
        assert(rest[0] == c);
        if c.target < targets.len() && c.touching && targets[c.target].hp > 0 {
            let mut h = targets[c.target];
            apply_hit(source, &mut h);
            targets.set(c.target, h);
        }
        k = k + 1;
    }
    proof {
        if k == contacts@.len() {
            assert(contacts@.skip(k as int).len() == 0);
        }
    }
}

/// A hit that does not kill uses the projectile up; a hit that kills leaves
/// it damage to carry on with, and the target dead.
pub proof fn lemma_projectile_pierces_only_kills(damage_before: int, hp_before: int)
    requires
        damage_before > 0,
        hp_before > 0,
    ensures
        damage_before <= hp_before ==> damage_after_hit(damage_before, hp_before) <= 0,
        damage_before > hp_before ==> damage_after_hit(damage_before, hp_before) > 0
            && health_after_hit(damage_before, hp_before) <= 0,
{
}

} // verus!
