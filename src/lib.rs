//! Broad-phase and contact rules for a swarm of small circular bodies: a
//! uniform-grid spatial index over integer world coordinates, the pairing
//! rule of the collision resolver, and the damage rule between projectiles
//! and targets.

pub mod aabb;
pub mod spatial_index;
pub mod pairs;
pub mod damage;
pub mod lifecycle;
