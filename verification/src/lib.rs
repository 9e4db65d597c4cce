//! The rule core of an asteroids-style arcade simulation.
//!
//! Everything here is discrete: which phases a tick runs and in what order,
//! which pairs of bodies a detector visits, which contacts destroy which
//! entity, when a weapon may fire, how a ring mesh is triangulated. The
//! caller owns the entity store and the continuous motion of the bodies; it
//! hands this crate plain snapshots and applies the effects it gets back.

pub mod asteroid;
pub mod bodies;
pub mod bullet;
pub mod control;
pub mod control_2d;
pub mod entity;
pub mod input_actions;
pub mod lifecycle;
pub mod mesh;
pub mod schedule;
pub mod score;
pub mod ship;
pub mod spawner;
pub mod states;
