//! A deterministic, frame-stepped simulation core for an arcade shooter:
//! a player ship defends against a marching grid of enemies with a single
//! active projectile, destructible shields, and enemy return fire.
//!
//! Every state transition is integer-valued and rule-based; given one input
//! sample per frame, the stepper produces exactly one successor state, so a
//! whole game is replayable from its inputs.

pub mod screen;
pub mod geometry;
pub mod sprite;
pub mod entity;
pub mod state;
pub mod resolver;
pub mod laws;
pub mod codec;
pub mod draw;
