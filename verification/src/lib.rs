//! Newtonian gravitation among a handful of bodies.
//!
//! The bodies pull on one another by Newton's law, a fixed heuristic leaves
//! out the pairs that touch and the light bodies that are far, and a
//! semi-implicit Euler step advances one body at a time: first its velocity,
//! then its position by the new velocity.
//!
//! Every number is the bit pattern of an IEEE 754 binary floating-point
//! value, and every operation on it is integer arithmetic (`ieee`), so that
//! each result is defined bit for bit and each function states exactly what
//! it returns. `force` and `integrator` hold the physics, `simulation` the
//! sub-steps, `laws` what holds of them on all inputs; `control` and `camera`
//! hold the speed of simulated time and the view.
pub mod camera;
pub mod consts;
pub mod control;
pub mod force;
pub mod ieee;
pub mod integrator;
pub mod laws;
pub mod planet;
pub mod simulation;
pub mod vector;
