//! How fast simulated time runs: the number of sub-steps per frame and the
//! multiplier of the step length, and how the two speed commands move them.
use crate::ieee::arith::{add_spec, fadd, fsub, sub_spec};
use crate::ieee::convert::{truncate, truncated};
use crate::ieee::format::Format;
use vstd::prelude::*;

verus! {

/// Sub-steps per frame at the start and after a reset.
pub const DEFAULT_SUB_STEPS: i32 = 20_000;

/// Sub-steps per frame from which a command changes the multiplier instead:
/// more sub-steps than this no frame can carry.
pub const SUB_STEP_CEILING: i32 = 30_000;

/// By how many sub-steps one command changes the count.
pub const SUB_STEP_CHANGE: i32 = 1_000;

/// By how much one command changes the multiplier: the binary64 pattern of 2.
pub const MULTIPLIER_CHANGE: u64 = 0x4000_0000_0000_0000;

/// The multiplier at the start: the binary64 pattern of 1.
pub const DEFAULT_MULTIPLIER: u64 = 0x3ff0_0000_0000_0000;

/// A speed command.
#[derive(Clone, Copy, Debug, PartialEq, Eq, Structural)]
pub enum SpeedCommand {
    Faster,
    Slower,
    Reset,
}

/// The speed of the simulation: `sim_speed` sub-steps per frame, each of
/// length `DT * dt_multiplier`, the multiplier a binary64 pattern.
#[derive(Clone, Copy, Debug, PartialEq, Eq, Structural)]
pub struct SpeedControl {
    pub sim_speed: i32,
    pub dt_multiplier: u64,
}

impl SpeedControl {
    /// There is at least one sub-step per frame, and no more than one change
    /// above the ceiling.
    pub open spec fn well_formed(self) -> bool {
        1 <= self.sim_speed < SUB_STEP_CEILING + SUB_STEP_CHANGE
    }

    /// The speed after a command.
    ///
    /// Below the ceiling a command changes the number of sub-steps, which
    /// never falls under one; from the ceiling on it changes the multiplier,
    /// which is not bounded. A reset restores the number of sub-steps and
    /// leaves the multiplier.
    pub open spec fn after(self, command: SpeedCommand) -> SpeedControl {
        match command {
            SpeedCommand::Faster => if self.sim_speed >= SUB_STEP_CEILING {
                SpeedControl {
                    sim_speed: self.sim_speed,
                    dt_multiplier: add_spec(
                        Format::Binary64,
                        self.dt_multiplier as nat,
                        MULTIPLIER_CHANGE as nat,
                    ) as u64,
                }
            } else {
                SpeedControl {
                    sim_speed: (self.sim_speed + SUB_STEP_CHANGE) as i32,
                    dt_multiplier: self.dt_multiplier,
                }
            },
            SpeedCommand::Slower => if self.sim_speed >= SUB_STEP_CEILING {
                SpeedControl {
                    sim_speed: self.sim_speed,
                    dt_multiplier: sub_spec(
                        Format::Binary64,
                        self.dt_multiplier as nat,
                        MULTIPLIER_CHANGE as nat,
                    ) as u64,
                }
            } else if self.sim_speed - SUB_STEP_CHANGE < 1 {
                SpeedControl { sim_speed: 1, dt_multiplier: self.dt_multiplier }
            } else {
                SpeedControl {
                    sim_speed: (self.sim_speed - SUB_STEP_CHANGE) as i32,
                    dt_multiplier: self.dt_multiplier,
                }
            },
            SpeedCommand::Reset => SpeedControl {
                sim_speed: DEFAULT_SUB_STEPS,
                dt_multiplier: self.dt_multiplier,
            },
        }
    }

    /// The speed at the start.
    pub fn new() -> (r: SpeedControl)
        ensures
            r.well_formed(),
            r.sim_speed == DEFAULT_SUB_STEPS,
            r.dt_multiplier == DEFAULT_MULTIPLIER,
    {
        SpeedControl { sim_speed: DEFAULT_SUB_STEPS, dt_multiplier: DEFAULT_MULTIPLIER }
    }

    /// Whether the speed is well formed.
    pub fn is_well_formed(&self) -> (r: bool)
        ensures
            r == self.well_formed(),
    {
        1 <= self.sim_speed && self.sim_speed < SUB_STEP_CEILING + SUB_STEP_CHANGE
    }

    /// How many times faster than at one sub-step of unit length simulated
    /// time runs: the number of sub-steps times the integer part of the
    /// multiplier.
    pub fn effective_speed(&self) -> (r: i64)
        ensures
            r == self.sim_speed * truncated(self.dt_multiplier as nat),
    {
        let whole: i64 = truncate(self.dt_multiplier) as i64;
        proof {
            assert(-0x8000_0000 * 0x8000_0000 <= self.sim_speed * whole <= 0x8000_0000
                * 0x8000_0000) by (nonlinear_arith)
                requires
                    -0x8000_0000 <= self.sim_speed <= 0x7fff_ffff,
                    -0x8000_0000 <= whole <= 0x7fff_ffff,
            ;
        }
        (self.sim_speed as i64) * whole
    }

    /// Applies a command.
    pub fn apply(&mut self, command: SpeedCommand)
        requires
            old(self).well_formed(),
        ensures
            *final(self) == old(self).after(command),
            final(self).well_formed(),
    {
        match command {
            SpeedCommand::Faster => {
                if self.sim_speed >= SUB_STEP_CEILING {
                    self.dt_multiplier = fadd(Format::Binary64, self.dt_multiplier, MULTIPLIER_CHANGE);
                } else {
                    self.sim_speed = self.sim_speed + SUB_STEP_CHANGE;
                }
            },
            SpeedCommand::Slower => {
                if self.sim_speed >= SUB_STEP_CEILING {
                    self.dt_multiplier = fsub(Format::Binary64, self.dt_multiplier, MULTIPLIER_CHANGE);
                } else {
                    self.sim_speed = self.sim_speed - SUB_STEP_CHANGE;
                    if self.sim_speed < 1 {
                        self.sim_speed = 1;
                    }
                }
            },
            SpeedCommand::Reset => {
                self.sim_speed = DEFAULT_SUB_STEPS;
            },
        }
    }
}

} // verus!
