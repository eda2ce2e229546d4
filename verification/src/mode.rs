//! The navigation mode state machine: an enable switch and the exploration
//! phase, toggled by external signals.  Disabling zeroes the commanded
//! velocity on the same tick; every navigation stage is gated on the
//! enable flag.

use vstd::prelude::*;

verus! {

use crate::cmd_vel::CmdVel;

/// The exploration strategy currently in force.
#[derive(Clone, Copy, PartialEq, Eq, Structural, Debug)]
pub enum Phase {
    /// Prefer frontier cells near walls, within the wall band.
    WallSweep,
    /// Fill the remaining interior.
    Fill,
}

/// Per-agent navigation mode: whether autonomous navigation is enabled,
/// and which exploration phase is active.
#[derive(Clone, Copy, PartialEq, Eq, Structural, Debug)]
pub struct AutoNavMode {
    pub enabled: bool,
    pub phase: Phase,
}

impl Default for AutoNavMode {
    /// Navigation starts enabled, sweeping along walls.
    fn default() -> (m: Self)
        ensures
            m.enabled,
            m.phase == Phase::WallSweep,
    {
        AutoNavMode { enabled: true, phase: Phase::WallSweep }
    }
}

/// Flips the enable switch.  Turning navigation off forces the commanded
/// velocity to exactly (0, 0) on the same tick, whatever plan is active;
/// turning it on leaves the command untouched.
pub fn toggle_enabled(mode: &mut AutoNavMode, cmd: &mut CmdVel)
    ensures
        final(mode).enabled == !old(mode).enabled,
        final(mode).phase == old(mode).phase,
        !final(mode).enabled ==> final(cmd).is_zero(),
        final(mode).enabled ==> *final(cmd) == *old(cmd),
{
    mode.enabled = !mode.enabled;
    if !mode.enabled {
        cmd.stop();
    }
}

/// Flips the exploration phase, as a manual override; this may reset an
/// automatic WallSweep-to-Fill transition.
pub fn toggle_phase(mode: &mut AutoNavMode)
    ensures
        final(mode).enabled == old(mode).enabled,
        final(mode).phase == (if old(mode).phase == Phase::WallSweep {
            Phase::Fill
        } else {
            Phase::WallSweep
        }),
{
    mode.phase = if mode.phase == Phase::WallSweep {
        Phase::Fill
    } else {
        Phase::WallSweep
    };
}

} // verus!
