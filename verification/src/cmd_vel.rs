//! The commanded velocity pair handed to the drive system each tick:
//! dimensionless linear and angular commands in thousandths, so that 1000
//! stands for full scale.

use vstd::prelude::*;

verus! {

/// Commanded velocity in thousandths of full scale, in [-1000, 1000].
#[derive(Clone, Copy, PartialEq, Eq, Structural, Debug)]
pub struct CmdVel {
    pub linear: i32,
    pub angular: i32,
}

impl CmdVel {
    /// Both commands are exactly zero: the agent is told to hold still.
    pub open spec fn is_zero(self) -> bool {
        self.linear == 0 && self.angular == 0
    }

    /// Sets both commands to exactly zero.
    pub fn stop(&mut self)
        ensures
            final(self).is_zero(),
    {
        self.linear = 0;
        self.angular = 0;
    }
}

impl Default for CmdVel {
    /// A fresh command holds still.
    fn default() -> (c: Self)
        ensures
            c.is_zero(),
    {
        CmdVel { linear: 0, angular: 0 }
    }
}

} // verus!
