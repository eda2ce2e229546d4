//! Range-sensor sweep bookkeeping: which angles the rotating sensor emits
//! rays at this tick, and where its cursor comes to rest.  Angles are in
//! thousandths of a degree and wrap at a full turn; the caller casts the
//! rays and hands the returns to the grid updater.

use vstd::prelude::*;

verus! {

/// One full turn, in thousandths of a degree.
pub const FULL_TURN_MILLIDEG: u32 = 360000;

/// The angles swept this tick: one ray every `step` from `cursor` across
/// `delta`, capped at one full revolution so that a long tick cannot emit
/// rays without bound.
pub open spec fn sweep_angle_at(cursor: u32, step: u32, k: int) -> int {
    (cursor + k * step) % (FULL_TURN_MILLIDEG as int)
}

/// How many rays a sweep of `delta` emits at angular spacing `step`.
pub open spec fn sweep_count(delta: u32, step: u32) -> int {
    let capped = if delta > FULL_TURN_MILLIDEG {
        FULL_TURN_MILLIDEG as int
    } else {
        delta as int
    };
    (capped + step - 1) / (step as int)
}

/// Computes this tick's sweep: the list of ray angles (each reduced modulo
/// a full turn) and the advanced cursor.  Emission is capped at one full
/// revolution per tick; the cursor still advances by the full `delta`.
pub fn sweep_angles(cursor: u32, delta: u32, step: u32) -> (r: (Vec<u32>, u32))
    requires
        cursor < FULL_TURN_MILLIDEG,
        1 <= step <= FULL_TURN_MILLIDEG,
    ensures
        r.1 as int == (cursor + delta) % (FULL_TURN_MILLIDEG as int),
        r.0@.len() == sweep_count(delta, step),
        forall|k: int| 0 <= k < r.0@.len() ==> r.0@[k] as int == sweep_angle_at(cursor, step, k),
        r.1 < FULL_TURN_MILLIDEG,
{
    let capped: u32 = if delta > FULL_TURN_MILLIDEG {
        FULL_TURN_MILLIDEG
    } else {
        delta
    };
    let mut angles: Vec<u32> = Vec::new();
    let mut a: u32 = 0;
    proof {
        assert(angles@.len() * step == 0) by (nonlinear_arith)
            requires
                angles@.len() == 0,
        ;
    }
    while a < capped
        invariant
            1 <= step <= FULL_TURN_MILLIDEG,
            capped <= FULL_TURN_MILLIDEG,
            cursor < FULL_TURN_MILLIDEG,
            a == angles@.len() * step,
            a < capped + step,
            forall|k: int| 0 <= k < angles@.len() ==> angles@[k] as int == sweep_angle_at(cursor, step, k),
        decreases capped + step - a,
    {
        let ghost n0 = angles@.len() as int;
        let angle = (cursor + a) % FULL_TURN_MILLIDEG;
        angles.push(angle);
        proof {
            assert(a + step == (n0 + 1) * step) by (nonlinear_arith)
                requires
                    a == n0 * step,
            ;
        }
        a = a + step;
    }
    proof {
        let n = angles@.len() as int;
        let s = step as int;
        let c = capped as int;
        if c == 0 {
            assert(n == 0) by (nonlinear_arith)
                requires
                    n * s < 0 + s,
                    s >= 1,
                    n >= 0,
            ;
            assert((s - 1) / s == 0) by (nonlinear_arith)
                requires
                    s >= 1,
            ;
        } else {
            assert(n >= 1 && (n - 1) * s < c) by (nonlinear_arith)
                requires
                    s >= 1,
                    c >= 1,
                    n * s >= c,
                    n * s < c + s,
                    n >= 0,
            ;
            assert(n == (c + s - 1) / s) by (nonlinear_arith)
                requires
                    s >= 1,
                    c >= 1,
                    n >= 1,
                    n * s >= c,
                    (n - 1) * s < c,
            ;
        }
    }
    let new_cursor = (((cursor as u64) + (delta as u64)) % (FULL_TURN_MILLIDEG as u64)) as u32;
    (angles, new_cursor)
}

} // verus!
