//! The look part of the player controller: yaw and pitch angles driven by
//! mouse deltas.
//!
//! Angles are kept in microradians on 64 bits, so that the clamping rule
//! can be stated and proved exactly; the host converts to its own floating
//! point radians when it builds the camera basis.  One microradian unit:
//! an angle of 1.5 rad is `1_500_000`.  A mouse delta of `m` over a frame
//! of `t` microseconds turns an angle by `m * t / 10` microradians, which
//! is `0.1 * m * t_seconds` radians — the fixed look speed.  The vertical
//! component is negated, and pitch is clamped to `[-1.5, +1.5]` rad.

use vstd::prelude::*;

verus! {

/// Division by ten rounding toward zero, the way the hardware divides.
pub open spec fn div10_trunc(x: int) -> int {
    if x >= 0 {
        x / 10
    } else {
        -((-x) / 10)
    }
}

/// How far one mouse delta turns an angle: `mouse * dt_us / 10`
/// microradians.
pub open spec fn look_delta(mouse: int, dt_us: int) -> int {
    div10_trunc(mouse * dt_us)
}

/// Clamp `x` into `[lo, hi]`.
pub open spec fn clamp(x: int, lo: int, hi: int) -> int {
    if x < lo {
        lo
    } else if x > hi {
        hi
    } else {
        x
    }
}

/// The camera orientation: yaw and pitch, in microradians.
pub struct Controller {
    pub yaw_urad: i64,
    pub pitch_urad: i64,
}

impl Controller {
    /// The starting orientation: yaw 1.18 rad, pitch level.
    pub fn new() -> (c: Controller)
        ensures
            c.yaw_urad == 1_180_000i64,
            c.pitch_urad == 0i64,
    {
        Controller { yaw_urad: 1_180_000, pitch_urad: 0 }
    }

    /// The exact turn a mouse delta makes over a frame, in microradians.
    fn look_delta_exec(mouse: i64, dt_us: i64) -> (r: i128)
        requires
            0 <= dt_us,
        ensures
            r as int == look_delta(mouse as int, dt_us as int),
            -(((u64::MAX as int) * (u64::MAX as int) + (u64::MAX as int)) / 10) <= r as int
                <= ((u64::MAX as int) * (u64::MAX as int) + (u64::MAX as int)) / 10,
    {
        let at: u128 = dt_us as u128;
        if mouse >= 0 {
            proof {
                assert(0 <= (mouse as int) * (dt_us as int) <= (u64::MAX as int) * (
                u64::MAX as int)) by (nonlinear_arith)
                    requires
                        0 <= mouse as int <= u64::MAX as int,
                        0 <= dt_us as int <= u64::MAX as int,
                ;
            }
            let m: u128 = ((mouse as u128) * at) / 10;
            m as i128
        } else {
            let am: u128 = (-(mouse as i128)) as u128;
            proof {
                assert(am as int * (at as int) == -((mouse as int) * (dt_us as int))
                    && 0 <= am as int * (at as int) <= (u64::MAX as int) * (u64::MAX as int) + (
                u64::MAX as int)) by (nonlinear_arith)
                    requires
                        am as int == -(mouse as int),
                        at as int == dt_us as int,
                        0 <= am as int <= u64::MAX as int + 1,
                        0 <= at as int <= u64::MAX as int,
                ;
            }
            let m: u128 = (am * at) / 10;
            proof {
                assert(mouse as int * dt_us as int <= 0) by (nonlinear_arith)
                    requires
                        mouse as int <= 0,
                        0 <= dt_us as int,
                ;
            }
            -(m as i128)
        }
    }

    /// Turn by one frame of mouse movement: yaw follows the horizontal
    /// delta, pitch follows the negated vertical delta and is clamped to
    /// `[-1.5, +1.5]` rad — whatever the deltas were, the new pitch lies
    /// in that band.  Yaw saturates at the ends of its 64-bit range.
    pub fn apply_mouse(&mut self, dx: i64, dy: i64, dt_us: i64)
        requires
            0 <= dt_us,
        ensures
            final(self).pitch_urad as int == clamp(
                old(self).pitch_urad as int - look_delta(dy as int, dt_us as int),
                -1_500_000,
                1_500_000,
            ),
            -1_500_000 <= final(self).pitch_urad as int <= 1_500_000,
            final(self).yaw_urad as int == clamp(
                old(self).yaw_urad as int + look_delta(dx as int, dt_us as int),
                i64::MIN as int,
                i64::MAX as int,
            ),
    {
        let dyaw: i128 = Self::look_delta_exec(dx, dt_us);
        let y: i128 = (self.yaw_urad as i128) + dyaw;
        self.yaw_urad = if y > i64::MAX as i128 {
            i64::MAX
        } else if y < i64::MIN as i128 {
            i64::MIN
        } else {
            y as i64
        };
        let dpitch: i128 = Self::look_delta_exec(dy, dt_us);
        let p: i128 = (self.pitch_urad as i128) - dpitch;
        self.pitch_urad = if p > 1_500_000 {
            1_500_000
        } else if p < -1_500_000 {
            -1_500_000
        } else {
            p as i64
        };
    }
}

} // verus!
