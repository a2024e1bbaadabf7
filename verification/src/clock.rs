use vstd::prelude::*;

verus! {

/// The longest span of time that `std::time::Duration` holds, in nanoseconds.
pub open spec fn max_duration_nanos() -> int {
    u64::MAX as int * 1_000_000_000 + 999_999_999
}

/// Fixed-step simulation clock: real frame times are banked in `accumulator`
/// and paid out in whole steps of `dt`, with a single frame counting for at
/// most `max_frame`. All times are in nanoseconds; `t` is the simulated time.
pub struct FrameClock {
    pub dt: u128,
    pub max_frame: u128,
    pub t: u128,
    pub accumulator: u128,
}

/// A frame time as the clock counts it: at most `max_frame`.
pub open spec fn clamped_frame(frame_time: int, max_frame: int) -> int {
    if frame_time > max_frame {
        max_frame
    } else {
        frame_time
    }
}

impl FrameClock {
    /// The step is positive, less than one step is banked, and every time is
    /// one that `Duration` can hold.
    pub open spec fn wf(&self) -> bool {
        &&& 0 < self.dt <= max_duration_nanos()
        &&& self.max_frame <= max_duration_nanos()
        &&& self.t <= max_duration_nanos()
        &&& self.accumulator < self.dt
    }

    /// Banked time after a frame of `frame_time`, before steps are paid out.
    pub open spec fn banked(&self, frame_time: int) -> int {
        self.accumulator + clamped_frame(frame_time, self.max_frame as int)
    }

    /// Whether a frame of `frame_time` keeps every time within `Duration`.
    pub open spec fn can_advance(&self, frame_time: int) -> bool {
        let total: int = self.banked(frame_time);
        &&& 0 <= frame_time <= max_duration_nanos()
        &&& total <= max_duration_nanos()
        &&& self.t + (total - total % (self.dt as int)) <= max_duration_nanos()
    }

    /// A clock at time zero with nothing banked.
    pub fn new(dt: u128, max_frame: u128) -> (clock: Self)
        requires
            0 < dt <= max_duration_nanos(),
            max_frame <= max_duration_nanos(),
        ensures
            clock.wf(),
            clock.dt == dt,
            clock.max_frame == max_frame,
            clock.t == 0,
            clock.accumulator == 0,
    {
        FrameClock { dt, max_frame, t: 0, accumulator: 0 }
    }

    /// Whether `advance` can take a frame of `frame_time` without leaving the
    /// range of `Duration`.
    pub fn fits_frame(&self, frame_time: u128) -> (r: bool)
        requires
            self.wf(),
        ensures
            r == self.can_advance(frame_time as int),
    {
        let max: u128 = 18_446_744_073_709_551_615u128 * 1_000_000_000u128 + 999_999_999u128;
        if frame_time > max {
            return false;
        }
        let ft: u128 = if frame_time > self.max_frame {
            self.max_frame
        } else {
            frame_time
        };
        let total: u128 = self.accumulator + ft;
        if total > max {
            return false;
        }
        proof {
            vstd::arithmetic::div_mod::lemma_mod_bound(total as int, self.dt as int);
            vstd::arithmetic::div_mod::lemma_mod_decreases(total as nat, self.dt as nat);
        }
        let paid: u128 = total - total % self.dt;
        self.t <= max - paid
    }

    /// Banks a frame of `frame_time` (capped at `max_frame`) and pays out as
    /// many whole steps as the bank holds; returns how many steps to simulate.
    pub fn advance(&mut self, frame_time: u128) -> (steps: u128)
        requires
            old(self).wf(),
            old(self).can_advance(frame_time as int),
        ensures
            final(self).wf(),
            final(self).dt == old(self).dt,
            final(self).max_frame == old(self).max_frame,
            steps == old(self).banked(frame_time as int) / (old(self).dt as int),
            final(self).accumulator == old(self).banked(frame_time as int) % (old(self).dt as int),
            final(self).t == old(self).t + steps * old(self).dt,
            frame_time <= old(self).max_frame ==> final(self).t + final(self).accumulator == old(
                self,
            ).t + old(self).accumulator + frame_time,
            frame_time > old(self).max_frame ==> final(self).t + final(self).accumulator == old(
                self,
            ).t + old(self).accumulator + old(self).max_frame,
    {
        let ft: u128 = if frame_time > self.max_frame {
            self.max_frame
        } else {
            frame_time
        };
        let total: u128 = self.accumulator + ft;
        let steps: u128 = total / self.dt;
        let rest: u128 = total % self.dt;
        proof {
            vstd::arithmetic::div_mod::lemma_fundamental_div_mod(total as int, self.dt as int);
            assert(steps * self.dt == self.dt * steps) by (nonlinear_arith);
        }
        self.t = self.t + (total - rest);
        self.accumulator = rest;
        steps
    }
}

/// Time is conserved: across a call of `advance`, simulated time plus banked
/// time grows by exactly the capped frame time, the steps paid out account for
/// all simulated time added, and less than one step stays banked.
pub proof fn lemma_advance_conserves(
    before: FrameClock,
    after: FrameClock,
    frame_time: int,
    steps: int,
)
    requires
        before.wf(),
        0 <= frame_time,
        after.dt == before.dt,
        steps == before.banked(frame_time) / (before.dt as int),
        after.accumulator == before.banked(frame_time) % (before.dt as int),
        after.t == before.t + steps * before.dt,
    ensures
        after.t + after.accumulator == before.t + before.accumulator + clamped_frame(
            frame_time,
            before.max_frame as int,
        ),
        after.accumulator < after.dt,
        0 <= steps,
        frame_time <= before.max_frame ==> after.t + after.accumulator == before.t
            + before.accumulator + frame_time,
{
    let total: int = before.banked(frame_time);
    let dt: int = before.dt as int;
    vstd::arithmetic::div_mod::lemma_fundamental_div_mod(total, dt);
    vstd::arithmetic::div_mod::lemma_mod_bound(total, dt);
    assert(steps * dt == dt * steps) by (nonlinear_arith);
    assert(0 <= steps) by (nonlinear_arith)
        requires
            0 <= total,
            0 < dt,
            steps == total / dt,
    ;
}

/// A capped frame time is the smaller of the frame time and the cap.
pub proof fn lemma_clamped_frame_is_min(frame_time: int, max_frame: int)
    ensures
        clamped_frame(frame_time, max_frame) <= frame_time,
        clamped_frame(frame_time, max_frame) <= max_frame,
        clamped_frame(frame_time, max_frame) == frame_time || clamped_frame(frame_time, max_frame)
            == max_frame,
        frame_time > max_frame ==> clamped_frame(frame_time, max_frame) == max_frame,
        frame_time <= max_frame ==> clamped_frame(frame_time, max_frame) == frame_time,
{
}

/// A well-formed clock can always take a frame when its time, the frame and
/// the cap each fit in 64 bits of nanoseconds.
pub proof fn lemma_can_advance_small(clock: FrameClock, frame_time: int)
    requires
        clock.wf(),
        0 <= frame_time <= u64::MAX,
        clock.t <= u64::MAX,
        clock.dt <= u64::MAX,
        clock.max_frame <= u64::MAX,
    ensures
        clock.can_advance(frame_time),
{
    let total: int = clock.banked(frame_time);
    vstd::arithmetic::div_mod::lemma_mod_bound(total, clock.dt as int);
}

} // verus!
