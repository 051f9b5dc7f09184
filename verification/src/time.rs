//! The game loop clock and its fixed-timestep accumulator.
//!
//! All durations are whole nanoseconds held in `u64`.

use vstd::prelude::*;

verus! {

/// `std::time::Instant`, carried as an opaque value.
#[verifier::external_type_specification]
#[verifier::external_body]
pub struct ExInstant(std::time::Instant);

/// The current instant, `Instant::now()`. What it returns depends on the clock.
#[verifier::external_body]
fn clock_now() -> std::time::Instant {
    std::time::Instant::now()
}

/// Whole nanoseconds elapsed since `start`, `start.elapsed().as_nanos()`.
/// What it returns depends on the clock; nothing is stated of it.
#[verifier::external_body]
fn nanos_since(start: &std::time::Instant) -> u128 {
    start.elapsed().as_nanos()
}

/// The fixed timestep of the physics loop: one sixtieth of a second, rounded
/// to the nearest nanosecond.
pub const FIXED_TIMESTEP_NANOS: u64 = 16_666_667;

/// One check of the fixed-update accumulator: whether a fixed update is due,
/// and the accumulator after the check.
pub open spec fn fixed_step(accumulator: u64, timestep: u64) -> (bool, u64) {
    if accumulator >= timestep {
        (true, (accumulator - timestep) as u64)
    } else {
        (false, accumulator)
    }
}

/// Time tracking for the game loop.
#[derive(Debug, Clone, Copy)]
pub struct Time {
    start_time: std::time::Instant,
    last_update: u64,
    delta_time: u64,
    total_time: u64,
    fixed_timestep: u64,
    accumulator: u64,
}

impl Time {
    /// Every clock runs at the 60 Hz fixed timestep.
    #[verifier::type_invariant]
    spec fn timestep_is_fixed(self) -> bool {
        self.fixed_timestep == FIXED_TIMESTEP_NANOS
    }

    /// Nanoseconds from the clock's start to its last update.
    pub closed spec fn last_update_spec(&self) -> u64 {
        self.last_update
    }

    /// Time not yet consumed by fixed updates, in nanoseconds.
    pub closed spec fn accumulator_spec(&self) -> u64 {
        self.accumulator
    }

    pub closed spec fn delta_spec(&self) -> u64 {
        self.delta_time
    }

    pub closed spec fn total_spec(&self) -> u64 {
        self.total_time
    }

    /// A clock started now, with no time elapsed and a 60 Hz fixed timestep.
    pub fn new() -> (t: Self)
        ensures
            t.last_update_spec() == 0,
            t.delta_spec() == 0,
            t.total_spec() == 0,
            t.accumulator_spec() == 0,
    {
        Time {
            start_time: clock_now(),
            last_update: 0,
            delta_time: 0,
            total_time: 0,
            fixed_timestep: FIXED_TIMESTEP_NANOS,
            accumulator: 0,
        }
    }

    /// Advances the clock to `now`, given in nanoseconds since the clock's
    /// start: the delta is the time since the last update (zero if `now` lies
    /// before it, as `Instant` subtraction saturates), and the accumulator
    /// gains the delta, saturating at `u64::MAX`.
    pub fn update_to(&mut self, now: u64)
        ensures
            final(self).delta_spec() == (if now >= old(self).last_update_spec() {
                now - old(self).last_update_spec()
            } else {
                0
            }),
            final(self).last_update_spec() == now,
            final(self).total_spec() == now,
            final(self).accumulator_spec() == (if old(self).accumulator_spec() + final(self).delta_spec() <= u64::MAX {
                old(self).accumulator_spec() + final(self).delta_spec()
            } else {
                u64::MAX as int
            }),
    {
        proof {
            use_type_invariant(&*self);
        }
        self.delta_time = now.saturating_sub(self.last_update);
        self.last_update = now;
        self.total_time = now;
        self.accumulator = self.accumulator.saturating_add(self.delta_time);
    }

    /// Reads the clock and advances to the current instant.
    pub fn update(&mut self)
        ensures
            final(self).total_spec() == final(self).last_update_spec(),
            final(self).delta_spec() == (if final(self).last_update_spec() >= old(self).last_update_spec() {
                final(self).last_update_spec() - old(self).last_update_spec()
            } else {
                0
            }),
            final(self).accumulator_spec() == (if old(self).accumulator_spec() + final(self).delta_spec() <= u64::MAX {
                old(self).accumulator_spec() + final(self).delta_spec()
            } else {
                u64::MAX as int
            }),
    {
        let elapsed = nanos_since(&self.start_time);
        let now: u64 = if elapsed > u64::MAX as u128 {
            u64::MAX
        } else {
            elapsed as u64
        };
        self.update_to(now);
    }

    /// The time between the last two updates, in nanoseconds.
    pub fn delta_time(&self) -> (d: u64)
        ensures
            d == self.delta_spec(),
    {
        self.delta_time
    }

    /// The time from the start to the last update, in nanoseconds.
    pub fn elapsed_time(&self) -> (d: u64)
        ensures
            d == self.total_spec(),
    {
        self.total_time
    }

    /// The fixed timestep, in nanoseconds: the same for every clock, whatever
    /// updates and checks it has been through.
    pub fn fixed_timestep(&self) -> (d: u64)
        ensures
            d == FIXED_TIMESTEP_NANOS,
    {
        proof {
            use_type_invariant(self);
        }
        self.fixed_timestep
    }

    /// Time not yet consumed by fixed updates, in nanoseconds.
    pub fn accumulator(&self) -> (d: u64)
        ensures
            d == self.accumulator_spec(),
    {
        self.accumulator
    }

    /// Sets the time not yet consumed by fixed updates, in nanoseconds.
    pub fn set_accumulator(&mut self, nanos: u64)
        ensures
            final(self).accumulator_spec() == nanos,
            final(self).delta_spec() == old(self).delta_spec(),
            final(self).total_spec() == old(self).total_spec(),
            final(self).last_update_spec() == old(self).last_update_spec(),
    {
        proof {
            use_type_invariant(&*self);
        }
        self.accumulator = nanos;
    }

    /// Whether a fixed update is due; if so, one timestep is taken from the
    /// accumulator.
    pub fn should_fixed_update(&mut self) -> (due: bool)
        ensures
            (due, final(self).accumulator_spec()) == fixed_step(old(self).accumulator_spec(), FIXED_TIMESTEP_NANOS),
            final(self).delta_spec() == old(self).delta_spec(),
            final(self).total_spec() == old(self).total_spec(),
            final(self).last_update_spec() == old(self).last_update_spec(),
    {
        proof {
            use_type_invariant(&*self);
        }
        if self.accumulator >= self.fixed_timestep {
            self.accumulator = self.accumulator - self.fixed_timestep;
            true
        } else {
            false
        }
    }
}

impl Time {
    /// The engine's catch-up rule: checks the accumulator (see
    /// `should_fixed_update`) and grants a fixed update for each due check,
    /// until a check finds none due or `max` have been granted; the check
    /// that finds the limit reached has already taken its timestep. Returns
    /// how many were granted.
    pub fn take_fixed_updates(&mut self, max: u32) -> (count: u32)
        ensures
            count == capped((old(self).accumulator_spec() / FIXED_TIMESTEP_NANOS) as int, max as int),
            final(self).accumulator_spec() == old(self).accumulator_spec() - capped(
                (old(self).accumulator_spec() / FIXED_TIMESTEP_NANOS) as int,
                max + 1,
            ) * FIXED_TIMESTEP_NANOS,
            final(self).delta_spec() == old(self).delta_spec(),
            final(self).total_spec() == old(self).total_spec(),
            final(self).last_update_spec() == old(self).last_update_spec(),
    {
        proof {
            use_type_invariant(&*self);
        }
        let ghost acc = self.accumulator as int;
        let ghost step = self.fixed_timestep as int;
        let mut count: u32 = 0;
        let mut taken: u64 = 0;
        loop
            invariant_except_break
                count <= max,
                taken == count,
                self.accumulator == acc - taken * step,
                taken * step <= acc,
                self.fixed_timestep == step,
                step == FIXED_TIMESTEP_NANOS,
                self.delta_time == old(self).delta_time,
                self.total_time == old(self).total_time,
                self.last_update == old(self).last_update,
            ensures
                self.fixed_timestep == step,
                self.delta_time == old(self).delta_time,
                self.total_time == old(self).total_time,
                self.last_update == old(self).last_update,
                count == capped(acc / step, max as int),
                self.accumulator == acc - capped(acc / step, max + 1) * step,
            decreases max - count,
        {
            let due = self.should_fixed_update();
            proof {
                use_type_invariant(&*self);
            }
            if !due {
                proof {
                    vstd::arithmetic::div_mod::lemma_fundamental_div_mod_converse(acc, step, taken as int, self.accumulator as int);
                }
                break;
            }
            if count >= max {
                proof {
                    assert((taken + 1) * step == taken * step + step) by (nonlinear_arith);
                    assert(acc / step >= max + 1) by (nonlinear_arith)
                        requires
                            (max + 1) * step <= acc,
                            step > 0,
                    {
                        vstd::arithmetic::div_mod::lemma_fundamental_div_mod(acc, step);
                        assert(step * (acc / step) + acc % step == acc);
                        assert(0 <= acc % step < step);
                    }
                }
                break;
            }
            proof {
                assert((taken + 1) * step == taken * step + step) by (nonlinear_arith);
            }
            count = count + 1;
            taken = taken + 1;
        }
        count
    }
}

impl Default for Time {
    /// A clock started now (see `new`).
    fn default() -> (t: Self)
        ensures
            t.last_update_spec() == 0,
            t.delta_spec() == 0,
            t.total_spec() == 0,
            t.accumulator_spec() == 0,
    {
        Self::new()
    }
}

/// `q`, but no more than `cap`.
pub open spec fn capped(q: int, cap: int) -> int {
    if q < cap {
        q
    } else {
        cap
    }
}

/// How many consecutive checks of the accumulator report a due fixed update
/// before the first that does not.
pub open spec fn due_updates(accumulator: u64, timestep: u64) -> nat
    decreases accumulator,
{
    if timestep > 0 && accumulator >= timestep {
        1 + due_updates((accumulator - timestep) as u64, timestep)
    } else {
        0
    }
}

/// The accumulator after checking until a check reports no fixed update due.
pub open spec fn drained(accumulator: u64, timestep: u64) -> u64
    decreases accumulator,
{
    if timestep > 0 && accumulator >= timestep {
        drained((accumulator - timestep) as u64, timestep)
    } else {
        accumulator
    }
}

/// Fixed-timestep law: with a positive timestep, checking repeatedly until a
/// check reports no update due grants exactly `accumulator / timestep` fixed
/// updates and leaves `accumulator % timestep` in the accumulator.
pub proof fn lemma_fixed_updates_drain(accumulator: u64, timestep: u64)
    requires
        timestep > 0,
    ensures
        due_updates(accumulator, timestep) == accumulator / timestep,
        drained(accumulator, timestep) == accumulator % timestep,
    decreases accumulator,
{
    if accumulator >= timestep {
        let rest = (accumulator - timestep) as u64;
        lemma_fixed_updates_drain(rest, timestep);
        let q = rest as int / timestep as int;
        let r = rest as int % timestep as int;
        vstd::arithmetic::div_mod::lemma_fundamental_div_mod(rest as int, timestep as int);
        assert((q + 1) * timestep == q * timestep + timestep) by (nonlinear_arith);
        vstd::arithmetic::div_mod::lemma_fundamental_div_mod_converse(
            accumulator as int,
            timestep as int,
            q + 1,
            r,
        );
    } else {
        vstd::arithmetic::div_mod::lemma_fundamental_div_mod_converse(
            accumulator as int,
            timestep as int,
            0,
            accumulator as int,
        );
    }
}


/// The sum of `s`.
pub open spec fn sum_nanos(s: Seq<u64>) -> int
    decreases s.len(),
{
    if s.len() == 0 {
        0
    } else {
        sum_nanos(s.drop_last()) + s.last()
    }
}

/// The durations of the last frames, in nanoseconds, for a smoothed frame
/// rate.
#[derive(Debug, Clone)]
pub struct FrameWindow {
    frame_count: u32,
    frame_times: Vec<u64>,
    max_samples: usize,
}

/// The number of frames the window averages over.
pub const FRAME_SAMPLES: usize = 60;

/// The frame rate is recomputed every this many frames.
pub const REFRESH_EVERY: u32 = 10;

impl FrameWindow {
    /// The frame durations kept, oldest first.
    pub closed spec fn samples(&self) -> Seq<u64> {
        self.frame_times@
    }

    /// The number of frames recorded.
    pub closed spec fn count(&self) -> u32 {
        self.frame_count
    }

    /// The most frame durations kept.
    pub closed spec fn capacity(&self) -> usize {
        self.max_samples
    }

    /// No more durations are kept than the capacity allows.
    pub closed spec fn wf(&self) -> bool {
        0 < self.max_samples && self.frame_times@.len() <= self.max_samples
    }

    /// No frame recorded; room for `FRAME_SAMPLES` durations.
    pub fn new() -> (w: Self)
        ensures
            w.wf(),
            w.samples() == Seq::<u64>::empty(),
            w.count() == 0,
            w.capacity() == FRAME_SAMPLES,
    {
        FrameWindow { frame_count: 0, frame_times: Vec::new(), max_samples: FRAME_SAMPLES }
    }

    /// The number of frames recorded.
    pub fn frame_count(&self) -> (n: u32)
        ensures
            n == self.count(),
    {
        self.frame_count
    }

    /// Records a frame that took `nanos`: the duration joins the window and
    /// the oldest leaves when the window is over capacity. True when the
    /// frame count reaches a multiple of `REFRESH_EVERY`, when the frame rate
    /// is due to be recomputed.
    pub fn record(&mut self, nanos: u64) -> (refresh: bool)
        requires
            old(self).wf(),
            old(self).count() < u32::MAX,
        ensures
            final(self).wf(),
            final(self).capacity() == old(self).capacity(),
            final(self).samples() == (if old(self).samples().len() + 1 > old(self).capacity() {
                old(self).samples().push(nanos).drop_first()
            } else {
                old(self).samples().push(nanos)
            }),
            final(self).count() == old(self).count() + 1,
            refresh == ((old(self).count() + 1) % (REFRESH_EVERY as int) == 0),
    {
        self.frame_times.push(nanos);
        if self.frame_times.len() > self.max_samples {
            self.frame_times.remove(0);
        }
        self.frame_count = self.frame_count + 1;
        self.frame_count % REFRESH_EVERY == 0 && self.frame_times.len() > 0
    }

    /// The mean of the kept durations, rounded down to the nanosecond; none
    /// when no frame is kept.
    pub fn average_nanos(&self) -> (avg: Option<u64>)
        ensures
            match avg {
                None => self.samples().len() == 0,
                Some(a) => self.samples().len() > 0 && a == sum_nanos(self.samples()) / (self.samples().len() as int),
            },
    {
        let n = self.frame_times.len();
        if n == 0 {
            return None;
        }
        let mut total: u128 = 0;
        let mut i: usize = 0;
        while i < n
            invariant
                n == self.frame_times@.len(),
                i <= n,
                total == sum_nanos(self.frame_times@.take(i as int)),
                total <= i * (u64::MAX as int),
            decreases n - i,
        {
            proof {
                assert(self.frame_times@.take(i as int + 1).drop_last() =~= self.frame_times@.take(i as int));
                assert(n <= usize::MAX);
            }
            total = total + self.frame_times[i] as u128;
            i = i + 1;
        }
        proof {
            assert(self.frame_times@.take(n as int) =~= self.frame_times@);
            assert((total as int) / (n as int) <= u64::MAX) by (nonlinear_arith)
                requires
                    total <= n * (u64::MAX as int),
                    n > 0,
            ;
        }
        Some((total / (n as u128)) as u64)
    }
}

} // verus!
