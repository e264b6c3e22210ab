//! Time, in clock ticks.
use vstd::prelude::*;

verus! {

/// Ticks since the kernel started.
pub struct Clock {
    pub ticks: u64,
}

/// What a process that sleeps for some time has to do.
#[derive(Clone, Copy, Debug, PartialEq, Eq, Structural)]
pub enum SleepProgress {
    /// Wait for the next tick.
    Wait,
    /// The time is over.
    Over,
    /// The process was killed.
    Killed,
}

/// The number of ticks so far.
pub fn get(clock: &Clock) -> (r: u64)
    ensures
        r == clock.ticks,
{
    clock.ticks
}

/// The number of ticks after one more.
pub open spec fn tick_after(ticks: u64) -> u64 {
    if ticks == u64::MAX {
        0
    } else {
        (ticks + 1) as u64
    }
}

/// How far a sleep of `time` ticks is, which began at tick `start`.
pub open spec fn sleep_after(ticks: u64, start: u64, time: u64, killed: bool) -> SleepProgress {
    if ticks - start >= time {
        SleepProgress::Over
    } else if killed {
        SleepProgress::Killed
    } else {
        SleepProgress::Wait
    }
}

/// The number of ticks after `n` more.
pub open spec fn ticks_after(ticks: u64, n: nat) -> u64
    decreases n,
{
    if n == 0 {
        ticks
    } else {
        tick_after(ticks_after(ticks, (n - 1) as nat))
    }
}

/// A process that is not killed sleeps through fewer ticks than it asked for, and no longer: it is over with
/// exactly that many, and stays so. A sleep of no ticks is over at once. One that is killed never waits.
pub proof fn lemma_sleep_lasts(start: u64, time: u64, n: nat)
    requires
        start + n <= u64::MAX,
    ensures
        ticks_after(start, n) == start + n,
        sleep_after(ticks_after(start, n), start, time, false) == if n < time { SleepProgress::Wait } else { SleepProgress::Over },
        sleep_after(ticks_after(start, n), start, time, true) == if n < time { SleepProgress::Killed } else { SleepProgress::Over },
    decreases n,
{
    if n > 0 {
        lemma_sleep_lasts(start, time, (n - 1) as nat);
    }
}

/// One more tick. Whoever waits for ticks has to be woken.
pub fn tick(clock: &mut Clock)
    ensures
        final(clock).ticks == tick_after(old(clock).ticks),
{
    clock.ticks = clock.ticks.wrapping_add(1);
}

/// Goes on with a sleep of `time` ticks that began at tick `start`.
#[must_use]
pub fn sleep(clock: &Clock, start: u64, time: u64, killed: bool) -> (r: SleepProgress)
    requires
        start <= clock.ticks,
    ensures
        r == sleep_after(clock.ticks, start, time, killed),
{
    if clock.ticks - start < time {
        if killed {
            return SleepProgress::Killed;
        }
        return SleepProgress::Wait;
    }
    SleepProgress::Over
}

} // verus!
