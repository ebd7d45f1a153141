use vstd::prelude::*;

verus! {

/// A one-shot timer over a time line measured in nanoseconds.
#[derive(Debug, Clone, Copy, Default)]
pub struct Timer {
    duration: u64,
    start_time: u64,
    force_finish: bool,
}

impl Timer {
    pub closed spec fn spec_duration(&self) -> u64 {
        self.duration
    }

    pub closed spec fn spec_start_time(&self) -> u64 {
        self.start_time
    }

    pub closed spec fn spec_forced(&self) -> bool {
        self.force_finish
    }

    /// Whether the timer has run out at `current_time`.
    pub open spec fn spec_is_finished(&self, current_time: u64) -> bool {
        self.spec_forced() || current_time - self.spec_start_time() >= self.spec_duration()
    }

    /// The timer restarted at `now`: same duration, not forced.
    pub closed spec fn restarted(self, now: u64) -> Timer {
        Timer { duration: self.duration, start_time: now, force_finish: false }
    }

    /// The timer forced to finish.
    pub closed spec fn forced(self) -> Timer {
        Timer { force_finish: true, ..self }
    }

    /// A timer started at `start_time` for `duration`, not forced.
    pub closed spec fn started(start_time: u64, duration: u64) -> Timer {
        Timer { duration, start_time, force_finish: false }
    }

    pub fn new(start_time: u64, duration: u64) -> (r: Self)
        ensures
            r.spec_start_time() == start_time,
            r.spec_duration() == duration,
            !r.spec_forced(),
            r == Timer::started(start_time, duration),
    {
        Timer { duration, start_time, force_finish: false }
    }

    pub fn reset(&mut self, current_time: u64)
        ensures
            final(self).spec_start_time() == current_time,
            final(self).spec_duration() == old(self).spec_duration(),
            !final(self).spec_forced(),
            *final(self) == old(self).restarted(current_time),
    {
        self.start_time = current_time;
        self.force_finish = false;
    }

    pub fn finish(&mut self)
        ensures
            final(self).spec_start_time() == old(self).spec_start_time(),
            final(self).spec_duration() == old(self).spec_duration(),
            final(self).spec_forced(),
            *final(self) == old(self).forced(),
    {
        self.force_finish = true;
    }

    pub fn is_finished(&self, current_time: u64) -> (r: bool)
        requires
            !self.spec_forced() ==> current_time >= self.spec_start_time(),
        ensures
            r == self.spec_is_finished(current_time),
    {
        self.force_finish || (current_time - self.start_time >= self.duration)
    }
}

/// What a restarted, forced or fresh timer holds.
pub proof fn lemma_timer_builders(t: Timer, now: u64, duration: u64)
    ensures
        t.restarted(now).spec_start_time() == now,
        t.restarted(now).spec_duration() == t.spec_duration(),
        !t.restarted(now).spec_forced(),
        t.forced().spec_forced(),
        t.forced().spec_start_time() == t.spec_start_time(),
        t.forced().spec_duration() == t.spec_duration(),
        Timer::started(now, duration).spec_start_time() == now,
        Timer::started(now, duration).spec_duration() == duration,
        !Timer::started(now, duration).spec_forced(),
{
}

/// A reset timer is finished exactly when its duration has elapsed since the reset.
pub proof fn lemma_reset_timer_finishes_after_duration(t: Timer, now: u64, later: u64)
    requires
        t.spec_start_time() == now,
        !t.spec_forced(),
        now <= later,
    ensures
        t.spec_is_finished(later) <==> later - now >= t.spec_duration(),
{
}

} // verus!
