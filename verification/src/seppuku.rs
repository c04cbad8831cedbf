//! Inactivity watchdog state: arming, disarming, recording activity, and
//! the decision whether the process has been idle long enough to exit.
//! The caller's runtime performs the timer sleeps and the exit itself,
//! feeding the current time in as plain seconds.

use vstd::prelude::*;

verus! {

/// Ends the process (by way of its runtime) after a period of inactivity.
pub struct Seppuku {
    pub max_seconds: u64,
    pub last_activity: u64,
    pub armed: bool,
    pub timer_running: bool,
}

impl Seppuku {
    /// Creates a new instance, unarmed (not active); use `arm` to start
    /// it.
    pub fn new(max_seconds: u64) -> (r: Self)
        ensures
            r.max_seconds == max_seconds,
            !r.armed,
            !r.timer_running,
            r.last_activity == 0,
    {
        Seppuku { max_seconds, last_activity: 0, armed: false, timer_running: false }
    }

    /// Arms the watchdog at the given time.  Returns whether the caller
    /// must now start the timer task; it is started at most once, and
    /// arming an armed watchdog changes nothing.
    pub fn arm(&mut self, now_seconds: u64) -> (start_timer: bool)
        ensures
            final (self).armed,
            final (self).max_seconds == old(self).max_seconds,
            old(self).armed ==> *final (self) == *old(self) && !start_timer,
            !old(self).armed ==> final (self).last_activity == now_seconds && final (
            self).timer_running && start_timer == !old(self).timer_running,
    {
        if self.armed {
            return false;
        }
        self.last_activity = now_seconds;
        self.armed = true;
        if self.timer_running {
            false
        } else {
            self.timer_running = true;
            true
        }
    }

    /// Disarms the watchdog; the timer task, if any, keeps ticking but no
    /// longer exits the process.
    pub fn disarm(&mut self)
        ensures
            !final (self).armed,
            final (self).max_seconds == old(self).max_seconds,
            final (self).last_activity == old(self).last_activity,
            final (self).timer_running == old(self).timer_running,
    {
        self.armed = false;
    }

    /// Records activity at the given time; call this from client code to
    /// push the deadline back.
    pub fn alive(&mut self, now_seconds: u64)
        ensures
            final (self).last_activity == now_seconds,
            final (self).max_seconds == old(self).max_seconds,
            final (self).armed == old(self).armed,
            final (self).timer_running == old(self).timer_running,
    {
        self.last_activity = now_seconds;
    }

    /// The decision the timer task acts on: exit exactly when armed and
    /// idle for longer than the configured limit.
    pub fn should_exit(&self, now_seconds: u64) -> (r: bool)
        ensures
            r == (self.armed && now_seconds > self.last_activity && now_seconds
                - self.last_activity > self.max_seconds),
    {
        self.armed && now_seconds > self.last_activity && now_seconds - self.last_activity
            > self.max_seconds
    }
}

} // verus!
