//! Calming down the results of watching folders for changes.
//!
//! File systems are chatty: copying one file can fire a dozen events, and
//! copying a folder can fire thousands per second. A panel that reloaded on
//! every one of them would be unusable, so [`Coalescer`] collects a burst of
//! changes and says when it's worth looking at the folder again.
//!
//! Times are nanoseconds on any clock that only goes forwards (the caller's
//! `Instant`s, counted from a start of its choosing).
use vstd::prelude::*;

verus! {

/// How long a folder must be quiet before a burst of changes counts as over: 200 ms.
pub const DEFAULT_SETTLE: u64 = 200_000_000;

/// How long we'll keep waiting for quiet before refreshing anyway, so that a
/// long-running copy still shows its progress in the panel: 1 s.
pub const DEFAULT_MAX_WAIT: u64 = 1_000_000_000;

/// What a coalescer holds: its two periods, and when the current burst started and
/// last changed, if one is in progress.
pub struct CoalescerV {
    pub settle: u64,
    pub max_wait: u64,
    pub first: Option<u64>,
    pub last: Option<u64>,
}

/// `a - b`, or zero when `b` is later: a clock that seems to jump backwards just
/// delays a refresh.
pub open spec fn since(a: u64, b: u64) -> int {
    if a >= b {
        a - b
    } else {
        0
    }
}

/// The state after a change at `now`: the burst starts now unless one is going on,
/// and its latest change is now.
pub open spec fn touch_spec(c: CoalescerV, now: u64) -> CoalescerV {
    CoalescerV {
        first: match c.first {
            Some(f) => Some(f),
            None => Some(now),
        },
        last: Some(now),
        ..c
    }
}

/// Whether a reload is due at `now`, and the state after asking: due when a burst
/// is going on and the folder has been quiet for `settle`, or the burst has lasted
/// `max_wait`; saying yes ends the burst.
pub open spec fn due_spec(c: CoalescerV, now: u64) -> (bool, CoalescerV) {
    match (c.first, c.last) {
        (Some(first), Some(last)) => if since(now, last) >= c.settle || since(now, first) >= c.max_wait {
            (true, CoalescerV { first: None, last: None, ..c })
        } else {
            (false, c)
        },
        _ => (false, c),
    }
}

pub open spec fn pending_spec(c: CoalescerV) -> bool {
    c.first is Some
}

/// Turns a burst of file-system events into a few refreshes.
///
/// Changes are reported when the folder has been quiet for `settle`, or every
/// `max_wait` while events keep arriving, whichever comes first.
///
/// It has no clock of its own: the caller passes the current time in. That
/// keeps it predictable and lets the tests run instantly instead of sleeping.
#[derive(Debug)]
pub struct Coalescer {
    settle: u64,
    max_wait: u64,
    /// When the current burst started, if one is in progress.
    first: Option<u64>,
    /// When the most recent change of the current burst arrived.
    last: Option<u64>,
}

impl View for Coalescer {
    type V = CoalescerV;

    closed spec fn view(&self) -> CoalescerV {
        CoalescerV { settle: self.settle, max_wait: self.max_wait, first: self.first, last: self.last }
    }
}

impl Clone for Coalescer {
    fn clone(&self) -> (r: Self)
        ensures
            r@ == self@,
    {
        Coalescer { settle: self.settle, max_wait: self.max_wait, first: self.first, last: self.last }
    }
}

impl Coalescer {
    /// A coalescer with no burst going on.
    pub fn new(settle: u64, max_wait: u64) -> (r: Self)
        ensures
            r@ == (CoalescerV { settle, max_wait, first: None, last: None }),
    {
        Coalescer { settle, max_wait, first: None, last: None }
    }

    /// Records that the folder changed.
    pub fn touch(&mut self, now: u64)
        ensures
            final(self)@ == touch_spec(old(self)@, now),
    {
        if self.first.is_none() {
            self.first = Some(now);
        }
        self.last = Some(now);
    }

    /// Is a change waiting to be shown?
    pub fn is_pending(&self) -> (r: bool)
        ensures
            r == pending_spec(self@),
    {
        self.first.is_some()
    }

    /// Whether the folder should be reloaded now. Says yes at most once per
    /// burst; saying yes ends the burst.
    pub fn due(&mut self, now: u64) -> (r: bool)
        ensures
            (r, final(self)@) == due_spec(old(self)@, now),
    {
        let (first, last) = match (self.first, self.last) {
            (Some(first), Some(last)) => (first, last),
            _ => return false,
        };
        let quiet = if now >= last {
            now - last
        } else {
            0
        };
        let waited = if now >= first {
            now - first
        } else {
            0
        };
        if quiet >= self.settle || waited >= self.max_wait {
            self.first = None;
            self.last = None;
            true
        } else {
            false
        }
    }
}

impl Default for Coalescer {
    fn default() -> (r: Self)
        ensures
            r@ == (CoalescerV {
                settle: DEFAULT_SETTLE,
                max_wait: DEFAULT_MAX_WAIT,
                first: None,
                last: None,
            }),
    {
        Coalescer::new(DEFAULT_SETTLE, DEFAULT_MAX_WAIT)
    }
}

/// A reload is reported at most once per burst: once `due` has said yes, it says no
/// at every later time until the folder changes again.
pub proof fn lemma_due_at_most_once_per_burst(c: CoalescerV, t1: u64, t2: u64)
    requires
        due_spec(c, t1).0,
    ensures
        !pending_spec(due_spec(c, t1).1),
        !due_spec(due_spec(c, t1).1, t2).0,
{
}

/// A folder that has not changed is never due.
pub proof fn lemma_quiet_folder_never_due(c: CoalescerV, now: u64)
    requires
        !pending_spec(c),
        c.last is None,
    ensures
        !due_spec(c, now).0,
        due_spec(c, now).1 == c,
{
}

/// A change is reported once the folder has been quiet for the settle period, and
/// while changes keep coming, no later than the longest wait after the first.
pub proof fn lemma_change_is_reported(c: CoalescerV, t: u64, now: u64)
    ensures
        pending_spec(touch_spec(c, t)),
        now >= t && now - t >= c.settle ==> due_spec(touch_spec(c, t), now).0,
        match c.first {
            Some(f) => now >= f && now - f >= c.max_wait ==> due_spec(touch_spec(c, t), now).0,
            None => now >= t && now - t >= c.max_wait ==> due_spec(touch_spec(c, t), now).0,
        },
{
}

/// The state after changes at each of `times`, in order.
pub open spec fn touched(c: CoalescerV, times: Seq<u64>) -> CoalescerV
    decreases times.len(),
{
    if times.len() == 0 {
        c
    } else {
        touch_spec(touched(c, times.drop_last()), times.last())
    }
}

proof fn lemma_touched(c: CoalescerV, times: Seq<u64>)
    requires
        c.first is None,
        c.last is None,
    ensures
        touched(c, times).settle == c.settle,
        touched(c, times).max_wait == c.max_wait,
        times.len() == 0 ==> touched(c, times) == c,
        times.len() > 0 ==> touched(c, times).first == Some(times[0]) && touched(c, times).last == Some(
            times.last(),
        ),
    decreases times.len(),
{
    if times.len() > 0 {
        lemma_touched(c, times.drop_last());
        if times.len() > 1 {
            assert(times.drop_last()[0] == times[0]);
        }
    }
}

/// What a burst comes to: after changes at `times` since the coalescer was made
/// or last said yes, a change is pending exactly when there was one, and a
/// reload is due at `now` exactly when there was one and the folder has been
/// quiet for the settle period since the last, or the longest wait has passed
/// since the first. Saying yes ends the burst; saying no changes nothing.
pub proof fn lemma_burst(c: CoalescerV, times: Seq<u64>, now: u64)
    requires
        c.first is None,
        c.last is None,
    ensures
        pending_spec(touched(c, times)) == (times.len() > 0),
        due_spec(touched(c, times), now).0 == (times.len() > 0 && (since(now, times.last()) >= c.settle || since(
            now,
            times[0],
        ) >= c.max_wait)),
        due_spec(touched(c, times), now).0 ==> due_spec(touched(c, times), now).1 == c,
        !due_spec(touched(c, times), now).0 ==> due_spec(touched(c, times), now).1 == touched(c, times),
{
    lemma_touched(c, times);
}

} // verus!
