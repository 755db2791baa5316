use crate::entry::{FunctionKey, ProfileEntry, ProfilingResult, Table};
use vstd::prelude::*;

verus! {

/// One open invocation. Times are readings of a monotonic clock, in nanoseconds.
#[derive(Clone, Copy, Debug, PartialEq, Eq, Hash, Structural)]
pub struct CallFrame {
    /// When the function was entered.
    pub entry: u64,
    /// When the current stretch of the function's own work began.
    pub inner_start: u64,
    /// The stack depth at which it was entered.
    pub level: usize,
    /// The function that was entered.
    pub key: FunctionKey,
    /// Whether a callee is running, so that no self time accrues.
    pub suspended: bool,
}

/// The time from `start` to `now`, zero where `now` is not later.
pub open spec fn elapsed(start: u64, now: u64) -> nat {
    if now >= start {
        (now - start) as nat
    } else {
        0
    }
}

/// Computes `elapsed`.
pub fn since(start: u64, now: u64) -> (d: u64)
    ensures
        d == elapsed(start, now),
{
    if now >= start {
        now - start
    } else {
        0
    }
}

/// The table after the self time that `f` has accrued up to `now` was added
/// to its entry.
pub open spec fn flushed(t: Table, f: CallFrame, now: u64) -> Table {
    let e = t[f.key.0];
    t.insert(
        f.key.0,
        ProfileEntry {
            total_self_time: (e.total_self_time + elapsed(f.inner_start, now)) as u64,
            ..e
        },
    )
}

/// The table after `f` returned at `now`: its self time is added, one
/// invocation fewer is open, and where none is left open the time since `f`
/// was entered is added to the total.
pub open spec fn closed(t: Table, f: CallFrame, now: u64) -> Table {
    let e = t[f.key.0];
    let depth = (e.recursion_depth - 1) as usize;
    t.insert(
        f.key.0,
        ProfileEntry {
            total_self_time: (e.total_self_time + elapsed(f.inner_start, now)) as u64,
            recursion_depth: depth,
            total_time: if depth == 0 {
                (e.total_time + elapsed(f.entry, now)) as u64
            } else {
                e.total_time
            },
            ..e
        },
    )
}

/// The frame with its self-time clock running: a suspended frame starts a
/// new stretch at `now`, a running one is left as it is.
pub open spec fn resumed(f: CallFrame, now: u64) -> CallFrame {
    if f.suspended {
        CallFrame { inner_start: now, suspended: false, ..f }
    } else {
        f
    }
}

/// Whether the self time of `f` can be added to its entry at `now`.
pub open spec fn can_flush(t: Table, f: CallFrame, now: u64) -> bool {
    &&& !f.suspended
    &&& t.contains_key(f.key.0)
    &&& t[f.key.0].total_self_time + elapsed(f.inner_start, now) <= u64::MAX
}

/// Whether `f` can be closed at `now`: it is running, its entry counts it
/// as open, and the sums fit.
pub open spec fn can_close(t: Table, f: CallFrame, now: u64) -> bool {
    &&& can_flush(t, f, now)
    &&& t[f.key.0].recursion_depth >= 1
    &&& t[f.key.0].recursion_depth == 1 ==> t[f.key.0].total_time + elapsed(f.entry, now)
        <= u64::MAX
}

impl CallFrame {
    /// The frame of a function entered at `now` at depth `level`.
    pub fn new(level: usize, key: FunctionKey, now: u64) -> (f: Self)
        ensures
            f == (CallFrame { entry: now, inner_start: now, level, key, suspended: false }),
    {
        CallFrame { entry: now, inner_start: now, level, key, suspended: false }
    }

    /// Records the return of this invocation at `now`.
    pub fn close(&self, result: &mut ProfilingResult, now: u64)
        requires
            can_close(old(result).table(), *self, now),
        ensures
            final(result).table() == closed(old(result).table(), *self, now),
            final(result).total_time == old(result).total_time,
    {
        broadcast use vstd::std_specs::hash::group_hash_axioms;

        let k = self.key.0;
        let found = result.data.remove(&k);
        if let Some(mut e) = found {
            e.total_self_time = e.total_self_time + since(self.inner_start, now);
            e.recursion_depth = e.recursion_depth - 1;
            if e.recursion_depth == 0 {
                e.total_time = e.total_time + since(self.entry, now);
            }
            result.data.insert(k, e);
        }
        assert(final(result).table() =~= closed(old(result).table(), *self, now));
    }

    /// Stops the self-time clock at `now`, because a callee is entered.
    pub fn suspend(&mut self, result: &mut ProfilingResult, now: u64)
        requires
            can_flush(old(result).table(), *old(self), now),
        ensures
            final(result).table() == flushed(old(result).table(), *old(self), now),
            final(result).total_time == old(result).total_time,
            *final(self) == (CallFrame { suspended: true, ..*old(self) }),
    {
        broadcast use vstd::std_specs::hash::group_hash_axioms;

        let k = self.key.0;
        let found = result.data.remove(&k);
        if let Some(mut e) = found {
            e.total_self_time = e.total_self_time + since(self.inner_start, now);
            result.data.insert(k, e);
        }
        self.suspended = true;
        assert(final(result).table() =~= flushed(old(result).table(), *old(self), now));
    }

    /// Starts the self-time clock again at `now`, because control has come
    /// back; does nothing to a frame that is running.
    pub fn resume(&mut self, now: u64)
        ensures
            *final(self) == resumed(*old(self), now),
    {
        if !self.suspended {
            return ;
        }
        self.inner_start = now;
        self.suspended = false;
    }
}

} // verus!
