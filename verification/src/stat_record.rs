//! Request counters and the snapshot-trigger predicate.

use vstd::prelude::*;

verus! {

/// `x + n`, stopped at `u64::MAX`.
///
/// The counters are monotonic and never wrap: once one reaches the top
/// of the 64-bit range it stays there.
pub open spec fn sat_add(x: u64, n: nat) -> u64 {
    if x + n <= u64::MAX {
        (x + n) as u64
    } else {
        u64::MAX
    }
}

/// Adding one and then `n` more is adding `n + 1`.
pub proof fn lemma_sat_add_chain(x: u64, n: nat)
    ensures
        sat_add(sat_add(x, n), 1) == sat_add(x, n + 1),
{
}

/// Monotonic counters of the store, and the time of the last snapshot.
///
/// `last_saved_at` is in nanoseconds since the Unix epoch; a fresh
/// record stands at the epoch, so the elapsed-time half of the save
/// trigger is satisfied from the start on any ordinary clock.
#[derive(Clone, Copy, Debug, PartialEq, Eq, Structural)]
pub struct StatRecord {
    /// Operations asked of the store.
    pub requests: u64,
    /// Successful reads of a record.
    pub reads: u64,
    /// Successful writes of a record.
    pub writes: u64,
    /// The value of `writes` when the last snapshot was taken.
    pub saved_writes: u64,
    /// When the last snapshot was taken, in nanoseconds since the epoch.
    pub last_saved_at: i64,
}

impl StatRecord {
    /// The counters a record must keep: no more writes are recorded as
    /// saved than have happened.
    pub open spec fn wf(self) -> bool {
        self.saved_writes <= self.writes
    }

    pub fn new() -> (r: Self)
        ensures
            r == (StatRecord {
                requests: 0u64,
                reads: 0u64,
                writes: 0u64,
                saved_writes: 0u64,
                last_saved_at: 0i64,
            }),
            r.wf(),
    {
        StatRecord { requests: 0, reads: 0, writes: 0, saved_writes: 0, last_saved_at: 0 }
    }

    pub fn inc_requests(&mut self)
        ensures
            *final(self) == (StatRecord { requests: sat_add(old(self).requests, 1), ..*old(self) }),
            old(self).wf() ==> final(self).wf(),
    {
        if self.requests < u64::MAX {
            self.requests = self.requests + 1;
        }
    }

    pub fn inc_reads(&mut self)
        ensures
            *final(self) == (StatRecord { reads: sat_add(old(self).reads, 1), ..*old(self) }),
            old(self).wf() ==> final(self).wf(),
    {
        if self.reads < u64::MAX {
            self.reads = self.reads + 1;
        }
    }

    pub fn inc_writes(&mut self)
        ensures
            *final(self) == (StatRecord { writes: sat_add(old(self).writes, 1), ..*old(self) }),
            old(self).wf() ==> final(self).wf(),
    {
        if self.writes < u64::MAX {
            self.writes = self.writes + 1;
        }
    }

    /// True iff at least `threshold` writes have happened since the last
    /// snapshot and at least `after_ms` milliseconds have passed since it.
    pub open spec fn spec_can_save(self, after_ms: i64, threshold: u64, now: i64) -> bool {
        &&& self.writes - self.saved_writes >= threshold
        &&& (now - self.last_saved_at) >= after_ms * 1_000_000
    }

    /// The hybrid write-count / elapsed-time snapshot trigger.
    pub fn can_save(&self, after_ms: i64, threshold: u64, now: i64) -> (r: bool)
        requires
            self.wf(),
        ensures
            r == self.spec_can_save(after_ms, threshold, now),
    {
        let written: u64 = self.writes - self.saved_writes;
        let elapsed: i128 = now as i128 - self.last_saved_at as i128;
        written >= threshold && elapsed >= after_ms as i128 * 1_000_000
    }

    /// Marks every write so far as saved, at time `now`.
    pub fn update_saved_writes(&mut self, now: i64)
        ensures
            *final(self) == (StatRecord { saved_writes: old(self).writes, last_saved_at: now, ..*old(self) }),
            final(self).wf(),
    {
        self.saved_writes = self.writes;
        self.last_saved_at = now;
    }
}

impl Default for StatRecord {
    /// All counters at zero, the last save at the epoch.
    fn default() -> (r: Self)
        ensures
            r == (StatRecord {
                requests: 0u64,
                reads: 0u64,
                writes: 0u64,
                saved_writes: 0u64,
                last_saved_at: 0i64,
            }),
            r.wf(),
    {
        StatRecord::new()
    }
}

} // verus!
