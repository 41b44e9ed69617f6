//! When maintenance is to run.

use vstd::prelude::*;

verus! {

/// How long to wait before maintenance runs for the first time.
pub const PERIODICAL_SYNC_INITIAL_DELAY_MILLIS: u64 = 500;

/// How long to wait between two runs at the normal pace.
pub const PERIODICAL_SYNC_NORMAL_PACE_MILLIS: u64 = 300;

/// How long to wait between two runs at the fast pace.
pub const PERIODICAL_SYNC_FAST_PACE_NANOS: u64 = 500;

/// How soon maintenance is to run again.
#[derive(Clone, Copy, PartialEq, Eq, Structural, Debug)]
pub enum SyncPace {
    Normal,
    Fast,
}

/// How long to wait between two runs at `pace`, in nanoseconds.
pub open spec fn pace_nanos(pace: SyncPace) -> nat {
    match pace {
        SyncPace::Normal => PERIODICAL_SYNC_NORMAL_PACE_MILLIS as nat * 1_000_000,
        SyncPace::Fast => PERIODICAL_SYNC_FAST_PACE_NANOS as nat,
    }
}

/// Whether maintenance was asked for, and at which pace it runs.
pub struct Housekeeper {
    scheduled: bool,
    pace: SyncPace,
}

impl Housekeeper {
    /// Whether maintenance was asked for and has not run since.
    pub closed spec fn scheduled(&self) -> bool {
        self.scheduled
    }

    /// The pace at which maintenance runs.
    pub closed spec fn pace(&self) -> SyncPace {
        self.pace
    }

    /// A housekeeper at the normal pace, with nothing asked of it.
    pub fn new() -> (housekeeper: Self)
        ensures
            !housekeeper.scheduled(),
            housekeeper.pace() == SyncPace::Normal,
    {
        Housekeeper { scheduled: false, pace: SyncPace::Normal }
    }

    /// Whether maintenance was asked for and has not run since.
    pub fn is_scheduled(&self) -> (scheduled: bool)
        ensures
            scheduled == self.scheduled(),
    {
        self.scheduled
    }

    /// Asks for maintenance, and says whether nobody had before.
    pub fn try_schedule_sync(&mut self) -> (first: bool)
        ensures
            final(self).scheduled(),
            final(self).pace() == old(self).pace(),
            first == !old(self).scheduled(),
    {
        let first: bool = !self.scheduled;
        self.scheduled = true;
        first
    }

    /// Notes that maintenance ran, and the pace that it asks for. It asks for
    /// none where the pace is to stay.
    pub fn sync_done(&mut self, pace: Option<SyncPace>)
        ensures
            !final(self).scheduled(),
            final(self).pace() == (match pace {
                Some(p) => p,
                None => old(self).pace(),
            }),
    {
        self.scheduled = false;
        if let Some(p) = pace {
            self.pace = p;
        }
    }

    /// How long to wait before maintenance runs again, in nanoseconds.
    pub fn interval_nanos(&self) -> (nanos: u64)
        ensures
            nanos == pace_nanos(self.pace()),
    {
        match self.pace {
            SyncPace::Normal => PERIODICAL_SYNC_NORMAL_PACE_MILLIS * 1_000_000,
            SyncPace::Fast => PERIODICAL_SYNC_FAST_PACE_NANOS,
        }
    }
}

} // verus!
