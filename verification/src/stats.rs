//! What the service counts.
use vstd::prelude::*;

verus! {

/// A thing that is counted.
#[derive(Debug, Clone, Copy, PartialEq, Eq, Structural)]
pub enum Counter {
    Hits,
    /// Served from disk after the memory map had evicted or never held it. The
    /// number that says whether the disk tier is earning its keep.
    DiskHits,
    Misses,
    UpstreamErrors,
    /// Requests answered "not yet" because the resolve outlived the client
    /// deadline. The resolve itself keeps running, so these are the ones a
    /// retry is expected to hit warm.
    SlowResolves,
}

/// How often each was.
#[derive(Debug, Clone, Copy, PartialEq, Eq, Structural)]
pub struct Stats {
    pub hits: u64,
    pub disk_hits: u64,
    pub misses: u64,
    pub upstream_errors: u64,
    pub slow_resolves: u64,
}

impl Stats {
    /// The count of one thing.
    pub open spec fn of(self, counter: Counter) -> u64 {
        match counter {
            Counter::Hits => self.hits,
            Counter::DiskHits => self.disk_hits,
            Counter::Misses => self.misses,
            Counter::UpstreamErrors => self.upstream_errors,
            Counter::SlowResolves => self.slow_resolves,
        }
    }

    /// Nothing counted.
    pub fn new() -> (r: Self)
        ensures
            forall|c: Counter| r.of(c) == 0,
    {
        Stats { hits: 0, disk_hits: 0, misses: 0, upstream_errors: 0, slow_resolves: 0 }
    }

    /// Counts one more, and nothing else. A count that is full starts over.
    pub fn count(&mut self, counter: Counter)
        ensures
            final(self).of(counter) == if old(self).of(counter) == u64::MAX {
                0
            } else {
                old(self).of(counter) + 1
            },
            forall|other: Counter| other != counter ==> final(self).of(other) == old(self).of(other),
    {
        match counter {
            Counter::Hits => self.hits = self.hits.wrapping_add(1),
            Counter::DiskHits => self.disk_hits = self.disk_hits.wrapping_add(1),
            Counter::Misses => self.misses = self.misses.wrapping_add(1),
            Counter::UpstreamErrors => self.upstream_errors = self.upstream_errors.wrapping_add(1),
            Counter::SlowResolves => self.slow_resolves = self.slow_resolves.wrapping_add(1),
        }
    }
}

/// Each thing is counted in the field that bears its name.
pub proof fn law_each_counter_has_its_field(stats: Stats)
    ensures
        stats.of(Counter::Hits) == stats.hits,
        stats.of(Counter::DiskHits) == stats.disk_hits,
        stats.of(Counter::Misses) == stats.misses,
        stats.of(Counter::UpstreamErrors) == stats.upstream_errors,
        stats.of(Counter::SlowResolves) == stats.slow_resolves,
{
}

} // verus!
