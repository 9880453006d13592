//! Operation counters of a running database.
//!
//! Counters wrap around at 2^64, as atomic fetch-and-add does.
use vstd::prelude::*;

verus! {

/// The counters.
#[derive(Clone, Copy, Debug, PartialEq, Eq, Structural)]
pub struct MetricsInner {
    pub queries_total: u64,
    pub queries_failed: u64,
    pub query_duration_sum_ms: u64,
    pub inserts_total: u64,
    pub inserts_failed: u64,
    pub cache_hits: u64,
    pub cache_misses: u64,
    pub inferences_total: u64,
    pub facts_inferred: u64,
    pub estimated_memory_bytes: u64,
    pub total_facts: u64,
    pub active_facts: u64,
    pub tombstone_count: u64,
}

/// `x + d` modulo 2^64.
pub open spec fn wrap_add(x: u64, d: u64) -> u64 {
    ((x + d) % 0x1_0000_0000_0000_0000int) as u64
}

/// All counters at zero.
pub open spec fn zero_metrics() -> MetricsInner {
    MetricsInner {
        queries_total: 0,
        queries_failed: 0,
        query_duration_sum_ms: 0,
        inserts_total: 0,
        inserts_failed: 0,
        cache_hits: 0,
        cache_misses: 0,
        inferences_total: 0,
        facts_inferred: 0,
        estimated_memory_bytes: 0,
        total_facts: 0,
        active_facts: 0,
        tombstone_count: 0,
    }
}

/// The metrics of one database.
pub struct Metrics {
    inner: MetricsInner,
}

fn add_wrapping(x: u64, d: u64) -> (r: u64)
    ensures
        r == wrap_add(x, d),
{
    x.wrapping_add(d)
}

impl Metrics {
    pub closed spec fn view(&self) -> MetricsInner {
        self.inner
    }

    pub fn new() -> (r: Metrics)
        ensures
            r@ == zero_metrics(),
    {
        Metrics {
            inner: MetricsInner {
                queries_total: 0,
                queries_failed: 0,
                query_duration_sum_ms: 0,
                inserts_total: 0,
                inserts_failed: 0,
                cache_hits: 0,
                cache_misses: 0,
                inferences_total: 0,
                facts_inferred: 0,
                estimated_memory_bytes: 0,
                total_facts: 0,
                active_facts: 0,
                tombstone_count: 0,
            },
        }
    }

    /// Counts a query of `duration_ms` milliseconds, failed unless `success`.
    pub fn record_query(&mut self, duration_ms: u64, success: bool)
        ensures
            final(self)@ == (MetricsInner {
                queries_total: wrap_add(old(self)@.queries_total, 1),
                queries_failed: if success { old(self)@.queries_failed } else { wrap_add(old(self)@.queries_failed, 1) },
                query_duration_sum_ms: wrap_add(old(self)@.query_duration_sum_ms, duration_ms),
                ..old(self)@
            }),
    {
        self.inner.queries_total = add_wrapping(self.inner.queries_total, 1);
        if !success {
            self.inner.queries_failed = add_wrapping(self.inner.queries_failed, 1);
        }
        self.inner.query_duration_sum_ms = add_wrapping(self.inner.query_duration_sum_ms, duration_ms);
    }

    /// Counts an insert, failed unless `success`.
    pub fn record_insert(&mut self, success: bool)
        ensures
            final(self)@ == (MetricsInner {
                inserts_total: wrap_add(old(self)@.inserts_total, 1),
                inserts_failed: if success { old(self)@.inserts_failed } else { wrap_add(old(self)@.inserts_failed, 1) },
                ..old(self)@
            }),
    {
        self.inner.inserts_total = add_wrapping(self.inner.inserts_total, 1);
        if !success {
            self.inner.inserts_failed = add_wrapping(self.inner.inserts_failed, 1);
        }
    }

    pub fn record_cache_hit(&mut self)
        ensures
            final(self)@ == (MetricsInner { cache_hits: wrap_add(old(self)@.cache_hits, 1), ..old(self)@ }),
    {
        self.inner.cache_hits = add_wrapping(self.inner.cache_hits, 1);
    }

    pub fn record_cache_miss(&mut self)
        ensures
            final(self)@ == (MetricsInner { cache_misses: wrap_add(old(self)@.cache_misses, 1), ..old(self)@ }),
    {
        self.inner.cache_misses = add_wrapping(self.inner.cache_misses, 1);
    }

    /// Counts an inference run that derived `facts_derived` facts.
    pub fn record_inference(&mut self, facts_derived: u64)
        ensures
            final(self)@ == (MetricsInner {
                inferences_total: wrap_add(old(self)@.inferences_total, 1),
                facts_inferred: wrap_add(old(self)@.facts_inferred, facts_derived),
                ..old(self)@
            }),
    {
        self.inner.inferences_total = add_wrapping(self.inner.inferences_total, 1);
        self.inner.facts_inferred = add_wrapping(self.inner.facts_inferred, facts_derived);
    }

    pub fn update_memory_estimate(&mut self, bytes: u64)
        ensures
            final(self)@ == (MetricsInner { estimated_memory_bytes: bytes, ..old(self)@ }),
    {
        self.inner.estimated_memory_bytes = bytes;
    }

    pub fn update_schema_stats(&mut self, total: u64, active: u64, tombstones: u64)
        ensures
            final(self)@ == (MetricsInner { total_facts: total, active_facts: active, tombstone_count: tombstones, ..old(self)@ }),
    {
        self.inner.total_facts = total;
        self.inner.active_facts = active;
        self.inner.tombstone_count = tombstones;
    }

    /// The current counters.
    pub fn counters(&self) -> (r: MetricsInner)
        ensures
            r == self@,
    {
        self.inner
    }
}

} // verus!
