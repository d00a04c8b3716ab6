//! Metering: counts and total latency of each kind of store operation. The
//! numbers are a side channel; recording them never changes what an operation
//! returns.

use vstd::prelude::*;

verus! {

/// The number of kinds of operation.
pub const OPERATION_KINDS: usize = 7;

/// The kinds of store operation that are metered.
#[derive(Debug, Clone, Copy, PartialEq, Eq, Structural)]
pub enum Operation {
    /// Reading the value of one key.
    ReadValue,
    /// Testing whether one key is present.
    ContainsKey,
    /// Testing whether each of several keys is present.
    ContainsKeys,
    /// Reading the values of several keys.
    ReadMultiValues,
    /// Listing the keys under a prefix.
    FindKeysByPrefix,
    /// Listing the keys and values under a prefix.
    FindKeyValuesByPrefix,
    /// Writing a batch.
    WriteBatch,
}

/// The position of each kind of operation in the tables.
pub open spec fn operation_index(op: Operation) -> int {
    match op {
        Operation::ReadValue => 0,
        Operation::ContainsKey => 1,
        Operation::ContainsKeys => 2,
        Operation::ReadMultiValues => 3,
        Operation::FindKeysByPrefix => 4,
        Operation::FindKeyValuesByPrefix => 5,
        Operation::WriteBatch => 6,
    }
}

fn index_of(op: Operation) -> (r: usize)
    ensures
        r == operation_index(op),
        r < OPERATION_KINDS,
{
    match op {
        Operation::ReadValue => 0,
        Operation::ContainsKey => 1,
        Operation::ContainsKeys => 2,
        Operation::ReadMultiValues => 3,
        Operation::FindKeysByPrefix => 4,
        Operation::FindKeyValuesByPrefix => 5,
        Operation::WriteBatch => 6,
    }
}

/// `a + b`, or `u64::MAX` when the sum does not fit.
pub open spec fn saturated(a: u64, b: u64) -> u64 {
    if a + b > u64::MAX {
        u64::MAX
    } else {
        (a + b) as u64
    }
}

/// The number of calls and the total latency, in microseconds, of each kind of
/// operation.
pub struct OperationMetrics {
    counts: Vec<u64>,
    latencies: Vec<u64>,
}

impl OperationMetrics {
    /// The number of calls of `op`.
    pub closed spec fn count(&self, op: Operation) -> u64 {
        self.counts@[operation_index(op)]
    }

    /// The total latency of the calls of `op`.
    pub closed spec fn latency(&self, op: Operation) -> u64 {
        self.latencies@[operation_index(op)]
    }

    /// One counter and one total for each kind of operation.
    pub closed spec fn wf(&self) -> bool {
        self.counts@.len() == OPERATION_KINDS && self.latencies@.len() == OPERATION_KINDS
    }

    /// No operation recorded yet.
    pub fn new() -> (r: Self)
        ensures
            r.wf(),
            forall|op: Operation| r.count(op) == 0 && r.latency(op) == 0,
    {
        let mut counts: Vec<u64> = Vec::new();
        let mut latencies: Vec<u64> = Vec::new();
        let mut i: usize = 0;
        while i < OPERATION_KINDS
            invariant
                i <= OPERATION_KINDS,
                counts@.len() == i,
                latencies@.len() == i,
                forall|j: int| 0 <= j < i ==> counts@[j] == 0 && latencies@[j] == 0,
            decreases OPERATION_KINDS - i,
        {
            counts.push(0);
            latencies.push(0);
            i = i + 1;
        }
        OperationMetrics { counts, latencies }
    }

    /// Records one call of `op` that took `elapsed_micros`; the numbers saturate
    /// instead of wrapping.
    pub fn record(&mut self, op: Operation, elapsed_micros: u64)
        requires
            old(self).wf(),
        ensures
            final(self).wf(),
            final(self).count(op) == saturated(old(self).count(op), 1),
            final(self).latency(op) == saturated(old(self).latency(op), elapsed_micros),
            forall|other: Operation|
                other != op ==> final(self).count(other) == old(self).count(other)
                    && final(self).latency(other) == old(self).latency(other),
    {
        let i = index_of(op);
        let count = self.counts[i].saturating_add(1);
        let latency = self.latencies[i].saturating_add(elapsed_micros);
        self.counts.set(i, count);
        self.latencies.set(i, latency);
        assert forall|other: Operation| other != op implies operation_index(other) != i by {}
    }

    /// The number of calls of `op`.
    pub fn count_of(&self, op: Operation) -> (r: u64)
        requires
            self.wf(),
        ensures
            r == self.count(op),
    {
        self.counts[index_of(op)]
    }

    /// The total latency of the calls of `op`, in microseconds.
    pub fn latency_of(&self, op: Operation) -> (r: u64)
        requires
            self.wf(),
        ensures
            r == self.latency(op),
    {
        self.latencies[index_of(op)]
    }
}

} // verus!
