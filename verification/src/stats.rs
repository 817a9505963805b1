//! A snapshot of what the engine is holding and how well it compresses.

use vstd::prelude::*;

verus! {

/// What one sample costs stored naively: an `i64` timestamp and an `f64`
/// value, eight bytes each.
pub const RAW_SAMPLE_BYTES: usize = 16;

/// Counters describing the engine's current contents.
#[derive(Debug, Clone, Copy, Default, PartialEq, Eq)]
pub struct StorageStats {
    pub series: usize,
    pub samples: usize,
    pub spans: usize,
    pub traces: usize,
    pub logs: usize,
    /// Compressed size of all metric samples, in bytes.
    pub metric_bytes: usize,
}

impl StorageStats {
    /// What the samples would cost stored naively as `(i64, f64)` pairs.
    pub fn raw_metric_bytes(&self) -> (n: usize)
        requires
            self.samples * RAW_SAMPLE_BYTES <= usize::MAX,
        ensures
            n == self.samples * RAW_SAMPLE_BYTES,
    {
        self.samples * RAW_SAMPLE_BYTES
    }
}

} // verus!
