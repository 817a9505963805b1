//! Query primitives for retrieving from the store: equality label matching
//! and a time range.

use vstd::prelude::*;
use crate::labels::Labels;
use crate::metric::{MetricKind, Sample};
use crate::timestamp::Timestamp;

verus! {

/// A single label constraint.
#[derive(Debug, Clone, PartialEq, Eq)]
pub enum Matcher {
    /// Label equals value.
    Eq(String, String),
    /// Label does not equal value.
    Ne(String, String),
}

impl Matcher {
    pub fn eq(key: &str, value: &str) -> (m: Matcher)
        ensures
            m matches Matcher::Eq(k, v) && k@ == key@ && v@ == value@,
    {
        Matcher::Eq(key.to_owned(), value.to_owned())
    }

    pub fn ne(key: &str, value: &str) -> (m: Matcher)
        ensures
            m matches Matcher::Ne(k, v) && k@ == key@ && v@ == value@,
    {
        Matcher::Ne(key.to_owned(), value.to_owned())
    }
}

/// A metric name plus the label matchers that select its series.
#[derive(Debug, Clone, PartialEq, Eq)]
pub struct Selector {
    pub metric: String,
    pub matchers: Vec<Matcher>,
}

impl Selector {
    pub fn new(metric: &str) -> (s: Selector)
        ensures
            s.metric@ == metric@,
            s.matchers@ == Seq::<Matcher>::empty(),
    {
        Selector { metric: metric.to_owned(), matchers: Vec::new() }
    }

    /// Add a matcher, returning `self` for chaining.
    pub fn with(self, matcher: Matcher) -> (s: Selector)
        ensures
            s.metric == self.metric,
            s.matchers@ == self.matchers@.push(matcher),
    {
        let mut s = self;
        s.matchers.push(matcher);
        s
    }
}

/// An inclusive time window `[start, end]`.
#[derive(Debug, Clone, Copy, PartialEq, Eq)]
pub struct TimeRange {
    pub start: Timestamp,
    pub end: Timestamp,
}

impl TimeRange {
    /// Whether `t` falls within the window.
    pub open spec fn spec_contains(self, t: Timestamp) -> bool {
        self.start.0 <= t.0 && t.0 <= self.end.0
    }

    pub fn new(start: Timestamp, end: Timestamp) -> (r: TimeRange)
        ensures
            r.start == start,
            r.end == end,
    {
        TimeRange { start, end }
    }

    /// A range covering all of time.
    pub fn all() -> (r: TimeRange)
        ensures
            r.start.0 == 0,
            r.end.0 == u64::MAX,
            forall|t: Timestamp| r.spec_contains(t),
    {
        TimeRange { start: Timestamp::epoch(), end: Timestamp::from_unix_nanos(u64::MAX) }
    }

    /// The window of `range_ms` milliseconds that ends at `eval`; a window
    /// reaching back past the epoch starts at the epoch.
    pub fn lookback(eval: Timestamp, range_ms: u64) -> (r: TimeRange)
        ensures
            r.end == eval,
            r.start.0 == if range_ms * 1_000_000 >= eval.0 {
                0
            } else {
                eval.0 - range_ms * 1_000_000
            },
    {
        let window_ns: u64 = if range_ms > u64::MAX / 1_000_000 {
            u64::MAX
        } else {
            range_ms * 1_000_000
        };
        TimeRange {
            start: Timestamp::from_unix_nanos(eval.as_unix_nanos().saturating_sub(window_ns)),
            end: eval,
        }
    }

    pub fn contains(&self, timestamp: Timestamp) -> (b: bool)
        ensures
            b == self.spec_contains(timestamp),
    {
        self.start.0 <= timestamp.0 && timestamp.0 <= self.end.0
    }
}

/// One series returned by a metric query: its identifying labels and the
/// samples that fell within the requested range.
#[derive(Debug, PartialEq)]
pub struct SeriesResult {
    pub metric: String,
    pub kind: MetricKind,
    pub labels: Labels,
    pub samples: Vec<Sample>,
}

} // verus!
