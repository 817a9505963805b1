//! Structured log records.

use vstd::prelude::*;
use crate::attributes::{AttrV, Attributes};
use crate::resource::Resource;
use crate::timestamp::Timestamp;
use crate::trace::{SpanId, TraceId};
use std::cmp::Ordering;
use vstd::std_specs::cmp::{PartialOrdSpec, PartialOrdSpecImpl};

verus! {

/// Log severity, ordered least-to-most severe so that comparisons such as
/// `severity >= Severity::Warn` are meaningful.
#[derive(Debug, Clone, Copy, PartialEq, Eq, Ord)]
pub enum Severity {
    Trace,
    Debug,
    Info,
    Warn,
    Error,
    Fatal,
}

impl Severity {
    /// The position of a severity in the order, least severe first.
    pub open spec fn rank(self) -> int {
        match self {
            Severity::Trace => 0,
            Severity::Debug => 1,
            Severity::Info => 2,
            Severity::Warn => 3,
            Severity::Error => 4,
            Severity::Fatal => 5,
        }
    }

    /// The rank, computed.
    fn level(&self) -> (r: u8)
        ensures
            r == self.rank(),
    {
        match self {
            Severity::Trace => 0,
            Severity::Debug => 1,
            Severity::Info => 2,
            Severity::Warn => 3,
            Severity::Error => 4,
            Severity::Fatal => 5,
        }
    }
}

/// Severities compare by rank: the order in which the variants are listed.
impl PartialOrd for Severity {
    fn partial_cmp(&self, other: &Severity) -> (r: Option<Ordering>) {
        let a = self.level();
        let b = other.level();
        if a < b {
            Some(Ordering::Less)
        } else if a == b {
            Some(Ordering::Equal)
        } else {
            Some(Ordering::Greater)
        }
    }
}

impl PartialOrdSpecImpl for Severity {
    open spec fn obeys_partial_cmp_spec() -> bool {
        true
    }

    open spec fn partial_cmp_spec(&self, other: &Severity) -> Option<Ordering> {
        if self.rank() < other.rank() {
            Some(Ordering::Less)
        } else if self.rank() == other.rank() {
            Some(Ordering::Equal)
        } else {
            Some(Ordering::Greater)
        }
    }
}

/// Comparing severities is a total order that agrees with equality: two
/// severities compare equal exactly when they are the same, any two compare,
/// and swapping them reverses the result.
pub proof fn lemma_severity_total_order(a: Severity, b: Severity)
    ensures
        PartialOrdSpec::partial_cmp_spec(&a, &b) is Some,
        (PartialOrdSpec::partial_cmp_spec(&a, &b) == Some(Ordering::Equal)) <==> a == b,
        (PartialOrdSpec::partial_cmp_spec(&a, &b) == Some(Ordering::Less)) <==> (
        PartialOrdSpec::partial_cmp_spec(&b, &a) == Some(Ordering::Greater)),
{
}

/// A single structured log record.
#[derive(Debug, PartialEq)]
pub struct LogRecord {
    pub timestamp: Timestamp,
    pub severity: Severity,
    pub body: String,
    pub attributes: Attributes,
    pub resource: Resource,
    /// Correlation keys. When present, this record was emitted within the
    /// context of a span and can be joined directly to traces.
    pub trace_id: Option<TraceId>,
    pub span_id: Option<SpanId>,
}

/// The mathematical value of a log record.
pub ghost struct LogV {
    pub timestamp: u64,
    pub severity: Severity,
    pub body: Seq<char>,
    pub attributes: Map<Seq<char>, AttrV>,
    pub resource: Map<Seq<char>, AttrV>,
    pub trace_id: Option<Seq<u8>>,
    pub span_id: Option<Seq<u8>>,
}

impl View for LogRecord {
    type V = LogV;

    open spec fn view(&self) -> LogV {
        LogV {
            timestamp: self.timestamp.0,
            severity: self.severity,
            body: self.body@,
            attributes: self.attributes@,
            resource: self.resource@,
            trace_id: match self.trace_id {
                Some(t) => Some(t.0@),
                None => None,
            },
            span_id: match self.span_id {
                Some(s) => Some(s.0@),
                None => None,
            },
        }
    }
}

impl LogRecord {
    /// Whether this record carries trace context for correlation.
    pub fn is_correlated(&self) -> (b: bool)
        ensures
            b == self.trace_id.is_some(),
    {
        self.trace_id.is_some()
    }
}

impl Clone for LogRecord {
    fn clone(&self) -> (r: LogRecord)
        ensures
            r@ == self@,
    {
        LogRecord {
            timestamp: self.timestamp,
            severity: self.severity,
            body: self.body.clone(),
            attributes: self.attributes.clone(),
            resource: self.resource.clone(),
            trace_id: self.trace_id,
            span_id: self.span_id,
        }
    }
}

} // verus!
