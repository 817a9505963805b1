//! A single metric time series: its identity plus its compressed samples.

use vstd::prelude::*;
use crate::gorilla::{GorillaChunk, chunk_bits, lemma_small_timestamps_append};
use crate::labels::Labels;
use crate::metric::{MetricKind, Sample};
use crate::query::TimeRange;
use crate::timestamp::Timestamp;

verus! {

/// The sample a stored `(timestamp_ms, value_bits)` pair stands for: the
/// timestamp brought back to nanoseconds (saturating).
pub open spec fn stored_sample(p: (u64, u64)) -> Sample {
    Sample {
        timestamp: Timestamp(
            if p.0 * 1_000_000 > u64::MAX { u64::MAX } else { (p.0 * 1_000_000) as u64 },
        ),
        value_bits: p.1,
    }
}

/// The stored samples, in order, whose timestamps fall within `range`.
pub open spec fn samples_in(s: Seq<(u64, u64)>, range: TimeRange) -> Seq<Sample>
    decreases s.len(),
{
    if s.len() == 0 {
        Seq::empty()
    } else if range.spec_contains(stored_sample(s.last()).timestamp) {
        samples_in(s.drop_last(), range).push(stored_sample(s.last()))
    } else {
        samples_in(s.drop_last(), range)
    }
}

/// One time series, storing its samples Gorilla-compressed at millisecond
/// resolution.
pub struct Series {
    pub name: String,
    pub labels: Labels,
    pub kind: MetricKind,
    chunk: GorillaChunk,
}

impl View for Series {
    type V = Seq<(u64, u64)>;

    /// The stored `(timestamp_ms, value_bits)` pairs, in order.
    closed spec fn view(&self) -> Seq<(u64, u64)> {
        self.chunk@
    }
}

impl Series {
    /// The series' internal invariant: that of its chunk, and every stored
    /// timestamp is a nanosecond instant brought down to milliseconds.
    pub closed spec fn wf(&self) -> bool {
        &&& self.chunk.wf()
        &&& forall|i: int| 0 <= i < self@.len() ==> #[trigger] self@[i].0 <= u64::MAX / 1_000_000
    }

    /// The series' metric name.
    pub closed spec fn name_of(&self) -> String {
        self.name
    }

    /// The series' labels.
    pub closed spec fn labels_of(&self) -> Labels {
        self.labels
    }

    /// The series' metric kind.
    pub closed spec fn kind_of(&self) -> MetricKind {
        self.kind
    }

    /// The number of bits the stored samples compress to.
    pub open spec fn encoded_bits(&self) -> nat {
        chunk_bits(self@).len()
    }

    /// The metric name.
    pub fn name(&self) -> (r: &String)
        ensures
            *r == self.name_of(),
    {
        &self.name
    }

    /// The labels.
    pub fn labels(&self) -> (r: &Labels)
        ensures
            *r == self.labels_of(),
    {
        &self.labels
    }

    /// The metric kind.
    pub fn kind(&self) -> (r: MetricKind)
        ensures
            r == self.kind_of(),
    {
        self.kind
    }

    pub fn new(name: String, labels: Labels, kind: MetricKind) -> (s: Series)
        ensures
            s.wf(),
            s.name_of() == name,
            s.labels_of() == labels,
            s.kind_of() == kind,
            s@ == Seq::<(u64, u64)>::empty(),
    {
        Series { name, labels, kind, chunk: GorillaChunk::new() }
    }

    /// Whether a sample taken at `timestamp` can be appended: the codec takes
    /// every millisecond timestamp a nanosecond instant can have, so only the
    /// sample count limits it.
    pub fn accepts(&self, timestamp: Timestamp) -> (b: bool)
        requires
            self.wf(),
        ensures
            b == (self@.len() < usize::MAX),
    {
        proof {
            lemma_small_timestamps_append(self@, timestamp.0 / 1_000_000, (u64::MAX / 1_000_000) as int);
        }
        self.chunk.can_push(timestamp.as_unix_millis())
    }

    /// Append a sample (downsampled to millisecond resolution).
    pub fn append(&mut self, sample: Sample)
        requires
            old(self).wf(),
            old(self)@.len() < usize::MAX,
        ensures
            final(self).wf(),
            final(self)@ == old(self)@.push((sample.timestamp.0 / 1_000_000, sample.value_bits)),
            final(self).name_of() == old(self).name_of(),
            final(self).labels_of() == old(self).labels_of(),
            final(self).kind_of() == old(self).kind_of(),
    {
        proof {
            lemma_small_timestamps_append(self@, sample.timestamp.0 / 1_000_000, (u64::MAX / 1_000_000) as int);
        }
        self.chunk.push(sample.timestamp.as_unix_millis(), sample.value_bits);
        assert forall|i: int| 0 <= i < self@.len() implies #[trigger] self@[i].0 <= u64::MAX / 1_000_000 by {
            if i < old(self)@.len() {
                assert(self@[i] == old(self)@[i]);
            }
        }
    }

    /// Number of samples stored.
    pub fn len(&self) -> (n: usize)
        requires
            self.wf(),
        ensures
            n == self@.len(),
    {
        self.chunk.count()
    }

    /// Compressed size of this series in bytes.
    pub fn encoded_len(&self) -> (n: usize)
        requires
            self.wf(),
            self.encoded_bits() <= usize::MAX,
        ensures
            n == (self.encoded_bits() + 7) / 8,
    {
        self.chunk.encoded_len()
    }

    /// All samples whose timestamp falls within `range`.
    pub fn samples_in_range(&self, range: TimeRange) -> (out: Vec<Sample>)
        requires
            self.wf(),
        ensures
            out@ == samples_in(self@, range),
    {
        let decoded = self.chunk.samples();
        let mut out: Vec<Sample> = Vec::new();
        let mut i: usize = 0;
        while i < decoded.len()
            invariant
                decoded@ == self@,
                i <= decoded@.len(),
                out@ == samples_in(decoded@.take(i as int), range),
            decreases decoded@.len() - i,
        {
            let (millis, value_bits) = decoded[i];
            let sample = Sample::new(Timestamp::from_unix_millis(millis), value_bits);
            proof {
                assert(decoded@.take(i + 1).drop_last() =~= decoded@.take(i as int));
                assert(decoded@.take(i + 1).last() == decoded@[i as int]);
            }
            if range.contains(sample.timestamp) {
                out.push(sample);
            }
            i = i + 1;
        }
        assert(decoded@.take(decoded@.len() as int) =~= decoded@);
        out
    }
}

} // verus!
