//! Gorilla time-series compression (Facebook's "Gorilla" paper).
//!
//! Timestamps are encoded as delta-of-delta with variable-width buckets;
//! values are XOR'd against the previous value and only the changed
//! (meaningful) bits are stored.
//!
//! A sample is a pair `(timestamp_ms, value_bits)`: the codec works on the
//! IEEE-754 bit pattern of each value, so it is lossless for every float,
//! NaN payloads and signed zeros included.

use vstd::prelude::*;
use vstd::std_specs::bits::{
    u64_leading_zeros,
    u64_trailing_zeros,
    axiom_u64_leading_zeros,
    axiom_u64_trailing_zeros,
};
use crate::bitstream::{
    BitReader,
    BitWriter,
    bits_of_bytes,
    bits_value,
    low_mask,
    u64_bits,
    lemma_bits_value_u64_bits,
};

verus! {

// ---------------------------------------------------------------------------
// The encoding, as a function of the samples.
// ---------------------------------------------------------------------------

/// The encoder's state after a run of samples.
pub ghost struct EncodeState {
    pub ts: u64,
    pub delta: int,
    pub vbits: u64,
    pub leading: u32,
    pub trailing: u32,
}

/// `leading_zeros` capped at 31, as the codec stores it in five bits.
pub open spec fn capped_leading(xor: u64) -> u32 {
    if u64_leading_zeros(xor) < 31 {
        u64_leading_zeros(xor) as u32
    } else {
        31u32
    }
}

/// Whether a non-zero XOR fits the current window of meaningful bits.
pub open spec fn fits_window(xor: u64, leading: u32, trailing: u32) -> bool {
    &&& leading != u32::MAX
    &&& capped_leading(xor) >= leading
    &&& u64_trailing_zeros(xor) >= trailing
}

/// The bits written for one value, given the XOR with the previous value and
/// the current window.
pub open spec fn value_code(xor: u64, leading: u32, trailing: u32) -> Seq<bool> {
    if xor == 0 {
        seq![false]
    } else if fits_window(xor, leading, trailing) {
        seq![true, false] + u64_bits(xor >> (trailing as u64), (64 - leading - trailing) as nat)
    } else {
        let lead = capped_leading(xor);
        let trail = u64_trailing_zeros(xor);
        let meaningful = (64 - lead - trail) as nat;
        seq![true, true] + u64_bits(lead as u64, 5) + u64_bits((meaningful - 1) as u64, 6)
            + u64_bits(xor >> (trail as u64), meaningful)
    }
}

/// The window after encoding one value.
pub open spec fn next_window(xor: u64, leading: u32, trailing: u32) -> (u32, u32) {
    if xor == 0 || fits_window(xor, leading, trailing) {
        (leading, trailing)
    } else {
        (capped_leading(xor), u64_trailing_zeros(xor))
    }
}

/// The bits written for one delta-of-delta.
pub open spec fn ts_code(dod: int) -> Seq<bool> {
    if dod == 0 {
        seq![false]
    } else if -64 <= dod <= 63 {
        seq![true, false] + u64_bits(dod as u64, 7)
    } else if -256 <= dod <= 255 {
        seq![true, true, false] + u64_bits(dod as u64, 9)
    } else if -2048 <= dod <= 2047 {
        seq![true, true, true, false] + u64_bits(dod as u64, 12)
    } else {
        seq![true, true, true, true] + u64_bits(dod as u64, 64)
    }
}

/// A timestamp read as a signed 64-bit number (`t as i64`): the codec takes
/// differences of timestamps in two's complement.
pub open spec fn signed_ms(t: u64) -> int {
    if t <= i64::MAX {
        t as int
    } else {
        t - 0x1_0000_0000_0000_0000
    }
}

/// The encoder's state after the (non-empty) run `s`.
pub open spec fn chunk_state(s: Seq<(u64, u64)>) -> EncodeState
    decreases s.len(),
{
    if s.len() <= 1 {
        EncodeState { ts: s[0].0, delta: 0, vbits: s[0].1, leading: u32::MAX, trailing: 0 }
    } else {
        let p = chunk_state(s.drop_last());
        let (t, v) = s.last();
        let w = next_window(p.vbits ^ v, p.leading, p.trailing);
        EncodeState {
            ts: t,
            delta: signed_ms(t) - signed_ms(p.ts),
            vbits: v,
            leading: w.0,
            trailing: w.1,
        }
    }
}

/// The delta-of-delta recorded for the last sample of a run of two or more.
pub open spec fn last_dod(s: Seq<(u64, u64)>) -> int {
    let p = chunk_state(s.drop_last());
    (signed_ms(s.last().0) - signed_ms(p.ts)) - p.delta
}

/// The complete bit encoding of a run of samples.
pub open spec fn chunk_bits(s: Seq<(u64, u64)>) -> Seq<bool>
    decreases s.len(),
{
    if s.len() == 0 {
        Seq::empty()
    } else if s.len() == 1 {
        u64_bits(s[0].0, 64) + u64_bits(s[0].1, 64)
    } else {
        let p = chunk_state(s.drop_last());
        chunk_bits(s.drop_last()) + ts_code(last_dod(s)) + value_code(
            p.vbits ^ s.last().1,
            p.leading,
            p.trailing,
        )
    }
}

/// A run of samples the codec accepts: each delta between successive
/// timestamps (read as `i64`), and each delta-of-delta, within `i64`.
pub open spec fn samples_ok(s: Seq<(u64, u64)>) -> bool
    decreases s.len(),
{
    if s.len() == 0 {
        true
    } else if s.len() == 1 {
        true
    } else {
        &&& samples_ok(s.drop_last())
        &&& i64::MIN <= signed_ms(s.last().0) - signed_ms(chunk_state(s.drop_last()).ts)
            <= i64::MAX
        &&& i64::MIN <= last_dod(s) <= i64::MAX
    }
}

/// Whether appending `timestamp_ms` to the run `s` keeps it acceptable.
pub open spec fn can_append(s: Seq<(u64, u64)>, timestamp_ms: u64) -> bool {
    s.len() > 0 ==> {
        let p = chunk_state(s);
        let delta = signed_ms(timestamp_ms) - signed_ms(p.ts);
        &&& i64::MIN <= delta <= i64::MAX
        &&& i64::MIN <= delta - p.delta <= i64::MAX
    }
}

/// For timestamps no larger than `bound` (at most `2^60`), the encoder's last
/// timestamp is the run's last one and its delta lies within `bound`.
proof fn lemma_state_small(s: Seq<(u64, u64)>, bound: int)
    requires
        s.len() > 0,
        bound <= 0x1000_0000_0000_0000,
        forall|i: int| 0 <= i < s.len() ==> #[trigger] s[i].0 <= bound,
    ensures
        chunk_state(s).ts == s.last().0,
        -bound <= chunk_state(s).delta <= bound,
    decreases s.len(),
{
    if s.len() > 1 {
        let r = s.drop_last();
        assert forall|i: int| 0 <= i < r.len() implies #[trigger] r[i].0 <= bound by {
            assert(r[i] == s[i]);
        }
        lemma_state_small(r, bound);
        assert(r.last() == s[s.len() - 2]);
    }
}

/// The codec takes every timestamp no larger than `2^60` after a run of such
/// timestamps: deltas and deltas-of-deltas then stay far inside `i64`.
pub proof fn lemma_small_timestamps_append(s: Seq<(u64, u64)>, timestamp_ms: u64, bound: int)
    requires
        bound <= 0x1000_0000_0000_0000,
        forall|i: int| 0 <= i < s.len() ==> #[trigger] s[i].0 <= bound,
        timestamp_ms <= bound,
    ensures
        can_append(s, timestamp_ms),
{
    if s.len() > 0 {
        lemma_state_small(s, bound);
        assert(s.last().0 <= bound);
    }
}

/// Whether the timestamps of `s` never decrease and all fit in an `i64`.
pub open spec fn ordered_in_i64(s: Seq<(u64, u64)>) -> bool {
    &&& forall|i: int, j: int| 0 <= i <= j < s.len() ==> s[i].0 <= s[j].0
    &&& forall|i: int| 0 <= i < s.len() ==> #[trigger] s[i].0 <= i64::MAX
}

/// Along a run whose timestamps never decrease and fit in an `i64`, the
/// encoder's last delta lies between zero and `i64::MAX`.
proof fn lemma_state_ordered(s: Seq<(u64, u64)>)
    requires
        s.len() > 0,
        ordered_in_i64(s),
    ensures
        chunk_state(s).ts == s.last().0,
        0 <= chunk_state(s).delta <= i64::MAX,
    decreases s.len(),
{
    if s.len() > 1 {
        let r = s.drop_last();
        assert(ordered_in_i64(r)) by {
            assert forall|i: int, j: int| 0 <= i <= j < r.len() implies r[i].0 <= r[j].0 by {
                assert(r[i] == s[i] && r[j] == s[j]);
            }
            assert forall|i: int| 0 <= i < r.len() implies #[trigger] r[i].0 <= i64::MAX by {
                assert(r[i] == s[i]);
            }
        }
        lemma_state_ordered(r);
        assert(r.last() == s[s.len() - 2]);
        assert(s[s.len() - 2].0 <= s[s.len() - 1].0);
        assert(s[s.len() - 1].0 <= i64::MAX);
    }
}

/// The codec takes every run of timestamps that never decrease and fit in an
/// `i64`: each sample is admitted after the ones before it, and the run as a
/// whole is one the codec accepts. So pushing such a run into an empty chunk
/// one sample at a time meets `push`'s precondition at every step, and
/// `samples` then gives the run back.
pub proof fn lemma_ordered_run_admitted(s: Seq<(u64, u64)>)
    requires
        ordered_in_i64(s),
    ensures
        forall|k: int| 0 <= k < s.len() ==> can_append(#[trigger] s.take(k), s[k].0),
        samples_ok(s),
    decreases s.len(),
{
    if s.len() > 0 {
        let r = s.drop_last();
        assert(ordered_in_i64(r)) by {
            assert forall|i: int, j: int| 0 <= i <= j < r.len() implies r[i].0 <= r[j].0 by {
                assert(r[i] == s[i] && r[j] == s[j]);
            }
            assert forall|i: int| 0 <= i < r.len() implies #[trigger] r[i].0 <= i64::MAX by {
                assert(r[i] == s[i]);
            }
        }
        lemma_ordered_run_admitted(r);
        let n = s.len() - 1;
        assert(s.take(n) =~= r);
        if r.len() > 0 {
            lemma_state_ordered(r);
            assert(r.last() == s[n - 1]);
            assert(s[n - 1].0 <= s[n].0);
            assert(s[n].0 <= i64::MAX);
        }
        assert(can_append(s.take(n), s[n].0));
        assert forall|k: int| 0 <= k < s.len() implies can_append(#[trigger] s.take(k), s[k].0) by {
            if k < n {
                assert(s.take(k) =~= r.take(k));
                assert(s[k] == r[k]);
            }
        }
        if s.len() > 1 {
            assert(s.drop_last() == r);
        }
    }
}

/// `as i64` reads a timestamp as `signed_ms` does, and `as u64` reads it back.
proof fn lemma_signed_ms(t: u64)
    ensures
        (t as i64) as int == signed_ms(t),
        ((t as i64) as u64) == t,
{
    assert(t <= 0x7fff_ffff_ffff_ffffu64 ==> (t as i64) as int == t as int) by (bit_vector);
    assert(t > 0x7fff_ffff_ffff_ffffu64 ==> (t as i64) as int == t as int - 0x1_0000_0000_0000_0000int)
        by (bit_vector);
    assert(((t as i64) as u64) == t) by (bit_vector);
}

// ---------------------------------------------------------------------------
// Facts about the encoding.
// ---------------------------------------------------------------------------

proof fn lemma_lz_tz(x: u64)
    requires
        x != 0,
    ensures
        0 <= u64_leading_zeros(x) <= 63,
        u64_trailing_zeros(x) <= 63,
        u64_leading_zeros(x) + u64_trailing_zeros(x) <= 63,
        x >> ((64 - u64_leading_zeros(x)) as u64) == 0,
        x << ((64 - u64_trailing_zeros(x)) as u64) == 0,
{
    axiom_u64_leading_zeros(x);
    axiom_u64_trailing_zeros(x);
    let lz = u64_leading_zeros(x);
    let tz = u64_trailing_zeros(x);
    if lz + tz > 63 {
        let j = (63 - lz) as u64;
        assert((x >> j) & 1u64 == 0u64);
    }
}

/// Invariant of the window the encoder keeps.
pub open spec fn window_ok(leading: u32, trailing: u32) -> bool {
    leading == u32::MAX || (leading <= 31 && leading + trailing <= 63)
}

proof fn lemma_next_window_ok(xor: u64, leading: u32, trailing: u32)
    requires
        window_ok(leading, trailing),
    ensures
        window_ok(next_window(xor, leading, trailing).0, next_window(xor, leading, trailing).1),
{
    if xor != 0 {
        lemma_lz_tz(xor);
    }
}

proof fn lemma_chunk_state_window(s: Seq<(u64, u64)>)
    requires
        s.len() > 0,
    ensures
        window_ok(chunk_state(s).leading, chunk_state(s).trailing),
    decreases s.len(),
{
    if s.len() > 1 {
        lemma_chunk_state_window(s.drop_last());
        let p = chunk_state(s.drop_last());
        lemma_next_window_ok(p.vbits ^ s.last().1, p.leading, p.trailing);
    }
}

/// The encoding of a prefix of a run is a prefix of the run's encoding.
proof fn lemma_chunk_bits_prefix(s: Seq<(u64, u64)>, i: int)
    requires
        0 <= i <= s.len(),
    ensures
        chunk_bits(s.take(i)).len() <= chunk_bits(s).len(),
        chunk_bits(s) =~= chunk_bits(s.take(i)) + chunk_bits(s).skip(chunk_bits(s.take(i)).len() as int),
    decreases s.len() - i,
{
    if i == s.len() {
        assert(s.take(i) =~= s);
    } else {
        lemma_chunk_bits_prefix(s, i + 1);
        let t = s.take(i + 1);
        assert(t.drop_last() =~= s.take(i));
        if i == 0 {
            assert(s.take(0) =~= Seq::<(u64, u64)>::empty());
        }
    }
}

proof fn lemma_samples_ok_prefix(s: Seq<(u64, u64)>, i: int)
    requires
        0 <= i <= s.len(),
        samples_ok(s),
    ensures
        samples_ok(s.take(i)),
    decreases s.len() - i,
{
    if i < s.len() {
        lemma_samples_ok_prefix(s, i + 1);
        assert(s.take(i + 1).drop_last() =~= s.take(i));
    } else {
        assert(s.take(i) =~= s);
    }
}


// ---------------------------------------------------------------------------
// Decoding, as a function of the bits.
// ---------------------------------------------------------------------------

/// Interpret the low `bits` of `value` as a two's-complement signed integer.
pub open spec fn spec_sign_extend(value: u64, bits: u64) -> i64 {
    ((value << ((64 - bits) as u64)) as i64) >> ((64 - bits) as u64)
}

/// What reading one delta-of-delta from `b` yields: the value and the
/// number of bits consumed, or `None` when `b` runs out first.
pub open spec fn spec_read_ts(b: Seq<bool>) -> Option<(int, int)> {
    if b.len() < 1 {
        None
    } else if !b[0] {
        Some((0, 1))
    } else if b.len() < 2 {
        None
    } else if !b[1] {
        if b.len() < 9 {
            None
        } else {
            Some((spec_sign_extend(bits_value(b.subrange(2, 9)), 7) as int, 9))
        }
    } else if b.len() < 3 {
        None
    } else if !b[2] {
        if b.len() < 12 {
            None
        } else {
            Some((spec_sign_extend(bits_value(b.subrange(3, 12)), 9) as int, 12))
        }
    } else if b.len() < 4 {
        None
    } else if !b[3] {
        if b.len() < 16 {
            None
        } else {
            Some((spec_sign_extend(bits_value(b.subrange(4, 16)), 12) as int, 16))
        }
    } else if b.len() < 68 {
        None
    } else {
        Some((bits_value(b.subrange(4, 68)) as i64 as int, 68))
    }
}

/// How a value was encoded relative to its predecessor.
pub enum ValueControl {
    Same,
    ReuseWindow,
    NewWindow,
    Eof,
}

/// What reading a value's control bits from `b` yields, and how many bits
/// that consumes.
pub open spec fn spec_read_control(b: Seq<bool>) -> (ValueControl, int) {
    if b.len() < 1 {
        (ValueControl::Eof, 0)
    } else if !b[0] {
        (ValueControl::Same, 1)
    } else if b.len() < 2 {
        (ValueControl::Eof, 1)
    } else if !b[1] {
        (ValueControl::ReuseWindow, 2)
    } else {
        (ValueControl::NewWindow, 2)
    }
}

proof fn lemma_sign_extend_round_trip(d: i64)
    ensures
        -64 <= d <= 63 ==> spec_sign_extend((d as u64) & low_mask(7), 7) == d,
        -256 <= d <= 255 ==> spec_sign_extend((d as u64) & low_mask(9), 9) == d,
        -2048 <= d <= 2047 ==> spec_sign_extend((d as u64) & low_mask(12), 12) == d,
        (d as u64) & low_mask(64) == d as u64,
{
    assert((((1u64 << 7u64) - 1) as u64) == 127u64 && (((1u64 << 9u64) - 1) as u64) == 511u64
        && (((1u64 << 12u64) - 1) as u64) == 4095u64) by (bit_vector);
    assert(-64 <= d <= 63 ==> ((((d as u64) & 127u64) << 57u64) as i64) >> 57u64 == d)
        by (bit_vector);
    assert(-256 <= d <= 255 ==> ((((d as u64) & 511u64) << 55u64) as i64) >> 55u64 == d)
        by (bit_vector);
    assert(-2048 <= d <= 2047 ==> ((((d as u64) & 4095u64) << 52u64) as i64) >> 52u64 == d)
        by (bit_vector);
    assert((d as u64) & 0xffff_ffff_ffff_ffffu64 == d as u64) by (bit_vector);
}

/// Reading the code of a delta-of-delta gives it back.
proof fn lemma_read_ts_code(dod: int, b: Seq<bool>)
    requires
        i64::MIN <= dod <= i64::MAX,
        b.len() >= ts_code(dod).len(),
        b.take(ts_code(dod).len() as int) == ts_code(dod),
    ensures
        spec_read_ts(b) == Some((dod, ts_code(dod).len() as int)),
{
    let c = ts_code(dod);
    let d = dod as i64;
    assert(forall|i: int| 0 <= i < c.len() ==> b[i] == #[trigger] c[i]) by {
        assert forall|i: int| 0 <= i < c.len() implies b[i] == #[trigger] c[i] by {
            assert(b.take(c.len() as int)[i] == b[i]);
        }
    }
    lemma_sign_extend_round_trip(d);
    assert(b[0] == c[0]);
    if dod == 0 {
    } else if -64 <= dod <= 63 {
        assert(b[1] == c[1]);
        assert forall|j: int| 0 <= j < 7 implies #[trigger] b.subrange(2, 9)[j] == u64_bits(
            dod as u64,
            7,
        )[j] by {
            assert(c[j + 2] == u64_bits(dod as u64, 7)[j]);
        }
        assert(b.subrange(2, 9) =~= u64_bits(dod as u64, 7));
        lemma_bits_value_u64_bits(dod as u64, 7);
        assert(d as u64 == dod as u64);
    } else if -256 <= dod <= 255 {
        assert(b[1] == c[1] && b[2] == c[2]);
        assert forall|j: int| 0 <= j < 9 implies #[trigger] b.subrange(3, 12)[j] == u64_bits(
            dod as u64,
            9,
        )[j] by {
            assert(c[j + 3] == u64_bits(dod as u64, 9)[j]);
        }
        assert(b.subrange(3, 12) =~= u64_bits(dod as u64, 9));
        lemma_bits_value_u64_bits(dod as u64, 9);
        assert(d as u64 == dod as u64);
    } else if -2048 <= dod <= 2047 {
        assert(b[1] == c[1] && b[2] == c[2] && b[3] == c[3]);
        assert forall|j: int| 0 <= j < 12 implies #[trigger] b.subrange(4, 16)[j] == u64_bits(
            dod as u64,
            12,
        )[j] by {
            assert(c[j + 4] == u64_bits(dod as u64, 12)[j]);
        }
        assert(b.subrange(4, 16) =~= u64_bits(dod as u64, 12));
        lemma_bits_value_u64_bits(dod as u64, 12);
        assert(d as u64 == dod as u64);
    } else {
        assert(b[1] == c[1] && b[2] == c[2] && b[3] == c[3]);
        assert forall|j: int| 0 <= j < 64 implies #[trigger] b.subrange(4, 68)[j] == u64_bits(
            dod as u64,
            64,
        )[j] by {
            assert(c[j + 4] == u64_bits(dod as u64, 64)[j]);
        }
        assert(b.subrange(4, 68) =~= u64_bits(dod as u64, 64));
        lemma_bits_value_u64_bits(dod as u64, 64);
        assert(d as u64 == dod as u64);
        assert((d as u64) as i64 == d) by (bit_vector);
    }
}


proof fn lemma_window_bv(x: u64, lead: u64, trail: u64, lz: u64, tz: u64)
    by (bit_vector)
    requires
        lz <= 63,
        tz <= 63,
        x >> ((64 - lz) as u64) == 0,
        x << ((64 - tz) as u64) == 0,
        lead <= lz,
        trail <= tz,
        lead + trail <= 63,
    ensures
        (x >> trail) & low_mask((64 - lead - trail) as u64) == x >> trail,
        (x >> trail) << trail == x,
{
}

/// Reading back a value payload written under a window that the XOR fits.
proof fn lemma_value_payload(xor: u64, lead: u32, trail: u32)
    requires
        xor != 0,
        lead <= capped_leading(xor),
        trail <= u64_trailing_zeros(xor),
        lead + trail <= 63,
    ensures
        (xor >> (trail as u64)) & low_mask((64 - lead - trail) as u64) == xor >> (trail as u64),
        (xor >> (trail as u64)) << (trail as u64) == xor,
{
    lemma_lz_tz(xor);
    lemma_window_bv(
        xor,
        lead as u64,
        trail as u64,
        u64_leading_zeros(xor) as u64,
        u64_trailing_zeros(xor) as u64,
    );
}

proof fn lemma_small_fields(lead: u64, m1: u64)
    requires
        lead < 32,
        m1 < 64,
    ensures
        lead & low_mask(5) == lead,
        m1 & low_mask(6) == m1,
{
    assert(lead < 32 && m1 < 64 ==> lead & (((1u64 << 5u64) - 1) as u64) == lead && m1 & (((1u64
        << 6u64) - 1) as u64) == m1) by (bit_vector);
}

proof fn lemma_full_word(x: u64)
    ensures
        x & low_mask(64) == x,
{
    assert(x & 0xffff_ffff_ffff_ffffu64 == x) by (bit_vector);
}

// ---------------------------------------------------------------------------
// The chunk.
// ---------------------------------------------------------------------------

/// An append-only, Gorilla-compressed run of `(timestamp_ms, value_bits)`
/// samples.
pub struct GorillaChunk {
    writer: BitWriter,
    count: usize,
    timestamp: u64,
    delta: i64,
    value_bits: u64,
    leading: u32,
    trailing: u32,
    started: bool,
    samples: Ghost<Seq<(u64, u64)>>,
}

impl View for GorillaChunk {
    type V = Seq<(u64, u64)>;

    /// The samples appended so far, in order.
    closed spec fn view(&self) -> Seq<(u64, u64)> {
        self.samples@
    }
}

impl GorillaChunk {
    /// The chunk's internal invariant: the writer holds exactly the encoding
    /// of the samples, and the encoder state is the one that encoding ends in.
    pub closed spec fn wf(&self) -> bool {
        let s = self.samples@;
        &&& self.writer.wf()
        &&& self.count == s.len()
        &&& self.started == (s.len() > 0)
        &&& samples_ok(s)
        &&& self.writer@ == chunk_bits(s)
        &&& window_ok(self.leading, self.trailing)
        &&& s.len() > 0 ==> {
            let st = chunk_state(s);
            &&& self.timestamp == st.ts
            &&& self.delta == st.delta
            &&& self.value_bits == st.vbits
            &&& self.leading == st.leading
            &&& self.trailing == st.trailing
        }
        &&& s.len() == 0 ==> self.leading == u32::MAX
    }

    pub fn new() -> (c: GorillaChunk)
        ensures
            c.wf(),
            c@ == Seq::<(u64, u64)>::empty(),
    {
        GorillaChunk {
            writer: BitWriter::new(),
            count: 0,
            timestamp: 0,
            delta: 0,
            value_bits: 0,
            leading: u32::MAX,
            trailing: 0,
            started: false,
            samples: Ghost(Seq::empty()),
        }
    }

    /// Whether a sample at `timestamp_ms` can be appended: its delta from the
    /// last timestamp (both read as `i64`) and its delta-of-delta must fit in
    /// an `i64`, and the count must stay representable.
    pub fn can_push(&self, timestamp_ms: u64) -> (b: bool)
        requires
            self.wf(),
        ensures
            b == (can_append(self@, timestamp_ms) && self@.len() < usize::MAX),
    {
        if self.count == usize::MAX {
            return false;
        }
        if !self.started {
            return true;
        }
        proof {
            lemma_signed_ms(timestamp_ms);
            lemma_signed_ms(self.timestamp);
        }
        let delta: i128 = (timestamp_ms as i64) as i128 - (self.timestamp as i64) as i128;
        let dod: i128 = delta - self.delta as i128;
        i64::MIN as i128 <= delta && delta <= i64::MAX as i128 && i64::MIN as i128 <= dod && dod
            <= i64::MAX as i128
    }

    /// Number of samples appended.
    pub fn count(&self) -> (n: usize)
        requires
            self.wf(),
        ensures
            n == self@.len(),
    {
        self.count
    }

    /// Encoded size in bytes (including any partial trailing byte).
    pub fn encoded_len(&self) -> (n: usize)
        requires
            self.wf(),
            chunk_bits(self@).len() <= usize::MAX,
        ensures
            n == (chunk_bits(self@).len() + 7) / 8,
    {
        let bits = self.writer.bit_len();
        bits / 8 + if bits % 8 == 0 { 0 } else { 1 }
    }

    /// Append a sample. Timestamps are expected to be non-decreasing; any
    /// sequence whose deltas (timestamps read as `i64`) and deltas-of-deltas
    /// stay within `i64` is accepted.
    pub fn push(&mut self, timestamp_ms: u64, value_bits: u64)
        requires
            old(self).wf(),
            can_append(old(self)@, timestamp_ms),
            old(self)@.len() < usize::MAX,
        ensures
            final(self).wf(),
            final(self)@ == old(self)@.push((timestamp_ms, value_bits)),
    {
        let ghost s = self.samples@;
        let ghost s2 = s.push((timestamp_ms, value_bits));
        assert(s2.drop_last() =~= s);
        if !self.started {
            self.writer.write_bits(timestamp_ms, 64);
            self.writer.write_bits(value_bits, 64);
            self.timestamp = timestamp_ms;
            self.value_bits = value_bits;
            self.started = true;
            self.count = 1;
            self.samples = Ghost(s2);
            proof {
                assert(s.len() == 0);
                assert(s2.len() == 1);
            }
            self.delta = 0;
            self.leading = u32::MAX;
            self.trailing = 0;
            assert(self.writer@ =~= chunk_bits(s2));
            return;
        }
        proof {
            lemma_chunk_state_window(s);
        }
        proof {
            lemma_signed_ms(timestamp_ms);
            lemma_signed_ms(self.timestamp);
        }
        let delta: i64 = timestamp_ms as i64 - self.timestamp as i64;
        self.write_timestamp(delta - self.delta);
        self.timestamp = timestamp_ms;
        self.delta = delta;

        self.write_value(value_bits);
        self.value_bits = value_bits;
        self.count = self.count + 1;
        self.samples = Ghost(s2);
        proof {
            assert(last_dod(s2) == (delta - old(self).delta) as int);
        }
        assert(self.writer@ =~= chunk_bits(s2));
    }

    fn write_timestamp(&mut self, dod: i64)
        requires
            old(self).writer.wf(),
        ensures
            final(self).writer.wf(),
            final(self).writer@ == old(self).writer@ + ts_code(dod as int),
            final(self).count == old(self).count,
            final(self).timestamp == old(self).timestamp,
            final(self).delta == old(self).delta,
            final(self).value_bits == old(self).value_bits,
            final(self).leading == old(self).leading,
            final(self).trailing == old(self).trailing,
            final(self).started == old(self).started,
            final(self).samples == old(self).samples,
    {
        // Buckets sized to exact two's-complement ranges to avoid off-by-one.
        if dod == 0 {
            self.writer.write_bit(false);
            assert(self.writer@ =~= old(self).writer@ + ts_code(dod as int));
        } else if -64 <= dod && dod <= 63 {
            self.writer.write_bits(0b10, 2);
            self.writer.write_bits(dod as u64, 7);
            proof {
                assert(u64_bits(2, 2) =~= seq![true, false]) by {
                    assert((2u64 >> 1u64) & 1u64 == 1u64 && (2u64 >> 0u64) & 1u64 == 0u64)
                        by (bit_vector);
                }
            }
            assert(self.writer@ =~= old(self).writer@ + ts_code(dod as int));
        } else if -256 <= dod && dod <= 255 {
            self.writer.write_bits(0b110, 3);
            self.writer.write_bits(dod as u64, 9);
            proof {
                assert(u64_bits(6, 3) =~= seq![true, true, false]) by {
                    assert((6u64 >> 2u64) & 1u64 == 1u64 && (6u64 >> 1u64) & 1u64 == 1u64 && (6u64
                        >> 0u64) & 1u64 == 0u64) by (bit_vector);
                }
            }
            assert(self.writer@ =~= old(self).writer@ + ts_code(dod as int));
        } else if -2048 <= dod && dod <= 2047 {
            self.writer.write_bits(0b1110, 4);
            self.writer.write_bits(dod as u64, 12);
            proof {
                assert(u64_bits(14, 4) =~= seq![true, true, true, false]) by {
                    assert((14u64 >> 3u64) & 1u64 == 1u64 && (14u64 >> 2u64) & 1u64 == 1u64 && (
                    14u64 >> 1u64) & 1u64 == 1u64 && (14u64 >> 0u64) & 1u64 == 0u64)
                        by (bit_vector);
                }
            }
            assert(self.writer@ =~= old(self).writer@ + ts_code(dod as int));
        } else {
            self.writer.write_bits(0b1111, 4);
            self.writer.write_bits(dod as u64, 64);
            proof {
                assert(u64_bits(15, 4) =~= seq![true, true, true, true]) by {
                    assert((15u64 >> 3u64) & 1u64 == 1u64 && (15u64 >> 2u64) & 1u64 == 1u64 && (
                    15u64 >> 1u64) & 1u64 == 1u64 && (15u64 >> 0u64) & 1u64 == 1u64)
                        by (bit_vector);
                }
            }
            assert(self.writer@ =~= old(self).writer@ + ts_code(dod as int));
        }
    }

    fn write_value(&mut self, bits: u64)
        requires
            old(self).writer.wf(),
            window_ok(old(self).leading, old(self).trailing),
        ensures
            final(self).writer.wf(),
            final(self).writer@ == old(self).writer@ + value_code(
                old(self).value_bits ^ bits,
                old(self).leading,
                old(self).trailing,
            ),
            (final(self).leading, final(self).trailing) == next_window(
                old(self).value_bits ^ bits,
                old(self).leading,
                old(self).trailing,
            ),
            final(self).count == old(self).count,
            final(self).timestamp == old(self).timestamp,
            final(self).delta == old(self).delta,
            final(self).value_bits == old(self).value_bits,
            final(self).started == old(self).started,
            final(self).samples == old(self).samples,
    {
        let xor = self.value_bits ^ bits;
        if xor == 0 {
            self.writer.write_bit(false);
            assert(self.writer@ =~= old(self).writer@ + value_code(xor, self.leading, self.trailing));
            return;
        }
        self.writer.write_bit(true);
        proof {
            lemma_lz_tz(xor);
        }

        let lz = xor.leading_zeros();
        let leading: u32 = if lz < 31 { lz } else { 31 };
        let trailing = xor.trailing_zeros();

        if self.leading != u32::MAX && leading >= self.leading && trailing >= self.trailing {
            // Reuse the previous window of meaningful bits.
            self.writer.write_bit(false);
            let meaningful: u32 = 64 - self.leading - self.trailing;
            self.writer.write_bits(xor >> self.trailing, meaningful as u8);
            assert(self.writer@ =~= old(self).writer@ + value_code(
                xor,
                old(self).leading,
                old(self).trailing,
            ));
        } else {
            // Open a new window.
            self.writer.write_bit(true);
            self.writer.write_bits(leading as u64, 5);
            let meaningful: u32 = 64 - leading - trailing;
            self.writer.write_bits((meaningful - 1) as u64, 6);
            self.writer.write_bits(xor >> trailing, meaningful as u8);
            self.leading = leading;
            self.trailing = trailing;
            assert(self.writer@ =~= old(self).writer@ + value_code(
                xor,
                old(self).leading,
                old(self).trailing,
            ));
        }
    }
}


impl GorillaChunk {
    /// Decode all samples back out.
    pub fn samples(&self) -> (out: Vec<(u64, u64)>)
        requires
            self.wf(),
        ensures
            out@ == self@,
    {
        let bytes = self.writer.snapshot();
        decode(bytes.as_slice(), self.count, Ghost(self.samples@))
    }
}

fn read_timestamp(reader: &mut BitReader) -> (r: Option<i64>)
    requires
        old(reader).wf(),
    ensures
        final(reader).wf(),
        final(reader).all_bits() == old(reader).all_bits(),
        match spec_read_ts(old(reader).remaining()) {
            Some((v, n)) => r == Some(v as i64) && final(reader).pos() == old(reader).pos() + n,
            None => r is None,
        },
{
    let ghost p = reader.pos() as int;
    let ghost all = reader.all_bits();
    let ghost b = all.skip(p);
    proof {
        reader.lemma_pos_bound();
    }
    if !reader.read_bit()? {
        return Some(0);
    }
    if !reader.read_bit()? {
        let raw = reader.read_bits(7)?;
        assert(all.skip(p + 2).take(7) =~= b.subrange(2, 9));
        return Some(sign_extend(raw, 7));
    }
    if !reader.read_bit()? {
        let raw = reader.read_bits(9)?;
        assert(all.skip(p + 3).take(9) =~= b.subrange(3, 12));
        return Some(sign_extend(raw, 9));
    }
    if !reader.read_bit()? {
        let raw = reader.read_bits(12)?;
        assert(all.skip(p + 4).take(12) =~= b.subrange(4, 16));
        return Some(sign_extend(raw, 12));
    }
    let raw = reader.read_bits(64)?;
    assert(all.skip(p + 4).take(64) =~= b.subrange(4, 68));
    Some(raw as i64)
}

fn read_value_control(reader: &mut BitReader) -> (r: ValueControl)
    requires
        old(reader).wf(),
    ensures
        final(reader).wf(),
        final(reader).all_bits() == old(reader).all_bits(),
        r == spec_read_control(old(reader).remaining()).0,
        final(reader).pos() == old(reader).pos() + spec_read_control(old(reader).remaining()).1,
{
    proof {
        reader.lemma_pos_bound();
    }
    match reader.read_bit() {
        Some(false) => ValueControl::Same,
        Some(true) => match reader.read_bit() {
            Some(false) => ValueControl::ReuseWindow,
            Some(true) => ValueControl::NewWindow,
            None => ValueControl::Eof,
        },
        None => ValueControl::Eof,
    }
}

/// Interpret the low `bits` of `value` as a two's-complement signed integer.
fn sign_extend(value: u64, bits: u8) -> (r: i64)
    requires
        1 <= bits <= 64,
    ensures
        r == spec_sign_extend(value, bits as u64),
{
    let shift: u8 = 64 - bits;
    ((value << shift) as i64) >> shift
}

proof fn lemma_state_bounds(s: Seq<(u64, u64)>)
    requires
        s.len() > 0,
        samples_ok(s),
    ensures
        chunk_state(s).ts == s.last().0,
        i64::MIN <= chunk_state(s).delta <= i64::MAX,
        chunk_state(s).vbits == s.last().1,
    decreases s.len(),
{
    if s.len() > 1 {
        lemma_state_bounds(s.drop_last());
    }
}

/// Read one value back, given the bits ahead encode it against `value_bits`
/// under the window `(lead, trail)` the encoder held.
fn read_value(
    reader: &mut BitReader,
    value_bits: u64,
    leading: &mut u32,
    trailing: &mut u32,
    Ghost(lead): Ghost<u32>,
    Ghost(trail): Ghost<u32>,
    Ghost(next): Ghost<u64>,
) -> (r: u64)
    requires
        old(reader).wf(),
        window_ok(lead, trail),
        lead != u32::MAX ==> *old(leading) == lead && *old(trailing) == trail,
        old(reader).remaining().len() >= value_code(value_bits ^ next, lead, trail).len(),
        old(reader).remaining().take(value_code(value_bits ^ next, lead, trail).len() as int)
            == value_code(value_bits ^ next, lead, trail),
    ensures
        r == next,
        final(reader).wf(),
        final(reader).all_bits() == old(reader).all_bits(),
        final(reader).pos() == old(reader).pos() + value_code(value_bits ^ next, lead, trail).len(),
        next_window(value_bits ^ next, lead, trail).0 != u32::MAX ==> *final(leading)
            == next_window(value_bits ^ next, lead, trail).0 && *final(trailing) == next_window(
            value_bits ^ next,
            lead,
            trail,
        ).1,
{
    let ghost xor = value_bits ^ next;
    let ghost vc = value_code(xor, lead, trail);
    let ghost all = reader.all_bits();
    let ghost q = reader.pos() as int;
    proof {
        reader.lemma_pos_bound();
        lemma_xor(value_bits, next);
        assert(all.skip(q).take(vc.len() as int)[0] == vc[0]);
        if vc.len() > 1 {
            assert(all.skip(q).take(vc.len() as int)[1] == vc[1]);
        }
    }
    let mut value_bits = value_bits;
    match read_value_control(reader) {
        ValueControl::Same => {
            assert(xor == 0);
        },
        ValueControl::ReuseWindow => {
            assert(xor != 0);
            assert(fits_window(xor, lead, trail));
            let meaningful = 64 - *leading - *trailing;
            proof {
                let m = meaningful as int;
                lemma_sub_code(all, q, vc, 2, m);
                assert(vc.subrange(2, 2 + m) =~= u64_bits(xor >> (trail as u64), m as nat));
                lemma_bits_value_u64_bits(xor >> (trail as u64), m as nat);
                lemma_value_payload(xor, lead, trail);
            }
            let bits = reader.read_bits(meaningful as u8).unwrap_or(0);
            value_bits ^= bits << *trailing;
        },
        ValueControl::NewWindow => {
            let ghost nl = capped_leading(xor);
            let ghost nt = u64_trailing_zeros(xor);
            let ghost m = (64 - nl - nt) as int;
            proof {
                assert(xor != 0);
                assert(!fits_window(xor, lead, trail));
                lemma_lz_tz(xor);
                lemma_sub_code(all, q, vc, 2, 5);
                lemma_sub_code(all, q, vc, 7, 6);
                lemma_sub_code(all, q, vc, 13, m);
                assert(vc.subrange(2, 7) =~= u64_bits(nl as u64, 5));
                assert(vc.subrange(7, 13) =~= u64_bits((m - 1) as u64, 6));
                assert(vc.subrange(13, 13 + m) =~= u64_bits(xor >> (nt as u64), m as nat));
                lemma_bits_value_u64_bits(nl as u64, 5);
                lemma_bits_value_u64_bits((m - 1) as u64, 6);
                lemma_bits_value_u64_bits(xor >> (nt as u64), m as nat);
                lemma_small_fields(nl as u64, (m - 1) as u64);
                lemma_value_payload(xor, nl, nt);
            }
            *leading = reader.read_bits(5).unwrap_or(0) as u32;
            let meaningful = reader.read_bits(6).unwrap_or(0) as u32 + 1;
            *trailing = 64 - *leading - meaningful;
            let bits = reader.read_bits(meaningful as u8).unwrap_or(0);
            value_bits ^= bits << *trailing;
        },
        ValueControl::Eof => {
            assert(false);
        },
    }
    value_bits
}

proof fn lemma_xor(a: u64, b: u64)
    by (bit_vector)
    ensures
        a ^ b == 0 ==> a == b,
        a ^ (a ^ b) == b,
{
}

proof fn lemma_code_at_offset(
    all: Seq<bool>,
    whole: Seq<bool>,
    big: Seq<bool>,
    k: int,
    code: Seq<bool>,
)
    requires
        whole.len() <= all.len(),
        all.take(whole.len() as int) == whole,
        big.len() <= whole.len(),
        whole.take(big.len() as int) == big,
        0 <= k,
        k + code.len() <= big.len(),
        big.subrange(k, k + code.len()) == code,
    ensures
        all.skip(k).take(code.len() as int) == code,
{
    assert forall|j: int| 0 <= j < code.len() implies #[trigger] all.skip(k).take(
        code.len() as int,
    )[j] == code[j] by {
        assert(big.subrange(k, k + code.len())[j] == big[k + j]);
        assert(whole.take(big.len() as int)[k + j] == whole[k + j]);
        assert(all.take(whole.len() as int)[k + j] == all[k + j]);
    }
    assert(all.skip(k).take(code.len() as int) =~= code);
}

proof fn lemma_sub_code(all: Seq<bool>, k: int, code: Seq<bool>, a: int, n: int)
    requires
        0 <= k,
        k + code.len() <= all.len(),
        all.skip(k).take(code.len() as int) == code,
        0 <= a,
        0 <= n,
        a + n <= code.len(),
    ensures
        all.skip(k + a).take(n) == code.subrange(a, a + n),
{
    assert forall|j: int| 0 <= j < n implies #[trigger] all.skip(k + a).take(n)[j] == code.subrange(
        a,
        a + n,
    )[j] by {
        assert(all.skip(k).take(code.len() as int)[a + j] == all[k + a + j]);
    }
    assert(all.skip(k + a).take(n) =~= code.subrange(a, a + n));
}

/// Decode the samples of a Gorilla byte buffer that encodes `s`.
fn decode(bytes: &[u8], count: usize, Ghost(s): Ghost<Seq<(u64, u64)>>) -> (out: Vec<(u64, u64)>)
    requires
        s.len() == count,
        samples_ok(s),
        chunk_bits(s).len() <= bits_of_bytes(bytes@).len(),
        bits_of_bytes(bytes@).take(chunk_bits(s).len() as int) == chunk_bits(s),
    ensures
        out@ == s,
{
    let mut out: Vec<(u64, u64)> = Vec::with_capacity(count);
    if count == 0 {
        assert(out@ =~= s);
        return out;
    }
    let ghost all = bits_of_bytes(bytes@);
    let ghost whole = chunk_bits(s);
    let mut reader = BitReader::new(bytes);
    proof {
        lemma_chunk_bits_prefix(s, 1);
        let first = s.take(1);
        assert(first.len() == 1);
        let fb = chunk_bits(first);
        assert(fb == u64_bits(s[0].0, 64) + u64_bits(s[0].1, 64));
        assert(whole.take(fb.len() as int) =~= fb);
        assert(fb.subrange(0, 64) =~= u64_bits(s[0].0, 64));
        assert(fb.subrange(64, 128) =~= u64_bits(s[0].1, 64));
        lemma_code_at_offset(all, whole, fb, 0, u64_bits(s[0].0, 64));
        lemma_code_at_offset(all, whole, fb, 64, u64_bits(s[0].1, 64));
        lemma_bits_value_u64_bits(s[0].0, 64);
        lemma_bits_value_u64_bits(s[0].1, 64);
        lemma_full_word(s[0].0);
        lemma_full_word(s[0].1);
        assert(all.skip(0) =~= all);
    }
    let mut timestamp = reader.read_bits(64).unwrap_or(0);
    let mut value_bits = reader.read_bits(64).unwrap_or(0);
    out.push((timestamp, value_bits));

    let mut delta: i64 = 0;
    let mut leading = 0u32;
    let mut trailing = 0u32;

    let mut i: usize = 1;
    proof {
        assert(out@ =~= s.take(1));
        assert(s.take(1).len() == 1);
    }
    while i < count
        invariant
            reader.wf(),
            reader.all_bits() == all,
            all == bits_of_bytes(bytes@),
            whole == chunk_bits(s),
            whole.len() <= all.len(),
            all.take(whole.len() as int) == whole,
            samples_ok(s),
            s.len() == count,
            1 <= i <= count,
            reader.pos() == chunk_bits(s.take(i as int)).len(),
            timestamp == chunk_state(s.take(i as int)).ts,
            value_bits == chunk_state(s.take(i as int)).vbits,
            delta == chunk_state(s.take(i as int)).delta,
            chunk_state(s.take(i as int)).leading != u32::MAX ==> leading == chunk_state(
                s.take(i as int),
            ).leading && trailing == chunk_state(s.take(i as int)).trailing,
            out@ == s.take(i as int),
        ensures
            out@ == s,
        decreases count - i,
    {
        let ghost prev = s.take(i as int);
        let ghost t = s.take(i + 1);
        let ghost st = chunk_state(prev);
        let ghost dod = last_dod(t);
        let ghost xor = st.vbits ^ s[i as int].1;
        let ghost tc = ts_code(dod);
        let ghost vc = value_code(xor, st.leading, st.trailing);
        let ghost pb = chunk_bits(prev);
        let ghost k = pb.len() as int;
        proof {
            assert(t.drop_last() =~= prev);
            assert(t.last() == s[i as int]);
            lemma_chunk_bits_prefix(s, i + 1);
            lemma_chunk_bits_prefix(s, i as int);
            lemma_samples_ok_prefix(s, i + 1);
            lemma_samples_ok_prefix(s, i as int);
            lemma_chunk_state_window(prev);
            lemma_state_bounds(prev);
            lemma_state_bounds(t);
            assert(chunk_bits(t) == pb + tc + vc);
            assert(whole.take(chunk_bits(t).len() as int) =~= chunk_bits(t));
            assert(chunk_bits(t).subrange(k, k + tc.len()) =~= tc);
            assert(chunk_bits(t).subrange(k + tc.len(), k + tc.len() + vc.len()) =~= vc);
            lemma_code_at_offset(all, whole, chunk_bits(t), k, tc);
            lemma_code_at_offset(all, whole, chunk_bits(t), k + tc.len(), vc);
            lemma_read_ts_code(dod, all.skip(k));
        }
        let dod_read = match read_timestamp(&mut reader) {
            Some(d) => d,
            None => {
                break;
            },
        };
        delta = delta + dod_read;
        proof {
            lemma_signed_ms(timestamp);
            lemma_signed_ms(s[i as int].0);
        }
        timestamp = (timestamp as i64 + delta) as u64;

        let ghost q = k + tc.len();
        value_bits = read_value(
            &mut reader,
            value_bits,
            &mut leading,
            &mut trailing,
            Ghost(st.leading),
            Ghost(st.trailing),
            Ghost(s[i as int].1),
        );

        out.push((timestamp, value_bits));
        i = i + 1;
        proof {
            assert(out@ =~= s.take(i as int));
        }
    }
    proof {
        assert(s.take(count as int) =~= s);
    }
    out
}

} // verus!
