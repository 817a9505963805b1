//! Most-significant-bit-first bit writer and reader, the substrate for the
//! Gorilla codec.
//!
//! A writer is modelled as the sequence of bits appended so far; a byte
//! buffer is modelled as the concatenation of its bytes' bits, most
//! significant bit first.

use vstd::prelude::*;

verus! {

/// Bit `i` (0 = most significant) of a byte.
pub open spec fn byte_bit(b: u8, i: int) -> bool {
    (b >> ((7 - i) as u8)) & 1u8 == 1u8
}

/// The bits of a byte buffer, most significant bit of each byte first.
pub open spec fn bits_of_bytes(bytes: Seq<u8>) -> Seq<bool> {
    Seq::new(8 * bytes.len(), |i: int| byte_bit(bytes[i / 8], i % 8))
}

/// The low `count` bits of `value`, most significant first.
pub open spec fn u64_bits(value: u64, count: nat) -> Seq<bool> {
    Seq::new(count, |j: int| (value >> ((count - 1 - j) as u64)) & 1u64 == 1u64)
}

/// The number a bit sequence spells, most significant bit first, keeping the
/// low 64 bits (the result of shifting each bit into a `u64`).
pub open spec fn bits_value(bits: Seq<bool>) -> u64
    decreases bits.len(),
{
    if bits.len() == 0 {
        0
    } else {
        ((bits_value(bits.drop_last()) << 1u64) | (if bits.last() {
            1u64
        } else {
            0u64
        })) as u64
    }
}

/// A mask of the low `count` bits.
pub open spec fn low_mask(count: u64) -> u64 {
    if count >= 64 {
        0xffff_ffff_ffff_ffffu64
    } else {
        ((1u64 << count) - 1) as u64
    }
}

/// The bits still held in the partial byte of a writer.
pub open spec fn partial_bits(current: u8, filled: u8) -> Seq<bool> {
    Seq::new(filled as nat, |i: int| (current >> ((filled - 1 - i) as u8)) & 1u8 == 1u8)
}

proof fn lemma_bits_of_bytes_push(bytes: Seq<u8>, b: u8)
    ensures
        bits_of_bytes(bytes.push(b)) =~= bits_of_bytes(bytes) + partial_bits(b, 8),
{
    let n = bytes.len();
    assert forall|i: int| 0 <= i < 8 * (n + 1) implies #[trigger] bits_of_bytes(bytes.push(b))[i]
        == (bits_of_bytes(bytes) + partial_bits(b, 8))[i] by {
        if i < 8 * n {
            assert(i / 8 < n);
        } else {
            assert(i / 8 == n);
            assert(i % 8 == i - 8 * n);
        }
    }
}

proof fn lemma_partial_push(current: u8, filled: u8, bit: bool)
    requires
        filled < 8,
        current < (1u8 << filled),
    ensures
        partial_bits(((current << 1u8) | (if bit { 1u8 } else { 0u8 })) as u8, (filled + 1) as u8)
            =~= partial_bits(current, filled).push(bit),
        (((current << 1u8) | (if bit { 1u8 } else { 0u8 })) as u8) < (1u16 << ((filled + 1) as u16)),
{
    let b: u8 = if bit { 1u8 } else { 0u8 };
    let c2: u8 = ((current << 1u8) | b) as u8;
    let f2: u8 = (filled + 1) as u8;
    assert(b <= 1);
    assert forall|i: int| 0 <= i < f2 implies #[trigger] partial_bits(c2, f2)[i] == partial_bits(
        current,
        filled,
    ).push(bit)[i] by {
        let s: u8 = (f2 - 1 - i) as u8;
        if i < filled {
            let s1: u8 = (filled - 1 - i) as u8;
            assert(s == s1 + 1);
            assert(filled < 8 && current < (1u8 << filled) && b <= 1 && s1 < filled && s
                == s1 + 1 ==> ((((current << 1u8) | b) as u8) >> s) & 1u8 == (current >> s1)
                & 1u8) by (bit_vector);
        } else {
            assert(s == 0);
            assert(filled < 8 && current < (1u8 << filled) && b <= 1 ==> ((((current << 1u8) | b)
                as u8) >> 0u8) & 1u8 == b) by (bit_vector);
        }
    }
    assert(filled < 8 && current < (1u8 << filled) && b <= 1 ==> ((((current << 1u8) | b) as u8)
        as u16) < (1u16 << ((filled + 1) as u16))) by (bit_vector);
}

/// Appends individual bits into a growing byte buffer, MSB first.
#[derive(Debug)]
pub struct BitWriter {
    bytes: Vec<u8>,
    current: u8,
    filled: u8,
}

impl View for BitWriter {
    type V = Seq<bool>;

    /// Every bit written so far, in order.
    closed spec fn view(&self) -> Seq<bool> {
        bits_of_bytes(self.bytes@) + partial_bits(self.current, self.filled)
    }
}

impl BitWriter {
    /// The writer's internal invariant: fewer than eight pending bits, and
    /// nothing above them in the partial byte.
    pub closed spec fn wf(&self) -> bool {
        &&& self.filled < 8
        &&& (self.current as u16) < (1u16 << (self.filled as u16))
    }

    pub fn new() -> (w: BitWriter)
        ensures
            w.wf(),
            w@ == Seq::<bool>::empty(),
    {
        let w = BitWriter { bytes: Vec::new(), current: 0, filled: 0 };
        assert(w@ =~= Seq::<bool>::empty());
        assert((0u16) < (1u16 << 0u16)) by (bit_vector);
        w
    }

    /// Append a single bit.
    pub fn write_bit(&mut self, bit: bool)
        requires
            old(self).wf(),
        ensures
            final(self).wf(),
            final(self)@ == old(self)@.push(bit),
    {
        let b: u8 = if bit { 1 } else { 0 };
        proof {
            let c = self.current;
            let f = self.filled;
            assert(f < 8 && (c as u16) < (1u16 << (f as u16)) ==> c < (1u8 << f)) by (bit_vector);
            lemma_partial_push(c, f, bit);
            assert(f < 8 && (c as u16) < (1u16 << (f as u16)) ==> c < 128) by (bit_vector);
        }
        let ghost old_bytes = self.bytes@;
        self.current = (self.current << 1) | b;
        self.filled = self.filled + 1;
        if self.filled == 8 {
            proof {
                lemma_bits_of_bytes_push(old_bytes, self.current);
            }
            self.bytes.push(self.current);
            self.current = 0;
            self.filled = 0;
            assert(partial_bits(0, 0) =~= Seq::<bool>::empty());
            assert((0u16) < (1u16 << 0u16)) by (bit_vector);
        }
        assert(self@ =~= old(self)@.push(bit));
    }

    /// Append the low `count` bits of `value`, most significant first.
    pub fn write_bits(&mut self, value: u64, count: u8)
        requires
            old(self).wf(),
            count <= 64,
        ensures
            final(self).wf(),
            final(self)@ == old(self)@ + u64_bits(value, count as nat),
    {
        let mut i: u8 = 0;
        while i < count
            invariant
                self.wf(),
                i <= count <= 64,
                self@ =~= old(self)@ + u64_bits(value, count as nat).take(i as int),
            decreases count - i,
        {
            let shift: u8 = count - 1 - i;
            self.write_bit((value >> shift) & 1 == 1);
            assert(u64_bits(value, count as nat).take(i + 1) =~= u64_bits(
                value,
                count as nat,
            ).take(i as int).push((value >> (shift as u64)) & 1u64 == 1u64));
            i = i + 1;
        }
        assert(u64_bits(value, count as nat).take(count as int) =~= u64_bits(value, count as nat));
    }

    /// Total number of bits written so far.
    pub fn bit_len(&self) -> (n: usize)
        requires
            self.wf(),
            self@.len() <= usize::MAX,
        ensures
            n == self@.len(),
    {
        self.bytes.len() * 8 + self.filled as usize
    }

    /// The encoded bytes, with any partial trailing byte zero-padded on the
    /// right. Non-consuming, so encoding can continue afterwards.
    pub fn snapshot(&self) -> (out: Vec<u8>)
        requires
            self.wf(),
        ensures
            out@.len() == (self@.len() + 7) / 8,
            bits_of_bytes(out@).take(self@.len() as int) == self@,
            forall|i: int|
                self@.len() <= i < bits_of_bytes(out@).len() ==> !#[trigger] bits_of_bytes(
                    out@,
                )[i],
    {
        let mut out = self.bytes.clone();
        assert(out@ =~= self.bytes@);
        if self.filled > 0 {
            let last: u8 = self.current << (8 - self.filled);
            proof {
                let c = self.current;
                let f = self.filled;
                lemma_bits_of_bytes_push(out@, last);
                assert forall|i: int| 0 <= i < 8 implies #[trigger] partial_bits(last, 8)[i] == (
                if i < f {
                    partial_bits(c, f)[i]
                } else {
                    false
                }) by {
                    let s: u8 = (7 - i) as u8;
                    if i < f {
                        let s1: u8 = (f - 1 - i) as u8;
                        assert(0 < f < 8 && (c as u16) < (1u16 << (f as u16)) && s1 < f && s == s1
                            + (8 - f) ==> ((c << ((8 - f) as u8)) >> s) & 1u8 == (c >> s1) & 1u8)
                            by (bit_vector);
                    } else {
                        assert(0 < f < 8 && (c as u16) < (1u16 << (f as u16)) && s < 8 - f ==> ((c
                            << ((8 - f) as u8)) >> s) & 1u8 == 0u8) by (bit_vector);
                    }
                }
            }
            out.push(last);
        } else {
            assert(partial_bits(self.current, self.filled) =~= Seq::<bool>::empty());
        }
        assert(bits_of_bytes(out@).take(self@.len() as int) =~= self@);
        out
    }
}

/// Reads bits back out of a byte slice, MSB first.
#[derive(Debug)]
pub struct BitReader<'a> {
    bytes: &'a [u8],
    byte: usize,
    bit: u8,
}

impl<'a> BitReader<'a> {
    /// All bits of the underlying buffer.
    pub closed spec fn all_bits(&self) -> Seq<bool> {
        bits_of_bytes(self.bytes@)
    }

    /// How many bits have been consumed.
    pub closed spec fn pos(&self) -> nat {
        (self.byte * 8 + self.bit) as nat
    }

    /// The bits not yet read.
    pub open spec fn remaining(&self) -> Seq<bool> {
        self.all_bits().skip(self.pos() as int)
    }

    /// The reader's internal invariant.
    pub closed spec fn wf(&self) -> bool {
        &&& self.bit < 8
        &&& self.byte <= self.bytes@.len()
        &&& self.byte == self.bytes@.len() ==> self.bit == 0
    }

    /// A reader never stands past the end of its buffer.
    pub proof fn lemma_pos_bound(&self)
        requires
            self.wf(),
        ensures
            self.pos() <= self.all_bits().len(),
    {
    }

    pub fn new(bytes: &'a [u8]) -> (r: BitReader<'a>)
        ensures
            r.wf(),
            r.all_bits() == bits_of_bytes(bytes@),
            r.pos() == 0,
    {
        BitReader { bytes, byte: 0, bit: 0 }
    }

    /// Read a single bit, or `None` once the buffer is exhausted.
    pub fn read_bit(&mut self) -> (r: Option<bool>)
        requires
            old(self).wf(),
        ensures
            final(self).wf(),
            final(self).all_bits() == old(self).all_bits(),
            old(self).pos() < old(self).all_bits().len() ==> r == Some(
                old(self).all_bits()[old(self).pos() as int],
            ) && final(self).pos() == old(self).pos() + 1,
            old(self).pos() >= old(self).all_bits().len() ==> r is None && final(self).pos()
                == old(self).pos(),
    {
        if self.byte >= self.bytes.len() {
            return None;
        }
        let byte = self.bytes[self.byte];
        let bit = (byte >> (7 - self.bit)) & 1 == 1;
        proof {
            let p = self.pos() as int;
            assert(p / 8 == self.byte as int);
            assert(p % 8 == self.bit as int);
        }
        self.bit = self.bit + 1;
        if self.bit == 8 {
            self.bit = 0;
            self.byte = self.byte + 1;
        }
        Some(bit)
    }

    /// Read `count` bits into the low bits of a `u64`, most significant first.
    /// When fewer than `count` bits remain, the rest are consumed and `None`
    /// is returned.
    pub fn read_bits(&mut self, count: u8) -> (r: Option<u64>)
        requires
            old(self).wf(),
        ensures
            final(self).wf(),
            final(self).all_bits() == old(self).all_bits(),
            old(self).pos() + count <= old(self).all_bits().len() ==> r == Some(
                bits_value(old(self).remaining().take(count as int)),
            ) && final(self).pos() == old(self).pos() + count,
            old(self).pos() + count > old(self).all_bits().len() ==> r is None && final(self).pos()
                == old(self).all_bits().len(),
    {
        let mut value: u64 = 0;
        let mut i: u8 = 0;
        while i < count
            invariant
                self.wf(),
                self.all_bits() == old(self).all_bits(),
                i <= count,
                self.pos() == old(self).pos() + i,
                self.pos() <= self.all_bits().len(),
                value == bits_value(old(self).remaining().take(i as int)),
            decreases count - i,
        {
            let ghost p = self.pos();
            match self.read_bit() {
                Some(b) => {
                    proof {
                        let s = old(self).remaining().take(i + 1);
                        assert(s.drop_last() =~= old(self).remaining().take(i as int));
                        assert(s.last() == b);
                    }
                    value = (value << 1) | (if b { 1u64 } else { 0u64 });
                },
                None => {
                    return None;
                },
            }
            i = i + 1;
        }
        Some(value)
    }
}

/// Reading `count` bits that were written as the low `count` bits of
/// `value` yields exactly those low bits.
pub proof fn lemma_bits_value_u64_bits(value: u64, count: nat)
    requires
        count <= 64,
    ensures
        bits_value(u64_bits(value, count)) == value & low_mask(count as u64),
    decreases count,
{
    if count == 0 {
        assert(u64_bits(value, 0) =~= Seq::<bool>::empty());
        assert(value & low_mask(0) == 0) by {
            assert(value & (((1u64 << 0u64) - 1) as u64) == 0) by (bit_vector);
        }
    } else {
        let k = count as u64;
        let s = u64_bits(value, count);
        let v1 = value >> 1u64;
        assert(s.drop_last() =~= u64_bits(v1, (count - 1) as nat)) by {
            assert forall|j: int| 0 <= j < count - 1 implies #[trigger] s.drop_last()[j]
                == u64_bits(v1, (count - 1) as nat)[j] by {
                let sh = (count - 1 - j) as u64;
                assert(1 <= sh < 64 ==> (value >> sh) & 1u64 == ((value >> 1u64) >> ((sh - 1)
                    as u64)) & 1u64) by (bit_vector);
            }
        }
        lemma_bits_value_u64_bits(v1, (count - 1) as nat);
        let last: u64 = if s.last() { 1u64 } else { 0u64 };
        assert(last == value & 1u64) by {
            assert((value >> 0u64) & 1u64 == value & 1u64) by (bit_vector);
            assert(value & 1u64 == 0u64 || value & 1u64 == 1u64) by (bit_vector);
        }
        let prev = v1 & low_mask((k - 1) as u64);
        assert(((prev << 1u64) | last) as u64 == value & low_mask(k)) by {
            if k == 64 {
                assert(((((value >> 1u64) & ((((1u64 << 63u64) - 1) as u64))) << 1u64) | (value
                    & 1u64)) == value & 0xffff_ffff_ffff_ffffu64) by (bit_vector);
            } else {
                assert(1 <= k < 64 ==> ((((value >> 1u64) & ((((1u64 << ((k - 1) as u64)) - 1)
                    as u64))) << 1u64) | (value & 1u64)) == value & (((1u64 << k) - 1) as u64))
                    by (bit_vector);
            }
        }
    }
}

/// The bits a run of writes appends, in order: write `i` appends the low
/// `writes[i].1` bits of `writes[i].0` (a single bit `b` is the write
/// `(b as u64, 1)`).
pub open spec fn bits_of_writes(writes: Seq<(u64, nat)>) -> Seq<bool>
    decreases writes.len(),
{
    if writes.len() == 0 {
        Seq::empty()
    } else {
        bits_of_writes(writes.drop_last()) + u64_bits(writes.last().0, writes.last().1)
    }
}

/// The total of the bit counts of a run of writes.
pub open spec fn count_of_writes(writes: Seq<(u64, nat)>) -> nat
    decreases writes.len(),
{
    if writes.len() == 0 {
        0
    } else {
        count_of_writes(writes.drop_last()) + writes.last().1
    }
}

/// A single bit written with `write_bit` is the one-bit write of its value.
pub proof fn lemma_bit_is_one_bit_write(bit: bool)
    ensures
        u64_bits(if bit { 1u64 } else { 0u64 }, 1) == seq![bit],
{
    let v: u64 = if bit { 1u64 } else { 0u64 };
    assert((v >> 0u64) & 1u64 == 1u64 <==> bit) by (bit_vector)
        requires
            v == (if bit { 1u64 } else { 0u64 }),
    ;
    assert(u64_bits(v, 1) =~= seq![bit]);
}

/// A writer holds as many bits as its writes counted: from an empty writer,
/// the bits after a run of writes are the writes' bits in order, so
/// `bit_len` is the sum of the counts written and `snapshot` has
/// `(bit_len + 7) / 8` bytes.
pub proof fn lemma_bit_len_of_writes(writes: Seq<(u64, nat)>)
    ensures
        bits_of_writes(writes).len() == count_of_writes(writes),
    decreases writes.len(),
{
    if writes.len() > 0 {
        lemma_bit_len_of_writes(writes.drop_last());
    }
}

} // verus!
