use vstd::prelude::*;
use vstd::arithmetic::power2::{pow2, lemma_pow2_unfold, lemma2_to64, lemma_pow2_strictly_increases};
use crate::error::DecodeError;

verus! {

/// Abstract position in a bit stream: the bytes, and the index of the next
/// bit to read, counted from the first bit of the first byte.
pub struct BitCursor {
    pub bytes: Seq<u8>,
    pub pos: nat,
}

impl BitCursor {
    /// Number of bits the byte sequence holds.
    pub open spec fn total(self) -> nat {
        8 * self.bytes.len()
    }

    /// Bits still available after the cursor.
    pub open spec fn remaining(self) -> int {
        self.total() - self.pos
    }

    pub open spec fn valid(self) -> bool {
        self.pos <= self.total()
    }

    /// The same bytes, with the cursor moved `n` bits forward.
    pub open spec fn advance(self, n: nat) -> BitCursor {
        BitCursor { bytes: self.bytes, pos: self.pos + n }
    }
}

/// Bit `i` of the stream: bit `i % 8` (counted from the least significant) of
/// byte `i / 8`.
pub open spec fn bit_at(bytes: Seq<u8>, i: int) -> bool {
    (bytes[i / 8] >> ((i % 8) as u8)) & 1u8 == 1u8
}

/// The unsigned integer whose bit `j` is stream bit `start + j`, for `j < n`.
pub open spec fn bits_value(bytes: Seq<u8>, start: int, n: nat) -> nat
    decreases n,
{
    if n == 0 {
        0
    } else {
        bits_value(bytes, start, (n - 1) as nat) + if bit_at(bytes, start + n - 1) {
            pow2((n - 1) as nat)
        } else {
            0
        }
    }
}

/// What reading `n` bits at cursor `c` returns, and where the cursor stands
/// afterwards. A failed read leaves the cursor where it was.
pub open spec fn read_outcome(c: BitCursor, n: u32) -> (Result<u32, DecodeError>, BitCursor) {
    if n > 32 {
        (Err(DecodeError::InvalidBitWidth), c)
    } else if c.pos + n > c.total() {
        (Err(DecodeError::StreamExhausted), c)
    } else {
        (Ok(bits_value(c.bytes, c.pos as int, n as nat) as u32), c.advance(n as nat))
    }
}

/// `n` bits never make a value of `2^n` or more.
pub proof fn lemma_bits_value_bound(bytes: Seq<u8>, start: int, n: nat)
    ensures
        bits_value(bytes, start, n) < pow2(n),
    decreases n,
{
    if n > 0 {
        lemma_bits_value_bound(bytes, start, (n - 1) as nat);
        lemma_pow2_unfold(n);
    } else {
        lemma2_to64();
    }
}

/// Cursor reached from `c` by `j` successive one-bit reads.
pub open spec fn after_single_reads(c: BitCursor, j: nat) -> BitCursor
    decreases j,
{
    if j == 0 {
        c
    } else {
        read_outcome(after_single_reads(c, (j - 1) as nat), 1).1
    }
}

/// Reading eight bits at the start of a stream gives its first byte
/// unchanged.
pub proof fn lemma_read_first_byte(bytes: Seq<u8>)
    requires
        bytes.len() >= 1,
    ensures
        read_outcome(BitCursor { bytes, pos: 0 }, 8).0 == Ok::<u32, DecodeError>(bytes[0] as u32),
{
    let b = bytes[0];
    lemma2_to64();
    reveal_with_fuel(bits_value, 9);
    assert forall|j: int| 0 <= j < 8 implies bit_at(bytes, j) == ((b >> (j as u8)) & 1u8 == 1u8) by {
        assert(j / 8 == 0 && j % 8 == j);
    }
    assert(b as nat == (if (b >> 0u8) & 1u8 == 1u8 { 1nat } else { 0nat }) + (if (b >> 1u8) & 1u8
        == 1u8 { 2nat } else { 0nat }) + (if (b >> 2u8) & 1u8 == 1u8 { 4nat } else { 0nat }) + (if (b
        >> 3u8) & 1u8 == 1u8 { 8nat } else { 0nat }) + (if (b >> 4u8) & 1u8 == 1u8 { 16nat } else {
        0nat }) + (if (b >> 5u8) & 1u8 == 1u8 { 32nat } else { 0nat }) + (if (b >> 6u8) & 1u8 == 1u8 {
        64nat } else { 0nat }) + (if (b >> 7u8) & 1u8 == 1u8 { 128nat } else { 0nat })) by {
        lemma_byte_from_bits(b);
    }
}

/// A byte is the sum of its set bits' weights.
proof fn lemma_byte_from_bits(b: u8)
    ensures
        b == (if (b >> 0u8) & 1u8 == 1u8 { 1u8 } else { 0u8 }) + (if (b >> 1u8) & 1u8 == 1u8 { 2u8 } else {
            0u8 }) + (if (b >> 2u8) & 1u8 == 1u8 { 4u8 } else { 0u8 }) + (if (b >> 3u8) & 1u8 == 1u8 {
            8u8 } else { 0u8 }) + (if (b >> 4u8) & 1u8 == 1u8 { 16u8 } else { 0u8 }) + (if (b >> 5u8)
            & 1u8 == 1u8 { 32u8 } else { 0u8 }) + (if (b >> 6u8) & 1u8 == 1u8 { 64u8 } else { 0u8 }) + (
        if (b >> 7u8) & 1u8 == 1u8 { 128u8 } else { 0u8 }),
{
    assert(b == (if (b >> 0u8) & 1u8 == 1u8 { 1u8 } else { 0u8 }) + (if (b >> 1u8) & 1u8 == 1u8 { 2u8 } else {
            0u8 }) + (if (b >> 2u8) & 1u8 == 1u8 { 4u8 } else { 0u8 }) + (if (b >> 3u8) & 1u8 == 1u8 {
            8u8 } else { 0u8 }) + (if (b >> 4u8) & 1u8 == 1u8 { 16u8 } else { 0u8 }) + (if (b >> 5u8)
            & 1u8 == 1u8 { 32u8 } else { 0u8 }) + (if (b >> 6u8) & 1u8 == 1u8 { 64u8 } else { 0u8 }) + (
        if (b >> 7u8) & 1u8 == 1u8 { 128u8 } else { 0u8 })) by (bit_vector);
}

/// A zero-width read never fails, returns 0 and leaves the cursor in place.
pub proof fn lemma_zero_width_read(c: BitCursor)
    requires
        c.valid(),
    ensures
        read_outcome(c, 0) == (Ok::<u32, DecodeError>(0), c),
{
    assert(c.advance(0) == c);
}

/// A read of more than 32 bits fails with `InvalidBitWidth`, whatever the
/// bytes and the cursor, and leaves the cursor in place.
pub proof fn lemma_width_ceiling(c: BitCursor, n: u32)
    requires
        n > 32,
    ensures
        read_outcome(c, n) == (Err::<u32, DecodeError>(DecodeError::InvalidBitWidth), c),
{
}

/// From any valid cursor, exactly `remaining()` one-bit reads succeed, one
/// after the other, and the next one fails with `StreamExhausted`.
pub proof fn lemma_single_bit_reads(c: BitCursor)
    requires
        c.valid(),
    ensures
        forall|j: nat| j < c.remaining() ==> (#[trigger] read_outcome(after_single_reads(c, j), 1)).0 is Ok,
        read_outcome(after_single_reads(c, c.remaining() as nat), 1).0
            == Err::<u32, DecodeError>(DecodeError::StreamExhausted),
{
    assert forall|j: nat| j <= c.remaining() implies #[trigger] after_single_reads(c, j) == c.advance(j) by {
        lemma_single_reads_advance(c, j);
    }
}

proof fn lemma_single_reads_advance(c: BitCursor, j: nat)
    requires
        c.valid(),
        j <= c.remaining(),
    ensures
        after_single_reads(c, j) == c.advance(j),
    decreases j,
{
    if j > 0 {
        lemma_single_reads_advance(c, (j - 1) as nat);
    } else {
        assert(c.advance(0) == c);
    }
}

/// Reads bits from the front of a borrowed byte sequence, least-significant
/// bit of each byte first.
#[derive(Clone, Copy)]
pub struct BitReader<'a> {
    buf: &'a [u8],
    /// Index of the byte that holds the next bit.
    byte: usize,
    /// Offset of the next bit within that byte, from the least significant.
    bit: u8,
}

impl<'a> View for BitReader<'a> {
    type V = BitCursor;

    closed spec fn view(&self) -> BitCursor {
        BitCursor { bytes: self.buf@, pos: (8 * self.byte + self.bit) as nat }
    }
}

impl<'a> BitReader<'a> {
    /// The cursor sits inside the buffer, or just past its end with no
    /// partial byte.
    pub closed spec fn wf(&self) -> bool {
        &&& self.byte <= self.buf@.len()
        &&& self.bit < 8
        &&& self.byte == self.buf@.len() ==> self.bit == 0
    }

    /// A reader positioned at the first bit of `buf`.
    pub fn new(buf: &'a [u8]) -> (r: BitReader<'a>)
        ensures
            r.wf(),
            r@ == (BitCursor { bytes: buf@, pos: 0 }),
    {
        BitReader { buf, byte: 0, bit: 0 }
    }

    /// A well-formed reader's cursor lies within the stream.
    pub proof fn lemma_wf_valid(&self)
        requires
            self.wf(),
        ensures
            self@.valid(),
    {
    }

    /// Reads `n` bits; bit `i` of the result is the `i`-th bit read.
    /// Fails, without moving the cursor, when `n > 32` or fewer than `n`
    /// bits remain.
    pub fn read_bits(&mut self, n: u32) -> (r: Result<u32, DecodeError>)
        requires
            old(self).wf(),
        ensures
            final(self).wf(),
            (r, final(self)@) == read_outcome(old(self)@, n),
    {
        if n > 32 {
            return Err(DecodeError::InvalidBitWidth);
        }
        let left_bytes: usize = self.buf.len() - self.byte;
        if left_bytes < 5 && (left_bytes as u32) * 8 - (self.bit as u32) < n {
            return Err(DecodeError::StreamExhausted);
        }
        let ghost start = self@;
        let mut v: u64 = 0;
        let mut w: u64 = 1;
        let mut i: u32 = 0;
        proof {
            lemma2_to64();
        }
        while i < n
            invariant
                self.wf(),
                n <= 32,
                i <= n,
                start.pos + n <= start.total(),
                self@ == start.advance(i as nat),
                v == bits_value(start.bytes, start.pos as int, i as nat),
                w == pow2(i as nat),
            decreases n - i,
        {
            let b: u8 = self.buf[self.byte];
            let ghost p: int = self@.pos as int;
            assert(p / 8 == self.byte as int && p % 8 == self.bit as int);
            proof {
                lemma2_to64();
                lemma_bits_value_bound(start.bytes, start.pos as int, i as nat);
                lemma_pow2_unfold((i + 1) as nat);
                if i + 1 < 32 {
                    lemma_pow2_strictly_increases((i + 1) as nat, 32);
                }
            }
            if (b >> self.bit) & 1u8 == 1u8 {
                v = v + w;
            }
            w = w * 2;
            self.bit = self.bit + 1;
            if self.bit == 8 {
                self.byte = self.byte + 1;
                self.bit = 0;
            }
            i = i + 1;
        }
        proof {
            lemma_bits_value_bound(start.bytes, start.pos as int, n as nat);
            if n < 32 {
                lemma_pow2_strictly_increases(n as nat, 32);
            }
        }
        Ok(v as u32)
    }

    /// Number of bits left to read: `8 * len - pos`.
    pub fn bits_remaining(&self) -> (r: u64)
        requires
            self.wf(),
            8 * self@.bytes.len() <= u64::MAX,
        ensures
            r == self@.remaining(),
    {
        8 * (self.buf.len() - self.byte) as u64 - self.bit as u64
    }
}

} // verus!
