use vstd::prelude::*;
use vstd::arithmetic::power2::{pow2, lemma2_to64, lemma_pow2_strictly_increases, lemma_pow2_pos, lemma_pow2_unfold};
use vstd::arithmetic::div_mod::{lemma_fundamental_div_mod, lemma_mod_breakdown, lemma_mod_bound};
use vstd::bits::lemma_u64_shl_is_mul;
use crate::bit_reader::{BitCursor, BitReader, bit_at, bits_value, lemma_bits_value_bound};
use crate::error::DecodeError;

verus! {

/// Number of consecutive `1` bits in the stream from bit `p` on: the length
/// of the unary prefix that starts at `p`.
pub open spec fn ones_run(bytes: Seq<u8>, p: int) -> nat
    decreases 8 * bytes.len() - p,
{
    if p < 0 || p >= 8 * bytes.len() {
        0
    } else if bit_at(bytes, p) {
        1 + ones_run(bytes, p + 1)
    } else {
        0
    }
}

/// The value of a Rice code with quotient `q` and remainder `r`: `q * 2^k + r`.
pub open spec fn rice_value(q: nat, k: nat, r: nat) -> nat {
    q * pow2(k) + r
}

/// What decoding one value with parameter `k` at cursor `c` returns, and
/// where the cursor stands afterwards.
///
/// The code is a run of `q` one bits closed by a zero bit, then `k` bits of
/// remainder. A failed decode leaves the cursor where it was. The checks come
/// in the order the code is read: the unary prefix must end inside the
/// stream, then `k` must be a valid width, then the remainder must fit in the
/// stream, and last the value must fit in a `u32`.
pub open spec fn decode_outcome(c: BitCursor, k: u32) -> (Result<u32, DecodeError>, BitCursor) {
    let q = ones_run(c.bytes, c.pos as int);
    let rem_start = c.pos + q + 1;
    if c.pos + q >= c.total() {
        (Err(DecodeError::StreamExhausted), c)
    } else if k > 32 {
        (Err(DecodeError::InvalidBitWidth), c)
    } else if rem_start + k > c.total() {
        (Err(DecodeError::StreamExhausted), c)
    } else {
        let v = rice_value(q, k as nat, bits_value(c.bytes, rem_start as int, k as nat));
        if v > u32::MAX {
            (Err(DecodeError::ValueOverflow), c)
        } else {
            (Ok(v as u32), c.advance((q + 1 + k) as nat))
        }
    }
}

/// Two streams whose bits agree over `n` bits from `s1` and `s2` give the
/// same `n`-bit value there.
proof fn lemma_bits_value_agree(b1: Seq<u8>, s1: int, b2: Seq<u8>, s2: int, n: nat)
    requires
        forall|j: int| 0 <= j < n ==> #[trigger] bit_at(b1, s1 + j) == bit_at(b2, s2 + j),
    ensures
        bits_value(b1, s1, n) == bits_value(b2, s2, n),
    decreases n,
{
    if n > 0 {
        lemma_bits_value_agree(b1, s1, b2, s2, (n - 1) as nat);
        assert(bit_at(b1, s1 + (n - 1)) == bit_at(b2, s2 + (n - 1)));
    }
}

/// A run of `q` one bits from `p2`, closed by a zero bit inside the stream,
/// has `ones_run` equal to `q`.
proof fn lemma_ones_run_is(b: Seq<u8>, p: int, q: nat)
    requires
        0 <= p,
        p + q < 8 * b.len(),
        forall|j: int| 0 <= j < q ==> #[trigger] bit_at(b, p + j),
        !bit_at(b, p + q),
    ensures
        ones_run(b, p) == q,
    decreases q,
{
    if q > 0 {
        assert(bit_at(b, p + 0));
        assert forall|j: int| 0 <= j < q - 1 implies #[trigger] bit_at(b, (p + 1) + j) by {
            assert(bit_at(b, p + (j + 1)));
        }
        lemma_ones_run_is(b, p + 1, (q - 1) as nat);
    }
}

/// The unary prefix at `p` really is a run of one bits, closed by a zero bit
/// when it ends inside the stream.
proof fn lemma_ones_run_shape(b: Seq<u8>, p: int)
    requires
        0 <= p <= 8 * b.len(),
    ensures
        p + ones_run(b, p) <= 8 * b.len(),
        forall|j: int| 0 <= j < ones_run(b, p) ==> #[trigger] bit_at(b, p + j),
        p + ones_run(b, p) < 8 * b.len() ==> !bit_at(b, p + ones_run(b, p)),
    decreases 8 * b.len() - p,
{
    if p < 8 * b.len() && bit_at(b, p) {
        lemma_ones_run_shape(b, p + 1);
        assert forall|j: int| 0 <= j < ones_run(b, p) implies #[trigger] bit_at(b, p + j) by {
            if j > 0 {
                assert(bit_at(b, (p + 1) + (j - 1)));
            }
        }
    }
}

/// Decoding a code written as `q` one bits, a zero bit and `k` bits holding
/// `r` (with `r < 2^k`) gives back `q * 2^k + r`, and the cursor ends just
/// after the code, provided that value fits in a `u32`.
pub proof fn lemma_decode_written_code(c: BitCursor, k: u32, q: nat, r: nat)
    requires
        c.valid(),
        k <= 32,
        r < pow2(k as nat),
        c.pos + q + 1 + k <= c.total(),
        forall|j: int| 0 <= j < q ==> #[trigger] bit_at(c.bytes, c.pos + j),
        !bit_at(c.bytes, (c.pos + q) as int),
        bits_value(c.bytes, (c.pos + q + 1) as int, k as nat) == r,
        rice_value(q, k as nat, r) <= u32::MAX,
    ensures
        decode_outcome(c, k) == (
            Ok::<u32, DecodeError>(rice_value(q, k as nat, r) as u32),
            c.advance((q + 1 + k) as nat),
        ),
{
    lemma_ones_run_is(c.bytes, c.pos as int, q);
}

/// The bits of the Rice code of `v` with parameter `k`, in stream order:
/// `v / 2^k` one bits, a zero bit, then the low `k` bits of `v`, least
/// significant first.
pub open spec fn rice_code(v: nat, k: nat) -> Seq<bool> {
    Seq::new(v / pow2(k), |j: int| true) + seq![false] + Seq::new(
        k,
        |j: int| (v / pow2(j as nat)) % 2 == 1,
    )
}

/// The codes of `vals`, one after the other.
pub open spec fn rice_codes(vals: Seq<u32>, k: nat) -> Seq<bool>
    decreases vals.len(),
{
    if vals.len() == 0 {
        seq![]
    } else {
        rice_code(vals[0] as nat, k) + rice_codes(vals.drop_first(), k)
    }
}

/// What `n` successive decodes from cursor `c` return.
pub open spec fn decode_results(c: BitCursor, k: u32, n: nat) -> Seq<Result<u32, DecodeError>>
    decreases n,
{
    if n == 0 {
        seq![]
    } else {
        let (r, next) = decode_outcome(c, k);
        seq![r] + decode_results(next, k, (n - 1) as nat)
    }
}

/// `k` stream bits holding the low bits of `v`, least significant first,
/// read as a number give `v % 2^k`.
proof fn lemma_low_bits_value(bytes: Seq<u8>, s: int, v: nat, k: nat)
    requires
        forall|j: int| 0 <= j < k ==> #[trigger] bit_at(bytes, s + j) == ((v / pow2(j as nat)) % 2 == 1),
    ensures
        bits_value(bytes, s, k) == v % pow2(k),
    decreases k,
{
    if k == 0 {
        lemma2_to64();
    } else {
        let m = (k - 1) as nat;
        lemma_low_bits_value(bytes, s, v, m);
        assert(bit_at(bytes, s + m) == ((v / pow2(m)) % 2 == 1));
        lemma_pow2_pos(m);
        lemma_pow2_unfold(k);
        lemma_mod_breakdown(v as int, pow2(m) as int, 2);
        lemma_mod_bound((v / pow2(m)) as int, 2);
    }
}

/// Decoding what the codes of `vals` spell out, from wherever they start in
/// the stream, gives back exactly `vals`, one value per decode.
pub proof fn lemma_decode_round_trip(c: BitCursor, k: u32, vals: Seq<u32>)
    requires
        c.valid(),
        k <= 32,
        c.pos + rice_codes(vals, k as nat).len() <= c.total(),
        forall|j: int|
            0 <= j < rice_codes(vals, k as nat).len() ==> #[trigger] bit_at(c.bytes, c.pos + j)
                == rice_codes(vals, k as nat)[j],
    ensures
        decode_results(c, k, vals.len()) == vals.map_values(|v: u32| Ok::<u32, DecodeError>(v)),
    decreases vals.len(),
{
    if vals.len() == 0 {
        assert(decode_results(c, k, 0) =~= vals.map_values(|v: u32| Ok::<u32, DecodeError>(v)));
    } else {
        let v = vals[0] as nat;
        let kk = k as nat;
        let code = rice_code(v, kk);
        let rest = vals.drop_first();
        let all = rice_codes(vals, kk);
        assert(all == code + rice_codes(rest, kk));
        lemma_pow2_pos(kk);
        let q = v / pow2(kk);
        let r = v % pow2(kk);
        lemma_fundamental_div_mod(v as int, pow2(kk) as int);
        lemma_mod_bound(v as int, pow2(kk) as int);
        assert(code.len() == q + 1 + kk);
        assert forall|j: int| 0 <= j < q implies #[trigger] bit_at(c.bytes, c.pos + j) by {
            assert(all[j] == code[j]);
        }
        assert(!bit_at(c.bytes, (c.pos + q) as int)) by {
            assert(all[q as int] == code[q as int]);
        }
        assert forall|j: int| 0 <= j < kk implies #[trigger] bit_at(c.bytes, (c.pos + q + 1) + j) == ((v
            / pow2(j as nat)) % 2 == 1) by {
            assert(all[q + 1 + j] == code[q + 1 + j]);
            assert(bit_at(c.bytes, c.pos + (q + 1 + j)) == all[q + 1 + j]);
        }
        lemma_low_bits_value(c.bytes, (c.pos + q + 1) as int, v, kk);
        assert(rice_value(q, kk, r) == v) by (nonlinear_arith)
            requires
                v == pow2(kk) * q + r,
        ;
        lemma_decode_written_code(c, k, q, r);
        let next = c.advance(q + 1 + kk);
        assert forall|j: int| 0 <= j < rice_codes(rest, kk).len() implies #[trigger] bit_at(
            next.bytes,
            next.pos + j,
        ) == rice_codes(rest, kk)[j] by {
            assert(all[code.len() + j] == rice_codes(rest, kk)[j]);
            assert(bit_at(c.bytes, c.pos + (code.len() + j)) == all[code.len() + j]);
        }
        lemma_decode_round_trip(next, k, rest);
        assert(decode_results(c, k, vals.len()) =~= vals.map_values(|v: u32| Ok::<u32, DecodeError>(v)));
    }
}

/// Decoding reads exactly the bits of one code: a code decoded at `c1` is
/// decoded the same, with the same length, at any `c2` whose stream holds the
/// same bits over the code's length, whatever came before in either stream.
pub proof fn lemma_decode_reads_only_its_code(c1: BitCursor, c2: BitCursor, k: u32)
    requires
        c1.valid(),
        c2.valid(),
        decode_outcome(c1, k).0 is Ok,
        c2.pos + (decode_outcome(c1, k).1.pos - c1.pos) <= c2.total(),
        forall|j: int|
            0 <= j < decode_outcome(c1, k).1.pos - c1.pos ==> #[trigger] bit_at(c1.bytes, c1.pos + j)
                == bit_at(c2.bytes, c2.pos + j),
    ensures
        decode_outcome(c2, k).0 == decode_outcome(c1, k).0,
        decode_outcome(c2, k).1.pos - c2.pos == decode_outcome(c1, k).1.pos - c1.pos,
{
    let q = ones_run(c1.bytes, c1.pos as int);
    lemma_ones_run_shape(c1.bytes, c1.pos as int);
    assert forall|j: int| 0 <= j < q implies #[trigger] bit_at(c2.bytes, c2.pos + j) by {
        assert(bit_at(c1.bytes, c1.pos + j));
    }
    assert(!bit_at(c2.bytes, (c2.pos + q) as int)) by {
        assert(!bit_at(c1.bytes, (c1.pos + q) as int));
    }
    lemma_ones_run_is(c2.bytes, c2.pos as int, q);
    if k <= 32 && c1.pos + q + 1 + k <= c1.total() {
        assert forall|j: int| 0 <= j < k implies #[trigger] bit_at(c1.bytes, (c1.pos + q + 1) + j) == bit_at(
            c2.bytes,
            (c2.pos + q + 1) + j,
        ) by {
            assert(bit_at(c1.bytes, c1.pos + (q + 1 + j)) == bit_at(c2.bytes, c2.pos + (q + 1 + j)));
        }
        lemma_bits_value_agree(
            c1.bytes,
            (c1.pos + q + 1) as int,
            c2.bytes,
            (c2.pos + q + 1) as int,
            k as nat,
        );
    }
}

/// Abstract state of a decoder: where its reader stands, and its parameter.
pub struct DecoderState {
    pub cursor: BitCursor,
    pub k: u32,
}

/// Decodes Golomb-Rice coded unsigned integers, one per call, from a
/// borrowed byte sequence.
pub struct RiceDecoder<'a> {
    br: BitReader<'a>,
    k: u32,
}

impl<'a> View for RiceDecoder<'a> {
    type V = DecoderState;

    closed spec fn view(&self) -> DecoderState {
        DecoderState { cursor: self.br@, k: self.k }
    }
}

/// Quotients from this bound on cannot give a value that fits in a `u32`,
/// whatever `k` is: the counter stops there.
const QUOTIENT_CAP: u64 = 0x1_0000_0000;

impl<'a> RiceDecoder<'a> {
    /// The decoder's reader is well formed.
    pub closed spec fn wf(&self) -> bool {
        self.br.wf()
    }

    /// A decoder with parameter `k`, positioned at the first bit of `buf`.
    pub fn new(buf: &'a [u8], k: u32) -> (r: RiceDecoder<'a>)
        ensures
            r.wf(),
            r@ == (DecoderState { cursor: BitCursor { bytes: buf@, pos: 0 }, k }),
    {
        RiceDecoder { br: BitReader::new(buf), k }
    }

    /// The Rice parameter: the width of the remainder of each code.
    pub fn k(&self) -> (r: u32)
        ensures
            r == self@.k,
    {
        self.k
    }

    /// The underlying reader, to query how many bits remain.
    pub fn reader(&self) -> (r: &BitReader<'a>)
        requires
            self.wf(),
        ensures
            r.wf(),
            r@ == self@.cursor,
    {
        &self.br
    }

    /// Decodes the next value: `q` one bits closed by a zero bit, then `k`
    /// bits of remainder `r`, giving `(q << k) + r`. On failure the cursor is
    /// left where it was.
    pub fn read_value(&mut self) -> (r: Result<u32, DecodeError>)
        requires
            old(self).wf(),
        ensures
            final(self).wf(),
            final(self)@.k == old(self)@.k,
            (r, final(self)@.cursor) == decode_outcome(old(self)@.cursor, old(self)@.k),
    {
        let start_reader = self.br;
        let ghost start = self.br@;
        let ghost run = ones_run(start.bytes, start.pos as int);
        let ghost mut i: nat = 0;
        let mut q: u64 = 0;
        proof {
            start_reader.lemma_wf_valid();
        }
        loop
            invariant_except_break
                self.br@ == start.advance(i),
            invariant
                self.wf(),
                start_reader.wf(),
                self.k == old(self).k,
                start_reader == old(self).br,
                start == start_reader@,
                start.valid(),
                run == ones_run(start.bytes, start.pos as int),
                run == i + ones_run(start.bytes, (start.pos + i) as int),
                q == if i < QUOTIENT_CAP { i } else { QUOTIENT_CAP as nat },
            ensures
                self.wf(),
                self.k == old(self).k,
                i == run,
                start.pos + run < start.total(),
                self.br@ == start.advance(run + 1),
                q == if run < QUOTIENT_CAP { run } else { QUOTIENT_CAP as nat },
            decreases start.total() - start.pos - i,
        {
            proof {
                self.br.lemma_wf_valid();
            }
            let bit = self.br.read_bits(1);
            match bit {
                Err(_) => {
                    assert(start.pos + i >= start.total());
                    assert(ones_run(start.bytes, (start.pos + i) as int) == 0);
                    self.br = start_reader;
                    return Err(DecodeError::StreamExhausted);
                },
                Ok(b) => {
                    assert(bits_value(start.bytes, (start.pos + i) as int, 1) == if bit_at(
                        start.bytes,
                        (start.pos + i) as int,
                    ) {
                        1nat
                    } else {
                        0nat
                    }) by {
                        lemma2_to64();
                        reveal_with_fuel(bits_value, 2);
                    }
                    if b == 0 {
                        break ;
                    }
                    if q < QUOTIENT_CAP {
                        q = q + 1;
                    }
                    proof {
                        i = i + 1;
                    }
                },
            }
        }
        if self.k > 32 {
            self.br = start_reader;
            return Err(DecodeError::InvalidBitWidth);
        }
        let ghost rem_start = self.br@;
        let rem = match self.br.read_bits(self.k) {
            Err(_) => {
                self.br = start_reader;
                return Err(DecodeError::StreamExhausted);
            },
            Ok(x) => x,
        };
        let ghost rv = bits_value(start.bytes, rem_start.pos as int, self.k as nat);
        proof {
            lemma2_to64();
            lemma_bits_value_bound(start.bytes, rem_start.pos as int, self.k as nat);
            if self.k < 32 {
                lemma_pow2_strictly_increases(self.k as nat, 32);
            }
            lemma_u64_shl_is_mul(1, self.k as u64);
            assert(q * pow2(self.k as nat) <= QUOTIENT_CAP * QUOTIENT_CAP) by (nonlinear_arith)
                requires
                    q <= QUOTIENT_CAP,
                    pow2(self.k as nat) <= QUOTIENT_CAP,
            ;
        }
        let scale: u64 = 1u64 << (self.k as u64);
        let v: u128 = (q as u128) * (scale as u128) + (rem as u128);
        proof {
            if run >= QUOTIENT_CAP {
                assert(rice_value(run, self.k as nat, rv) > u32::MAX) by (nonlinear_arith)
                    requires
                        run >= QUOTIENT_CAP,
                        pow2(self.k as nat) >= 1,
                ;
            }
        }
        if v > u32::MAX as u128 {
            self.br = start_reader;
            return Err(DecodeError::ValueOverflow);
        }
        Ok(v as u32)
    }
}

} // verus!
