//! Big-endian bit reader over an encoded byte stream.
use vstd::arithmetic::div_mod::*;
use vstd::arithmetic::mul::*;
use vstd::arithmetic::power2::*;
use vstd::bits::*;
use vstd::prelude::*;

verus! {

/// Conditions under which an encoded asset is rejected.
#[derive(Debug, Clone, Copy, PartialEq, Eq, Structural)]
pub enum DecodeError {
    /// More bits were needed than the stream holds.
    UnexpectedEnd,
    /// The stream does not start with the 4-byte magic.
    BadMagic,
    /// No stream-info metadata block was found.
    MissingStreamInfo,
    /// The stream declares more than one channel.
    NotMono,
    /// The declared bit depth is not a multiple of 8.
    UnsupportedDepth,
    /// A frame does not start with the 14-bit sync pattern.
    BadSync,
    /// A frame declares a reserved block-size code.
    BadBlockSize,
    /// A frame's block does not fit in the destination buffer.
    BlockTooLarge,
    /// The subframe type code is reserved.
    ReservedSubframeType,
    /// The wasted-bits count is at least the sample depth.
    BadWastedBits,
    /// The linear predictor has more coefficients than supported.
    TooManyCoefficients,
    /// The linear predictor declares a negative shift.
    NegativeShift,
    /// The residual coding method is reserved.
    ReservedResidualMethod,
    /// The block is not evenly divisible into the declared partitions.
    BadPartitionCount,
    /// A Rice-coded residual does not fit in 32 bits.
    ResidualOverflow,
}

/// Bit `i` of the stream, counting from the most significant bit of byte 0.
pub open spec fn bit_at(data: Seq<u8>, i: int) -> nat {
    ((data[i / 8] as nat) / pow2((7 - i % 8) as nat)) % 2
}

/// Unsigned big-endian value of the `n` bits starting at bit `pos`.
pub open spec fn bits_val(data: Seq<u8>, pos: int, n: nat) -> nat
    decreases n,
{
    if n == 0 {
        0
    } else {
        2 * bits_val(data, pos, (n - 1) as nat) + bit_at(data, pos + n - 1)
    }
}

/// Two's-complement value of the `n` bits starting at bit `pos`.
pub open spec fn signed_bits_val(data: Seq<u8>, pos: int, n: nat) -> int {
    if n > 0 && bits_val(data, pos, n) >= pow2((n - 1) as nat) {
        bits_val(data, pos, n) - pow2(n)
    } else {
        bits_val(data, pos, n) as int
    }
}

/// Zig-zag mapping of an unsigned code onto the signed integers:
/// 0, 1, 2, 3, ... become 0, -1, 1, -2, ...
pub open spec fn zigzag(v: nat) -> int {
    if v % 2 == 0 {
        (v / 2) as int
    } else {
        -((v / 2) as int) - 1
    }
}

/// Whether the `q` bits at `pos` are zero and the bit after them is one.
pub open spec fn unary_at(data: Seq<u8>, pos: int, q: nat) -> bool {
    &&& forall|i: int| pos <= i < pos + q ==> #[trigger] bit_at(data, i) == 0
    &&& bit_at(data, pos + q) == 1
    &&& pos + q < 8 * data.len()
}

pub proof fn lemma_bits_val_bound(data: Seq<u8>, pos: int, n: nat)
    ensures
        bits_val(data, pos, n) < pow2(n),
    decreases n,
{
    lemma2_to64();
    if n > 0 {
        lemma_bits_val_bound(data, pos, (n - 1) as nat);
        lemma_pow2_unfold(n);
        assert(bit_at(data, pos + n - 1) <= 1);
    }
}

/// Splitting a field of `a + b` bits into its first `a` and last `b` bits.
pub proof fn lemma_bits_concat(data: Seq<u8>, pos: int, a: nat, b: nat)
    ensures
        bits_val(data, pos, a + b) == bits_val(data, pos, a) * pow2(b) + bits_val(data, pos + a, b),
    decreases b,
{
    if b == 0 {
        lemma2_to64();
    } else {
        lemma_bits_concat(data, pos, a, (b - 1) as nat);
        lemma_pow2_unfold(b);
        let x = bits_val(data, pos, a) as int;
        let p = pow2((b - 1) as nat) as int;
        assert(2 * (x * p) == x * (2 * p)) by (nonlinear_arith);
        assert(bits_val(data, pos, a + b) == 2 * bits_val(data, pos, (a + b - 1) as nat) + bit_at(
            data,
            pos + a + b - 1,
        ));
        assert(bits_val(data, pos + a, b) == 2 * bits_val(data, pos + a, (b - 1) as nat) + bit_at(
            data,
            pos + a + b - 1,
        ));
    }
}

proof fn lemma_byte_prefix(data: Seq<u8>, k: int, j: nat)
    requires
        0 <= k < data.len(),
        j <= 8,
    ensures
        bits_val(data, 8 * k, j) == (data[k] as nat) / pow2((8 - j) as nat),
    decreases j,
{
    lemma2_to64();
    if j == 0 {
        assert((data[k] as nat) / 256 == 0);
    } else {
        lemma_byte_prefix(data, k, (j - 1) as nat);
        let i = 8 * k + j - 1;
        assert(i / 8 == k && i % 8 == j - 1) by (nonlinear_arith)
            requires
                i == 8 * k + j - 1,
                1 <= j <= 8,
        ;
        let d = data[k] as nat;
        let p = pow2((8 - j) as nat);
        lemma_pow2_unfold((9 - j) as nat);
        lemma_pow2_pos(p as nat);
        lemma_div_denominator(d as int, p as int, 2);
        assert(d / pow2((9 - j) as nat) == (d / p) / 2);
        let x = d / p;
        assert(x == 2 * (x / 2) + x % 2);
    }
}

/// Each byte reads back as its own 8-bit field.
pub proof fn lemma_byte_bits(data: Seq<u8>, k: int)
    requires
        0 <= k < data.len(),
    ensures
        bits_val(data, 8 * k, 8) == data[k] as nat,
{
    lemma_byte_prefix(data, k, 8);
    lemma2_to64();
}

/// A field whose value is zero has only zero bits.
pub proof fn lemma_zero_field(data: Seq<u8>, pos: int, n: nat)
    requires
        bits_val(data, pos, n) == 0,
    ensures
        forall|i: int| pos <= i < pos + n ==> #[trigger] bit_at(data, i) == 0,
    decreases n,
{
    if n > 0 {
        lemma_zero_field(data, pos, (n - 1) as nat);
    }
}

/// The top bit of a field is its value divided by `2^(n-1)`.
pub proof fn lemma_top_bit(data: Seq<u8>, pos: int, n: nat)
    requires
        n > 0,
    ensures
        bit_at(data, pos) == bits_val(data, pos, n) / pow2((n - 1) as nat),
        bits_val(data, pos + 1, (n - 1) as nat) == bits_val(data, pos, n) % pow2((n - 1) as nat),
{
    lemma_bits_concat(data, pos, 1, (n - 1) as nat);
    assert(bits_val(data, pos, 1) == bit_at(data, pos)) by {
        assert(bits_val(data, pos, 0) == 0);
    }
    lemma_bits_val_bound(data, pos + 1, (n - 1) as nat);
    lemma_pow2_pos((n - 1) as nat);
    let p = pow2((n - 1) as nat) as int;
    let t = bit_at(data, pos) as int;
    let r = bits_val(data, pos + 1, (n - 1) as nat) as int;
    lemma_fundamental_div_mod_converse(t * p + r, p, t, r);
    lemma_mul_is_commutative(t, p);
}

/// Any two unary codes at one position have the same length.
pub proof fn lemma_unary_unique(data: Seq<u8>, pos: int, q1: nat, q2: nat)
    requires
        unary_at(data, pos, q1),
        unary_at(data, pos, q2),
    ensures
        q1 == q2,
{
    if q1 < q2 {
        assert(bit_at(data, pos + q1) == 0);
    } else if q2 < q1 {
        assert(bit_at(data, pos + q2) == 0);
    }
}

/// Length of the unary code (count of zero bits before the first one) at `pos`.
pub open spec fn unary_len(data: Seq<u8>, pos: int) -> nat {
    choose|q: nat| unary_at(data, pos, q)
}

/// Unsigned code of the Rice-coded field at `pos` with `k` remainder bits.
pub open spec fn rice_code(data: Seq<u8>, pos: int, k: nat) -> nat {
    unary_len(data, pos) * pow2(k) + bits_val(data, pos + unary_len(data, pos) + 1, k)
}

/// Number of bits taken by the Rice-coded field at `pos`.
pub open spec fn rice_len(data: Seq<u8>, pos: int, k: nat) -> nat {
    unary_len(data, pos) + 1 + k
}

/// What reading a Rice-coded field at `pos` with `k` remainder bits gives:
/// the value and the position after the field, or the reason it cannot be
/// read.
pub open spec fn rice_outcome(data: Seq<u8>, pos: int, k: nat) -> Result<(i32, int), DecodeError> {
    if !(exists|q: nat| unary_at(data, pos, q)) {
        Err(DecodeError::UnexpectedEnd)
    } else if unary_len(data, pos) >= pow2((32 - k) as nat) {
        Err(DecodeError::ResidualOverflow)
    } else if pos + rice_len(data, pos, k) > 8 * data.len() {
        Err(DecodeError::UnexpectedEnd)
    } else {
        Ok((zigzag(rice_code(data, pos, k)) as i32, pos + rice_len(data, pos, k)))
    }
}

/// Cursor over a byte stream with a 32-bit shift register.
///
/// The register holds the `bitbufferlen` bits that come just before byte
/// `next_byte`; it is refilled one byte at a time as bits are consumed.
#[derive(Clone, Copy)]
pub struct BitReader {
    data: &'static [u8],
    next_byte: usize,
    bitbuffer: u32,
    bitbufferlen: u32,
}

impl BitReader {
    /// The stream being read.
    pub closed spec fn stream(&self) -> Seq<u8> {
        self.data@
    }

    /// Index of the next bit to be read.
    pub closed spec fn pos(&self) -> int {
        8 * self.next_byte - self.bitbufferlen
    }

    /// Number of bits in the stream.
    pub open spec fn total_bits(&self) -> int {
        8 * self.stream().len() as int
    }

    pub closed spec fn wf(&self) -> bool {
        &&& self.next_byte <= self.data@.len()
        &&& self.data@.len() <= usize::MAX / 8
        &&& self.bitbufferlen <= 32
        &&& self.bitbufferlen <= 8 * self.next_byte
        &&& self.bitbuffer < pow2(self.bitbufferlen as nat)
        &&& self.bitbuffer == bits_val(self.data@, self.pos(), self.bitbufferlen as nat)
    }

    /// A reader positioned at the first bit of `data`.
    pub fn new(data: &'static [u8]) -> (r: Self)
        requires
            data@.len() <= usize::MAX / 8,
        ensures
            r.wf(),
            r.stream() == data@,
            r.pos() == 0,
    {
        proof {
            lemma2_to64();
        }
        BitReader { data, next_byte: 0, bitbuffer: 0, bitbufferlen: 0 }
    }

    pub proof fn lemma_wf_facts(&self)
        requires
            self.wf(),
        ensures
            0 <= self.pos() <= self.total_bits(),
    {
    }

    /// Loads the next byte into the shift register.
    fn refill(&mut self) -> (r: Result<(), DecodeError>)
        requires
            old(self).wf(),
            old(self).bitbufferlen <= 24,
        ensures
            r matches Err(e) ==> e == DecodeError::UnexpectedEnd,
            final(self).wf(),
            final(self).stream() == old(self).stream(),
            final(self).pos() == old(self).pos(),
            r is Ok <==> old(self).next_byte < old(self).data@.len(),
            r is Ok ==> final(self).bitbufferlen == old(self).bitbufferlen + 8,
            r is Err ==> *final(self) == *old(self),
    {
        if self.next_byte >= self.data.len() {
            return Err(DecodeError::UnexpectedEnd);
        }
        let b = self.data[self.next_byte];
        let buf = self.bitbuffer;
        let len = self.bitbufferlen;
        proof {
            let d = self.data@;
            let p = self.pos();
            lemma_byte_bits(d, self.next_byte as int);
            lemma_bits_concat(d, p, len as nat, 8);
            lemma2_to64();
            lemma_pow2_adds(len as nat, 8);
            if len < 24 {
                lemma_pow2_strictly_increases(len as nat, 24);
            }
            assert(buf < 0x1000000);
            assert((buf << 8u32) | (b as u32) == buf * 256 + b) by (bit_vector)
                requires
                    buf < 0x1000000,
            ;
            assert(buf * 256 + b < pow2(len as nat) * 256) by (nonlinear_arith)
                requires
                    buf < pow2(len as nat),
                    b < 256,
            ;
        }
        self.bitbuffer = (buf << 8u32) | (b as u32);
        self.bitbufferlen = len + 8;
        self.next_byte = self.next_byte + 1;
        Ok(())
    }

    /// Reads an unsigned field of at most 24 bits.
    fn read_small(&mut self, n: u32) -> (r: Result<u32, DecodeError>)
        requires
            old(self).wf(),
            n <= 24,
        ensures
            r matches Err(e) ==> e == DecodeError::UnexpectedEnd,
            final(self).wf(),
            final(self).stream() == old(self).stream(),
            r is Ok <==> old(self).pos() + n <= old(self).total_bits(),
            r matches Ok(v) ==> v == bits_val(old(self).stream(), old(self).pos(), n as nat)
                && final(self).pos() == old(self).pos() + n,
    {
        if n == 0 {
            return Ok(0);
        }
        let ghost mark0 = self.pos();
        while self.bitbufferlen < n
            invariant
                self.wf(),
                self.stream() == old(self).stream(),
                self.pos() == mark0,
                mark0 == old(self).pos(),
                0 < n <= 24,
            decreases 32 - self.bitbufferlen,
        {
            match self.refill() {
                Ok(()) => {},
                Err(e) => {
                    return Err(e);
                },
            }
        }
        let len = self.bitbufferlen;
        let rest = len - n;
        let buf = self.bitbuffer;
        proof {
            let d = self.data@;
            lemma_bits_concat(d, mark0, n as nat, rest as nat);
            lemma_bits_val_bound(d, mark0 + n, rest as nat);
            lemma_u32_shr_is_div(buf, rest);
            lemma_u32_pow2_no_overflow(rest as nat);
            lemma_u32_shl_is_mul(1, rest);
            lemma_pow2_pos(rest as nat);
            let hi = bits_val(d, mark0, n as nat) as int;
            let lo = bits_val(d, mark0 + n, rest as nat) as int;
            let pw = pow2(rest as nat) as int;
            lemma_fundamental_div_mod_converse(hi * pw + lo, pw, hi, lo);
            lemma_bits_val_bound(d, mark0, n as nat);
            lemma_pow2_strictly_increases(n as nat, 32);
            lemma2_to64();
        }
        let v = buf >> rest;
        let mask = 1u32 << rest;
        self.bitbuffer = buf % mask;
        self.bitbufferlen = rest;
        Ok(v)
    }

    /// Reads an unsigned big-endian field of `n` bits; `n == 0` reads nothing
    /// and gives 0.
    pub fn try_read_uint(&mut self, n: u32) -> (r: Result<u32, DecodeError>)
        requires
            old(self).wf(),
            n <= 32,
        ensures
            r matches Err(e) ==> e == DecodeError::UnexpectedEnd,
            final(self).wf(),
            final(self).stream() == old(self).stream(),
            r is Ok <==> old(self).pos() + n <= old(self).total_bits(),
            r matches Ok(v) ==> v == bits_val(old(self).stream(), old(self).pos(), n as nat)
                && final(self).pos() == old(self).pos() + n,
            r matches Ok(v) ==> v < pow2(n as nat),
    {
        proof {
            lemma_bits_val_bound(self.data@, self.pos(), n as nat);
        }
        if n <= 24 {
            self.read_small(n)
        } else {
            let ghost mark0 = self.pos();
            let hi = self.read_small(n - 16)?;
            let lo = self.read_small(16)?;
            proof {
                let d = self.data@;
                lemma_bits_concat(d, mark0, (n - 16) as nat, 16);
                lemma_bits_val_bound(d, mark0, (n - 16) as nat);
                lemma_bits_val_bound(d, mark0 + n - 16, 16);
                lemma2_to64();
                lemma_pow2_adds((n - 16) as nat, 16);
                if n < 32 {
                    lemma_pow2_strictly_increases((n - 16) as nat, 16);
                }
                assert(hi * 65536 + lo <= 0xFFFF_FFFF) by (nonlinear_arith)
                    requires
                        hi < 65536,
                        lo < 65536,
                ;
            }
            Ok(hi * 65536 + lo)
        }
    }

    /// Reads a two's-complement field of `n` bits, sign-extended.
    pub fn try_read_signed_int(&mut self, n: u32) -> (r: Result<i32, DecodeError>)
        requires
            old(self).wf(),
            n <= 32,
        ensures
            r matches Err(e) ==> e == DecodeError::UnexpectedEnd,
            final(self).wf(),
            final(self).stream() == old(self).stream(),
            r is Ok <==> old(self).pos() + n <= old(self).total_bits(),
            r matches Ok(v) ==> v == signed_bits_val(old(self).stream(), old(self).pos(), n as nat)
                && final(self).pos() == old(self).pos() + n,
            r matches Ok(v) ==> n > 0 ==> -pow2((n - 1) as nat) <= v < pow2((n - 1) as nat),
    {
        let ghost mark0 = self.pos();
        let v = self.try_read_uint(n)?;
        if n == 0 {
            return Ok(0);
        }
        proof {
            lemma_u32_pow2_no_overflow((n - 1) as nat);
            lemma_u64_pow2_no_overflow(n as nat);
            lemma_u32_shl_is_mul(1, (n - 1) as u32);
            lemma_u64_shl_is_mul(1, n as u64);
            lemma_pow2_unfold(n as nat);
            lemma_bits_val_bound(self.data@, mark0, n as nat);
            lemma2_to64();
            if n < 32 {
                lemma_pow2_strictly_increases((n - 1) as nat, 31);
            }
        }
        let half = 1u32 << (n - 1);
        if v >= half {
            let full = 1u64 << (n as u64);
            Ok(((v as i64) - (full as i64)) as i32)
        } else {
            Ok(v as i32)
        }
    }

    /// Skips `n` bits.
    pub fn try_skip_bits(&mut self, n: usize) -> (r: Result<(), DecodeError>)
        requires
            old(self).wf(),
        ensures
            r matches Err(e) ==> e == DecodeError::UnexpectedEnd,
            final(self).wf(),
            final(self).stream() == old(self).stream(),
            r is Ok <==> old(self).pos() + n <= old(self).total_bits(),
            r is Ok ==> final(self).pos() == old(self).pos() + n,
    {
        let mut left: usize = n;
        while left > 0
            invariant
                self.wf(),
                self.stream() == old(self).stream(),
                self.pos() + left == old(self).pos() + n,
            decreases left,
        {
            let k: u32 = if left > 32 { 32 } else { left as u32 };
            self.try_read_uint(k)?;
            left = left - k as usize;
        }
        Ok(())
    }

    /// Drops the bits that remain before the next byte boundary.
    pub fn align_to_byte(&mut self)
        requires
            old(self).wf(),
        ensures
            final(self).wf(),
            final(self).stream() == old(self).stream(),
            final(self).pos() % 8 == 0,
            old(self).pos() <= final(self).pos() < old(self).pos() + 8,
    {
        let len = self.bitbufferlen;
        let drop = len % 8;
        if drop != 0 {
            let keep = len - drop;
            let buf = self.bitbuffer;
            proof {
                let d = self.data@;
                let p = self.pos();
                lemma_bits_concat(d, p, drop as nat, keep as nat);
                lemma_bits_val_bound(d, p + drop, keep as nat);
                lemma_u32_pow2_no_overflow(keep as nat);
                lemma_u32_shl_is_mul(1, keep);
                lemma_pow2_pos(keep as nat);
                let hi = bits_val(d, p, drop as nat) as int;
                let lo = bits_val(d, p + drop, keep as nat) as int;
                let pw = pow2(keep as nat) as int;
                lemma_fundamental_div_mod_converse(hi * pw + lo, pw, hi, lo);
                lemma2_to64();
            }
            let mask = 1u32 << keep;
            self.bitbuffer = buf % mask;
            self.bitbufferlen = keep;
        }
    }

    /// Counts the zero bits before the next one bit, and consumes them and
    /// the one bit.
    pub fn try_read_unary(&mut self) -> (r: Result<usize, DecodeError>)
        requires
            old(self).wf(),
        ensures
            final(self).wf(),
            final(self).stream() == old(self).stream(),
            r matches Ok(q) ==> unary_at(old(self).stream(), old(self).pos(), q as nat)
                && final(self).pos() == old(self).pos() + q + 1,
            r matches Err(e) ==> e == DecodeError::UnexpectedEnd,
            r is Err ==> forall|i: int|
                old(self).pos() <= i < old(self).total_bits() ==> #[trigger] bit_at(
                    old(self).stream(),
                    i,
                ) == 0,
    {
        let ghost mark0 = self.pos();
        let ghost d = self.data@;
        proof {
            self.lemma_wf_facts();
        }
        let mut q: usize = 0;
        loop
            invariant
                self.wf(),
                self.stream() == d,
                d == old(self).stream(),
                mark0 == old(self).pos(),
                0 <= mark0,
                self.pos() == mark0 + q,
                forall|i: int| mark0 <= i < mark0 + q ==> #[trigger] bit_at(d, i) == 0,
            decreases 8 * d.len() - self.pos(),
        {
            if self.bitbuffer == 0 {
                proof {
                    lemma_zero_field(d, self.pos(), self.bitbufferlen as nat);
                    lemma2_to64();
                }
                q = q + self.bitbufferlen as usize;
                self.bitbufferlen = 0;
                match self.refill() {
                    Ok(()) => {},
                    Err(e) => {
                        return Err(e);
                    },
                }
            }
            let len = self.bitbufferlen;
            let buf = self.bitbuffer;
            proof {
                lemma_top_bit(d, self.pos(), len as nat);
                lemma_u32_shr_is_div(buf, (len - 1) as u32);
                lemma_pow2_pos((len - 1) as nat);
                lemma_u32_pow2_no_overflow((len - 1) as nat);
                lemma_u32_shl_is_mul(1, (len - 1) as u32);
                lemma_bits_val_bound(d, self.pos(), len as nat);
                lemma_pow2_unfold(len as nat);
            }
            let mask = 1u32 << (len - 1);
            let top = buf >> (len - 1);
            self.bitbuffer = buf % mask;
            self.bitbufferlen = len - 1;
            if top != 0 {
                return Ok(q);
            }
            q = q + 1;
        }
    }

    /// Reads a Rice-coded signed value with `k` remainder bits: a unary
    /// quotient, then `k` raw bits, mapped through [`zigzag`].
    #[verifier::rlimit(40)]
    pub fn try_read_rice_signed_int(&mut self, k: u32) -> (r: Result<i32, DecodeError>)
        requires
            old(self).wf(),
            k < 32,
        ensures
            final(self).wf(),
            final(self).stream() == old(self).stream(),
            match rice_outcome(old(self).stream(), old(self).pos(), k as nat) {
                Ok((v, end)) => r == Ok::<i32, DecodeError>(v) && final(self).pos() == end,
                Err(e) => r == Err::<i32, DecodeError>(e),
            },
    {
        let ghost mark0 = self.pos();
        let ghost d = self.data@;
        proof {
            self.lemma_wf_facts();
        }
        let q = match self.try_read_unary() {
            Ok(q) => q,
            Err(e) => {
                proof {
                    assert forall|q: nat| !unary_at(d, mark0, q) by {
                        if unary_at(d, mark0, q) {
                            assert(bit_at(d, mark0 + q) == 1);
                        }
                    }
                }
                return Err(e);
            },
        };
        proof {
            lemma_unary_unique(d, mark0, q as nat, unary_len(d, mark0));
            lemma_u64_pow2_no_overflow((32 - k) as nat);
            lemma_u64_shl_is_mul(1, (32 - k) as u64);
        }
        let limit = 1u64 << (32 - k) as u64;
        if q as u64 >= limit {
            proof {
                lemma_bits_val_bound(d, mark0 + q + 1, k as nat);
                lemma_pow2_adds((32 - k) as nat, k as nat);
                lemma_pow2_pos(k as nat);
                lemma_mul_inequality(limit as int, q as int, pow2(k as nat) as int);
            }
            return Err(DecodeError::ResidualOverflow);
        }
        let rem = self.try_read_uint(k)?;
        proof {
            lemma_u32_pow2_no_overflow(k as nat);
            lemma_u32_shl_is_mul(1, k);
            lemma_pow2_adds((32 - k) as nat, k as nat);
            lemma_bits_val_bound(d, mark0 + q + 1, k as nat);
            lemma2_to64();
            assert(q * pow2(k as nat) + rem < pow2(32)) by (nonlinear_arith)
                requires
                    q + 1 <= pow2((32 - k) as nat),
                    rem < pow2(k as nat),
                    pow2(32) == pow2((32 - k) as nat) * pow2(k as nat),
            ;
        }
        let pw = 1u32 << k;
        let code = (q as u32) * pw + rem;
        if code % 2 == 0 {
            Ok((code / 2) as i32)
        } else {
            Ok(-((code / 2) as i32) - 1)
        }
    }

    /// The stream being read.
    pub fn data(&self) -> (r: &'static [u8])
        ensures
            r@ == self.stream(),
    {
        self.data
    }

    /// Reads an unsigned big-endian field of `n` bits; the stream must hold
    /// them. [`BitReader::try_read_uint`] is the form that reports running
    /// past the end.
    pub fn read_uint(&mut self, n: u32) -> (v: u32)
        requires
            old(self).wf(),
            n <= 32,
            old(self).pos() + n <= old(self).total_bits(),
        ensures
            final(self).wf(),
            final(self).stream() == old(self).stream(),
            v == bits_val(old(self).stream(), old(self).pos(), n as nat),
            final(self).pos() == old(self).pos() + n,
    {
        match self.try_read_uint(n) {
            Ok(v) => v,
            Err(_) => vstd::pervasive::unreached(),
        }
    }

    /// Reads a two's-complement field of `n` bits, sign-extended; the stream
    /// must hold them.
    pub fn read_signed_int(&mut self, n: u32) -> (v: i32)
        requires
            old(self).wf(),
            n <= 32,
            old(self).pos() + n <= old(self).total_bits(),
        ensures
            final(self).wf(),
            final(self).stream() == old(self).stream(),
            v == signed_bits_val(old(self).stream(), old(self).pos(), n as nat),
            final(self).pos() == old(self).pos() + n,
    {
        match self.try_read_signed_int(n) {
            Ok(v) => v,
            Err(_) => vstd::pervasive::unreached(),
        }
    }

    /// Reads a Rice-coded signed value with `k` remainder bits; the field
    /// must be complete and fit in 32 bits.
    pub fn read_rice_signed_int(&mut self, k: u32) -> (v: i32)
        requires
            old(self).wf(),
            k < 32,
            rice_outcome(old(self).stream(), old(self).pos(), k as nat) is Ok,
        ensures
            final(self).wf(),
            final(self).stream() == old(self).stream(),
            rice_outcome(old(self).stream(), old(self).pos(), k as nat) == Ok::<(i32, int), DecodeError>(
                (v, final(self).pos()),
            ),
    {
        match self.try_read_rice_signed_int(k) {
            Ok(v) => v,
            Err(_) => vstd::pervasive::unreached(),
        }
    }
}

} // verus!
