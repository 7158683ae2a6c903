//! Streaming decoder for a mono, low-order subset of a lossless block codec.
use crate::bits::{
    bit_at, bits_val, lemma_unary_unique, rice_outcome, signed_bits_val, unary_at, unary_len, BitReader,
    DecodeError,
};
use vstd::arithmetic::power2::*;
use vstd::prelude::*;

verus! {

/// Largest linear-prediction order this decoder supports.
pub const MAX_LPC_ORDER: usize = 4;

/// The 4-byte magic at the start of every encoded stream.
pub const STREAM_MAGIC: u32 = 0x664C6143;

/// The 14-bit pattern that starts every frame.
pub const FRAME_SYNC: u32 = 0x3FFE;

/// Wrapping sum of the first `m` products `coefs[j] * s[i - 1 - j]`.
pub open spec fn prediction(s: Seq<i32>, coefs: Seq<i32>, i: int, m: nat) -> i32
    decreases m,
{
    if m == 0 {
        0
    } else {
        prediction(s, coefs, i, (m - 1) as nat).wrapping_add(
            coefs[m - 1].wrapping_mul(s[i - m]),
        )
    }
}

/// The first `n` samples restored from `res` by the linear predictor with
/// coefficients `coefs` and right shift `shift`: the first `coefs.len()`
/// samples are the warm-up samples as stored, and each later sample is its
/// residual plus the shifted prediction from the already-restored samples.
pub open spec fn lpc_restore(res: Seq<i32>, coefs: Seq<i32>, shift: i32, n: nat) -> Seq<i32>
    decreases n,
{
    if n == 0 {
        Seq::empty()
    } else {
        let prev = lpc_restore(res, coefs, shift, (n - 1) as nat);
        let i = n - 1;
        if i < coefs.len() {
            prev.push(res[i])
        } else {
            prev.push(res[i].wrapping_add(prediction(prev, coefs, i, coefs.len()) >> shift))
        }
    }
}

/// Coefficients of the fixed predictor of order `order`.
pub open spec fn fixed_coefficients(order: nat) -> Seq<i32> {
    if order == 0 {
        seq![]
    } else if order == 1 {
        seq![1i32]
    } else if order == 2 {
        seq![2i32, -1i32]
    } else if order == 3 {
        seq![3i32, -3i32, 1i32]
    } else {
        seq![4i32, -6i32, 4i32, -1i32]
    }
}

proof fn lemma_lpc_restore_len(res: Seq<i32>, coefs: Seq<i32>, shift: i32, n: nat)
    ensures
        lpc_restore(res, coefs, shift, n).len() == n,
    decreases n,
{
    if n > 0 {
        lemma_lpc_restore_len(res, coefs, shift, (n - 1) as nat);
    }
}

/// Two sequences that agree before index `i` give the same prediction at `i`.
proof fn lemma_prediction_depends_on_prefix(
    s: Seq<i32>,
    t: Seq<i32>,
    coefs: Seq<i32>,
    i: int,
    m: nat,
)
    requires
        m <= i,
        i <= s.len(),
        i <= t.len(),
        forall|j: int| 0 <= j < i ==> s[j] == t[j],
    ensures
        prediction(s, coefs, i, m) == prediction(t, coefs, i, m),
    decreases m,
{
    if m > 0 {
        lemma_prediction_depends_on_prefix(s, t, coefs, i, (m - 1) as nat);
    }
}

/// Restores the predicted samples of a block in place: on entry `buf` holds
/// the warm-up samples followed by the residuals.
pub fn restore_linear_prediction(buf: &mut Vec<i32>, blocksize: usize, coefs: &Vec<i32>, shift: i32)
    requires
        blocksize <= old(buf).len(),
        coefs.len() <= blocksize,
        coefs.len() <= MAX_LPC_ORDER,
        0 <= shift < 32,
    ensures
        final(buf).len() == old(buf).len(),
        final(buf)@.subrange(0, blocksize as int) == lpc_restore(old(buf)@, coefs@, shift, blocksize as nat),
        final(buf)@.subrange(blocksize as int, old(buf).len() as int) == old(buf)@.subrange(
            blocksize as int,
            old(buf).len() as int,
        ),
{
    let ghost res = buf@;
    let order = coefs.len();
    proof {
        lemma_lpc_restore_len(res, coefs@, shift, order as nat);
        assert forall|k: nat| k <= order implies lpc_restore(res, coefs@, shift, k) =~= res.subrange(0, k as int) by {
            lemma_warmup_is_stored(res, coefs@, shift, k);
        }
    }
    let mut i: usize = order;
    while i < blocksize
        invariant
            order == coefs.len(),
            order <= i <= blocksize,
            blocksize <= buf.len(),
            buf.len() == res.len(),
            0 <= shift < 32,
            buf@.subrange(0, i as int) == lpc_restore(res, coefs@, shift, i as nat),
            forall|j: int| i <= j < buf.len() ==> buf@[j] == res[j],
        decreases blocksize - i,
    {
        let ghost prev = lpc_restore(res, coefs@, shift, i as nat);
        let mut sum: i32 = 0;
        let mut j: usize = 0;
        while j < order
            invariant
                order == coefs.len(),
                order <= i < blocksize,
                blocksize <= buf.len(),
                j <= order,
                buf@.subrange(0, i as int) == prev,
                sum == prediction(buf@, coefs@, i as int, j as nat),
            decreases order - j,
        {
            sum = sum.wrapping_add(coefs[j].wrapping_mul(buf[i - 1 - j]));
            j = j + 1;
        }
        proof {
            lemma_lpc_restore_len(res, coefs@, shift, i as nat);
            lemma_prediction_depends_on_prefix(buf@, prev, coefs@, i as int, order as nat);
        }
        let v = buf[i].wrapping_add(sum >> shift);
        buf.set(i, v);
        proof {
            assert(buf@.subrange(0, i + 1) =~= lpc_restore(res, coefs@, shift, (i + 1) as nat));
        }
        i = i + 1;
    }
    proof {
        assert(buf@.subrange(blocksize as int, buf.len() as int) =~= res.subrange(
            blocksize as int,
            res.len() as int,
        ));
    }
}

proof fn lemma_warmup_is_stored(res: Seq<i32>, coefs: Seq<i32>, shift: i32, k: nat)
    requires
        k <= coefs.len(),
        k <= res.len(),
    ensures
        lpc_restore(res, coefs, shift, k) =~= res.subrange(0, k as int),
    decreases k,
{
    if k > 0 {
        lemma_warmup_is_stored(res, coefs, shift, (k - 1) as nat);
        assert(res.subrange(0, k as int) =~= res.subrange(0, k - 1).push(res[k - 1]));
    }
}


/// Block size given by a frame's 4-bit block-size code, for the codes that
/// do not call for an explicit size.
pub open spec fn block_size_of_code(code: u32) -> nat {
    if code == 1 {
        192
    } else if 2 <= code <= 5 {
        576 * pow2((code - 2) as nat)
    } else if 8 <= code <= 15 {
        256 * pow2((code - 8) as nat)
    } else {
        0
    }
}

/// Block size for the codes 1 to 5 and 8 to 15.
pub fn fixed_block_size(code: u32) -> (r: usize)
    requires
        1 <= code <= 5 || 8 <= code <= 15,
    ensures
        r == block_size_of_code(code),
        1 <= r <= 32768,
{
    proof {
        lemma2_to64();
    }
    if code == 1 {
        192
    } else if code == 2 {
        576
    } else if code == 3 {
        1152
    } else if code == 4 {
        2304
    } else if code == 5 {
        4608
    } else if code == 8 {
        256
    } else if code == 9 {
        512
    } else if code == 10 {
        1024
    } else if code == 11 {
        2048
    } else if code == 12 {
        4096
    } else if code == 13 {
        8192
    } else if code == 14 {
        16384
    } else {
        32768
    }
}

/// The `n` Rice-coded values with `k` remainder bits from `pos` on, and the
/// position after them.
pub open spec fn rice_values(data: Seq<u8>, pos: int, k: nat, n: nat) -> Result<(Seq<i32>, int), DecodeError>
    decreases n,
{
    if n == 0 {
        Ok((seq![], pos))
    } else {
        match rice_values(data, pos, k, (n - 1) as nat) {
            Err(e) => Err(e),
            Ok((s, p)) => match rice_outcome(data, p, k) {
                Err(e) => Err(e),
                Ok((v, q)) => Ok((s.push(v), q)),
            },
        }
    }
}

/// The `n` two's-complement values of `w` bits each from `pos` on, and the
/// position after them.
pub open spec fn fixed_width_values(data: Seq<u8>, pos: int, w: nat, n: nat) -> Result<(Seq<i32>, int), DecodeError> {
    if pos + n * w > 8 * data.len() {
        Err(DecodeError::UnexpectedEnd)
    } else {
        Ok((Seq::new(n, |i: int| signed_bits_val(data, pos + i * w, w) as i32), pos + n * w))
    }
}

/// One residual partition of `count` values at `pos`: a Rice parameter of
/// `parambits` bits, or the escape code followed by a 5-bit raw width.
pub open spec fn partition_values(
    data: Seq<u8>,
    pos: int,
    parambits: nat,
    escape: nat,
    count: nat,
) -> Result<(Seq<i32>, int), DecodeError> {
    if pos + parambits > 8 * data.len() {
        Err(DecodeError::UnexpectedEnd)
    } else if bits_val(data, pos, parambits) < escape {
        rice_values(data, pos + parambits, bits_val(data, pos, parambits), count)
    } else if pos + parambits + 5 > 8 * data.len() {
        Err(DecodeError::UnexpectedEnd)
    } else {
        fixed_width_values(data, pos + parambits + 5, bits_val(data, pos + parambits, 5), count)
    }
}

/// Number of residuals in partition `i`: the first partition leaves out the
/// `order` warm-up samples.
pub open spec fn partition_count(per: nat, order: nat, i: nat) -> nat {
    if i == 0 {
        (per - order) as nat
    } else {
        per
    }
}

/// The first `m` partitions from `pos` on, concatenated.
pub open spec fn partitions(
    data: Seq<u8>,
    pos: int,
    parambits: nat,
    escape: nat,
    per: nat,
    order: nat,
    m: nat,
) -> Result<(Seq<i32>, int), DecodeError>
    decreases m,
{
    if m == 0 {
        Ok((seq![], pos))
    } else {
        match partitions(data, pos, parambits, escape, per, order, (m - 1) as nat) {
            Err(e) => Err(e),
            Ok((s, p)) => match partition_values(
                data,
                p,
                parambits,
                escape,
                partition_count(per, order, (m - 1) as nat),
            ) {
                Err(e) => Err(e),
                Ok((t, q)) => Ok((s + t, q)),
            },
        }
    }
}

/// The residuals of a block of `blocksize` samples predicted with order
/// `order`, coded at `pos`, and the position after them.
#[verifier::opaque]
pub open spec fn residual_values(data: Seq<u8>, pos: int, order: nat, blocksize: nat) -> Result<
    (Seq<i32>, int),
    DecodeError,
> {
    let method = bits_val(data, pos, 2);
    let num_partitions = pow2(bits_val(data, pos + 2, 4));
    if pos + 2 > 8 * data.len() {
        Err(DecodeError::UnexpectedEnd)
    } else if method >= 2 {
        Err(DecodeError::ReservedResidualMethod)
    } else if pos + 6 > 8 * data.len() {
        Err(DecodeError::UnexpectedEnd)
    } else if blocksize % num_partitions != 0 || blocksize / num_partitions < order {
        Err(DecodeError::BadPartitionCount)
    } else {
        partitions(
            data,
            pos + 6,
            if method == 0 { 4 } else { 5 },
            if method == 0 { 15 } else { 31 },
            blocksize / num_partitions,
            order,
            num_partitions,
        )
    }
}

proof fn lemma_rice_values_err(data: Seq<u8>, pos: int, k: nat, n: nat, m: nat)
    requires
        n <= m,
        rice_values(data, pos, k, n) is Err,
    ensures
        rice_values(data, pos, k, m) == rice_values(data, pos, k, n),
    decreases m,
{
    if n < m {
        lemma_rice_values_err(data, pos, k, n, (m - 1) as nat);
    }
}

proof fn lemma_partitions_err(
    data: Seq<u8>,
    pos: int,
    parambits: nat,
    escape: nat,
    per: nat,
    order: nat,
    n: nat,
    m: nat,
)
    requires
        n <= m,
        partitions(data, pos, parambits, escape, per, order, n) is Err,
    ensures
        partitions(data, pos, parambits, escape, per, order, m) == partitions(
            data,
            pos,
            parambits,
            escape,
            per,
            order,
            n,
        ),
    decreases m,
{
    if n < m {
        lemma_partitions_err(data, pos, parambits, escape, per, order, n, (m - 1) as nat);
    }
}

proof fn lemma_partitions_step(
    data: Seq<u8>,
    pos: int,
    parambits: nat,
    escape: nat,
    per: nat,
    order: nat,
    m: nat,
    s: Seq<i32>,
    p: int,
)
    requires
        partitions(data, pos, parambits, escape, per, order, m) == Ok::<(Seq<i32>, int), DecodeError>((s, p)),
    ensures
        partitions(data, pos, parambits, escape, per, order, m + 1) == match partition_values(
            data,
            p,
            parambits,
            escape,
            partition_count(per, order, m),
        ) {
            Err(e) => Err(e),
            Ok((t, q)) => Ok::<(Seq<i32>, int), DecodeError>((s + t, q)),
        },
{
    assert(((m + 1) - 1) as nat == m);
}

/// A block coded with the fixed predictor of order `order` at `pos`: the
/// warm-up samples of `depth` bits, then the residuals, restored.
pub open spec fn fixed_subframe_values(data: Seq<u8>, pos: int, depth: nat, order: nat, blocksize: nat) -> Result<
    (Seq<i32>, int),
    DecodeError,
> {
    match fixed_width_values(data, pos, depth, order) {
        Err(e) => Err(e),
        Ok((warm, mark1)) => match residual_values(data, mark1, order, blocksize) {
            Err(e) => Err(e),
            Ok((res, mark2)) => Ok((lpc_restore(warm + res, fixed_coefficients(order), 0, blocksize), mark2)),
        },
    }
}

/// A block coded with an explicit linear predictor of order `order` at
/// `pos`: the warm-up samples, a 4-bit coefficient precision (less one), a
/// 5-bit signed shift, the coefficients, then the residuals, restored.
pub open spec fn lpc_subframe_values(data: Seq<u8>, pos: int, depth: nat, order: nat, blocksize: nat) -> Result<
    (Seq<i32>, int),
    DecodeError,
> {
    match fixed_width_values(data, pos, depth, order) {
        Err(e) => Err(e),
        Ok((warm, mark1)) => match lpc_parameters(data, mark1, order) {
            Err(e) => Err(e),
            Ok((coefs, shift, mark2)) => match residual_values(data, mark2, order, blocksize) {
                Err(e) => Err(e),
                Ok((res, mark3)) => Ok((lpc_restore(warm + res, coefs, shift, blocksize), mark3)),
            },
        },
    }
}

/// The predictor header at `pos`: a 4-bit precision (less one), a 5-bit
/// signed shift, which must not be negative, and `order` coefficients of
/// that precision; with the position after it.
pub open spec fn lpc_parameters(data: Seq<u8>, pos: int, order: nat) -> Result<(Seq<i32>, i32, int), DecodeError> {
    let precision = bits_val(data, pos, 4) + 1;
    let shift = signed_bits_val(data, pos + 4, 5);
    if pos + 9 > 8 * data.len() {
        Err(DecodeError::UnexpectedEnd)
    } else if shift < 0 {
        Err(DecodeError::NegativeShift)
    } else {
        match fixed_width_values(data, pos + 9, precision, order) {
            Err(e) => Err(e),
            Ok((coefs, end)) => Ok((coefs, shift as i32, end)),
        }
    }
}

/// Restoration reads only the first `n` entries of its input.
proof fn lemma_lpc_restore_prefix_only(a: Seq<i32>, b: Seq<i32>, coefs: Seq<i32>, shift: i32, n: nat)
    requires
        n <= a.len(),
        n <= b.len(),
        a.subrange(0, n as int) == b.subrange(0, n as int),
    ensures
        lpc_restore(a, coefs, shift, n) == lpc_restore(b, coefs, shift, n),
    decreases n,
{
    if n > 0 {
        assert(a.subrange(0, n - 1) =~= a.subrange(0, n as int).subrange(0, n - 1));
        assert(b.subrange(0, n - 1) =~= b.subrange(0, n as int).subrange(0, n - 1));
        lemma_lpc_restore_prefix_only(a, b, coefs, shift, (n - 1) as nat);
        assert(a[n - 1] == a.subrange(0, n as int)[n - 1]);
        assert(b[n - 1] == b.subrange(0, n as int)[n - 1]);
    }
}

/// A block holding one value of `depth` bits at `pos`, repeated.
pub open spec fn constant_values(data: Seq<u8>, pos: int, depth: nat, n: nat) -> Result<(Seq<i32>, int), DecodeError> {
    if pos + depth > 8 * data.len() {
        Err(DecodeError::UnexpectedEnd)
    } else {
        Ok((Seq::new(n, |i: int| signed_bits_val(data, pos, depth) as i32), pos + depth))
    }
}

/// The samples of a subframe body of type `kind` at `pos`, with samples of
/// `depth` bits, before the wasted bits are restored.
pub open spec fn subframe_body(data: Seq<u8>, pos: int, depth: nat, kind: nat, blocksize: nat) -> Result<
    (Seq<i32>, int),
    DecodeError,
> {
    if kind == 0 {
        constant_values(data, pos, depth, blocksize)
    } else if kind == 1 {
        fixed_width_values(data, pos, depth, blocksize)
    } else if 8 <= kind <= 12 {
        if kind - 8 > blocksize {
            Err(DecodeError::BadPartitionCount)
        } else {
            fixed_subframe_values(data, pos, depth, (kind - 8) as nat, blocksize)
        }
    } else if 32 <= kind <= 63 {
        if kind - 31 > MAX_LPC_ORDER {
            Err(DecodeError::TooManyCoefficients)
        } else if kind - 31 > blocksize {
            Err(DecodeError::BadPartitionCount)
        } else {
            lpc_subframe_values(data, pos, depth, (kind - 31) as nat, blocksize)
        }
    } else {
        Err(DecodeError::ReservedSubframeType)
    }
}

/// A subframe at `pos` of a stream with sample depth `depth`: a zero bit, a
/// 6-bit type, a wasted-bits flag (followed, when set, by a unary count one
/// less than the number of wasted bits), the body, and every sample shifted
/// left by the wasted bits.
#[verifier::opaque]
pub open spec fn subframe_values(data: Seq<u8>, pos: int, depth: nat, blocksize: nat) -> Result<
    (Seq<i32>, int),
    DecodeError,
> {
    let kind = bits_val(data, pos + 1, 6);
    let flag = bits_val(data, pos + 7, 1);
    let q = unary_len(data, pos + 8);
    let shift: nat = if flag == 1 { q + 1 } else { 0 };
    let start = if flag == 1 { pos + 8 + q + 1 } else { pos + 8 };
    if pos + 8 > 8 * data.len() {
        Err(DecodeError::UnexpectedEnd)
    } else if flag == 1 && !(exists|u: nat| #[trigger] unary_at(data, pos + 8, u)) {
        Err(DecodeError::UnexpectedEnd)
    } else if shift >= depth {
        Err(DecodeError::BadWastedBits)
    } else {
        match subframe_body(data, start, (depth - shift) as nat, kind, blocksize) {
            Err(e) => Err(e),
            Ok((v, end)) => Ok((Seq::new(blocksize, |i: int| v[i].wrapping_shl(shift as u32)), end)),
        }
    }
}

/// Position after a frame-number field whose first byte `lead` has been
/// read and whose continuation bytes start at `pos`: one more byte for each
/// leading one bit after the first.
pub open spec fn skip_frame_number(data: Seq<u8>, pos: int, lead: nat) -> Result<int, DecodeError>
    decreases lead,
{
    if 0xC0 <= lead < 256 {
        if pos + 8 > 8 * data.len() {
            Err(DecodeError::UnexpectedEnd)
        } else {
            skip_frame_number(data, pos + 8, (lead * 2) % 256)
        }
    } else {
        Ok(pos)
    }
}

/// Block size and end of the explicit block-size field for block-size code
/// `code`, the field starting at `pos`.
pub open spec fn block_size_field(data: Seq<u8>, pos: int, code: nat) -> Result<(nat, int), DecodeError> {
    if code == 0 {
        Err(DecodeError::BadBlockSize)
    } else if code == 6 {
        if pos + 8 > 8 * data.len() {
            Err(DecodeError::UnexpectedEnd)
        } else {
            Ok((bits_val(data, pos, 8) + 1, pos + 8))
        }
    } else if code == 7 {
        if pos + 16 > 8 * data.len() {
            Err(DecodeError::UnexpectedEnd)
        } else {
            Ok((bits_val(data, pos, 16) + 1, pos + 16))
        }
    } else {
        Ok((block_size_of_code(code as u32), pos))
    }
}

/// A frame header at `pos`: the sync pattern, two reserved bits, the
/// block-size, sample-rate and channel codes, four reserved bits, the frame
/// number, the explicit block size and sample rate when their codes call
/// for them, and the header checksum. Gives the block size and the position
/// of the subframe.
pub open spec fn frame_header(data: Seq<u8>, pos: int) -> Result<(nat, int), DecodeError> {
    let bs_code = bits_val(data, pos + 16, 4);
    let sr_code = bits_val(data, pos + 20, 4);
    let channels = bits_val(data, pos + 24, 4);
    if pos + 14 > 8 * data.len() {
        Err(DecodeError::UnexpectedEnd)
    } else if bits_val(data, pos, 14) != FRAME_SYNC {
        Err(DecodeError::BadSync)
    } else if pos + 32 > 8 * data.len() {
        Err(DecodeError::UnexpectedEnd)
    } else if channels != 0 {
        Err(DecodeError::NotMono)
    } else if pos + 40 > 8 * data.len() {
        Err(DecodeError::UnexpectedEnd)
    } else {
        match skip_frame_number(data, pos + 40, bits_val(data, pos + 32, 8)) {
            Err(e) => Err(e),
            Ok(mark1) => match block_size_field(data, mark1, bs_code) {
                Err(e) => Err(e),
                Ok((bs, mark2)) => {
                    let mark3 = if sr_code == 12 {
                        mark2 + 8
                    } else if sr_code == 13 || sr_code == 14 {
                        mark2 + 16
                    } else {
                        mark2
                    };
                    if mark3 + 8 > 8 * data.len() {
                        Err(DecodeError::UnexpectedEnd)
                    } else {
                        Ok((bs, mark3 + 8))
                    }
                },
            },
        }
    }
}

/// `p` rounded up to a byte boundary.
pub open spec fn byte_aligned(p: int) -> int {
    if p % 8 == 0 {
        p
    } else {
        p + 8 - p % 8
    }
}

/// A whole frame at `pos` decoded into a buffer of `buflen` samples: its
/// header, one subframe of the header's block size, padding to a byte
/// boundary and the 16-bit frame checksum. Gives the samples and the
/// position of the next frame.
pub open spec fn frame_values(data: Seq<u8>, pos: int, depth: nat, buflen: nat) -> Result<(Seq<i32>, int), DecodeError> {
    match frame_header(data, pos) {
        Err(e) => Err(e),
        Ok((bs, p)) => if bs > buflen {
            Err(DecodeError::BlockTooLarge)
        } else {
            match subframe_values(data, p, depth, bs) {
                Err(e) => Err(e),
                Ok((v, end)) => if byte_aligned(end) + 16 > 8 * data.len() {
                    Err(DecodeError::UnexpectedEnd)
                } else {
                    Ok((v, byte_aligned(end) + 16))
                },
            }
        },
    }
}

/// Stream parameters from a stream-info block: sample rate, channel count,
/// bit depth and total sample count.
pub type StreamParams = (nat, nat, nat, nat);

/// The metadata blocks from `pos` on, each a last-block flag, a 7-bit type
/// and a 24-bit length. The first stream-info block (type 0) replaces `info`
/// with the parameters it declares, unless `seen` says one has already been
/// read; every other block is skipped by its length. Gives the parameters
/// and the position after the last block.
pub open spec fn metadata_blocks(data: Seq<u8>, pos: int, info: StreamParams, seen: bool) -> Result<
    (StreamParams, int),
    DecodeError,
>
    decreases 8 * data.len() - pos,
{
    let last = bits_val(data, pos, 1) != 0;
    let kind = bits_val(data, pos + 1, 7);
    let length = bits_val(data, pos + 8, 24);
    let body = pos + 32;
    let parse = kind == 0 && !seen;
    if pos + 32 > 8 * data.len() {
        Err(DecodeError::UnexpectedEnd)
    } else if parse && body + 272 > 8 * data.len() {
        Err(DecodeError::UnexpectedEnd)
    } else if !parse && body + 8 * length > 8 * data.len() {
        Err(DecodeError::UnexpectedEnd)
    } else {
        let next: StreamParams = if parse {
            (
                bits_val(data, body + 80, 20),
                bits_val(data, body + 100, 3) + 1,
                bits_val(data, body + 103, 5) + 1,
                bits_val(data, body + 108, 36),
            )
        } else {
            info
        };
        let end = if parse {
            body + 272
        } else {
            body + 8 * length
        };
        if last {
            Ok((next, end))
        } else {
            metadata_blocks(data, end, next, seen || parse)
        }
    }
}

/// The header of an encoded stream: the magic, then the metadata blocks,
/// which must have declared a sample rate, one channel, and a bit depth that
/// is a multiple of 8. Gives the parameters and the position of the first
/// frame.
pub open spec fn header_values(data: Seq<u8>) -> Result<(StreamParams, int), DecodeError> {
    if 32 > 8 * data.len() {
        Err(DecodeError::UnexpectedEnd)
    } else if bits_val(data, 0, 32) != STREAM_MAGIC {
        Err(DecodeError::BadMagic)
    } else {
        match metadata_blocks(data, 32, (0, 0, 0, 0), false) {
            Err(e) => Err(e),
            Ok((info, end)) => if info.0 == 0 {
                Err(DecodeError::MissingStreamInfo)
            } else if info.2 % 8 != 0 || info.2 == 0 {
                Err(DecodeError::UnsupportedDepth)
            } else if info.1 != 1 {
                Err(DecodeError::NotMono)
            } else {
                Ok((info, end))
            },
        }
    }
}

/// Decoder state for one encoded stream: the bit cursor, the cursor saved
/// right after the header (the loop checkpoint), and the stream parameters.
#[derive(Clone, Copy)]
pub struct SimpleFlac {
    reader: BitReader,
    checkpoint: BitReader,
    sample_rate: u32,
    sample_depth: u32,
    sample_count: u64,
    samples_played: u64,
    looping: bool,
}

impl SimpleFlac {
    pub closed spec fn wf(&self) -> bool {
        &&& self.reader.wf()
        &&& self.checkpoint.wf()
        &&& self.reader.stream() == self.checkpoint.stream()
        &&& 8 <= self.sample_depth <= 32
        &&& self.sample_depth % 8 == 0
        &&& self.sample_count < 0x10_0000_0000
    }

    /// Whether `self` and `other` differ at most in their bit cursor.
    pub closed spec fn same_params(&self, other: SimpleFlac) -> bool {
        &&& self.checkpoint == other.checkpoint
        &&& self.sample_rate == other.sample_rate
        &&& self.sample_depth == other.sample_depth
        &&& self.sample_count == other.sample_count
        &&& self.samples_played == other.samples_played
        &&& self.looping == other.looping
    }

    /// Whether `self` decodes the same stream as `other` with the same
    /// header: they differ at most in their cursor and played count.
    pub closed spec fn same_origin(&self, other: SimpleFlac) -> bool {
        &&& self.checkpoint == other.checkpoint
        &&& self.sample_rate == other.sample_rate
        &&& self.sample_depth == other.sample_depth
        &&& self.sample_count == other.sample_count
        &&& self.looping == other.looping
    }

    /// The state a reset leads to: the cursor back at the checkpoint and
    /// nothing played.
    pub closed spec fn rewound(&self) -> SimpleFlac {
        SimpleFlac { reader: self.checkpoint, samples_played: 0, ..*self }
    }

    /// Whether the decoder stands at its first frame with nothing played,
    /// as [`SimpleFlac::new`] leaves it.
    pub open spec fn at_start(&self) -> bool {
        self.cursor() == self.checkpoint() && self.played() == 0
    }

    /// The state the next mix decodes from: a looping stream that has
    /// played to its end starts over.
    pub open spec fn mix_origin(&self) -> SimpleFlac {
        if self.played() >= self.declared_samples() && self.is_looping() {
            self.rewound()
        } else {
            *self
        }
    }

    /// The frame the next mix decodes into a buffer of `len` samples.
    pub open spec fn next_block(&self, len: nat) -> Result<(Seq<i32>, int), DecodeError> {
        frame_values(self.mix_origin().stream(), self.mix_origin().cursor().pos(), self.mix_origin().depth(), len)
    }

    /// The encoded stream.
    pub closed spec fn stream(&self) -> Seq<u8> {
        self.reader.stream()
    }

    /// The current bit cursor.
    pub closed spec fn cursor(&self) -> BitReader {
        self.reader
    }

    /// The bit cursor saved right after the header.
    pub closed spec fn checkpoint(&self) -> BitReader {
        self.checkpoint
    }

    /// Total number of samples the header declares.
    pub closed spec fn declared_samples(&self) -> nat {
        self.sample_count as nat
    }

    /// Number of samples decoded since the start or the last reset.
    pub closed spec fn played(&self) -> nat {
        self.samples_played as nat
    }

    pub closed spec fn is_looping(&self) -> bool {
        self.looping
    }

    /// Declared bit depth of the samples.
    pub closed spec fn depth(&self) -> nat {
        self.sample_depth as nat
    }

    /// Samples left before the end of the stream.
    pub open spec fn remaining(&self) -> nat {
        if self.played() > self.declared_samples() {
            0
        } else {
            (self.declared_samples() - self.played()) as nat
        }
    }

    /// Parses the header of `data` and leaves the decoder at the first frame.
    pub fn try_new(data: &'static [u8], looping: bool) -> (r: Result<SimpleFlac, DecodeError>)
        requires
            data@.len() <= usize::MAX / 8,
        ensures
            match header_values(data@) {
                Ok((info, end)) => r matches Ok(f) && {
                    &&& f.wf()
                    &&& f.stream() == data@
                    &&& f.is_looping() == looping
                    &&& f.at_start()
                    &&& f.cursor().pos() == end
                    &&& f.depth() == info.2
                    &&& f.declared_samples() == info.3
                },
                Err(e) => r == Err::<SimpleFlac, DecodeError>(e),
            },
    {
        let mut reader = BitReader::new(data);
        let magic = reader.try_read_uint(32)?;
        if magic != STREAM_MAGIC {
            return Err(DecodeError::BadMagic);
        }
        let mut sample_rate: u32 = 0;
        let mut num_channels: u32 = 0;
        let mut sample_depth: u32 = 0;
        let mut sample_count: u64 = 0;
        let mut last = false;
        let mut seen = false;
        while !last
            invariant
                reader.wf(),
                reader.stream() == data@,
                data@.len() >= 4,
                bits_val(data@, 0, 32) == STREAM_MAGIC,
                sample_depth <= 32,
                sample_count < 0x10_0000_0000,
                metadata_blocks(data@, 32, (0, 0, 0, 0), false) == if last {
                    Ok::<(StreamParams, int), DecodeError>(
                        (
                            (sample_rate as nat, num_channels as nat, sample_depth as nat, sample_count as nat),
                            reader.pos(),
                        ),
                    )
                } else {
                    metadata_blocks(
                        data@,
                        reader.pos(),
                        (sample_rate as nat, num_channels as nat, sample_depth as nat, sample_count as nat),
                        seen,
                    )
                },
            decreases reader.total_bits() - reader.pos(),
        {
            proof {
                lemma2_to64();
            }
            last = reader.try_read_uint(1)? != 0;
            let block_type = reader.try_read_uint(7)?;
            let length = reader.try_read_uint(24)?;
            if block_type == 0 && !seen {
                seen = true;
                reader.try_skip_bits(16 + 16 + 24 + 24)?;
                sample_rate = reader.try_read_uint(20)?;
                num_channels = reader.try_read_uint(3)? + 1;
                sample_depth = reader.try_read_uint(5)? + 1;
                let ghost pc = reader.pos();
                let hi = reader.try_read_uint(4)?;
                let lo = reader.try_read_uint(32)?;
                proof {
                    crate::bits::lemma_bits_concat(data@, pc, 4, 32);
                }
                sample_count = (hi as u64) * 0x1_0000_0000 + lo as u64;
                reader.try_skip_bits(128)?;
            } else {
                reader.try_skip_bits(8 * length as usize)?;
            }
            proof {
                lemma2_to64();
            }
        }
        if sample_rate == 0 {
            return Err(DecodeError::MissingStreamInfo);
        }
        if sample_depth % 8 != 0 || sample_depth == 0 {
            return Err(DecodeError::UnsupportedDepth);
        }
        if num_channels != 1 {
            return Err(DecodeError::NotMono);
        }
        Ok(SimpleFlac {
            reader,
            checkpoint: reader,
            sample_rate,
            sample_depth,
            sample_count,
            samples_played: 0,
            looping,
        })
    }

    /// Parses the header of `data`, which must be well formed, and leaves
    /// the decoder at the first frame. A malformed header is a defect of the
    /// asset build; [`SimpleFlac::try_new`] is the check that reports it.
    pub fn new(data: &'static [u8], looping: bool) -> (f: SimpleFlac)
        requires
            data@.len() <= usize::MAX / 8,
            header_values(data@) is Ok,
        ensures
            header_values(data@) matches Ok((info, end)) && {
                &&& f.wf()
                &&& f.stream() == data@
                &&& f.is_looping() == looping
                &&& f.at_start()
                &&& f.cursor().pos() == end
                &&& f.depth() == info.2
                &&& f.declared_samples() == info.3
            },
    {
        match Self::try_new(data, looping) {
            Ok(f) => f,
            Err(_) => vstd::pervasive::unreached(),
        }
    }

    /// Fills the first `blocksize` samples with one value of `depth` bits.
    fn try_decode_constant_coding(&mut self, buf: &mut Vec<i32>, depth: u32, blocksize: usize) -> (r: Result<(), DecodeError>)
        requires
            old(self).wf(),
            1 <= depth <= 32,
            blocksize <= old(buf).len(),
        ensures
            final(self).same_params(*old(self)),
            final(self).wf(),
            final(self).stream() == old(self).stream(),
            final(buf).len() == old(buf).len(),
            r is Ok <==> old(self).cursor().pos() + depth <= old(self).cursor().total_bits(),
            r matches Err(e) ==> e == DecodeError::UnexpectedEnd,
            r is Ok ==> {
                &&& final(self).cursor().pos() == old(self).cursor().pos() + depth
                &&& forall|i: int| 0 <= i < blocksize ==> final(buf)@[i] == signed_bits_val(
                    old(self).stream(),
                    old(self).cursor().pos(),
                    depth as nat,
                )
            },
            forall|i: int| blocksize <= i < final(buf).len() ==> final(buf)@[i] == old(buf)@[i],
    {
        let value = self.reader.try_read_signed_int(depth)?;
        let mut i: usize = 0;
        while i < blocksize
            invariant
                i <= blocksize,
                blocksize <= buf.len(),
                buf.len() == old(buf).len(),
                forall|j: int| 0 <= j < i ==> buf@[j] == value,
                forall|j: int| blocksize <= j < buf.len() ==> buf@[j] == old(buf)@[j],
            decreases blocksize - i,
        {
            buf.set(i, value);
            i = i + 1;
        }
        Ok(())
    }

    /// Reads `count` samples of `depth` bits each into `buf[start..start + count]`.
    fn try_decode_verbatim_coding(
        &mut self,
        buf: &mut Vec<i32>,
        depth: u32,
        start: usize,
        count: usize,
    ) -> (r: Result<(), DecodeError>)
        requires
            old(self).wf(),
            depth <= 32,
            start + count <= old(buf).len(),
        ensures
            final(self).same_params(*old(self)),
            final(self).wf(),
            final(self).stream() == old(self).stream(),
            final(buf).len() == old(buf).len(),
            forall|i: int| 0 <= i < start ==> final(buf)@[i] == old(buf)@[i],
            forall|i: int| start + count <= i < final(buf).len() ==> final(buf)@[i] == old(buf)@[i],
            match fixed_width_values(old(self).stream(), old(self).cursor().pos(), depth as nat, count as nat) {
                Ok((vals, end)) => r is Ok && final(self).cursor().pos() == end && final(buf)@.subrange(
                    start as int,
                    start + count,
                ) == vals,
                Err(e) => r == Err::<(), DecodeError>(e),
            },
    {
        let ghost mark0 = self.reader.pos();
        let mut i: usize = 0;
        while i < count
            invariant
                self.wf(),
                self.stream() == old(self).stream(),
                self.same_params(*old(self)),
                mark0 == old(self).cursor().pos(),
                self.reader.pos() == mark0 + i * depth,
                i <= count,
                depth <= 32,
                start + count <= buf.len(),
                buf.len() == old(buf).len(),
                forall|j: int| 0 <= j < start ==> buf@[j] == old(buf)@[j],
                forall|j: int| start + count <= j < buf.len() ==> buf@[j] == old(buf)@[j],
                forall|j: int| 0 <= j < i ==> #[trigger] buf@[start + j] == signed_bits_val(
                    old(self).stream(),
                    mark0 + j * depth,
                    depth as nat,
                ),
            decreases count - i,
        {
            let ghost before = self.reader.pos();
            match self.reader.try_read_signed_int(depth) {
                Ok(v) => {
                    buf.set(start + i, v);
                },
                Err(e) => {
                    proof {
                        assert(mark0 + count * depth >= mark0 + (i + 1) * depth) by (nonlinear_arith)
                            requires
                                i + 1 <= count,
                                depth >= 0,
                        ;
                        assert(mark0 + (i + 1) * depth == before + depth) by (nonlinear_arith)
                            requires
                                before == mark0 + i * depth,
                        ;
                    }
                    return Err(e);
                },
            }
            proof {
                assert(mark0 + (i + 1) * depth == mark0 + i * depth + depth) by (nonlinear_arith);
            }
            i = i + 1;
        }
        proof {
            self.reader.lemma_wf_facts();
            assert forall|j: int| 0 <= j < count implies #[trigger] buf@.subrange(
                start as int,
                start + count,
            )[j] == signed_bits_val(old(self).stream(), mark0 + j * depth, depth as nat) as i32 by {
                assert(buf@[start + j] == signed_bits_val(old(self).stream(), mark0 + j * depth, depth as nat));
            }
            assert(buf@.subrange(start as int, start + count) =~= Seq::new(
                count as nat,
                |j: int| signed_bits_val(old(self).stream(), mark0 + j * depth, depth as nat) as i32,
            ));
        }
        Ok(())
    }

    /// Decodes `count` Rice-coded residuals with parameter `param` into
    /// `buf[start..start + count]`.
    fn try_decode_rice_run(&mut self, buf: &mut Vec<i32>, start: usize, count: usize, param: u32) -> (r: Result<(), DecodeError>)
        requires
            old(self).wf(),
            start + count <= old(buf).len(),
            param < 32,
        ensures
            final(self).wf(),
            final(self).stream() == old(self).stream(),
            final(self).same_params(*old(self)),
            final(buf).len() == old(buf).len(),
            forall|i: int| 0 <= i < start ==> final(buf)@[i] == old(buf)@[i],
            forall|i: int| start + count <= i < final(buf).len() ==> final(buf)@[i] == old(buf)@[i],
            match rice_values(old(self).stream(), old(self).cursor().pos(), param as nat, count as nat) {
                Ok((vals, end)) => r is Ok && final(self).cursor().pos() == end && final(buf)@.subrange(
                    start as int,
                    start + count,
                ) == vals,
                Err(e) => r == Err::<(), DecodeError>(e),
            },
    {
        let ghost d = self.reader.stream();
        let ghost ps = self.reader.pos();
        let end = start + count;
        let mut k: usize = start;
        proof {
            assert(buf@.subrange(start as int, k as int) =~= Seq::<i32>::empty());
        }
        while k < end
            invariant
                self.wf(),
                self.stream() == d,
                d == old(self).stream(),
                ps == old(self).cursor().pos(),
                self.same_params(*old(self)),
                buf.len() == old(buf).len(),
                start <= k <= end,
                end == start + count,
                end <= buf.len(),
                param < 32,
                forall|j: int| 0 <= j < start ==> buf@[j] == old(buf)@[j],
                forall|j: int| end <= j < buf.len() ==> buf@[j] == old(buf)@[j],
                rice_values(d, ps, param as nat, (k - start) as nat) == Ok::<(Seq<i32>, int), DecodeError>(
                    (buf@.subrange(start as int, k as int), self.reader.pos()),
                ),
            decreases end - k,
        {
            let v = match self.reader.try_read_rice_signed_int(param) {
                Ok(v) => v,
                Err(e) => {
                    proof {
                        lemma_rice_values_err(d, ps, param as nat, (k - start + 1) as nat, count as nat);
                    }
                    return Err(e);
                },
            };
            let ghost prev = buf@;
            buf.set(k, v);
            proof {
                assert(buf@.subrange(start as int, k + 1) =~= prev.subrange(start as int, k as int).push(v));
            }
            k = k + 1;
        }
        Ok(())
    }

    /// Decodes one residual partition of `count` values into
    /// `buf[start..start + count]`.
    fn try_decode_partition(
        &mut self,
        buf: &mut Vec<i32>,
        start: usize,
        count: usize,
        parambits: u32,
        escape: u32,
    ) -> (r: Result<(), DecodeError>)
        requires
            old(self).wf(),
            start + count <= old(buf).len(),
            parambits <= 5,
            escape < 32,
        ensures
            final(self).wf(),
            final(self).stream() == old(self).stream(),
            final(self).same_params(*old(self)),
            final(buf).len() == old(buf).len(),
            forall|i: int| 0 <= i < start ==> final(buf)@[i] == old(buf)@[i],
            forall|i: int| start + count <= i < final(buf).len() ==> final(buf)@[i] == old(buf)@[i],
            match partition_values(
                old(self).stream(),
                old(self).cursor().pos(),
                parambits as nat,
                escape as nat,
                count as nat,
            ) {
                Ok((vals, end)) => r is Ok && final(self).cursor().pos() == end && final(buf)@.subrange(
                    start as int,
                    start + count,
                ) == vals,
                Err(e) => r == Err::<(), DecodeError>(e),
            },
    {
        proof {
            lemma2_to64();
        }
        let param = self.reader.try_read_uint(parambits)?;
        if param < escape {
            self.try_decode_rice_run(buf, start, count, param)
        } else {
            let numbits = self.reader.try_read_uint(5)?;
            let ghost pv = self.reader.pos();
            let ghost d = self.reader.stream();
            self.try_decode_verbatim_coding(buf, numbits, start, count)
        }
    }

    /// Decodes the partitioned residuals of a predicted block into
    /// `buf[order..blocksize]`.
    #[verifier::rlimit(40)]
    fn try_decode_residuals(&mut self, buf: &mut Vec<i32>, order: usize, blocksize: usize) -> (r: Result<(), DecodeError>)
        requires
            old(self).wf(),
            order <= blocksize,
            blocksize <= old(buf).len(),
        ensures
            final(self).wf(),
            final(self).stream() == old(self).stream(),
            final(self).same_params(*old(self)),
            final(buf).len() == old(buf).len(),
            forall|i: int| 0 <= i < order ==> final(buf)@[i] == old(buf)@[i],
            forall|i: int| blocksize <= i < final(buf).len() ==> final(buf)@[i] == old(buf)@[i],
            match residual_values(old(self).stream(), old(self).cursor().pos(), order as nat, blocksize as nat) {
                Ok((vals, end)) => r is Ok && final(self).cursor().pos() == end && final(buf)@.subrange(
                    order as int,
                    blocksize as int,
                ) == vals,
                Err(e) => r == Err::<(), DecodeError>(e),
            },
    {
        proof {
            lemma2_to64();
            reveal(residual_values);
        }
        let ghost d = self.reader.stream();
        let ghost mark0 = self.reader.pos();
        let method = self.reader.try_read_uint(2)?;
        let parambits: u32;
        let escape: u32;
        if method == 0 {
            parambits = 4;
            escape = 0xF;
        } else if method == 1 {
            parambits = 5;
            escape = 0x1F;
        } else {
            return Err(DecodeError::ReservedResidualMethod);
        }
        let partition_order = self.reader.try_read_uint(4)?;
        proof {
            vstd::bits::lemma_u32_pow2_no_overflow(partition_order as nat);
            vstd::bits::lemma_u32_shl_is_mul(1, partition_order);
        }
        let num_partitions = (1u32 << partition_order) as usize;
        if blocksize % num_partitions != 0 {
            return Err(DecodeError::BadPartitionCount);
        }
        let per = blocksize / num_partitions;
        proof {
            vstd::arithmetic::div_mod::lemma_fundamental_div_mod(blocksize as int, num_partitions as int);
            assert(per * num_partitions == blocksize) by (nonlinear_arith)
                requires
                    blocksize == num_partitions * (blocksize / num_partitions) + blocksize % num_partitions,
                    blocksize % num_partitions == 0,
                    per == blocksize / num_partitions,
            ;
        }
        if per < order {
            return Err(DecodeError::BadPartitionCount);
        }
        let ghost mark6 = self.reader.pos();
        let ghost whole = residual_values(d, mark0, order as nat, blocksize as nat);
        proof {
            assert(whole == partitions(d, mark6, parambits as nat, escape as nat, per as nat, order as nat, num_partitions as nat));
        }
        let mut len: usize = order;
        let mut i: usize = 0;
        proof {
            assert(buf@.subrange(order as int, len as int) =~= Seq::<i32>::empty());
        }
        while i < num_partitions
            invariant
                self.wf(),
                self.stream() == d,
                d == old(self).stream(),
                self.same_params(*old(self)),
                buf.len() == old(buf).len(),
                blocksize <= buf.len(),
                order <= per,
                per * num_partitions == blocksize,
                i <= num_partitions,
                i == 0 ==> len == order,
                i > 0 ==> len == i * per,
                parambits <= 5,
                escape < 32,
                forall|j: int| 0 <= j < order ==> buf@[j] == old(buf)@[j],
                forall|j: int| blocksize <= j < buf.len() ==> buf@[j] == old(buf)@[j],
                partitions(d, mark6, parambits as nat, escape as nat, per as nat, order as nat, i as nat) == Ok::<
                    (Seq<i32>, int),
                    DecodeError,
                >((buf@.subrange(order as int, len as int), self.reader.pos())),
                whole == residual_values(d, old(self).cursor().pos(), order as nat, blocksize as nat),
                whole == partitions(d, mark6, parambits as nat, escape as nat, per as nat, order as nat, num_partitions as nat),
            decreases num_partitions - i,
        {
            proof {
                assert((i + 1) * per <= num_partitions * per) by (nonlinear_arith)
                    requires
                        i + 1 <= num_partitions,
                        per >= 0,
                ;
                assert((i + 1) * per == i * per + per) by (nonlinear_arith);
                assert(i > 0 ==> i * per >= per) by (nonlinear_arith)
                    requires
                        per >= 0,
                ;
                assert(per * num_partitions == num_partitions * per) by (nonlinear_arith);
            }
            let count = if i == 0 {
                per - order
            } else {
                per
            };
            let end = len + count;
            let ghost before = buf@.subrange(order as int, len as int);
            let ghost pp = self.reader.pos();
            let ghost step = partition_values(d, pp, parambits as nat, escape as nat, count as nat);
            proof {
                assert(count as nat == partition_count(per as nat, order as nat, i as nat));
                lemma_partitions_step(d, mark6, parambits as nat, escape as nat, per as nat, order as nat, i as nat, before, pp);
            }
            match self.try_decode_partition(buf, len, count, parambits, escape) {
                Ok(()) => {},
                Err(e) => {
                    proof {
                        lemma_partitions_err(d, mark6, parambits as nat, escape as nat, per as nat, order as nat, (i + 1) as nat, num_partitions as nat);
                    }
                    return Err(e);
                },
            }
            proof {
                assert(buf@.subrange(order as int, len as int) =~= before);
                assert(buf@.subrange(order as int, end as int) =~= before + buf@.subrange(len as int, end as int));
            }
            len = end;
            i = i + 1;
        }
        proof {
            assert(len == blocksize) by (nonlinear_arith)
                requires
                    i == num_partitions,
                    i > 0,
                    len == i * per,
                    per * num_partitions == blocksize,
            ;
        }
        Ok(())
    }

    /// The coefficient table of the fixed predictor of order `order`.
    fn fixed_coefficient_table(order: usize) -> (r: Vec<i32>)
        requires
            order <= MAX_LPC_ORDER,
        ensures
            r@ == fixed_coefficients(order as nat),
    {
        let r = if order == 0 {
            vec![]
        } else if order == 1 {
            vec![1i32]
        } else if order == 2 {
            vec![2i32, -1i32]
        } else if order == 3 {
            vec![3i32, -3i32, 1i32]
        } else {
            vec![4i32, -6i32, 4i32, -1i32]
        };
        proof {
            assert(r@ =~= fixed_coefficients(order as nat));
        }
        r
    }

    /// Decodes a subframe coded with a fixed polynomial predictor.
    #[verifier::rlimit(40)]
    fn try_decode_fixed_prediction_subframe(
        &mut self,
        buf: &mut Vec<i32>,
        order: usize,
        depth: u32,
        blocksize: usize,
    ) -> (r: Result<(), DecodeError>)
        requires
            old(self).wf(),
            order <= MAX_LPC_ORDER,
            order <= blocksize,
            depth <= 32,
            blocksize <= old(buf).len(),
        ensures
            final(self).wf(),
            final(self).stream() == old(self).stream(),
            final(self).same_params(*old(self)),
            final(buf).len() == old(buf).len(),
            forall|i: int| blocksize <= i < final(buf).len() ==> final(buf)@[i] == old(buf)@[i],
            match fixed_subframe_values(
                old(self).stream(),
                old(self).cursor().pos(),
                depth as nat,
                order as nat,
                blocksize as nat,
            ) {
                Ok((vals, end)) => r is Ok && final(self).cursor().pos() == end && final(buf)@.subrange(
                    0,
                    blocksize as int,
                ) == vals,
                Err(e) => r == Err::<(), DecodeError>(e),
            },
    {
        let ghost d = self.reader.stream();
        let ghost mark0 = self.reader.pos();
        self.try_decode_verbatim_coding(buf, depth, 0, order)?;
        let ghost warm = buf@.subrange(0, order as int);
        let ghost mid = buf@;
        self.try_decode_residuals(buf, order, blocksize)?;
        let ghost pre = buf@;
        let coefs = Self::fixed_coefficient_table(order);
        restore_linear_prediction(buf, blocksize, &coefs, 0);
        proof {
            assert(pre.subrange(0, order as int) =~= mid.subrange(0, order as int));
            assert(pre.subrange(0, order as int) =~= warm);
            assert(pre.subrange(0, blocksize as int).subrange(0, blocksize as int) =~= pre.subrange(0, blocksize as int));
            assert(pre.subrange(0, blocksize as int) =~= pre.subrange(0, order as int) + pre.subrange(order as int, blocksize as int));
            lemma_lpc_restore_prefix_only(pre, pre.subrange(0, blocksize as int), coefs@, 0, blocksize as nat);
            assert forall|i: int| blocksize <= i < buf.len() implies buf@[i] == old(buf)@[i] by {
                assert(buf@[i] == buf@.subrange(blocksize as int, buf.len() as int)[i - blocksize]);
            }
        }
        Ok(())
    }

    /// Reads `count` coefficients of `precision` bits each.
    fn try_read_coefficients(&mut self, count: usize, precision: u32) -> (r: Result<Vec<i32>, DecodeError>)
        requires
            old(self).wf(),
            precision <= 32,
            count <= MAX_LPC_ORDER,
        ensures
            final(self).wf(),
            final(self).stream() == old(self).stream(),
            final(self).same_params(*old(self)),
            match fixed_width_values(old(self).stream(), old(self).cursor().pos(), precision as nat, count as nat) {
                Ok((vals, end)) => r matches Ok(c) && c@ == vals && final(self).cursor().pos() == end,
                Err(e) => r == Err::<Vec<i32>, DecodeError>(e),
            },
    {
        let ghost mark0 = self.reader.pos();
        let ghost d = self.reader.stream();
        let mut coefs: Vec<i32> = Vec::new();
        let mut j: usize = 0;
        while j < count
            invariant
                self.wf(),
                self.stream() == d,
                d == old(self).stream(),
                mark0 == old(self).cursor().pos(),
                self.same_params(*old(self)),
                j <= count,
                precision <= 32,
                coefs@ == Seq::new(j as nat, |i: int| signed_bits_val(d, mark0 + i * precision, precision as nat) as i32),
                self.reader.pos() == mark0 + j * precision,
            decreases count - j,
        {
            let ghost before = self.reader.pos();
            match self.reader.try_read_signed_int(precision) {
                Ok(c) => {
                    coefs.push(c);
                },
                Err(e) => {
                    proof {
                        assert(mark0 + count * precision >= mark0 + (j + 1) * precision) by (nonlinear_arith)
                            requires
                                j + 1 <= count,
                                precision >= 0,
                        ;
                        assert(mark0 + (j + 1) * precision == before + precision) by (nonlinear_arith)
                            requires
                                before == mark0 + j * precision,
                        ;
                    }
                    return Err(e);
                },
            }
            proof {
                assert(mark0 + (j + 1) * precision == mark0 + j * precision + precision) by (nonlinear_arith);
                assert(coefs@ =~= Seq::new((j + 1) as nat, |i: int| signed_bits_val(d, mark0 + i * precision, precision as nat) as i32));
            }
            j = j + 1;
        }
        proof {
            self.reader.lemma_wf_facts();
        }
        Ok(coefs)
    }

    /// Reads the predictor header of an explicit linear-prediction subframe:
    /// the coefficient precision, the shift and `order` coefficients.
    fn try_read_lpc_parameters(&mut self, order: usize) -> (r: Result<(Vec<i32>, i32), DecodeError>)
        requires
            old(self).wf(),
            order <= MAX_LPC_ORDER,
        ensures
            final(self).wf(),
            final(self).stream() == old(self).stream(),
            final(self).same_params(*old(self)),
            match lpc_parameters(old(self).stream(), old(self).cursor().pos(), order as nat) {
                Ok((coefs, shift, end)) => r matches Ok((c, sh)) && c@ == coefs && sh == shift && 0 <= sh < 32
                    && final(self).cursor().pos() == end,
                Err(e) => r == Err::<(Vec<i32>, i32), DecodeError>(e),
            },
    {
        proof {
            lemma2_to64();
        }
        let precision = self.reader.try_read_uint(4)? + 1;
        let shift = self.reader.try_read_signed_int(5)?;
        if shift < 0 {
            return Err(DecodeError::NegativeShift);
        }
        let coefs = self.try_read_coefficients(order, precision)?;
        Ok((coefs, shift))
    }

    /// Decodes a subframe coded with an explicit linear predictor of order
    /// `order`.
    fn try_decode_linear_predictive_coding_subframe(
        &mut self,
        buf: &mut Vec<i32>,
        order: usize,
        depth: u32,
        blocksize: usize,
    ) -> (r: Result<(), DecodeError>)
        requires
            old(self).wf(),
            order <= MAX_LPC_ORDER,
            order <= blocksize,
            depth <= 32,
            blocksize <= old(buf).len(),
        ensures
            final(self).wf(),
            final(self).stream() == old(self).stream(),
            final(self).same_params(*old(self)),
            final(buf).len() == old(buf).len(),
            forall|i: int| blocksize <= i < final(buf).len() ==> final(buf)@[i] == old(buf)@[i],
            match lpc_subframe_values(
                old(self).stream(),
                old(self).cursor().pos(),
                depth as nat,
                order as nat,
                blocksize as nat,
            ) {
                Ok((vals, end)) => r is Ok && final(self).cursor().pos() == end && final(buf)@.subrange(
                    0,
                    blocksize as int,
                ) == vals,
                Err(e) => r == Err::<(), DecodeError>(e),
            },
    {
        let ghost d = self.reader.stream();
        let ghost mark0 = self.reader.pos();
        self.try_decode_verbatim_coding(buf, depth, 0, order)?;
        let ghost warm = buf@.subrange(0, order as int);
        let (coefs, shift) = self.try_read_lpc_parameters(order)?;
        let ghost mid = buf@;
        self.try_decode_residuals(buf, order, blocksize)?;
        let ghost pre = buf@;
        restore_linear_prediction(buf, blocksize, &coefs, shift);
        proof {
            assert(pre.subrange(0, order as int) =~= mid.subrange(0, order as int));
            assert(pre.subrange(0, order as int) =~= warm);
            assert(pre.subrange(0, blocksize as int).subrange(0, blocksize as int) =~= pre.subrange(0, blocksize as int));
            assert(pre.subrange(0, blocksize as int) =~= pre.subrange(0, order as int) + pre.subrange(order as int, blocksize as int));
            lemma_lpc_restore_prefix_only(pre, pre.subrange(0, blocksize as int), coefs@, shift, blocksize as nat);
            assert forall|i: int| blocksize <= i < buf.len() implies buf@[i] == old(buf)@[i] by {
                assert(buf@[i] == buf@.subrange(blocksize as int, buf.len() as int)[i - blocksize]);
            }
        }
        Ok(())
    }

    /// Decodes a subframe body of type `kind` with samples of `depth` bits
    /// into `buf[..blocksize]`.
    fn try_decode_subframe_body(&mut self, buf: &mut Vec<i32>, kind: u32, depth: u32, blocksize: usize) -> (r: Result<
        (),
        DecodeError,
    >)
        requires
            old(self).wf(),
            1 <= depth <= 32,
            blocksize <= old(buf).len(),
        ensures
            final(self).same_params(*old(self)),
            final(self).wf(),
            final(self).stream() == old(self).stream(),
            final(buf).len() == old(buf).len(),
            forall|i: int| blocksize <= i < final(buf).len() ==> final(buf)@[i] == old(buf)@[i],
            match subframe_body(old(self).stream(), old(self).cursor().pos(), depth as nat, kind as nat, blocksize as nat) {
                Ok((vals, end)) => r is Ok && final(self).cursor().pos() == end && final(buf)@.subrange(
                    0,
                    blocksize as int,
                ) == vals,
                Err(e) => r == Err::<(), DecodeError>(e),
            },
    {
        if kind == 0 {
            let ghost d = self.reader.stream();
            let ghost p = self.reader.pos();
            let r = self.try_decode_constant_coding(buf, depth, blocksize);
            proof {
                if r is Ok {
                    assert(buf@.subrange(0, blocksize as int) =~= Seq::new(
                        blocksize as nat,
                        |i: int| signed_bits_val(d, p, depth as nat) as i32,
                    ));
                }
            }
            r
        } else if kind == 1 {
            self.try_decode_verbatim_coding(buf, depth, 0, blocksize)
        } else if 8 <= kind && kind <= 12 {
            let order = (kind - 8) as usize;
            if order > blocksize {
                return Err(DecodeError::BadPartitionCount);
            }
            self.try_decode_fixed_prediction_subframe(buf, order, depth, blocksize)
        } else if 32 <= kind && kind <= 63 {
            let order = (kind - 31) as usize;
            if order > MAX_LPC_ORDER {
                return Err(DecodeError::TooManyCoefficients);
            }
            if order > blocksize {
                return Err(DecodeError::BadPartitionCount);
            }
            self.try_decode_linear_predictive_coding_subframe(buf, order, depth, blocksize)
        } else {
            Err(DecodeError::ReservedSubframeType)
        }
    }

    /// Decodes the single subframe of a block of `blocksize` samples into
    /// `buf[..blocksize]`, restoring the wasted low-order bits at the end.
    fn try_decode_subframe(&mut self, buf: &mut Vec<i32>, blocksize: usize) -> (r: Result<(), DecodeError>)
        requires
            old(self).wf(),
            blocksize <= old(buf).len(),
        ensures
            final(self).same_params(*old(self)),
            final(self).wf(),
            final(self).stream() == old(self).stream(),
            final(self).depth() == old(self).depth(),
            final(buf).len() == old(buf).len(),
            forall|i: int| blocksize <= i < final(buf).len() ==> final(buf)@[i] == old(buf)@[i],
            match subframe_values(old(self).stream(), old(self).cursor().pos(), old(self).depth(), blocksize as nat) {
                Ok((vals, end)) => r is Ok && vals.len() == blocksize && final(self).cursor().pos() == end && final(buf)@.subrange(
                    0,
                    blocksize as int,
                ) == vals,
                Err(e) => r == Err::<(), DecodeError>(e),
            },
    {
        proof {
            lemma2_to64();
            reveal(subframe_values);
        }
        let ghost d = self.reader.stream();
        let ghost mark0 = self.reader.pos();
        let depth = self.sample_depth;
        self.reader.try_skip_bits(1)?;
        let subframe_type = self.reader.try_read_uint(6)?;
        let mut shift: u32 = self.reader.try_read_uint(1)?;
        if shift == 1 {
            let ghost pu = self.reader.pos();
            let extra = match self.reader.try_read_unary() {
                Ok(q) => q,
                Err(e) => {
                    proof {
                        assert forall|q: nat| !unary_at(d, pu, q) by {
                            if unary_at(d, pu, q) {
                                assert(bit_at(d, pu + q) == 1);
                            }
                        }
                    }
                    return Err(e);
                },
            };
            proof {
                lemma_unary_unique(d, pu, extra as nat, unary_len(d, pu));
            }
            if extra >= depth as usize {
                return Err(DecodeError::BadWastedBits);
            }
            shift = shift + extra as u32;
        }
        if shift >= depth {
            return Err(DecodeError::BadWastedBits);
        }
        let sample_depth = depth - shift;
        self.try_decode_subframe_body(buf, subframe_type, sample_depth, blocksize)?;
        let ghost decoded = buf@;
        let mut i: usize = 0;
        while i < blocksize
            invariant
                i <= blocksize,
                blocksize <= buf.len(),
                buf.len() == decoded.len(),
                shift < 32,
                forall|j: int| 0 <= j < i ==> buf@[j] == decoded[j].wrapping_shl(shift),
                forall|j: int| i <= j < buf.len() ==> buf@[j] == decoded[j],
            decreases blocksize - i,
        {
            let v = buf[i].wrapping_shl(shift);
            buf.set(i, v);
            i = i + 1;
        }
        proof {
            assert(buf@.subrange(0, blocksize as int) =~= Seq::new(
                blocksize as nat,
                |j: int| decoded.subrange(0, blocksize as int)[j].wrapping_shl(shift),
            ));
        }
        Ok(())
    }

    /// Reads a frame header and returns the block size it declares.
    fn try_read_frame_header(&mut self) -> (r: Result<usize, DecodeError>)
        requires
            old(self).wf(),
        ensures
            final(self).wf(),
            final(self).stream() == old(self).stream(),
            final(self).same_params(*old(self)),
            match frame_header(old(self).stream(), old(self).cursor().pos()) {
                Ok((bs, end)) => 1 <= bs <= 65536 && r == Ok::<usize, DecodeError>(bs as usize)
                    && final(self).cursor().pos() == end,
                Err(e) => r == Err::<usize, DecodeError>(e),
            },
    {
        proof {
            lemma2_to64();
        }
        let ghost d = self.reader.stream();
        let ghost mark0 = self.reader.pos();
        let sync = self.reader.try_read_uint(14)?;
        if sync != FRAME_SYNC {
            return Err(DecodeError::BadSync);
        }
        self.reader.try_skip_bits(2)?;
        let blocksize_code = self.reader.try_read_uint(4)?;
        let samplerate_code = self.reader.try_read_uint(4)?;
        let channel_assignment = self.reader.try_read_uint(4)?;
        self.reader.try_skip_bits(4)?;
        if channel_assignment != 0 {
            return Err(DecodeError::NotMono);
        }
        let mut lead = self.reader.try_read_uint(8)?;
        let ghost first_lead = lead;
        while lead >= 0xC0
            invariant
                self.wf(),
                self.stream() == d,
                d == old(self).stream(),
                self.same_params(*old(self)),
                lead < 256,
                skip_frame_number(d, mark0 + 40, first_lead as nat) == skip_frame_number(d, self.reader.pos(), lead as nat),
                mark0 == old(self).cursor().pos(),
                mark0 + 40 <= 8 * d.len(),
                bits_val(d, mark0, 14) == FRAME_SYNC,
                bits_val(d, mark0 + 24, 4) == 0,
                first_lead == bits_val(d, mark0 + 32, 8),
                blocksize_code == bits_val(d, mark0 + 16, 4),
                samplerate_code == bits_val(d, mark0 + 20, 4),
                blocksize_code < 16,
            decreases lead,
        {
            self.reader.try_skip_bits(8)?;
            lead = (lead * 2) % 256;
        }
        let ghost mark1 = self.reader.pos();
        let blocksize: usize = if blocksize_code == 0 {
            return Err(DecodeError::BadBlockSize);
        } else if blocksize_code == 6 {
            self.reader.try_read_uint(8)? as usize + 1
        } else if blocksize_code == 7 {
            self.reader.try_read_uint(16)? as usize + 1
        } else {
            fixed_block_size(blocksize_code)
        };
        if samplerate_code == 12 {
            self.reader.try_skip_bits(8)?;
        } else if samplerate_code == 13 || samplerate_code == 14 {
            self.reader.try_skip_bits(16)?;
        }
        self.reader.try_skip_bits(8)?;
        Ok(blocksize)
    }

    /// Decodes the next frame into `buf[..n]` and returns its block size `n`.
    #[verifier::rlimit(40)]
    pub fn try_decode_frame(&mut self, buf: &mut Vec<i32>) -> (r: Result<usize, DecodeError>)
        requires
            old(self).wf(),
        ensures
            final(self).wf(),
            final(self).stream() == old(self).stream(),
            final(self).checkpoint() == old(self).checkpoint(),
            final(self).same_origin(*old(self)),
            final(self).declared_samples() == old(self).declared_samples(),
            final(self).played() == old(self).played(),
            final(self).is_looping() == old(self).is_looping(),
            final(buf).len() == old(buf).len(),
            match frame_values(old(self).stream(), old(self).cursor().pos(), old(self).depth(), old(buf).len() as nat) {
                Ok((vals, end)) => 1 <= vals.len() <= 65536 && r == Ok::<usize, DecodeError>(vals.len() as usize)
                    && final(self).cursor().pos() == end && final(buf)@.subrange(0, vals.len() as int) == vals,
                Err(e) => r == Err::<usize, DecodeError>(e),
            },
            r matches Ok(n) ==> 1 <= n <= final(buf).len() && n <= 65536 && forall|i: int|
                n <= i < final(buf).len() ==> final(buf)@[i] == old(buf)@[i],
    {
        let blocksize = self.try_read_frame_header()?;
        if blocksize > buf.len() {
            return Err(DecodeError::BlockTooLarge);
        }
        self.try_decode_subframe(buf, blocksize)?;
        let ghost mark5 = self.reader.pos();
        self.reader.align_to_byte();
        proof {
            let mark6 = self.reader.pos();
            assert(mark6 == byte_aligned(mark5)) by {
                assert(mark6 % 8 == 0 && mark5 <= mark6 < mark5 + 8);
            }
        }
        self.reader.try_skip_bits(16)?;
        Ok(blocksize)
    }

    /// Decodes the next frame, which must be well formed, into `buf[..n]`
    /// and returns its block size `n`. A malformed frame is a defect of the
    /// asset build; [`SimpleFlac::try_decode_frame`] is the form that reports
    /// it.
    pub fn decode_frame(&mut self, buf: &mut Vec<i32>) -> (n: usize)
        requires
            old(self).wf(),
            frame_values(old(self).stream(), old(self).cursor().pos(), old(self).depth(), old(buf).len() as nat) is Ok,
        ensures
            final(self).wf(),
            final(self).same_origin(*old(self)),
            final(self).stream() == old(self).stream(),
            final(self).played() == old(self).played(),
            final(buf).len() == old(buf).len(),
            frame_values(old(self).stream(), old(self).cursor().pos(), old(self).depth(), old(buf).len() as nat)
                matches Ok((vals, end)) && n == vals.len() && final(self).cursor().pos() == end && final(buf)@
                == vals + old(buf)@.subrange(n as int, old(buf).len() as int),
    {
        let ghost before = buf@;
        match self.try_decode_frame(buf) {
            Ok(n) => {
                proof {
                    assert(buf@ =~= buf@.subrange(0, n as int) + before.subrange(n as int, before.len() as int));
                }
                n
            },
            Err(_) => vstd::pervasive::unreached(),
        }
    }

    /// Samples left before the end of the stream.
    pub fn remaining_samples(&self) -> (r: u64)
        ensures
            r == self.remaining(),
    {
        if self.samples_played > self.sample_count {
            0
        } else {
            self.sample_count - self.samples_played
        }
    }

    /// Whether the stream restarts when it reaches its end.
    pub fn looping(&self) -> (r: bool)
        ensures
            r == self.is_looping(),
    {
        self.looping
    }

    /// Whether the stream is over and will not restart.
    pub fn finished(&self) -> (r: bool)
        ensures
            r == (self.remaining() == 0 && !self.is_looping()),
    {
        self.remaining_samples() == 0 && !self.looping
    }

    /// Rewinds to the first frame by restoring the saved checkpoint; the
    /// header is not parsed again.
    pub fn reset(&mut self)
        requires
            old(self).wf(),
        ensures
            final(self).wf(),
            *final(self) == old(self).rewound(),
            final(self).at_start(),
            final(self).same_origin(*old(self)),
            final(self).cursor() == old(self).checkpoint(),
            final(self).checkpoint() == old(self).checkpoint(),
            final(self).stream() == old(self).stream(),
            final(self).played() == 0,
            final(self).declared_samples() == old(self).declared_samples(),
            final(self).is_looping() == old(self).is_looping(),
            final(self).depth() == old(self).depth(),
    {
        self.reader = self.checkpoint;
        self.samples_played = 0;
    }

    /// Decodes the next frame, through the scratch buffer `block`, and adds
    /// it to the start of `mixbuf`, or writes it over it when `overwrite`
    /// holds. A stream that has finished leaves
    /// the buffer as it is; a looping stream at its end first rewinds. A
    /// frame that does not decode leaves the buffer as it is and halts the
    /// stream.
    pub fn mix_into(&mut self, mixbuf: &mut Vec<i32>, block: &mut Vec<i32>, overwrite: bool) -> (r: Result<
        (),
        DecodeError,
    >)
        requires
            old(self).wf(),
            old(block).len() == old(mixbuf).len(),
        ensures
            final(block).len() == old(block).len(),
            final(self).wf(),
            final(self).stream() == old(self).stream(),
            final(self).checkpoint() == old(self).checkpoint(),
            final(self).declared_samples() == old(self).declared_samples(),
            final(mixbuf).len() == old(mixbuf).len(),
            old(self).remaining() == 0 && !old(self).is_looping() ==> *final(self) == *old(self)
                && final(mixbuf)@ == old(mixbuf)@ && r is Ok,
            !(old(self).remaining() == 0 && !old(self).is_looping()) ==> match old(self).next_block(
                old(mixbuf).len() as nat,
            ) {
                Ok((vals, end)) => {
                    &&& r is Ok
                    &&& final(self).same_origin(*old(self))
                    &&& final(self).cursor().pos() == end
                    &&& final(mixbuf)@ == block_mixed(old(mixbuf)@, vals, overwrite)
                    &&& final(self).played() == (if old(self).played() >= old(self).declared_samples() {
                        0
                    } else {
                        old(self).played()
                    }) + vals.len()
                },
                Err(e) => {
                    &&& r == Err::<(), DecodeError>(e)
                    &&& final(mixbuf)@ == old(mixbuf)@
                    &&& final(self).remaining() == 0
                    &&& !final(self).is_looping()
                },
            },
    {
        if self.finished() {
            return Ok(());
        }
        let mut next = *self;
        if next.samples_played >= next.sample_count && next.looping {
            next.reset();
        }
        proof {
            assert(next == self.mix_origin());
            assert(next.samples_played < 0x10_0000_0000);
        }
        let n = match next.try_decode_frame(block) {
            Ok(n) => n,
            Err(e) => {
                self.halt();
                return Err(e);
            },
        };
        let ghost before = mixbuf@;
        let mut i: usize = 0;
        while i < n
            invariant
                i <= n,
                n <= block.len(),
                block.len() == mixbuf.len(),
                mixbuf.len() == before.len(),
                forall|j: int| 0 <= j < i ==> mixbuf@[j] == (if overwrite {
                    block@[j]
                } else {
                    before[j].wrapping_add(block@[j])
                }),
                forall|j: int| i <= j < mixbuf.len() ==> mixbuf@[j] == before[j],
            decreases n - i,
        {
            let v = if overwrite {
                block[i]
            } else {
                mixbuf[i].wrapping_add(block[i])
            };
            mixbuf.set(i, v);
            i = i + 1;
        }
        proof {
            assert(mixbuf@ =~= block_mixed(before, block@.subrange(0, n as int), overwrite));
            lemma2_to64();
        }
        next.samples_played = next.samples_played + n as u64;
        *self = next;
        Ok(())
    }

    /// The encoded stream.
    pub fn data(&self) -> (r: &'static [u8])
        ensures
            r@ == self.stream(),
    {
        self.reader.data()
    }

    /// Stops playback for good: the stream is marked as ended and not looping.
    pub fn halt(&mut self)
        requires
            old(self).wf(),
        ensures
            final(self).wf(),
            final(self).stream() == old(self).stream(),
            final(self).checkpoint() == old(self).checkpoint(),
            final(self).declared_samples() == old(self).declared_samples(),
            final(self).remaining() == 0,
            !final(self).is_looping(),
    {
        self.looping = false;
        self.samples_played = self.sample_count;
    }
}

/// Restarting a stream gives back exactly the decoder that the header parse
/// produced: after any amount of decoding from the start, a reset leads to
/// the start state, so decoding the same number of frames again yields the
/// same samples.
pub proof fn lemma_reset_returns_to_start(start: SimpleFlac, later: SimpleFlac)
    requires
        start.at_start(),
        later.same_origin(start),
    ensures
        later.rewound() == start,
{
    assert(later.rewound() =~= start);
}

/// Residuals an encoder produces from `samples` with the given predictor:
/// the warm-up samples as they are, then each sample minus its shifted
/// prediction from the preceding samples.
pub open spec fn encode_residuals(samples: Seq<i32>, coefs: Seq<i32>, shift: i32) -> Seq<i32> {
    Seq::new(
        samples.len(),
        |i: int|
            if i < coefs.len() {
                samples[i]
            } else {
                samples[i].wrapping_sub(prediction(samples, coefs, i, coefs.len()) >> shift)
            },
    )
}

/// `buf` with the decoded samples `vals` placed in its first entries:
/// written over them when `overwrite` holds, else added.
pub open spec fn block_mixed(buf: Seq<i32>, vals: Seq<i32>, overwrite: bool) -> Seq<i32> {
    Seq::new(
        buf.len(),
        |i: int|
            if i < vals.len() {
                if overwrite {
                    vals[i]
                } else {
                    buf[i].wrapping_add(vals[i])
                }
            } else {
                buf[i]
            },
    )
}

/// A buffer of `len` zero samples.
pub fn zeroed(len: usize) -> (v: Vec<i32>)
    ensures
        v@ == Seq::new(len as nat, |i: int| 0i32),
{
    let mut v: Vec<i32> = Vec::with_capacity(len);
    let mut i: usize = 0;
    while i < len
        invariant
            i <= len,
            v@ == Seq::new(i as nat, |j: int| 0i32),
        decreases len - i,
    {
        v.push(0i32);
        i = i + 1;
        proof {
            assert(v@ =~= Seq::new(i as nat, |j: int| 0i32));
        }
    }
    v
}

/// Restoring the residuals that an encoder computed with the same predictor
/// gives back the encoder's input samples exactly, wrapping arithmetic included.
pub proof fn lemma_prediction_round_trip(samples: Seq<i32>, coefs: Seq<i32>, shift: i32, n: nat)
    requires
        n <= samples.len(),
        coefs.len() <= n,
        0 <= shift < 32,
    ensures
        lpc_restore(encode_residuals(samples, coefs, shift), coefs, shift, n) == samples.subrange(0, n as int),
    decreases n,
{
    let res = encode_residuals(samples, coefs, shift);
    if n > 0 {
        if n - 1 < coefs.len() {
            lemma_warmup_is_stored(res, coefs, shift, n);
            assert(res.subrange(0, n as int) =~= samples.subrange(0, n as int));
        } else {
            lemma_prediction_round_trip(samples, coefs, shift, (n - 1) as nat);
            let prev = lpc_restore(res, coefs, shift, (n - 1) as nat);
            let i = n - 1;
            lemma_lpc_restore_len(res, coefs, shift, (n - 1) as nat);
            lemma_prediction_depends_on_prefix(prev, samples, coefs, i, coefs.len());
            let p = prediction(samples, coefs, i, coefs.len()) >> shift;
            let a = samples[i];
            assert(a.wrapping_sub(p).wrapping_add(p) == a);
            assert(lpc_restore(res, coefs, shift, n) =~= samples.subrange(0, n as int));
        }
    } else {
        assert(samples.subrange(0, 0) =~= Seq::<i32>::empty());
    }
}

/// Decoders of the same origin share the checkpoint, the stream and its
/// declared parameters.
pub proof fn lemma_same_origin_keeps(a: SimpleFlac, b: SimpleFlac)
    requires
        a.same_origin(b),
    ensures
        a.checkpoint() == b.checkpoint(),
        a.depth() == b.depth(),
        a.declared_samples() == b.declared_samples(),
        a.is_looping() == b.is_looping(),
        b.same_origin(a),
{
}

/// Having the same origin is transitive, so it holds across any number of
/// decoding steps.
pub proof fn lemma_same_origin_trans(a: SimpleFlac, b: SimpleFlac, c: SimpleFlac)
    requires
        a.same_origin(b),
        b.same_origin(c),
    ensures
        a.same_origin(c),
{
}

} // verus!
