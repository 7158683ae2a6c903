use flowergal::bits::{BitReader, DecodeError};
use flowergal::flac::{fixed_block_size, restore_linear_prediction, SimpleFlac};

/// Big-endian bit writer used to build encoded streams for the decoder.
struct BitWriter {
    bytes: Vec<u8>,
    acc: u8,
    nbits: u32,
}

impl BitWriter {
    fn new() -> Self {
        BitWriter { bytes: Vec::new(), acc: 0, nbits: 0 }
    }

    fn put(&mut self, value: u64, bits: u32) {
        for i in (0..bits).rev() {
            let bit = ((value >> i) & 1) as u8;
            self.acc = (self.acc << 1) | bit;
            self.nbits += 1;
            if self.nbits == 8 {
                self.bytes.push(self.acc);
                self.acc = 0;
                self.nbits = 0;
            }
        }
    }

    fn put_signed(&mut self, value: i64, bits: u32) {
        let mask = if bits == 64 { u64::MAX } else { (1u64 << bits) - 1 };
        self.put((value as u64) & mask, bits);
    }

    fn put_unary(&mut self, q: u64) {
        for _ in 0..q {
            self.put(0, 1);
        }
        self.put(1, 1);
    }

    fn put_rice(&mut self, v: i64, k: u32) {
        let u = if v >= 0 { (v as u64) * 2 } else { ((-v) as u64) * 2 - 1 };
        self.put_unary(u >> k);
        self.put(u & ((1u64 << k) - 1), k);
    }

    fn align(&mut self) {
        while self.nbits != 0 {
            self.put(0, 1);
        }
    }

    fn finish(mut self) -> Vec<u8> {
        self.align();
        self.bytes
    }
}

/// Mixes the decoder's next frame into `buf`, with a scratch block of the same length.
fn mix(f: &mut SimpleFlac, buf: &mut Vec<i32>, overwrite: bool) -> Result<(), DecodeError> {
    let mut block = vec![0i32; buf.len()];
    f.mix_into(buf, &mut block, overwrite)
}

fn leak(v: Vec<u8>) -> &'static [u8] {
    Box::leak(v.into_boxed_slice())
}

/// Magic plus one stream-info block.
fn stream_header(w: &mut BitWriter, rate: u64, channels: u64, depth: u64, total: u64) {
    w.put(0x664C6143, 32);
    w.put(1, 1);
    w.put(0, 7);
    w.put(34, 24);
    w.put(16, 16);
    w.put(65535, 16);
    w.put(0, 24);
    w.put(0, 24);
    w.put(rate, 20);
    w.put(channels - 1, 3);
    w.put(depth - 1, 5);
    w.put(total, 36);
    w.put(0, 64);
    w.put(0, 64);
}

/// Frame header with an explicit 16-bit block size.
fn frame_header(w: &mut BitWriter, blocksize: u64) {
    w.put(0x3FFE, 14);
    w.put(0, 2);
    w.put(7, 4);
    w.put(0, 4);
    w.put(0, 4);
    w.put(0, 4);
    w.put(0, 8);
    w.put(blocksize - 1, 16);
    w.put(0, 8);
}

fn frame_footer(w: &mut BitWriter) {
    w.align();
    w.put(0, 16);
}

fn subframe_header(w: &mut BitWriter, kind: u64, wasted: u64) {
    w.put(0, 1);
    w.put(kind, 6);
    if wasted == 0 {
        w.put(0, 1);
    } else {
        w.put(1, 1);
        w.put_unary(wasted - 1);
    }
}

fn residuals(w: &mut BitWriter, res: &[i64], k: u32) {
    w.put(0, 2);
    w.put(0, 4);
    w.put(k as u64, 4);
    for &r in res {
        w.put_rice(r, k);
    }
}

fn fixed_coefs(order: usize) -> Vec<i64> {
    match order {
        0 => vec![],
        1 => vec![1],
        2 => vec![2, -1],
        3 => vec![3, -3, 1],
        _ => vec![4, -6, 4, -1],
    }
}

fn predict(s: &[i64], coefs: &[i64], shift: u32, i: usize) -> i64 {
    let mut sum = 0i64;
    for (j, c) in coefs.iter().enumerate() {
        sum += c * s[i - 1 - j];
    }
    sum >> shift
}

fn fixed_subframe(w: &mut BitWriter, samples: &[i64], order: usize, depth: u32, k: u32) {
    subframe_header(w, 8 + order as u64, 0);
    for &s in &samples[..order] {
        w.put_signed(s, depth);
    }
    let coefs = fixed_coefs(order);
    let res: Vec<i64> = (order..samples.len()).map(|i| samples[i] - predict(samples, &coefs, 0, i)).collect();
    residuals(w, &res, k);
}

fn lpc_subframe(w: &mut BitWriter, samples: &[i64], coefs: &[i64], precision: u32, shift: u32, depth: u32, k: u32) {
    let order = coefs.len();
    subframe_header(w, 31 + order as u64, 0);
    for &s in &samples[..order] {
        w.put_signed(s, depth);
    }
    w.put((precision - 1) as u64, 4);
    w.put_signed(shift as i64, 5);
    for &c in coefs {
        w.put_signed(c, precision);
    }
    let res: Vec<i64> = (order..samples.len()).map(|i| samples[i] - predict(samples, coefs, shift, i)).collect();
    residuals(w, &res, k);
}

fn one_frame_stream(depth: u64, samples: &[i64], body: impl Fn(&mut BitWriter)) -> &'static [u8] {
    let mut w = BitWriter::new();
    stream_header(&mut w, 31536, 1, depth, samples.len() as u64);
    frame_header(&mut w, samples.len() as u64);
    body(&mut w);
    frame_footer(&mut w);
    leak(w.finish())
}

fn decode_all(data: &'static [u8], n: usize) -> Vec<i32> {
    let mut f = SimpleFlac::new(data, false);
    let mut buf = vec![0i32; n];
    assert_eq!(f.decode_frame(&mut buf), n);
    buf
}

fn wave(n: usize) -> Vec<i64> {
    (0..n).map(|i| (((i * 37) % 101) as i64 - 50) * 300 + ((i * i) % 7) as i64).collect()
}

#[test]
fn reads_unsigned_and_signed_fields() {
    let data = leak(vec![0b1011_0011, 0xFF, 0x00, 0x80, 0x12, 0x34, 0x56, 0x78]);
    let mut r = BitReader::new(data);
    assert_eq!(r.read_uint(0), 0);
    assert_eq!(r.read_uint(3), 0b101);
    assert_eq!(r.read_signed_int(5), -13);
    assert_eq!(r.read_uint(12), 0xFF0);
    assert_eq!(r.try_read_uint(4), Ok(0));
    r.align_to_byte();
    assert_eq!(r.read_uint(32), 0x80123456);
    assert_eq!(r.try_read_uint(9), Err(DecodeError::UnexpectedEnd));
}

#[test]
fn reads_rice_and_unary_codes() {
    let mut w = BitWriter::new();
    w.put_rice(0, 2);
    w.put_rice(-1, 2);
    w.put_rice(7, 2);
    w.put_rice(-100, 3);
    w.put_unary(11);
    let data = leak(w.finish());
    let mut r = BitReader::new(data);
    assert_eq!(r.read_rice_signed_int(2), 0);
    assert_eq!(r.read_rice_signed_int(2), -1);
    assert_eq!(r.try_read_rice_signed_int(2), Ok(7));
    assert_eq!(r.read_rice_signed_int(3), -100);
    assert_eq!(r.try_read_unary(), Ok(11));
}

#[test]
fn unary_past_the_end_fails() {
    let mut r = BitReader::new(leak(vec![0, 0]));
    assert_eq!(r.try_read_unary(), Err(DecodeError::UnexpectedEnd));
}

#[test]
fn oversized_rice_code_is_rejected() {
    let mut w = BitWriter::new();
    w.put_unary(40);
    w.put(0, 30);
    let mut r = BitReader::new(leak(w.finish()));
    assert_eq!(r.try_read_rice_signed_int(30), Err(DecodeError::ResidualOverflow));
}

#[test]
fn skipping_bits_moves_the_cursor() {
    let mut r = BitReader::new(leak(vec![0xAB, 0xCD, 0xEF]));
    assert_eq!(r.try_skip_bits(12), Ok(()));
    assert_eq!(r.read_uint(12), 0xDEF);
    assert_eq!(r.try_skip_bits(1), Err(DecodeError::UnexpectedEnd));
}

#[test]
fn fixed_block_sizes() {
    assert_eq!(fixed_block_size(1), 192);
    assert_eq!(fixed_block_size(2), 576);
    assert_eq!(fixed_block_size(5), 4608);
    assert_eq!(fixed_block_size(8), 256);
    assert_eq!(fixed_block_size(15), 32768);
}

#[test]
fn linear_prediction_uses_restored_samples() {
    let mut buf = vec![10, 1, 1, 1, 99];
    restore_linear_prediction(&mut buf, 4, &vec![2, -1], 0);
    assert_eq!(buf, vec![10, 1, -7, -14, 99]);
    let mut shifted = vec![8, 3, 3];
    restore_linear_prediction(&mut shifted, 3, &vec![3], 1);
    assert_eq!(shifted, vec![8, 15, 25]);
}

#[test]
fn constant_subframe_scenario() {
    let data = one_frame_stream(8, &[5; 100], |w| {
        subframe_header(w, 0, 0);
        w.put_signed(5, 8);
    });
    let mut f = SimpleFlac::new(data, false);
    assert_eq!(f.remaining_samples(), 100);
    let mut buf = vec![0i32; 100];
    assert_eq!(mix(&mut f, &mut buf, true), Ok(()));
    assert_eq!(buf, vec![5; 100]);
    assert_eq!(f.remaining_samples(), 0);
    assert!(f.finished());
}

#[test]
fn verbatim_round_trip() {
    let samples = wave(40);
    let data = one_frame_stream(16, &samples, |w| {
        subframe_header(w, 1, 0);
        for &s in &samples {
            w.put_signed(s, 16);
        }
    });
    let out = decode_all(data, 40);
    assert_eq!(out.iter().map(|&x| x as i64).collect::<Vec<_>>(), samples);
}

#[test]
fn fixed_prediction_round_trip_all_orders() {
    let samples = wave(64);
    for order in 0..=4 {
        let data = one_frame_stream(16, &samples, |w| fixed_subframe(w, &samples, order, 16, 9));
        let out = decode_all(data, 64);
        assert_eq!(out.iter().map(|&x| x as i64).collect::<Vec<_>>(), samples, "order {}", order);
    }
}

#[test]
fn lpc_round_trip_orders_one_to_four() {
    let samples = wave(96);
    let sets: [&[i64]; 4] = [&[30], &[50, -20], &[40, -10, 3], &[35, -12, 5, -1]];
    for coefs in sets.iter() {
        let data = one_frame_stream(16, &samples, |w| lpc_subframe(w, &samples, coefs, 8, 5, 16, 10));
        let out = decode_all(data, 96);
        assert_eq!(out.iter().map(|&x| x as i64).collect::<Vec<_>>(), samples);
    }
}

#[test]
fn escaped_partition_round_trip() {
    let samples: Vec<i64> = vec![3, -4, 5, -6, 7, -8, 9, -10];
    let data = one_frame_stream(8, &samples, |w| {
        subframe_header(w, 8, 0);
        w.put(0, 2);
        w.put(1, 4);
        w.put(15, 4);
        w.put(5, 5);
        for &s in &samples[..4] {
            w.put_signed(s, 5);
        }
        w.put(2, 4);
        for &s in &samples[4..] {
            w.put_rice(s, 2);
        }
    });
    let out = decode_all(data, 8);
    assert_eq!(out, vec![3, -4, 5, -6, 7, -8, 9, -10]);
}

#[test]
fn wasted_bits_are_restored() {
    let samples: Vec<i64> = vec![8, -16, 24, 40];
    let data = one_frame_stream(16, &samples, |w| {
        subframe_header(w, 1, 3);
        for &s in &samples {
            w.put_signed(s >> 3, 13);
        }
    });
    assert_eq!(decode_all(data, 4), vec![8, -16, 24, 40]);
}

#[test]
fn frame_leaves_the_rest_of_the_buffer() {
    let data = one_frame_stream(8, &[5; 4], |w| {
        subframe_header(w, 0, 0);
        w.put_signed(-2, 8);
    });
    let mut f = SimpleFlac::new(data, false);
    let mut buf = vec![77; 6];
    assert_eq!(f.decode_frame(&mut buf), 4);
    assert_eq!(buf, vec![-2, -2, -2, -2, 77, 77]);
}

fn two_frame_stream(looping_samples: &[i64]) -> &'static [u8] {
    let half = looping_samples.len() / 2;
    let mut w = BitWriter::new();
    stream_header(&mut w, 31536, 1, 16, looping_samples.len() as u64);
    for part in [&looping_samples[..half], &looping_samples[half..]].iter() {
        frame_header(&mut w, half as u64);
        fixed_subframe(&mut w, part, 2, 16, 9);
        frame_footer(&mut w);
    }
    leak(w.finish())
}

#[test]
fn loop_reset_repeats_the_same_samples() {
    let samples = wave(32);
    let data = two_frame_stream(&samples);
    let mut f = SimpleFlac::new(data, true);
    let mut first = Vec::new();
    for _ in 0..2 {
        let mut buf = vec![0i32; 16];
        mix(&mut f, &mut buf, true).unwrap();
        first.extend(buf);
    }
    f.reset();
    assert_eq!(f.remaining_samples(), 32);
    let mut second = Vec::new();
    for _ in 0..2 {
        let mut buf = vec![0i32; 16];
        mix(&mut f, &mut buf, true).unwrap();
        second.extend(buf);
    }
    assert_eq!(first, second);
    assert_eq!(first.iter().map(|&x| x as i64).collect::<Vec<_>>(), samples);
}

#[test]
fn looping_stream_restarts_at_its_end() {
    let samples = wave(32);
    let data = two_frame_stream(&samples);
    let mut f = SimpleFlac::new(data, true);
    let mut buf = vec![0i32; 16];
    mix(&mut f, &mut buf, true).unwrap();
    let head = buf.clone();
    mix(&mut f, &mut buf, true).unwrap();
    assert_eq!(f.remaining_samples(), 0);
    assert!(!f.finished());
    mix(&mut f, &mut buf, true).unwrap();
    assert_eq!(buf, head);
}

#[test]
fn finished_stream_leaves_buffer_alone() {
    let data = one_frame_stream(8, &[1; 4], |w| {
        subframe_header(w, 0, 0);
        w.put_signed(1, 8);
    });
    let mut f = SimpleFlac::new(data, false);
    let mut buf = vec![0i32; 4];
    mix(&mut f, &mut buf, true).unwrap();
    let mut again = vec![9i32; 4];
    assert_eq!(mix(&mut f, &mut again, true), Ok(()));
    assert_eq!(again, vec![9; 4]);
}

#[test]
fn header_errors() {
    assert_eq!(SimpleFlac::try_new(leak(vec![0x66, 0x4C]), false).err(), Some(DecodeError::UnexpectedEnd));
    assert_eq!(SimpleFlac::try_new(leak(b"OggS\0\0\0\0".to_vec()), false).err(), Some(DecodeError::BadMagic));

    let mut w = BitWriter::new();
    stream_header(&mut w, 44100, 2, 16, 10);
    assert_eq!(SimpleFlac::try_new(leak(w.finish()), false).err(), Some(DecodeError::NotMono));

    let mut w = BitWriter::new();
    stream_header(&mut w, 44100, 1, 12, 10);
    assert_eq!(SimpleFlac::try_new(leak(w.finish()), false).err(), Some(DecodeError::UnsupportedDepth));

    let mut w = BitWriter::new();
    w.put(0x664C6143, 32);
    w.put(1, 1);
    w.put(4, 7);
    w.put(2, 24);
    w.put(0xAAAA, 16);
    assert_eq!(SimpleFlac::try_new(leak(w.finish()), false).err(), Some(DecodeError::MissingStreamInfo));
}

fn frame_error(depth: u64, body: impl Fn(&mut BitWriter)) -> Result<usize, DecodeError> {
    let mut w = BitWriter::new();
    stream_header(&mut w, 31536, 1, depth, 8);
    body(&mut w);
    w.put(0, 64);
    let mut f = SimpleFlac::new(leak(w.finish()), false);
    let mut buf = vec![0i32; 8];
    f.try_decode_frame(&mut buf)
}

#[test]
fn frame_errors() {
    assert_eq!(frame_error(8, |w| w.put(0x3FFF, 14)), Err(DecodeError::BadSync));
    assert_eq!(
        frame_error(8, |w| {
            w.put(0x3FFE, 14);
            w.put(0, 2);
            w.put(0, 4);
            w.put(0, 16);
        }),
        Err(DecodeError::BadBlockSize)
    );
    assert_eq!(
        frame_error(8, |w| {
            frame_header(w, 9);
        }),
        Err(DecodeError::BlockTooLarge)
    );
    assert_eq!(
        frame_error(8, |w| {
            w.put(0x3FFE, 14);
            w.put(0, 2);
            w.put(7, 4);
            w.put(0, 4);
            w.put(1, 4);
            w.put(0, 4);
            w.put(0, 8);
            w.put(7, 16);
            w.put(0, 8);
        }),
        Err(DecodeError::NotMono)
    );
    assert_eq!(
        frame_error(8, |w| {
            frame_header(w, 8);
            subframe_header(w, 2, 0);
        }),
        Err(DecodeError::ReservedSubframeType)
    );
    assert_eq!(
        frame_error(8, |w| {
            frame_header(w, 8);
            subframe_header(w, 36, 0);
        }),
        Err(DecodeError::TooManyCoefficients)
    );
    assert_eq!(
        frame_error(8, |w| {
            frame_header(w, 8);
            subframe_header(w, 0, 8);
        }),
        Err(DecodeError::BadWastedBits)
    );
    assert_eq!(
        frame_error(8, |w| {
            frame_header(w, 8);
            subframe_header(w, 8, 0);
            w.put(2, 2);
        }),
        Err(DecodeError::ReservedResidualMethod)
    );
    assert_eq!(
        frame_error(8, |w| {
            frame_header(w, 8);
            subframe_header(w, 8, 0);
            w.put(0, 2);
            w.put(4, 4);
        }),
        Err(DecodeError::BadPartitionCount)
    );
    assert_eq!(
        frame_error(8, |w| {
            frame_header(w, 8);
            subframe_header(w, 32, 0);
            w.put_signed(1, 8);
            w.put(3, 4);
            w.put_signed(-2, 5);
        }),
        Err(DecodeError::NegativeShift)
    );
}

#[test]
fn first_stream_info_block_counts() {
    let mut w = BitWriter::new();
    w.put(0x664C6143, 32);
    for (last, total) in [(0u64, 100u64), (1, 50)].iter() {
        w.put(*last, 1);
        w.put(0, 7);
        w.put(34, 24);
        w.put(16, 16);
        w.put(65535, 16);
        w.put(0, 48);
        w.put(31536, 20);
        w.put(0, 3);
        w.put(7, 5);
        w.put(*total, 36);
        w.put(0, 64);
        w.put(0, 64);
    }
    let f = SimpleFlac::new(leak(w.finish()), false);
    assert_eq!(f.remaining_samples(), 100);
}

#[test]
fn undecodable_frame_halts_and_leaves_buffer() {
    let mut w = BitWriter::new();
    stream_header(&mut w, 31536, 1, 8, 8);
    w.put(0x1234, 16);
    w.put(0, 64);
    let mut f = SimpleFlac::new(leak(w.finish()), true);
    let mut buf = vec![9i32; 8];
    assert_eq!(mix(&mut f, &mut buf, false), Err(DecodeError::BadSync));
    assert_eq!(buf, vec![9; 8]);
    assert!(f.finished());
}

#[test]
fn stream_adds_when_not_overwriting() {
    let data = one_frame_stream(8, &[5; 4], |w| {
        subframe_header(w, 0, 0);
        w.put_signed(5, 8);
    });
    let mut f = SimpleFlac::new(data, false);
    let mut buf = vec![10i32; 6];
    assert_eq!(mix(&mut f, &mut buf, false), Ok(()));
    assert_eq!(buf, vec![15, 15, 15, 15, 10, 10]);
}
