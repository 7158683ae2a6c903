//! Source of pre-decoded signed 8-bit samples.
use vstd::prelude::*;

verus! {

/// Accumulator value of one signed 8-bit sample: the sample placed in the
/// high byte of a 16-bit amplitude.
pub open spec fn widened(b: u8) -> i32 {
    (((b as i8) as int) * 256) as i32
}

/// `buf` with the `n` samples of `data` from index `start` placed in its
/// first `n` entries: written over them when `overwrite` holds, else added.
pub open spec fn mixed_samples(buf: Seq<i32>, data: Seq<u8>, start: int, n: int, overwrite: bool) -> Seq<i32> {
    Seq::new(
        buf.len(),
        |i: int|
            if i < n {
                if overwrite {
                    widened(data[start + i])
                } else {
                    buf[i].wrapping_add(widened(data[start + i]))
                }
            } else {
                buf[i]
            },
    )
}

/// Playback cursor over a flat array of signed 8-bit samples.
#[derive(Clone, Copy)]
pub struct RawPcm8 {
    data: &'static [u8],
    /// decode position in 8-bit samples
    decode_position: usize,
    sample_count: usize,
    looping: bool,
}

impl RawPcm8 {
    pub closed spec fn wf(&self) -> bool {
        &&& self.decode_position <= self.sample_count
        &&& self.sample_count == self.data@.len()
    }

    /// The samples.
    pub closed spec fn samples(&self) -> Seq<u8> {
        self.data@
    }

    /// Index of the next sample to play.
    pub closed spec fn position(&self) -> nat {
        self.decode_position as nat
    }

    pub closed spec fn is_looping(&self) -> bool {
        self.looping
    }

    /// Samples left before the end.
    pub open spec fn remaining(&self) -> nat {
        (self.samples().len() - self.position()) as nat
    }

    /// Where the next mix starts: a looping source at its end starts over.
    pub open spec fn mix_start(&self) -> nat {
        if self.remaining() == 0 && self.is_looping() {
            0
        } else {
            self.position()
        }
    }

    /// How many samples the next mix into a buffer of `len` entries takes.
    pub open spec fn mix_count(&self, len: nat) -> nat {
        let left = (self.samples().len() - self.mix_start()) as nat;
        if len < left {
            len
        } else {
            left
        }
    }

    /// A source at the start of `data`.
    pub fn new(data: &'static [u8], looping: bool) -> (r: Self)
        ensures
            r.wf(),
            r.samples() == data@,
            r.position() == 0,
            r.is_looping() == looping,
    {
        RawPcm8 { data, decode_position: 0, sample_count: data.len(), looping }
    }

    /// The samples.
    pub fn data(&self) -> (r: &'static [u8])
        ensures
            r@ == self.samples(),
    {
        self.data
    }

    /// Adds the next samples, widened, to the start of `mixbuf` (or writes
    /// them over it when `overwrite` holds), as many as fit and remain, and
    /// advances past them.
    pub fn mix_into(&mut self, mixbuf: &mut Vec<i32>, overwrite: bool)
        requires
            old(self).wf(),
        ensures
            final(self).wf(),
            final(self).samples() == old(self).samples(),
            final(self).is_looping() == old(self).is_looping(),
            old(self).remaining() == 0 && !old(self).is_looping() ==> *final(self) == *old(self),
            final(self).position() == old(self).mix_start() + old(self).mix_count(old(mixbuf).len() as nat),
            final(mixbuf)@ == mixed_samples(
                old(mixbuf)@,
                old(self).samples(),
                old(self).mix_start() as int,
                old(self).mix_count(old(mixbuf).len() as nat) as int,
                overwrite,
            ),
    {
        let mut remaining = self.remaining_samples();
        if remaining == 0 {
            if self.looping {
                self.reset();
                remaining = self.remaining_samples();
            } else {
                proof {
                    assert(mixbuf@ =~= mixed_samples(mixbuf@, self.samples(), self.decode_position as int, 0, overwrite));
                }
                return;
            }
        }
        let n = if mixbuf.len() < remaining {
            mixbuf.len()
        } else {
            remaining
        };
        let start = self.decode_position;
        let ghost orig = mixbuf@;
        let mut i: usize = 0;
        while i < n
            invariant
                self.wf(),
                start == self.decode_position,
                n <= mixbuf.len(),
                start + n <= self.sample_count,
                mixbuf.len() == orig.len(),
                forall|j: int| 0 <= j < i ==> mixbuf@[j] == (if overwrite {
                    widened(self.data@[start + j])
                } else {
                    orig[j].wrapping_add(widened(self.data@[start + j]))
                }),
                forall|j: int| i <= j < mixbuf.len() ==> mixbuf@[j] == orig[j],
                i <= n,
            decreases n - i,
        {
            let b = self.data[start + i];
            let w = (b as i8 as i32) * 256;
            let v = if overwrite {
                w
            } else {
                mixbuf[i].wrapping_add(w)
            };
            mixbuf.set(i, v);
            i = i + 1;
        }
        self.decode_position = start + n;
        proof {
            assert(mixbuf@ =~= mixed_samples(orig, self.data@, start as int, n as int, overwrite));
        }
    }

    /// Samples left before the end.
    pub fn remaining_samples(&self) -> (r: usize)
        requires
            self.wf(),
        ensures
            r == self.remaining(),
    {
        self.sample_count - self.decode_position
    }

    /// Whether the source restarts at its end.
    pub fn looping(&self) -> (r: bool)
        ensures
            r == self.is_looping(),
    {
        self.looping
    }

    /// Whether the source is over and will not restart.
    pub fn finished(&self) -> (r: bool)
        requires
            self.wf(),
        ensures
            r == (self.remaining() == 0 && !self.is_looping()),
    {
        self.remaining_samples() == 0 && !self.looping
    }

    /// Rewinds to the first sample.
    pub fn reset(&mut self)
        requires
            old(self).wf(),
        ensures
            final(self).wf(),
            final(self).position() == 0,
            final(self).samples() == old(self).samples(),
            final(self).is_looping() == old(self).is_looping(),
    {
        self.decode_position = 0;
    }
}

/// A well-formed source never stands past its last sample.
pub proof fn lemma_position_in_range(r: RawPcm8)
    requires
        r.wf(),
    ensures
        r.position() <= r.samples().len(),
{
}

} // verus!
