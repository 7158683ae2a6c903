//! Project-wide audio constants and the sound asset table's entry type.
use vstd::prelude::*;

verus! {

/// Output sample rate in Hz; one of the rates whose samples divide evenly
/// into both the display refresh and the CPU clock.
pub const SAMPLE_RATE: u16 = 31536;

/// CPU clock in Hz.
pub const CPU_FREQ: u32 = 16777216;

/// CPU cycles in one display frame (16777216 Hz / 59.7275 frames per second).
pub const CYCLES_PER_FRAME: u32 = 280896;

/// Samples produced per display frame: the nearest integer to
/// `CYCLES_PER_FRAME * SAMPLE_RATE / CPU_FREQ`.
pub const PLAYBUF_SIZE: usize = 528;

/// CPU cycles per output sample.
pub const SAMPLE_TIME: u32 = 532;

/// Reload value of the sample-rate timer.
pub const TIMER_VALUE: u16 = 65004;

/// The frame constants agree with each other: the buffer size is the
/// rounded number of samples per frame, it is a multiple of 8, and the
/// timer counts `SAMPLE_TIME` cycles per sample.
pub proof fn lemma_frame_constants()
    ensures
        PLAYBUF_SIZE % 8 == 0,
        2 * CPU_FREQ * PLAYBUF_SIZE <= 2 * CYCLES_PER_FRAME * SAMPLE_RATE + CPU_FREQ,
        2 * CYCLES_PER_FRAME * SAMPLE_RATE + CPU_FREQ < 2 * CPU_FREQ * (PLAYBUF_SIZE + 1),
        SAMPLE_TIME == CYCLES_PER_FRAME / PLAYBUF_SIZE as u32,
        TIMER_VALUE == 0x10000 - SAMPLE_TIME,
{
    vstd::arithmetic::div_mod::lemma_fundamental_div_mod_converse(280896, 528, 532, 0);
}

/// Music tracks, by their index in the jukebox.
#[derive(Clone, Copy, Debug, PartialEq, Eq, Structural)]
pub enum MusicId {
    TomsDiner,
}

/// The songs that belong to a scene.
#[derive(Clone, Debug)]
pub struct TrackList(pub &'static [MusicId]);

/// An encoded sound asset: raw 8-bit samples, or a stream in the codec
/// subset.
#[derive(Clone, Copy, Debug)]
pub enum Sound {
    RawPcm8(&'static [u8]),
    Flac(&'static [u8]),
}

impl Sound {
    /// The encoded bytes.
    pub open spec fn bytes(&self) -> Seq<u8> {
        match self {
            Sound::RawPcm8(x) => x@,
            Sound::Flac(x) => x@,
        }
    }

    /// The encoded bytes of the asset.
    pub fn data_ptr(&self) -> (r: &'static [u8])
        ensures
            r@ == self.bytes(),
    {
        match self {
            Sound::RawPcm8(x) => x,
            Sound::Flac(x) => x,
        }
    }
}

} // verus!
