//! The top-level context that the frame-tick handler and the main loop share.
use crate::audio::AudioDriver;
use vstd::prelude::*;

verus! {

/// The platform timers; reading and programming them is done at the
/// hardware boundary.
pub struct GbaTimer {}

impl GbaTimer {
    pub fn new() -> (r: Self) {
        GbaTimer {  }
    }
}

/// Owner of the engine state: one explicit context object in place of a
/// global instance.
pub struct Driver {
    audio: AudioDriver,
    timer: GbaTimer,
}

impl Driver {
    pub closed spec fn audio_state(&self) -> AudioDriver {
        self.audio
    }

    /// A context whose audio engine is empty and silent.
    pub fn new() -> (r: Self)
        ensures
            r.audio_state().wf(),
            r.audio_state().slots().len() == 0,
            r.audio_state().music_slot() is None,
            r.audio_state().cur() == 0,
    {
        Driver { audio: AudioDriver::new(), timer: GbaTimer::new() }
    }

    /// The audio engine.
    pub fn audio(&mut self) -> (r: &mut AudioDriver)
        ensures
            *r == old(self).audio_state(),
            final(self).audio_state() == *final(r),
    {
        &mut self.audio
    }

    /// The timers.
    pub fn timer(&mut self) -> (r: &mut GbaTimer)
        ensures
            final(self).audio_state() == old(self).audio_state(),
    {
        &mut self.timer
    }
}

} // verus!
