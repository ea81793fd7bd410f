//! The sound device handle.
//!
//! The core only decides when the tone should be on; actual audio output
//! is an external collaborator driven by the embedding application, which
//! reads `is_playing` after each sound-timer tick.

use vstd::prelude::*;

verus! {

/// Whether the sound device is currently asked to play the tone.
#[derive(Clone, Copy)]
pub struct Sound {
    is_running: bool,
}

impl Sound {
    /// True when the device is asked to play.
    pub closed spec fn spec_playing(&self) -> bool {
        self.is_running
    }

    /// A silent sound device.
    pub fn pack() -> (r: Self)
        ensures
            !r.spec_playing(),
    {
        Self { is_running: false }
    }

    /// Ask the device to play.
    pub fn play(&mut self)
        ensures
            final(self).spec_playing(),
    {
        self.is_running = true;
    }

    /// Ask the device to pause.
    pub fn pause(&mut self)
        ensures
            !final(self).spec_playing(),
    {
        self.is_running = false;
    }

    pub fn is_playing(&self) -> (r: bool)
        ensures
            r == self.spec_playing(),
    {
        self.is_running
    }

    /// Start playing only if not already playing.
    pub fn safeplay(&mut self)
        ensures
            final(self).spec_playing(),
    {
        if !self.is_playing() {
            self.play()
        }
    }

    /// Pause only if currently playing.
    pub fn safepause(&mut self)
        ensures
            !final(self).spec_playing(),
    {
        if self.is_playing() {
            self.pause()
        }
    }
}

} // verus!
