//! The auxiliary device pack: display, sound and keyboard handles that
//! the CPU carries beside its memory and registers.

use vstd::prelude::*;
use crate::graphics::PixMap;
use crate::keyboard::{Keyboard, KeyEventKind};
use crate::sound::Sound;

verus! {

/// The display, sound and keyboard bundled for the CPU.
pub struct Auxillary {
    graphics_pack: PixMap,
    sound_pack: Sound,
    keyboard: Keyboard,
}

impl Auxillary {
    /// The display handle.
    pub closed spec fn spec_graphics(&self) -> PixMap {
        self.graphics_pack
    }

    /// The sound handle.
    pub closed spec fn spec_sound(&self) -> Sound {
        self.sound_pack
    }

    /// The keyboard snapshot.
    pub closed spec fn spec_keyboard(&self) -> Keyboard {
        self.keyboard
    }

    /// Bundle a display and a sound device with a fresh keyboard.
    pub fn pack(graphics_pack: PixMap, sound_pack: Sound) -> (r: Self)
        ensures
            r.spec_graphics() == graphics_pack,
            r.spec_sound() == sound_pack,
            r.spec_keyboard().spec_keys().len() == 16,
            forall|i: int|
                0 <= i < 16 ==> r.spec_keyboard().spec_keys()[i] == KeyEventKind::KeyDefault,
    {
        Self { graphics_pack, sound_pack, keyboard: Keyboard::new() }
    }

    pub fn keyboard(&self) -> (r: &Keyboard)
        ensures
            *r == self.spec_keyboard(),
    {
        &self.keyboard
    }

    pub fn keyboard_mut(&mut self) -> (r: &mut Keyboard)
        ensures
            *r == old(self).spec_keyboard(),
            final(self).spec_keyboard() == *final(r),
            final(self).spec_graphics() == old(self).spec_graphics(),
            final(self).spec_sound() == old(self).spec_sound(),
    {
        &mut self.keyboard
    }

    pub(crate) fn graphics(&self) -> (r: &PixMap)
        ensures
            *r == self.spec_graphics(),
    {
        &self.graphics_pack
    }

    pub(crate) fn graphics_mut(&mut self) -> (r: &mut PixMap)
        ensures
            *r == old(self).spec_graphics(),
            final(self).spec_graphics() == *final(r),
            final(self).spec_keyboard() == old(self).spec_keyboard(),
            final(self).spec_sound() == old(self).spec_sound(),
    {
        &mut self.graphics_pack
    }

    pub(crate) fn sound(&self) -> (r: Sound)
        ensures
            r == self.spec_sound(),
    {
        self.sound_pack
    }
}

} // verus!
