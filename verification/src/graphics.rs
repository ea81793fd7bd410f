//! The 64x32 one-bit display.
//!
//! Pixels are stored row-major, one byte per pixel, each byte 0 or 1.
//! Drawing only ever toggles a pixel; a sprite bit of 0 never clears one.
//! A dirty flag tells the external renderer when the buffer changed; the
//! renderer clears it with `flush` after consuming a frame.

use vstd::prelude::*;

verus! {

/// Number of pixel columns.
pub const C8_DISPLAY_WIDTH: usize = 64;

/// Number of pixel rows.
pub const C8_DISPLAY_HEIGHT: usize = 32;

/// The frame buffer and its dirty flag.
pub struct PixMap {
    map: Vec<u8>,
    has_updates: bool,
}

/// Position of the pixel at wrapped column `x`, row `y` in the buffer.
pub open spec fn pix_index(x: int, y: int) -> int {
    (y % 32) * 64 + (x % 64)
}

impl PixMap {
    /// The pixel bytes, row-major, 2048 entries of value 0 or 1.
    pub closed spec fn spec_pixels(&self) -> Seq<u8> {
        self.map@
    }

    /// Whether the buffer changed since the last flush.
    pub closed spec fn spec_dirty(&self) -> bool {
        self.has_updates
    }

    /// The buffer holds exactly one byte per pixel, each 0 or 1.
    pub open spec fn wf(&self) -> bool {
        &&& self.spec_pixels().len() == 2048
        &&& forall|p: int| 0 <= p < 2048 ==> #[trigger] self.spec_pixels()[p] <= 1
    }

    /// A blank display, marked dirty so the first frame is rendered.
    pub fn pack() -> (r: PixMap)
        ensures
            r.wf(),
            r.spec_dirty(),
            forall|p: int| 0 <= p < 2048 ==> #[trigger] r.spec_pixels()[p] == 0,
    {
        let mut map: Vec<u8> = Vec::new();
        let mut i: usize = 0;
        while i < 2048
            invariant
                i <= 2048,
                map@.len() == i,
                forall|p: int| 0 <= p < i ==> #[trigger] map@[p] == 0,
            decreases 2048 - i,
        {
            map.push(0);
            i = i + 1;
        }
        PixMap { map, has_updates: true }
    }

    /// The pixel at wrapped column `x`, row `y`.
    pub fn get(&self, x: u8, y: u8) -> (r: u8)
        requires
            self.wf(),
        ensures
            r == self.spec_pixels()[pix_index(x as int, y as int)],
    {
        let idx = (y as usize % 32) * 64 + (x as usize % 64);
        self.map[idx]
    }

    /// Toggle the pixel at wrapped column `x`, row `y`; report whether it
    /// was on before the toggle.
    pub fn draw(&mut self, x: u8, y: u8) -> (r: bool)
        requires
            old(self).wf(),
        ensures
            final(self).wf(),
            final(self).spec_pixels() == old(self).spec_pixels().update(
                pix_index(x as int, y as int),
                (if old(self).spec_pixels()[pix_index(x as int, y as int)] == 0 {
                    1u8
                } else {
                    0u8
                }),
            ),
            r == (old(self).spec_pixels()[pix_index(x as int, y as int)] > 0),
            final(self).spec_dirty(),
    {
        self.has_updates = true;
        let idx = (y as usize % 32) * 64 + (x as usize % 64);
        let b = self.map[idx] > 0;
        self.map[idx] = if self.map[idx] == 0 {
            1
        } else {
            0
        };
        b
    }

    /// Clear the pixel at wrapped column `x`, row `y`; report whether it
    /// was on.
    pub fn erase(&mut self, x: u8, y: u8) -> (r: bool)
        requires
            old(self).wf(),
        ensures
            final(self).wf(),
            final(self).spec_pixels() == old(self).spec_pixels().update(
                pix_index(x as int, y as int),
                0u8,
            ),
            r == (old(self).spec_pixels()[pix_index(x as int, y as int)] > 0),
            final(self).spec_dirty(),
    {
        self.has_updates = true;
        let idx = (y as usize % 32) * 64 + (x as usize % 64);
        let b = self.map[idx] > 0;
        self.map[idx] = 0;
        b
    }

    /// Toggle the pixel only for a set sprite bit; report a collision
    /// with a pixel that was already on.
    pub fn decide(&mut self, x: u8, y: u8, bit: u8) -> (r: bool)
        requires
            old(self).wf(),
        ensures
            final(self).wf(),
            final(self).spec_pixels() == (if bit > 0 {
                old(self).spec_pixels().update(
                    pix_index(x as int, y as int),
                    (if old(self).spec_pixels()[pix_index(x as int, y as int)] == 0 {
                        1u8
                    } else {
                        0u8
                    }),
                )
            } else {
                old(self).spec_pixels()
            }),
            r == (bit > 0 && old(self).spec_pixels()[pix_index(x as int, y as int)] > 0),
            final(self).spec_dirty() == (if bit > 0 {
                true
            } else {
                old(self).spec_dirty()
            }),
    {
        if bit > 0 {
            self.draw(x, y)
        } else {
            false
        }
    }

    /// Turn every pixel off.
    pub fn clear(&mut self)
        requires
            old(self).wf(),
        ensures
            final(self).wf(),
            final(self).spec_pixels().len() == 2048,
            forall|p: int| 0 <= p < 2048 ==> #[trigger] final(self).spec_pixels()[p] == 0,
            final(self).spec_dirty(),
    {
        self.has_updates = true;
        let mut i: usize = 0;
        while i < 2048
            invariant
                i <= 2048,
                self.map@.len() == 2048,
                forall|p: int| 0 <= p < i ==> #[trigger] self.map@[p] == 0,
                forall|p: int| 0 <= p < 2048 ==> #[trigger] self.map@[p] <= 1,
                self.has_updates,
            decreases 2048 - i,
        {
            self.map[i] = 0;
            i = i + 1;
        }
    }

    /// Acknowledge the current frame; the buffer is no longer dirty.
    pub fn flush(&mut self)
        ensures
            final(self).spec_pixels() == old(self).spec_pixels(),
            !final(self).spec_dirty(),
    {
        self.has_updates = false;
    }

    /// Whether the renderer should consume a new frame.
    pub fn ready(&self) -> (r: bool)
        ensures
            r == self.spec_dirty(),
    {
        self.has_updates
    }

    /// Mark the buffer dirty without changing it.
    pub fn force_redisplay(&mut self)
        ensures
            final(self).spec_pixels() == old(self).spec_pixels(),
            final(self).spec_dirty(),
    {
        self.has_updates = true;
    }
}

} // verus!
