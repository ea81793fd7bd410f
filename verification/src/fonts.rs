//! Built-in font sprites.
//!
//! A font pack is a small byte store holding the sixteen 5-byte glyphs
//! for the hex digits 0 through F, kept in its own store so it can be
//! copied into the bottom of machine memory.

use vstd::prelude::*;
use vstd::string::StringSliceAdditionalSpecFns;
use crate::cpu::{MemoryStick, load_font, load_charfont, mem_store_seq, take_at_most, hex_bytes};

verus! {

/// The classic CHIP-8 font: 16 glyphs of 5 bytes each, as hex text.
pub const C8_CLASSIC_FONT: &'static str =
    "F0909090F02060202070F010F080F0F010F010F09090F01010F080F010F0F080F090F0F010204040F090F090F0F090F010F0F090F09090E090E090E0F0808080F0E0909090E0F080F080F0F080F08080";

/// The byte store holding one font.
pub struct FontPack {
    pub(crate) fonts: MemoryStick,
}

impl FontPack {
    /// The store holding the glyph bytes.
    pub open(crate) spec fn spec_fonts(&self) -> MemoryStick {
        self.fonts
    }

    /// An empty pack: a zeroed 256-byte store.
    pub fn empty() -> (r: Self)
        ensures
            r.spec_fonts().wf(),
            r.spec_fonts().spec_bytes().len() == 256,
            forall|a: int| 0 <= a < 256 ==> #[trigger] r.spec_fonts().spec_bytes()[a] == 0,
    {
        Self { fonts: MemoryStick::alloced(0xFF) }
    }

    /// An empty pack loaded with the font encoded by `font`.
    pub fn with_font(font: &str) -> (r: Self)
        ensures
            r.spec_fonts().wf(),
            r.spec_fonts().spec_bytes().len() == 256,
            r.spec_fonts().spec_bytes() == mem_store_seq(
                Seq::new(256, |a: int| 0u8),
                0,
                take_at_most(hex_bytes(font.spec_bytes()), 80),
            ),
    {
        let mut font_pack = Self::empty();
        proof {
            assert(font_pack.spec_fonts().spec_bytes() =~= Seq::new(256, |a: int| 0u8));
        }
        font_pack.load_font(font);
        font_pack
    }

    /// Load a whole 16-glyph font from its hex text.
    pub fn load_font(&mut self, hex: &str)
        requires
            old(self).spec_fonts().wf(),
        ensures
            final(self).spec_fonts().wf(),
            final(self).spec_fonts().spec_bytes() == mem_store_seq(
                old(self).spec_fonts().spec_bytes(),
                0,
                take_at_most(hex_bytes(hex.spec_bytes()), 80),
            ),
            final(self).spec_fonts().spec_bytes().len() == old(
                self,
            ).spec_fonts().spec_bytes().len(),
    {
        proof {
            crate::cpu::lemma_mem_store_seq_len(
                old(self).spec_fonts().spec_bytes(),
                0,
                take_at_most(hex_bytes(hex.spec_bytes()), 80),
            );
        }
        load_font(&mut self.fonts, hex)
    }

    /// Load one 5-byte glyph for the hex digit `ch` from its hex text.
    pub fn load_charfont(&mut self, ch: u8, hex: &str)
        requires
            old(self).spec_fonts().wf(),
        ensures
            final(self).spec_fonts().wf(),
            final(self).spec_fonts().spec_bytes() == mem_store_seq(
                old(self).spec_fonts().spec_bytes(),
                (ch % 16) as int * 5,
                take_at_most(hex_bytes(hex.spec_bytes()), 5),
            ),
    {
        load_charfont(&mut self.fonts, ch, hex)
    }

    /// The pack holding the classic font: the zeroed store overlaid
    /// with the sixteen decoded glyphs.
    pub fn classic() -> (r: Self)
        ensures
            r.spec_fonts().wf(),
            r.spec_fonts().spec_bytes().len() == 256,
            r.spec_fonts().spec_bytes() == mem_store_seq(
                Seq::new(256, |a: int| 0u8),
                0,
                take_at_most(hex_bytes(C8_CLASSIC_FONT.spec_bytes()), 80),
            ),
    {
        Self::with_font(C8_CLASSIC_FONT)
    }
}

impl Default for FontPack {
    /// An empty pack, as `empty` builds it.
    fn default() -> (r: Self)
        ensures
            r.spec_fonts().wf(),
            r.spec_fonts().spec_bytes().len() == 256,
            forall|a: int| 0 <= a < 256 ==> #[trigger] r.spec_fonts().spec_bytes()[a] == 0,
    {
        Self::empty()
    }
}

} // verus!
