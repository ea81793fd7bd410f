//! The specification-level semantics of the instruction engine.
//!
//! `instr_step` says, for a machine view and an oracle of outside
//! outcomes (the random byte, the shared-timer accesses), what one
//! fetch-decode-execute step produces: the next machine view and the
//! error it reports.  `machine_step` adds the run-flag gate in front.
//! The engine's `ensures` ties its real effect to these functions.

use vstd::prelude::*;
use crate::cpu::{CpuView, mask12, mem_at, mem_store, mem_store_seq, word_at};
use crate::errors::Error;
use crate::keyboard::KeyEventKind;

verus! {

/// The machine as the engine sees it: the CPU view plus the quirk flag
/// and the key-wait marker.
pub struct ChipView {
    pub cpu: CpuView,
    pub cosmic: bool,
    pub needs_key: bool,
}

/// What the world outside the machine state answered during one step:
/// the random byte and the shared-timer accesses.  A field is only
/// meaningful for the opcode that consults it.
pub struct StepOracle {
    pub rnd: u8,
    pub delay_read: Option<u8>,
    pub delay_write_ok: bool,
    pub sound_write_ok: bool,
}

/// The outcome of one step: the next machine view and the error
/// reported, `NoError` on success.
pub struct StepResult {
    pub post: ChipView,
    pub err: Error,
}

pub open spec fn step_ok(v: ChipView) -> StepResult {
    StepResult { post: v, err: Error::NoError }
}

pub open spec fn step_fail(v: ChipView, e: Error) -> StepResult {
    StepResult { post: v, err: e }
}

impl ChipView {
    pub open spec fn wf(self) -> bool {
        self.cpu.wf()
    }

    pub open spec fn with_cpu(self, c: CpuView) -> ChipView {
        ChipView { cpu: c, ..self }
    }

    /// The program counter moved past the current instruction word.
    pub open spec fn advance(self) -> ChipView {
        self.with_cpu(CpuView { pc: mask12(self.cpu.pc + 2), ..self.cpu })
    }

    pub open spec fn reg(self, x: u8) -> u8 {
        self.cpu.reg(x as int)
    }

    pub open spec fn set_reg(self, x: u8, v: u8) -> ChipView {
        self.with_cpu(self.cpu.with_reg(x as int, v))
    }

    pub open spec fn jump_to(self, a: int) -> ChipView {
        self.with_cpu(CpuView { pc: mask12(a), ..self.cpu })
    }
}

/// Top nibble of an instruction word.
pub open spec fn op_of(instr: u16) -> u16 {
    instr / 0x1000
}

/// The X register selector of an instruction word.
pub open spec fn x_of(instr: u16) -> u8 {
    ((instr / 0x100) % 16) as u8
}

/// The Y register selector of an instruction word.
pub open spec fn y_of(instr: u16) -> u8 {
    ((instr / 0x10) % 16) as u8
}

/// The immediate byte of an instruction word.
pub open spec fn kk_of(instr: u16) -> u8 {
    (instr % 0x100) as u8
}

/// The 12-bit address of an instruction word.
pub open spec fn nnn_of(instr: u16) -> u16 {
    instr % 0x1000
}

/// The low nibble of an instruction word.
pub open spec fn n_of(instr: u16) -> u8 {
    (instr % 16) as u8
}

/// Whether the key named by the low nibble of register X is pressed.
pub open spec fn key_pressed(v: ChipView, x: u8) -> bool {
    v.cpu.keys[(v.reg(x) % 16) as int] is KeyPress
}

/// The lowest-coded pressed key at or above code `n`, if any.
pub open spec fn first_pressed_code(keys: Seq<KeyEventKind>, n: int) -> Option<u8>
    decreases 16 - n,
{
    if n < 0 || n >= 16 {
        None
    } else if keys[n] is KeyPress {
        Some(n as u8)
    } else {
        first_pressed_code(keys, n + 1)
    }
}

/// Bit `k` of a sprite row byte, most significant bit first.
pub open spec fn sprite_bit(s: u8, k: int) -> bool {
    (s >> ((7 - k) as u8)) & 1 == 1
}

/// One sprite row drawn from bit `k` on: the pixels after the toggles,
/// whether a toggle hit a pixel that was on, and whether any pixel was
/// toggled at all.  Columns past the right edge are clipped.
pub open spec fn draw_row(pix: Seq<u8>, x0: int, y: int, sprite: u8, k: int) -> (
    Seq<u8>,
    bool,
    bool,
)
    decreases 8 - k,
{
    if k < 0 || k >= 8 || x0 + k >= 64 {
        (pix, false, false)
    } else {
        let idx = y * 64 + x0 + k;
        let bit = sprite_bit(sprite, k);
        let hit = bit && pix[idx] > 0;
        let pix1 = if bit {
            pix.update(idx, if pix[idx] == 0 { 1u8 } else { 0u8 })
        } else {
            pix
        };
        let (pix2, hit2, touched2) = draw_row(pix1, x0, y, sprite, k + 1);
        (pix2, hit || hit2, (bit || touched2))
    }
}

/// A sprite of `rows` rows drawn from row `r` on, reading row bytes from
/// memory at `i + r`.
pub open spec fn draw_sprite(
    pix: Seq<u8>,
    mem: Seq<u8>,
    i: int,
    x0: int,
    y0: int,
    rows: int,
    r: int,
) -> (Seq<u8>, bool, bool)
    decreases rows - r,
{
    if r < 0 || r >= rows {
        (pix, false, false)
    } else {
        let sprite = mem_at(mem, i + r);
        let (pix1, hit1, t1) = draw_row(pix, x0, y0 + r, sprite, 0);
        let (pix2, hit2, t2) = draw_sprite(pix1, mem, i, x0, y0, rows, r + 1);
        (pix2, hit1 || hit2, t1 || t2)
    }
}

/// The effect of the draw opcode: sprite rows from the index register,
/// drawn at the wrapped start coordinates, stopping at the bottom edge,
/// with the flag register reporting a collision.
pub open spec fn draw_step(v: ChipView, x: u8, y: u8, n: u8) -> StepResult {
    let x0 = (v.reg(x) % 64) as int;
    let y0 = (v.reg(y) % 32) as int;
    let rows = if n as int <= 32 - y0 {
        n as int
    } else {
        32 - y0
    };
    let (pix, coll, touched) = draw_sprite(v.cpu.pix, v.cpu.mem, v.cpu.regi as int, x0, y0, rows, 0);
    let v1 = v.with_cpu(
        CpuView { pix: pix, pix_dirty: (v.cpu.pix_dirty || touched), ..v.cpu },
    );
    step_ok(v1.set_reg(15, if coll { 1u8 } else { 0u8 }))
}

/// The ALU family on registers X and Y, selected by the low nibble.
pub open spec fn alu_step(v: ChipView, x: u8, y: u8, n: u8, cosmic: bool) -> StepResult {
    if n == 0 {
        step_ok(v.set_reg(x, v.reg(y)))
    } else if n == 1 {
        step_ok(v.set_reg(x, v.reg(x) | v.reg(y)))
    } else if n == 2 {
        step_ok(v.set_reg(x, v.reg(x) & v.reg(y)))
    } else if n == 3 {
        step_ok(v.set_reg(x, v.reg(x) ^ v.reg(y)))
    } else if n == 4 {
        let sum = v.reg(x) + v.reg(y);
        let v1 = v.set_reg(x, (sum % 256) as u8);
        step_ok(v1.set_reg(15, if sum > 255 { 1u8 } else { 0u8 }))
    } else if n == 5 {
        let v1 = v.set_reg(15, if v.reg(x) > v.reg(y) { 1u8 } else { 0u8 });
        step_ok(v1.set_reg(x, ((v1.reg(x) - v1.reg(y)) % 256) as u8))
    } else if n == 6 {
        let v1 = if cosmic { v.set_reg(x, v.reg(y)) } else { v };
        let v2 = v1.set_reg(15, if v1.reg(x) % 2 == 1 { 1u8 } else { 0u8 });
        step_ok(v2.set_reg(x, v2.reg(x) / 2))
    } else if n == 7 {
        let v1 = v.set_reg(15, if v.reg(y) > v.reg(x) { 1u8 } else { 0u8 });
        step_ok(v1.set_reg(x, ((v1.reg(y) - v1.reg(x)) % 256) as u8))
    } else if n == 0xE {
        let v1 = if cosmic { v.set_reg(x, v.reg(y)) } else { v };
        let v2 = v1.set_reg(15, if v1.reg(x) >= 128 { 1u8 } else { 0u8 });
        step_ok(v2.set_reg(x, ((v2.reg(x) * 2) % 256) as u8))
    } else {
        step_fail(v, Error::InvalidInstruction)
    }
}

/// The timer, key-wait, index and register-transfer family, selected by
/// the immediate byte.
pub open spec fn misc_step(v: ChipView, x: u8, kk: u8, cosmic: bool, orc: StepOracle) -> StepResult {
    if kk == 0x07 {
        match orc.delay_read {
            Some(d) => step_ok(v.set_reg(x, d)),
            None => step_fail(v, Error::DelayTimerLocked),
        }
    } else if kk == 0x0A {
        match first_pressed_code(v.cpu.keys, 0) {
            Some(c) => step_ok(ChipView { needs_key: false, ..v.set_reg(x, c) }),
            None => step_ok(
                ChipView {
                    needs_key: true,
                    ..v.with_cpu(CpuView { pc: mask12(v.cpu.pc - 2), ..v.cpu })
                },
            ),
        }
    } else if kk == 0x15 {
        if orc.delay_write_ok {
            step_ok(v)
        } else {
            step_fail(v, Error::DelayTimerLocked)
        }
    } else if kk == 0x18 {
        if orc.sound_write_ok {
            step_ok(v)
        } else {
            step_fail(v, Error::SoundTimerLocked)
        }
    } else if kk == 0x1E {
        let sum = v.reg(x) + v.cpu.regi;
        let v1 = if !cosmic {
            v.set_reg(15, if sum > 0xFFF { 1u8 } else { 0u8 })
        } else {
            v
        };
        step_ok(v1.with_cpu(CpuView { regi: mask12(sum), ..v1.cpu }))
    } else if kk == 0x29 {
        step_ok(v.with_cpu(CpuView { regi: mask12((v.reg(x) % 16) * 5), ..v.cpu }))
    } else if kk == 0x33 {
        let val = v.reg(x);
        let i = v.cpu.regi as int;
        let m1 = mem_store(v.cpu.mem, i, (val / 100) as u8);
        let m2 = mem_store(m1, i + 1, ((val / 10) % 10) as u8);
        let m3 = mem_store(m2, i + 2, (val % 10) as u8);
        step_ok(v.with_cpu(CpuView { mem: m3, ..v.cpu }))
    } else if kk == 0x65 {
        let v1 = v.with_cpu(
            CpuView {
                regs: Seq::new(
                    16,
                    |j: int|
                        if j <= x {
                            mem_at(v.cpu.mem, v.cpu.regi + j)
                        } else {
                            v.cpu.regs[j]
                        },
                ),
                ..v.cpu
            },
        );
        if cosmic {
            step_ok(v1.with_cpu(CpuView { regi: mask12(v.cpu.regi + x + 1), ..v1.cpu }))
        } else {
            step_ok(v1)
        }
    } else if kk == 0x55 {
        let v1 = v.with_cpu(
            CpuView {
                mem: mem_store_seq(v.cpu.mem, v.cpu.regi as int, v.cpu.regs.take(x as int + 1)),
                ..v.cpu
            },
        );
        if cosmic {
            step_ok(v1.with_cpu(CpuView { regi: mask12(v.cpu.regi + x + 1), ..v1.cpu }))
        } else {
            step_ok(v1)
        }
    } else {
        step_fail(v, Error::InvalidInstruction)
    }
}

/// One fetch-decode-execute step on a running machine.
pub open spec fn instr_step(pre: ChipView, orc: StepOracle) -> StepResult {
    let instr = word_at(pre.cpu.mem, pre.cpu.pc as int);
    let v = pre.advance();
    if instr == 0x00E0 {
        step_ok(v.with_cpu(CpuView { pix: Seq::new(2048, |p: int| 0u8), pix_dirty: true, ..v.cpu }))
    } else if instr == 0x00EE {
        if v.cpu.stack.len() == 0 {
            step_fail(v, Error::StackUnderflow)
        } else {
            step_ok(
                v.with_cpu(
                    CpuView {
                        pc: mask12(v.cpu.stack.last() as int),
                        stack: v.cpu.stack.drop_last(),
                        ..v.cpu
                    },
                ),
            )
        }
    } else if instr == 0x00FD {
        step_ok(v)
    } else {
        let op = op_of(instr);
        let x = x_of(instr);
        let y = y_of(instr);
        let kk = kk_of(instr);
        let nnn = nnn_of(instr);
        let n = n_of(instr);
        if op == 0 || op == 1 {
            step_ok(v.jump_to(instr as int))
        } else if op == 2 {
            step_ok(
                v.with_cpu(
                    CpuView {
                        pc: mask12(instr as int),
                        stack: v.cpu.stack.push(v.cpu.pc),
                        ..v.cpu
                    },
                ),
            )
        } else if op == 3 {
            step_ok(if v.reg(x) == kk { v.advance() } else { v })
        } else if op == 4 {
            step_ok(if v.reg(x) != kk { v.advance() } else { v })
        } else if op == 5 {
            if n != 0 {
                step_fail(v, Error::InvalidInstruction)
            } else {
                step_ok(if v.reg(x) == v.reg(y) { v.advance() } else { v })
            }
        } else if op == 6 {
            step_ok(v.set_reg(x, kk))
        } else if op == 7 {
            step_ok(v.set_reg(x, ((v.reg(x) + kk) % 256) as u8))
        } else if op == 8 {
            alu_step(v, x, y, n, pre.cosmic)
        } else if op == 9 {
            if n != 0 {
                step_fail(v, Error::InvalidInstruction)
            } else {
                step_ok(if v.reg(x) != v.reg(y) { v.advance() } else { v })
            }
        } else if op == 0xA {
            step_ok(v.with_cpu(CpuView { regi: mask12(nnn as int), ..v.cpu }))
        } else if op == 0xB {
            let off = if pre.cosmic { v.reg(0) } else { v.reg(x) };
            step_ok(v.jump_to(nnn + off))
        } else if op == 0xC {
            step_ok(v.set_reg(x, orc.rnd & kk))
        } else if op == 0xD {
            draw_step(v, x, y, n)
        } else if op == 0xE {
            if kk == 0x9E {
                step_ok(if key_pressed(v, x) { v.advance() } else { v })
            } else if kk == 0xA1 {
                step_ok(if !key_pressed(v, x) { v.advance() } else { v })
            } else {
                step_fail(v, Error::InvalidInstruction)
            }
        } else if op == 0xF {
            misc_step(v, x, kk, pre.cosmic, orc)
        } else {
            step_fail(v, Error::InvalidInstruction)
        }
    }
}

/// One call of the single-step entry point: the run-flag gate in front
/// of `instr_step`.  `running` is what the shared run flag answered, or
/// `None` when its lock was poisoned.  Stepping while not running fails
/// with `ExecutionLocked` and changes nothing; the caller must start
/// the machine first.
pub open spec fn machine_step(pre: ChipView, running: Option<bool>, orc: StepOracle) -> StepResult {
    match running {
        None => step_fail(pre, Error::ExecutionLocked),
        Some(false) => step_fail(pre, Error::ExecutionLocked),
        Some(true) => instr_step(pre, orc),
    }
}

/// The error of a step as the engine returns it.
pub open spec fn as_result(e: Error) -> Result<(), Error> {
    if e is NoError {
        Ok(())
    } else {
        Err(e)
    }
}

/// Drawing a row only changes pixels in its own bit window, and every
/// pixel it writes is 0 or 1.
proof fn lemma_draw_row_frame(pix: Seq<u8>, x0: int, y: int, s: u8, k: int)
    requires
        pix.len() == 2048,
        0 <= x0 < 64,
        0 <= y < 32,
        0 <= k <= 8,
    ensures
        ({
            let (p, h, t) = draw_row(pix, x0, y, s, k);
            &&& p.len() == 2048
            &&& forall|q: int|
                0 <= q < 2048 && !(y * 64 + x0 + k <= q < y * 64 + 64) ==> p[q] == pix[q]
            &&& forall|q: int| 0 <= q < 2048 ==> (p[q] == pix[q] || p[q] <= 1)
        }),
    decreases 8 - k,
{
    if k < 8 && x0 + k < 64 {
        let idx = y * 64 + x0 + k;
        let bit = sprite_bit(s, k);
        let pix1 = if bit {
            pix.update(idx, if pix[idx] == 0 { 1u8 } else { 0u8 })
        } else {
            pix
        };
        lemma_draw_row_frame(pix1, x0, y, s, k + 1);
    }
}

/// Two pixel buffers that agree on a row's bit window are drawn alike:
/// same toggles within the window, same collision, same touch.
proof fn lemma_draw_row_agree(pa: Seq<u8>, pb: Seq<u8>, x0: int, y: int, s: u8, k: int)
    requires
        pa.len() == 2048,
        pb.len() == 2048,
        0 <= x0 < 64,
        0 <= y < 32,
        0 <= k <= 8,
        forall|q: int| y * 64 + x0 + k <= q < y * 64 + 64 && 0 <= q < 2048 ==> pa[q] == pb[q],
    ensures
        ({
            let (ra, ha, ta) = draw_row(pa, x0, y, s, k);
            let (rb, hb, tb) = draw_row(pb, x0, y, s, k);
            &&& ha == hb
            &&& ta == tb
            &&& forall|q: int|
                y * 64 + x0 + k <= q < y * 64 + 64 && 0 <= q < 2048 ==> ra[q] == rb[q]
        }),
    decreases 8 - k,
{
    if k < 8 && x0 + k < 64 {
        let idx = y * 64 + x0 + k;
        let bit = sprite_bit(s, k);
        let pa1 = if bit {
            pa.update(idx, if pa[idx] == 0 { 1u8 } else { 0u8 })
        } else {
            pa
        };
        let pb1 = if bit {
            pb.update(idx, if pb[idx] == 0 { 1u8 } else { 0u8 })
        } else {
            pb
        };
        lemma_draw_row_agree(pa1, pb1, x0, y, s, k + 1);
        lemma_draw_row_frame(pa1, x0, y, s, k + 1);
        lemma_draw_row_frame(pb1, x0, y, s, k + 1);
    }
}

/// Drawing the same row twice restores the buffer exactly.
proof fn lemma_draw_row_twice(pix: Seq<u8>, x0: int, y: int, s: u8, k: int)
    requires
        pix.len() == 2048,
        forall|q: int| 0 <= q < 2048 ==> #[trigger] pix[q] <= 1,
        0 <= x0 < 64,
        0 <= y < 32,
        0 <= k <= 8,
    ensures
        draw_row(draw_row(pix, x0, y, s, k).0, x0, y, s, k).0 == pix,
    decreases 8 - k,
{
    if k < 8 && x0 + k < 64 {
        let idx = y * 64 + x0 + k;
        let bit = sprite_bit(s, k);
        if !bit {
            lemma_draw_row_twice(pix, x0, y, s, k + 1);
        } else {
            let flip = if pix[idx] == 0 {
                1u8
            } else {
                0u8
            };
            let pix1 = pix.update(idx, flip);
            let p1 = draw_row(pix1, x0, y, s, k + 1).0;
            lemma_draw_row_frame(pix1, x0, y, s, k + 1);
            assert(p1[idx] == flip);
            lemma_draw_row_twice(pix1, x0, y, s, k + 1);
            let p1p = p1.update(idx, if p1[idx] == 0 { 1u8 } else { 0u8 });
            assert(p1p =~= p1.update(idx, pix[idx]));
            lemma_draw_row_agree(p1p, p1, x0, y, s, k + 1);
            lemma_draw_row_frame(p1p, x0, y, s, k + 1);
            lemma_draw_row_frame(p1, x0, y, s, k + 1);
            assert(draw_row(draw_row(pix, x0, y, s, k).0, x0, y, s, k).0 =~= pix);
        }
    }
}

/// A row's collision reports exactly whether some drawn bit lands on a
/// pixel that is on in the buffer the row started from.
proof fn lemma_draw_row_collision(pix: Seq<u8>, x0: int, y: int, s: u8, k: int)
    requires
        pix.len() == 2048,
        0 <= x0 < 64,
        0 <= y < 32,
        0 <= k <= 8,
    ensures
        draw_row(pix, x0, y, s, k).1 <==> exists|j: int|
            k <= j < 8 && x0 + j < 64 && #[trigger] sprite_bit(s, j) && pix[y * 64 + x0 + j] > 0,
    decreases 8 - k,
{
    if k < 8 && x0 + k < 64 {
        let idx = y * 64 + x0 + k;
        let bit = sprite_bit(s, k);
        let pix1 = if bit {
            pix.update(idx, if pix[idx] == 0 { 1u8 } else { 0u8 })
        } else {
            pix
        };
        lemma_draw_row_collision(pix1, x0, y, s, k + 1);
        assert forall|j: int| k + 1 <= j < 8 && x0 + j < 64 implies #[trigger] pix1[y * 64 + x0
            + j] == pix[y * 64 + x0 + j] by {}
        if bit && pix[idx] > 0 {
            assert(sprite_bit(s, k) && pix[y * 64 + x0 + k] > 0);
        }
        if draw_row(pix1, x0, y, s, k + 1).1 {
            let j = choose|j: int|
                k + 1 <= j < 8 && x0 + j < 64 && #[trigger] sprite_bit(s, j) && pix1[y * 64 + x0
                    + j] > 0;
            assert(sprite_bit(s, j) && pix[y * 64 + x0 + j] > 0);
        }
    } else {
        assert forall|j: int|
            k <= j < 8 && x0 + j < 64 implies !(#[trigger] sprite_bit(s, j) && pix[y * 64 + x0 + j]
            > 0) || false by {
            assert(x0 + k >= 64 || k >= 8);
        }
        assert(!(exists|j: int|
            k <= j < 8 && x0 + j < 64 && #[trigger] sprite_bit(s, j) && pix[y * 64 + x0 + j] > 0));
    }
}

/// Drawing a sprite only changes pixels in the rows it covers, and
/// every pixel it writes is 0 or 1.
proof fn lemma_draw_sprite_frame(
    pix: Seq<u8>,
    mem: Seq<u8>,
    i: int,
    x0: int,
    y0: int,
    rows: int,
    r: int,
)
    requires
        pix.len() == 2048,
        0 <= x0 < 64,
        0 <= y0,
        0 <= r <= rows,
        y0 + rows <= 32,
    ensures
        ({
            let (p, c, t) = draw_sprite(pix, mem, i, x0, y0, rows, r);
            &&& p.len() == 2048
            &&& forall|q: int|
                0 <= q < 2048 && !((y0 + r) * 64 <= q < (y0 + rows) * 64) ==> p[q] == pix[q]
            &&& forall|q: int| 0 <= q < 2048 ==> (p[q] == pix[q] || p[q] <= 1)
        }),
    decreases rows - r,
{
    if r < rows {
        let s = mem_at(mem, i + r);
        lemma_draw_row_frame(pix, x0, y0 + r, s, 0);
        let p1 = draw_row(pix, x0, y0 + r, s, 0).0;
        lemma_draw_sprite_frame(p1, mem, i, x0, y0, rows, r + 1);
    }
}

/// Two pixel buffers that agree on the covered rows are drawn alike.
proof fn lemma_draw_sprite_agree(
    pa: Seq<u8>,
    pb: Seq<u8>,
    mem: Seq<u8>,
    i: int,
    x0: int,
    y0: int,
    rows: int,
    r: int,
)
    requires
        pa.len() == 2048,
        pb.len() == 2048,
        0 <= x0 < 64,
        0 <= y0,
        0 <= r <= rows,
        y0 + rows <= 32,
        forall|q: int| (y0 + r) * 64 <= q < (y0 + rows) * 64 && 0 <= q < 2048 ==> pa[q] == pb[q],
    ensures
        ({
            let (ra, ca, ta) = draw_sprite(pa, mem, i, x0, y0, rows, r);
            let (rb, cb, tb) = draw_sprite(pb, mem, i, x0, y0, rows, r);
            &&& ca == cb
            &&& ta == tb
            &&& forall|q: int|
                (y0 + r) * 64 <= q < (y0 + rows) * 64 && 0 <= q < 2048 ==> ra[q] == rb[q]
        }),
    decreases rows - r,
{
    if r < rows {
        let s = mem_at(mem, i + r);
        let y = y0 + r;
        lemma_draw_row_agree(pa, pb, x0, y, s, 0);
        lemma_draw_row_frame(pa, x0, y, s, 0);
        lemma_draw_row_frame(pb, x0, y, s, 0);
        let pa1 = draw_row(pa, x0, y, s, 0).0;
        let pb1 = draw_row(pb, x0, y, s, 0).0;
        assert forall|q: int|
            (y0 + r + 1) * 64 <= q < (y0 + rows) * 64 && 0 <= q < 2048 implies pa1[q] == pb1[q] by {
            assert(!(y * 64 + x0 + 0 <= q < y * 64 + 64));
        }
        lemma_draw_sprite_agree(pa1, pb1, mem, i, x0, y0, rows, r + 1);
        lemma_draw_sprite_frame(pa1, mem, i, x0, y0, rows, r + 1);
        lemma_draw_sprite_frame(pb1, mem, i, x0, y0, rows, r + 1);
        assert forall|q: int|
            (y0 + r) * 64 <= q < (y0 + rows) * 64 && 0 <= q < 2048 implies draw_sprite(
            pa,
            mem,
            i,
            x0,
            y0,
            rows,
            r,
        ).0[q] == draw_sprite(pb, mem, i, x0, y0, rows, r).0[q] by {
            if q < (y0 + r + 1) * 64 {
                if y * 64 + x0 <= q < y * 64 + 64 {
                } else {
                }
            }
        }
    }
}

/// Drawing the same sprite twice restores the pixel buffer exactly:
/// toggling is its own inverse.
pub proof fn lemma_draw_sprite_twice(
    pix: Seq<u8>,
    mem: Seq<u8>,
    i: int,
    x0: int,
    y0: int,
    rows: int,
    r: int,
)
    requires
        pix.len() == 2048,
        forall|q: int| 0 <= q < 2048 ==> #[trigger] pix[q] <= 1,
        0 <= x0 < 64,
        0 <= y0,
        0 <= r <= rows,
        y0 + rows <= 32,
    ensures
        draw_sprite(draw_sprite(pix, mem, i, x0, y0, rows, r).0, mem, i, x0, y0, rows, r).0 == pix,
    decreases rows - r,
{
    if r < rows {
        let s = mem_at(mem, i + r);
        let y = y0 + r;
        let p1 = draw_row(pix, x0, y, s, 0).0;
        lemma_draw_row_frame(pix, x0, y, s, 0);
        let bigp = draw_sprite(p1, mem, i, x0, y0, rows, r + 1).0;
        lemma_draw_sprite_frame(p1, mem, i, x0, y0, rows, r + 1);
        // The second pass first redraws row r on `bigp`, which agrees
        // with `p1` on that row's window.
        assert forall|q: int|
            y * 64 + x0 <= q < y * 64 + 64 && 0 <= q < 2048 implies bigp[q] == p1[q] by {
            assert(!((y0 + r + 1) * 64 <= q < (y0 + rows) * 64));
        }
        lemma_draw_row_agree(bigp, p1, x0, y, s, 0);
        lemma_draw_row_frame(bigp, x0, y, s, 0);
        lemma_draw_row_frame(p1, x0, y, s, 0);
        lemma_draw_row_twice(pix, x0, y, s, 0);
        let p2 = draw_row(bigp, x0, y, s, 0).0;
        let q1 = draw_row(p1, x0, y, s, 0).0;
        assert(q1 == pix);
        // The tails of the two passes act on buffers that agree on the
        // remaining rows.
        lemma_draw_sprite_twice(p1, mem, i, x0, y0, rows, r + 1);
        assert(draw_sprite(bigp, mem, i, x0, y0, rows, r + 1).0 == p1);
        assert forall|q: int|
            (y0 + r + 1) * 64 <= q < (y0 + rows) * 64 && 0 <= q < 2048 implies p2[q] == bigp[q] by {
            assert(!(y * 64 + x0 <= q < y * 64 + 64));
        }
        lemma_draw_sprite_agree(p2, bigp, mem, i, x0, y0, rows, r + 1);
        lemma_draw_sprite_frame(p2, mem, i, x0, y0, rows, r + 1);
        lemma_draw_sprite_frame(bigp, mem, i, x0, y0, rows, r + 1);
        assert(draw_sprite(draw_sprite(pix, mem, i, x0, y0, rows, r).0, mem, i, x0, y0, rows, r).0
            =~= pix);
    }
}

/// A sprite's collision flag reports exactly whether some drawn bit
/// lands on a pixel that is on in the buffer the draw started from.
pub proof fn lemma_draw_sprite_collision(
    pix: Seq<u8>,
    mem: Seq<u8>,
    i: int,
    x0: int,
    y0: int,
    rows: int,
    r: int,
)
    requires
        pix.len() == 2048,
        0 <= x0 < 64,
        0 <= y0,
        0 <= r <= rows,
        y0 + rows <= 32,
    ensures
        draw_sprite(pix, mem, i, x0, y0, rows, r).1 <==> exists|t: int, j: int|
            r <= t < rows && 0 <= j < 8 && x0 + j < 64 && #[trigger] sprite_bit(
                mem_at(mem, i + t),
                j,
            ) && pix[(y0 + t) * 64 + x0 + j] > 0,
    decreases rows - r,
{
    if r < rows {
        let s = mem_at(mem, i + r);
        let y = y0 + r;
        lemma_draw_row_collision(pix, x0, y, s, 0);
        lemma_draw_row_frame(pix, x0, y, s, 0);
        let p1 = draw_row(pix, x0, y, s, 0).0;
        lemma_draw_sprite_collision(p1, mem, i, x0, y0, rows, r + 1);
        assert forall|t: int, j: int|
            r + 1 <= t < rows && 0 <= j < 8 && x0 + j < 64 implies #[trigger] p1[(y0 + t) * 64 + x0
            + j] == pix[(y0 + t) * 64 + x0 + j] by {
            assert(!(y * 64 + x0 <= (y0 + t) * 64 + x0 + j < y * 64 + 64));
        }
        if draw_row(pix, x0, y, s, 0).1 {
            let j = choose|j: int|
                0 <= j < 8 && x0 + j < 64 && #[trigger] sprite_bit(s, j) && pix[y * 64 + x0 + j]
                    > 0;
            assert(r <= r < rows && sprite_bit(mem_at(mem, i + r), j) && pix[(y0 + r) * 64 + x0 + j]
                > 0);
        }
        if draw_sprite(p1, mem, i, x0, y0, rows, r + 1).1 {
            let (t, j) = choose|t: int, j: int|
                r + 1 <= t < rows && 0 <= j < 8 && x0 + j < 64 && #[trigger] sprite_bit(
                    mem_at(mem, i + t),
                    j,
                ) && p1[(y0 + t) * 64 + x0 + j] > 0;
            assert(sprite_bit(mem_at(mem, i + t), j) && pix[(y0 + t) * 64 + x0 + j] > 0);
        }
        if exists|t: int, j: int|
            r <= t < rows && 0 <= j < 8 && x0 + j < 64 && #[trigger] sprite_bit(
                mem_at(mem, i + t),
                j,
            ) && pix[(y0 + t) * 64 + x0 + j] > 0 {
            let (t, j) = choose|t: int, j: int|
                r <= t < rows && 0 <= j < 8 && x0 + j < 64 && #[trigger] sprite_bit(
                    mem_at(mem, i + t),
                    j,
                ) && pix[(y0 + t) * 64 + x0 + j] > 0;
            if t == r {
                assert(sprite_bit(s, j) && pix[y * 64 + x0 + j] > 0);
                assert(draw_row(pix, x0, y, s, 0).1);
            } else {
                assert(r + 1 <= t < rows && sprite_bit(mem_at(mem, i + t), j) && p1[(y0 + t) * 64
                    + x0 + j] > 0);
            }
        }
    }
}

/// Drawing the same sprite twice at the same coordinates restores the
/// pre-draw pixel state, and the second draw reports a collision
/// exactly when some drawn bit was left on by the first draw.
pub proof fn lemma_draw_twice_collision(
    pix: Seq<u8>,
    mem: Seq<u8>,
    i: int,
    x0: int,
    y0: int,
    rows: int,
)
    requires
        pix.len() == 2048,
        forall|q: int| 0 <= q < 2048 ==> #[trigger] pix[q] <= 1,
        0 <= x0 < 64,
        0 <= y0,
        0 <= rows,
        y0 + rows <= 32,
    ensures
        ({
            let (p1, c1, t1) = draw_sprite(pix, mem, i, x0, y0, rows, 0);
            let (p2, c2, t2) = draw_sprite(p1, mem, i, x0, y0, rows, 0);
            &&& p2 == pix
            &&& (c2 <==> exists|t: int, j: int|
                0 <= t < rows && 0 <= j < 8 && x0 + j < 64 && #[trigger] sprite_bit(
                    mem_at(mem, i + t),
                    j,
                ) && p1[(y0 + t) * 64 + x0 + j] > 0)
        }),
{
    lemma_draw_sprite_twice(pix, mem, i, x0, y0, rows, 0);
    lemma_draw_sprite_frame(pix, mem, i, x0, y0, rows, 0);
    let p1 = draw_sprite(pix, mem, i, x0, y0, rows, 0).0;
    lemma_draw_sprite_collision(p1, mem, i, x0, y0, rows, 0);
}

/// The add-with-carry opcode: for all register values a and b, register
/// X receives (a + b) mod 256 and the flag register receives 1 exactly
/// when a + b exceeds 255.  (With X = 15 the sum is overwritten by the
/// flag, so the flag register itself is left out of the statement's
/// range for X.)
#[verifier::rlimit(100)]
pub proof fn lemma_add_with_carry(pre: ChipView, orc: StepOracle, x: u8, y: u8)
    requires
        pre.wf(),
        x < 15,
        y < 16,
        op_of(word_at(pre.cpu.mem, pre.cpu.pc as int)) == 8,
        n_of(word_at(pre.cpu.mem, pre.cpu.pc as int)) == 4,
        x_of(word_at(pre.cpu.mem, pre.cpu.pc as int)) == x,
        y_of(word_at(pre.cpu.mem, pre.cpu.pc as int)) == y,
    ensures
        ({
            let a = pre.cpu.regs[x as int];
            let b = pre.cpu.regs[y as int];
            let sr = instr_step(pre, orc);
            &&& sr.err is NoError
            &&& sr.post.cpu.regs[x as int] == (a + b) % 256
            &&& (sr.post.cpu.regs[15] == 1 <==> a + b > 255)
            &&& (sr.post.cpu.regs[15] == 0 <==> a + b <= 255)
        }),
{
    let instr = word_at(pre.cpu.mem, pre.cpu.pc as int);
    assert(0x8000 <= instr <= 0x8FFF);
}

/// The random opcode never sets bits outside its mask: whatever byte
/// the random source yields, register X AND NOT KK is zero afterwards.
#[verifier::rlimit(100)]
pub proof fn lemma_random_masked(pre: ChipView, orc: StepOracle, x: u8)
    requires
        pre.wf(),
        x < 16,
        op_of(word_at(pre.cpu.mem, pre.cpu.pc as int)) == 0xC,
        x_of(word_at(pre.cpu.mem, pre.cpu.pc as int)) == x,
    ensures
        ({
            let kk = kk_of(word_at(pre.cpu.mem, pre.cpu.pc as int));
            let sr = instr_step(pre, orc);
            &&& sr.err is NoError
            &&& sr.post.cpu.regs[x as int] & !kk == 0
        }),
{
    let instr = word_at(pre.cpu.mem, pre.cpu.pc as int);
    assert(0xC000 <= instr <= 0xCFFF);
    let kk = kk_of(instr);
    let rb: u8 = orc.rnd;
    let kkv: u8 = kk;
    assert((rb & kkv) & !kkv == 0) by (bit_vector);
}

/// A return with an empty call stack fails with a stack underflow; the
/// program counter has still moved past the return instruction.
pub proof fn lemma_return_underflow(pre: ChipView, orc: StepOracle)
    requires
        pre.wf(),
        word_at(pre.cpu.mem, pre.cpu.pc as int) == 0x00EE,
        pre.cpu.stack.len() == 0,
    ensures
        instr_step(pre, orc).err == Error::StackUnderflow,
        instr_step(pre, orc).post == pre.advance(),
{
}

/// A call followed by a return: the call pushes the address of the
/// instruction after itself, and the return pops exactly that address
/// back into the program counter, leaving the call stack as it was.
#[verifier::rlimit(100)]
pub proof fn lemma_call_return(pre: ChipView, orc1: StepOracle, orc2: StepOracle)
    requires
        pre.wf(),
        op_of(word_at(pre.cpu.mem, pre.cpu.pc as int)) == 2,
        word_at(
            instr_step(pre, orc1).post.cpu.mem,
            instr_step(pre, orc1).post.cpu.pc as int,
        ) == 0x00EE,
    ensures
        ({
            let mid = instr_step(pre, orc1).post;
            let fin = instr_step(mid, orc2).post;
            &&& instr_step(pre, orc1).err is NoError
            &&& instr_step(mid, orc2).err is NoError
            &&& fin.cpu.pc == mask12(pre.cpu.pc + 2)
            &&& fin.cpu.stack == pre.cpu.stack
        }),
{
    let instr = word_at(pre.cpu.mem, pre.cpu.pc as int);
    assert(0x2000 <= instr <= 0x2FFF);
    let mid = instr_step(pre, orc1).post;
    assert(mid.cpu.stack == pre.cpu.stack.push(mask12(pre.cpu.pc + 2)));
    assert(mid.cpu.stack.len() > 0);
    assert(mid.cpu.stack.last() == mask12(pre.cpu.pc + 2));
    assert(mid.cpu.stack.drop_last() =~= pre.cpu.stack);
    vstd::arithmetic::div_mod::lemma_mod_twice(pre.cpu.pc + 2, 4096);
}

/// Reading back `data.len()` bytes written from `a` yields `data`, as
/// long as the store is large enough that the writes do not wrap onto
/// each other.
pub proof fn lemma_mem_store_seq_read(bytes: Seq<u8>, a: int, data: Seq<u8>, j: int)
    requires
        data.len() <= bytes.len(),
        0 <= a,
        0 <= j < data.len(),
    ensures
        mem_at(mem_store_seq(bytes, a, data), a + j) == data[j],
    decreases j,
{
    lemma_mem_store_seq_frame_helper(bytes, a, data, j);
}

/// A bulk write leaves every address it does not cover unchanged.
pub proof fn lemma_mem_store_seq_frame(bytes: Seq<u8>, a: int, data: Seq<u8>, q: int)
    requires
        bytes.len() >= 1,
        0 <= q < bytes.len(),
        forall|t: int| 0 <= t < data.len() ==> q != #[trigger] ((a + t) % (bytes.len() as int)),
    ensures
        mem_store_seq(bytes, a, data)[q] == bytes[q],
    decreases data.len(),
{
    crate::cpu::lemma_mem_store_seq_len(bytes, a, data);
    if data.len() > 0 {
        let m = bytes.len() as int;
        let bytes1 = mem_store(bytes, a, data[0]);
        assert(q != (a + 0) % m);
        assert(bytes1[q] == bytes[q]);
        assert(bytes1.len() == bytes.len());
        assert forall|t: int|
            0 <= t < data.drop_first().len() implies q != #[trigger] (((a + 1) + t) % (
        bytes1.len() as int)) by {
            assert(q != (a + (t + 1)) % m);
            assert((a + 1) + t == a + (t + 1));
        }
        lemma_mem_store_seq_frame(bytes1, a + 1, data.drop_first(), q);
        assert(mem_store_seq(bytes, a, data) == mem_store_seq(bytes1, a + 1, data.drop_first()));
    }
}

/// Reading position `a + j` after the bulk write sees the byte written
/// there: the later writes land on other addresses.
proof fn lemma_mem_store_seq_frame_helper(bytes: Seq<u8>, a: int, data: Seq<u8>, j: int)
    requires
        data.len() <= bytes.len(),
        0 <= a,
        0 <= j < data.len(),
    ensures
        mem_at(mem_store_seq(bytes, a, data), a + j) == data[j],
    decreases j,
{
    let m = bytes.len() as int;
    vstd::arithmetic::div_mod::lemma_mod_bound(a + j, m);
    crate::cpu::lemma_mem_store_seq_len(bytes, a, data);
    if j == 0 {
        let bytes1 = mem_store(bytes, a, data[0]);
        assert(bytes1[a % m] == data[0]);
        assert forall|t: int| 0 <= t < data.drop_first().len() implies (a % m) != #[trigger] ((
            (a + 1) + t) % m) by {
            vstd::arithmetic::div_mod::lemma_mod_equivalence(a + 1 + t, a, m);
            vstd::arithmetic::div_mod::lemma_small_mod((1 + t) as nat, m as nat);
        }
        lemma_mem_store_seq_frame(bytes1, a + 1, data.drop_first(), a % m);
        assert(mem_store_seq(bytes, a, data)[a % m] == data[0]);
    } else {
        let bytes1 = mem_store(bytes, a, data[0]);
        lemma_mem_store_seq_frame_helper(bytes1, a + 1, data.drop_first(), j - 1);
        assert(mem_at(mem_store_seq(bytes1, a + 1, data.drop_first()), a + j)
            == data.drop_first()[j - 1]);
    }
}

/// Storing registers 0 through x at an address and loading the same
/// range back from that address restores every register exactly.
pub proof fn lemma_store_load_registers(regs: Seq<u8>, mem: Seq<u8>, i: int, x: u8)
    requires
        regs.len() == 16,
        mem.len() >= 16,
        x < 16,
        0 <= i,
    ensures
        ({
            let mem2 = mem_store_seq(mem, i, regs.take(x as int + 1));
            Seq::new(
                16,
                |j: int|
                    if j <= x {
                        mem_at(mem2, i + j)
                    } else {
                        regs[j]
                    },
            ) == regs
        }),
{
    let data = regs.take(x as int + 1);
    let mem2 = mem_store_seq(mem, i, data);
    assert forall|j: int| 0 <= j <= x implies mem_at(mem2, i + j) == regs[j] by {
        lemma_mem_store_seq_read(mem, i, data, j);
        assert(data[j] == regs[j]);
    }
    assert(Seq::new(
        16,
        |j: int|
            if j <= x {
                mem_at(mem2, i + j)
            } else {
                regs[j]
            },
    ) =~= regs);
}

/// The key-wait opcode with no key pressed leaves the program counter
/// exactly where it was: the same instruction is fetched again on the
/// next step, a cooperative busy-wait.
pub proof fn lemma_key_wait_holds_pc(pre: ChipView, orc: StepOracle)
    requires
        pre.wf(),
        op_of(word_at(pre.cpu.mem, pre.cpu.pc as int)) == 0xF,
        kk_of(word_at(pre.cpu.mem, pre.cpu.pc as int)) == 0x0A,
        forall|j: int| 0 <= j < 16 ==> !(pre.cpu.keys[j] is KeyPress),
    ensures
        instr_step(pre, orc).err is NoError,
        instr_step(pre, orc).post.cpu.pc == pre.cpu.pc,
        instr_step(pre, orc).post.cpu.regs == pre.cpu.regs,
        instr_step(pre, orc).post.needs_key,
{
    let instr = word_at(pre.cpu.mem, pre.cpu.pc as int);
    assert(0xF000 <= instr <= 0xFFFF);
    lemma_no_key_none(pre.cpu.keys, 0);
    let p: int = pre.cpu.pc as int;
    vstd::arithmetic::div_mod::lemma_small_mod(p as nat, 4096nat);
    vstd::arithmetic::div_mod::lemma_mod_bound(p + 2, 4096);
    vstd::arithmetic::div_mod::lemma_mod_add_multiples_vanish(p + 2 - 4096, 4096);
    if p + 2 < 4096 {
        vstd::arithmetic::div_mod::lemma_small_mod((p + 2) as nat, 4096nat);
        assert(mask12(mask12(p + 2) - 2) == pre.cpu.pc);
    } else {
        assert(mask12(p + 2) == p + 2 - 4096);
        vstd::arithmetic::div_mod::lemma_mod_add_multiples_vanish(p - 2 - 4096 + 4096, 4096);
        assert(mask12(mask12(p + 2) - 2) == pre.cpu.pc);
    }
}

/// The key-wait opcode with some key pressed: the lowest-coded pressed
/// key's code lands in register X, the waiting mark clears, and the
/// program counter moves on past the instruction.
pub proof fn lemma_key_wait_press_resumes(pre: ChipView, orc: StepOracle)
    requires
        pre.wf(),
        op_of(word_at(pre.cpu.mem, pre.cpu.pc as int)) == 0xF,
        kk_of(word_at(pre.cpu.mem, pre.cpu.pc as int)) == 0x0A,
        exists|j: int| 0 <= j < 16 && pre.cpu.keys[j] is KeyPress,
    ensures
        ({
            let w = word_at(pre.cpu.mem, pre.cpu.pc as int);
            let fp = first_pressed_code(pre.cpu.keys, 0);
            let sr = instr_step(pre, orc);
            &&& sr.err is NoError
            &&& !sr.post.needs_key
            &&& sr.post.cpu.pc == mask12(pre.cpu.pc + 2)
            &&& fp is Some
            &&& pre.cpu.keys[fp->0 as int] is KeyPress
            &&& sr.post.cpu.regs == pre.cpu.regs.update(x_of(w) as int % 16, fp->0)
        }),
{
    let instr = word_at(pre.cpu.mem, pre.cpu.pc as int);
    assert(0xF000 <= instr <= 0xFFFF);
    lemma_some_key_some(pre.cpu.keys, 0);
}

/// With some key pressed at or past `n`, the key scan finds a pressed
/// key.
proof fn lemma_some_key_some(keys: Seq<KeyEventKind>, n: int)
    requires
        0 <= n <= 16,
        exists|j: int| n <= j < 16 && keys[j] is KeyPress,
    ensures
        ({
            let fp = first_pressed_code(keys, n);
            &&& fp is Some
            &&& fp->0 < 16
            &&& keys[fp->0 as int] is KeyPress
        }),
    decreases 16 - n,
{
    if keys[n] is KeyPress {
    } else {
        let j = choose|j: int| n <= j < 16 && keys[j] is KeyPress;
        assert(n + 1 <= j < 16 && keys[j] is KeyPress);
        lemma_some_key_some(keys, n + 1);
    }
}

/// A register store followed by a load over the same range and address,
/// with the quirk off: the registers round-trip exactly and the index
/// register is left untouched.
pub proof fn lemma_store_load_round_trip(pre: ChipView, orc1: StepOracle, orc2: StepOracle)
    requires
        pre.wf(),
        pre.cpu.mem.len() == 4096,
        !pre.cosmic,
        op_of(word_at(pre.cpu.mem, pre.cpu.pc as int)) == 0xF,
        kk_of(word_at(pre.cpu.mem, pre.cpu.pc as int)) == 0x55,
        ({
            let mid = instr_step(pre, orc1).post;
            let w2 = word_at(mid.cpu.mem, mid.cpu.pc as int);
            &&& op_of(w2) == 0xF
            &&& kk_of(w2) == 0x65
            &&& x_of(w2) == x_of(word_at(pre.cpu.mem, pre.cpu.pc as int))
        }),
    ensures
        ({
            let mid = instr_step(pre, orc1).post;
            let fin = instr_step(mid, orc2).post;
            &&& instr_step(pre, orc1).err is NoError
            &&& instr_step(mid, orc2).err is NoError
            &&& mid.cpu.regs == pre.cpu.regs
            &&& fin.cpu.regs == pre.cpu.regs
            &&& fin.cpu.regi == pre.cpu.regi
        }),
{
    let w1 = word_at(pre.cpu.mem, pre.cpu.pc as int);
    assert(0xF000 <= w1 <= 0xFFFF);
    let x = x_of(w1);
    let mid = instr_step(pre, orc1).post;
    let w2 = word_at(mid.cpu.mem, mid.cpu.pc as int);
    assert(0xF000 <= w2 <= 0xFFFF);
    let mem2 = mem_store_seq(pre.cpu.mem, pre.cpu.regi as int, pre.cpu.regs.take(x as int + 1));
    assert(mid.cpu.mem == mem2);
    assert(mid.cpu.regi == pre.cpu.regi);
    assert(mid.cpu.regs == pre.cpu.regs);
    lemma_store_load_registers(pre.cpu.regs, pre.cpu.mem, pre.cpu.regi as int, x);
    let fin = instr_step(mid, orc2).post;
    assert(fin.cpu.regs =~= Seq::new(
        16,
        |j: int|
            if j <= x {
                mem_at(mem2, pre.cpu.regi + j)
            } else {
                pre.cpu.regs[j]
            },
    ));
}

/// With no key pressed, the key scan finds none.
proof fn lemma_no_key_none(keys: Seq<KeyEventKind>, n: int)
    requires
        0 <= n <= 16,
        forall|j: int| 0 <= j < 16 ==> !(keys[j] is KeyPress),
    ensures
        first_pressed_code(keys, n) is None,
    decreases 16 - n,
{
    if n < 16 {
        lemma_no_key_none(keys, n + 1);
    }
}

/// One instruction step takes `pre` to `post` with result `r` under the
/// outside outcomes `orc`.
pub open spec fn steps_to(pre: ChipView, post: ChipView, r: Result<(), Error>, orc: StepOracle) -> bool {
    let sr = instr_step(pre, orc);
    post == sr.post && r == as_result(sr.err)
}

/// One single-step call takes `pre` to `post` with error `r` under the
/// run-flag answer `running` and the outside outcomes `orc`.
pub open spec fn runs_to(
    pre: ChipView,
    post: ChipView,
    r: Error,
    running: Option<bool>,
    orc: StepOracle,
) -> bool {
    let sr = machine_step(pre, running, orc);
    post == sr.post && r == sr.err
}

} // verus!
