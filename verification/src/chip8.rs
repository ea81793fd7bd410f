//! The machine: shared execution state, the instruction engine, and the
//! single-step entry point.
//!
//! Three concurrent actors share a machine: the caller-driven step loop
//! and the two timer tasks.  They meet only in `CpuState`, whose run
//! flag and 8-bit counters sit behind per-field locks; every access is a
//! single short critical section, and a poisoned lock surfaces as a
//! distinct recoverable error per field.  The timer tasks themselves run
//! in the embedding application, which calls the verified tick functions
//! under the lock; the engine here only reads and writes the counters.

use vstd::prelude::*;
use vstd::string::StringSliceAdditionalSpecFns;
use std::sync::{Arc, Mutex};
use crate::aux::Auxillary;
use crate::cpu::{
    CpuView, DefaultCpu, DenseCpu, MemoryStick, hex_bytes, load_charfont, load_font, mask12,
    mem_at, mem_store, mem_store_seq, take_at_most, word_at,
};
use crate::errors::Error;
use crate::fonts::{C8_CLASSIC_FONT, FontPack};
use crate::graphics::PixMap;
use crate::keyboard::{Key, KeyEvent, KeyEventKind, Keyboard};
use crate::semantics::{
    ChipView, StepOracle, first_pressed_code, instr_step, machine_step, runs_to, steps_to,
};
use crate::sound::Sound;

verus! {

/// Microseconds between timer ticks: about 60 Hz.
pub const C8_TIMER_RATE_MICROS: u64 = 16700;

/// Microseconds per instruction step: the engine's target rate.
pub const C8_CPU_RATE_MICROS: u64 = 2000;

/// Relies on std's Mutex type: the per-field lock around each piece of
/// shared execution state.
#[verifier::external_type_specification]
#[verifier::external_body]
#[verifier::reject_recursive_types(T)]
pub struct ExMutex<T: ?Sized>(Mutex<T>);

/// Relies on std's Mutex::new: wraps a value in a fresh lock.  Nothing
/// is assumed about the lock's contents, which other threads may change.
pub assume_specification<T>[ Mutex::<T>::new ](t: T) -> Mutex<T>;

/// Relies on std's Mutex::lock: reads the value currently under the
/// lock, or reports a poisoned lock as `None`.  The value depends on
/// the other threads, so nothing is assumed about it.
#[verifier::external_body]
fn lock_read<T: Copy>(m: &Mutex<T>) -> Option<T> {
    match m.lock() {
        Ok(guard) => Some(*guard),
        Err(_) => None,
    }
}

/// Relies on std's Mutex::lock: replaces the value under the lock, or
/// reports a poisoned lock as `false`.
#[verifier::external_body]
fn lock_write<T>(m: &Mutex<T>, v: T) -> bool {
    match m.lock() {
        Ok(mut guard) => {
            *guard = v;
            true
        },
        Err(_) => false,
    }
}

/// The shared execution state: the run flag and the two timer counters,
/// each behind its own lock so the three actors never contend on more
/// than one field at a time.
#[derive(Clone)]
pub struct CpuState {
    executing: Arc<Mutex<bool>>,
    delay_timer: Arc<Mutex<u8>>,
    sound_timer: Arc<Mutex<u8>>,
}

impl CpuState {
    /// Fresh shared state: not running, both counters zero.
    pub fn new() -> CpuState {
        Self {
            executing: Arc::new(Mutex::new(false)),
            delay_timer: Arc::new(Mutex::new(0)),
            sound_timer: Arc::new(Mutex::new(0)),
        }
    }

    /// Clear the run flag; false when the flag's lock is poisoned.
    pub fn stop(&self) -> bool {
        lock_write(&self.executing, false)
    }

    /// Set the run flag; false when the flag's lock is poisoned.
    pub fn start(&self) -> bool {
        lock_write(&self.executing, true)
    }

    /// The run flag, or `None` when its lock is poisoned.
    pub fn is_running(&self) -> Option<bool> {
        lock_read(&self.executing)
    }

    /// The delay counter, or `None` when its lock is poisoned.
    pub(crate) fn read_delay(&self) -> Option<u8> {
        lock_read(&self.delay_timer)
    }

    /// Replace the delay counter; false when its lock is poisoned.
    pub(crate) fn write_delay(&self, v: u8) -> bool {
        lock_write(&self.delay_timer, v)
    }

    /// Replace the sound counter; false when its lock is poisoned.
    pub(crate) fn write_sound(&self, v: u8) -> bool {
        lock_write(&self.sound_timer, v)
    }

    /// The lock around the delay counter, for the delay-timer task.
    pub fn delay_cell(&self) -> &Arc<Mutex<u8>> {
        &self.delay_timer
    }

    /// The lock around the sound counter, for the sound-timer task.
    pub fn sound_cell(&self) -> &Arc<Mutex<u8>> {
        &self.sound_timer
    }
}

/// One tick of a timer counter: decrement toward zero, never below it.
pub fn timer_tick(v: u8) -> (r: u8)
    ensures
        r == (if v > 0 {
            (v - 1) as u8
        } else {
            0u8
        }),
{
    if v > 0 {
        v - 1
    } else {
        0
    }
}

/// One tick of the sound task's critical section: decrement the counter
/// toward zero and drive the sound device, playing exactly while the
/// counter is positive.
pub fn sound_tick(v: u8, sound_pack: &mut Sound) -> (r: u8)
    ensures
        r == (if v > 0 {
            (v - 1) as u8
        } else {
            0u8
        }),
        final(sound_pack).spec_playing() == (v > 0),
{
    if v > 0 {
        sound_pack.safeplay();
        v - 1
    } else {
        sound_pack.safepause();
        0
    }
}

/// The machine: the CPU, the shared execution state, and the quirk
/// flag fixed at construction.
pub struct Chip8 {
    pub cpu: DefaultCpu,
    state: CpuState,
    cosmic: bool,
    needs_key: bool,
}

impl View for Chip8 {
    type V = ChipView;

    closed spec fn view(&self) -> ChipView {
        ChipView { cpu: self.cpu@, cosmic: self.cosmic, needs_key: self.needs_key }
    }
}

/// A machine over a standard 4096-byte memory with the given devices.
pub fn chip8_cpu(cosmic: bool, graphics_pack: PixMap, sound_pack: Sound) -> (r: Chip8)
    requires
        graphics_pack.wf(),
    ensures
        r.wf(),
        r@.cosmic == cosmic,
        !r@.needs_key,
        r@.cpu.pc == 0x200,
        r@.cpu.regi == 0,
        forall|j: int| 0 <= j < 16 ==> #[trigger] r@.cpu.regs[j] == 0,
        r@.cpu.mem.len() == 4096,
        forall|a: int| 0 <= a < 4096 ==> #[trigger] r@.cpu.mem[a] == 0,
        r@.cpu.stack.len() == 0,
        forall|i: int| 0 <= i < 16 ==> r@.cpu.keys[i] == KeyEventKind::KeyDefault,
        r@.cpu.pix == graphics_pack.spec_pixels(),
        r@.cpu.sound_playing == sound_pack.spec_playing(),
{
    Chip8::new(DefaultCpu::new(MemoryStick::open(), Auxillary::pack(graphics_pack, sound_pack)), cosmic)
}

/// A machine with a blank display and silent sound, loaded with the
/// font encoded by `font`.
pub fn custom_chip8(cosmic: bool, font: &str) -> (r: Chip8)
    ensures
        r.wf(),
        r@.cosmic == cosmic,
        !r@.needs_key,
        r@.cpu.pc == 0x200,
        r@.cpu.regi == 0,
        forall|j: int| 0 <= j < 16 ==> #[trigger] r@.cpu.regs[j] == 0,
        r@.cpu.mem == mem_store_seq(
            Seq::new(4096, |a: int| 0u8),
            0,
            take_at_most(hex_bytes(font.spec_bytes()), 80),
        ),
        r@.cpu.stack.len() == 0,
        forall|i: int| 0 <= i < 16 ==> r@.cpu.keys[i] == KeyEventKind::KeyDefault,
        forall|p: int| 0 <= p < 2048 ==> #[trigger] r@.cpu.pix[p] == 0,
        !r@.cpu.sound_playing,
{
    let mut machine = chip8_cpu(cosmic, PixMap::pack(), Sound::pack());
    proof {
        assert(machine@.cpu.mem =~= Seq::new(4096, |a: int| 0u8));
    }
    machine.using_font(font);
    machine
}

/// The standard machine with the classic font and strict semantics.
pub fn default_chip8_cpu() -> (r: Chip8)
    ensures
        r.wf(),
        !r@.cosmic,
        !r@.needs_key,
        r@.cpu.pc == 0x200,
        r@.cpu.regi == 0,
        forall|j: int| 0 <= j < 16 ==> #[trigger] r@.cpu.regs[j] == 0,
        r@.cpu.mem == mem_store_seq(
            Seq::new(4096, |a: int| 0u8),
            0,
            take_at_most(hex_bytes(C8_CLASSIC_FONT.spec_bytes()), 80),
        ),
        r@.cpu.stack.len() == 0,
        forall|i: int| 0 <= i < 16 ==> r@.cpu.keys[i] == KeyEventKind::KeyDefault,
        forall|p: int| 0 <= p < 2048 ==> #[trigger] r@.cpu.pix[p] == 0,
        !r@.cpu.sound_playing,
{
    custom_chip8(false, C8_CLASSIC_FONT)
}

/// The standard machine with the classic font and legacy-quirks
/// semantics.
pub fn cosmic_chip8_cpu() -> (r: Chip8)
    ensures
        r.wf(),
        r@.cosmic,
        !r@.needs_key,
        r@.cpu.pc == 0x200,
        r@.cpu.regi == 0,
        forall|j: int| 0 <= j < 16 ==> #[trigger] r@.cpu.regs[j] == 0,
        r@.cpu.mem == mem_store_seq(
            Seq::new(4096, |a: int| 0u8),
            0,
            take_at_most(hex_bytes(C8_CLASSIC_FONT.spec_bytes()), 80),
        ),
        r@.cpu.stack.len() == 0,
        forall|i: int| 0 <= i < 16 ==> r@.cpu.keys[i] == KeyEventKind::KeyDefault,
        forall|p: int| 0 <= p < 2048 ==> #[trigger] r@.cpu.pix[p] == 0,
        !r@.cpu.sound_playing,
{
    custom_chip8(true, C8_CLASSIC_FONT)
}

impl Chip8 {
    pub open spec fn wf(&self) -> bool {
        self@.wf()
    }

    /// A machine around an existing CPU; the quirk flag never changes
    /// afterwards.
    pub fn new(cpu: DefaultCpu, cosmic: bool) -> (r: Self)
        ensures
            r@.cpu == cpu@,
            r@.cosmic == cosmic,
            !r@.needs_key,
    {
        Self { cpu, state: CpuState::new(), cosmic, needs_key: false }
    }

    /// The keyboard snapshot.
    pub fn keyboard(&self) -> (r: &Keyboard)
        ensures
            r.spec_keys() == self@.cpu.keys,
    {
        self.cpu.aux().keyboard()
    }

    /// The keyboard snapshot, for the embedding application to inject
    /// events into.
    pub fn keyboard_mut(&mut self) -> (r: &mut Keyboard)
        ensures
            (*r).spec_keys() == old(self)@.cpu.keys,
            final(self)@ == (ChipView {
                cpu: (CpuView { keys: final(r).spec_keys(), ..old(self)@.cpu }),
                ..old(self)@
            }),
    {
        self.cpu.keyboard_mut()
    }

    /// The machine, with the font of `font` copied to the bottom of
    /// memory.
    pub fn with_font_pack(self, font: FontPack) -> (r: Self)
        requires
            self.wf(),
        ensures
            r.wf(),
            r@ == (ChipView {
                cpu: (CpuView {
                    mem: mem_store_seq(self@.cpu.mem, 0, font.spec_fonts().spec_bytes()),
                    ..self@.cpu
                }),
                ..self@
            }),
    {
        let mut machine = self;
        machine.using_font_pack(font);
        machine
    }

    /// The machine, with the font encoded by `font` loaded at the
    /// bottom of memory.
    pub fn with_font(self, font: &str) -> (r: Self)
        requires
            self.wf(),
        ensures
            r.wf(),
            r@ == (ChipView {
                cpu: (CpuView {
                    mem: mem_store_seq(
                        self@.cpu.mem,
                        0,
                        take_at_most(hex_bytes(font.spec_bytes()), 80),
                    ),
                    ..self@.cpu
                }),
                ..self@
            }),
    {
        let mut machine = self;
        machine.using_font(font);
        machine
    }

    /// Copy the font of `font` to the bottom of memory.
    pub fn using_font_pack(&mut self, font: FontPack)
        requires
            old(self).wf(),
        ensures
            final(self).wf(),
            final(self)@ == (ChipView {
                cpu: (CpuView {
                    mem: mem_store_seq(old(self)@.cpu.mem, 0, font.spec_fonts().spec_bytes()),
                    ..old(self)@.cpu
                }),
                ..old(self)@
            }),
    {
        let m = self.cpu.memory_mut();
        m.fill(0, font.fonts.arena())
    }

    /// Load the font encoded by `font` at the bottom of memory.
    pub fn using_font(&mut self, font: &str)
        requires
            old(self).wf(),
        ensures
            final(self).wf(),
            final(self)@ == (ChipView {
                cpu: (CpuView {
                    mem: mem_store_seq(
                        old(self)@.cpu.mem,
                        0,
                        take_at_most(hex_bytes(font.spec_bytes()), 80),
                    ),
                    ..old(self)@.cpu
                }),
                ..old(self)@
            }),
    {
        load_font(self.cpu.memory_mut(), font)
    }

    /// Load one 5-byte glyph for the hex digit `ch`.
    pub fn set_char_font(&mut self, ch: u8, font: &str)
        requires
            old(self).wf(),
        ensures
            final(self).wf(),
            final(self)@ == (ChipView {
                cpu: (CpuView {
                    mem: mem_store_seq(
                        old(self)@.cpu.mem,
                        (ch % 16) as int * 5,
                        take_at_most(hex_bytes(font.spec_bytes()), 5),
                    ),
                    ..old(self)@.cpu
                }),
                ..old(self)@
            }),
    {
        load_charfont(self.cpu.memory_mut(), ch, font)
    }

    /// Load a program from its hexadecimal text at the program start.
    pub fn load_program(&mut self, hex: &str)
        requires
            old(self).wf(),
        ensures
            final(self).wf(),
            final(self)@ == (ChipView {
                cpu: (CpuView {
                    mem: mem_store_seq(old(self)@.cpu.mem, 0x200, hex_bytes(hex.spec_bytes())),
                    ..old(self)@.cpu
                }),
                ..old(self)@
            }),
    {
        self.cpu.memory_mut().load_hex(0x200, hex);
    }

    /// Load a raw program image at the program start.
    pub fn load_program_binary(&mut self, hex: &[u8])
        requires
            old(self).wf(),
        ensures
            final(self).wf(),
            final(self)@ == (ChipView {
                cpu: (CpuView {
                    mem: mem_store_seq(old(self)@.cpu.mem, 0x200, hex@),
                    ..old(self)@.cpu
                }),
                ..old(self)@
            }),
    {
        self.cpu.memory_mut().load_binary(0x200, hex);
    }

    /// A handle on the shared execution state, for the timer tasks.
    pub fn cpu_state(&self) -> CpuState {
        self.state.clone()
    }

    /// The display buffer.
    pub fn graphics(&self) -> (r: &PixMap)
        ensures
            r.spec_pixels() == self@.cpu.pix,
            r.spec_dirty() == self@.cpu.pix_dirty,
    {
        self.cpu.aux().graphics()
    }

    /// The display buffer, for the renderer to consume and flush.
    pub fn graphics_mut(&mut self) -> (r: &mut PixMap)
        ensures
            (*r).spec_pixels() == old(self)@.cpu.pix,
            (*r).spec_dirty() == old(self)@.cpu.pix_dirty,
            final(self)@ == (ChipView {
                cpu: (CpuView {
                    pix: final(r).spec_pixels(),
                    pix_dirty: final(r).spec_dirty(),
                    ..old(self)@.cpu
                }),
                ..old(self)@
            }),
    {
        let a = self.cpu.aux_mut();
        a.graphics_mut()
    }

    /// Begin execution: set the run flag and reset the program counter
    /// to the program start.  The embedding application then launches
    /// the two timer tasks on the shared state.
    pub fn start(&mut self) -> (r: Result<(), Error>)
        requires
            old(self).wf(),
        ensures
            final(self).wf(),
            r is Ok ==> final(self)@ == (ChipView {
                cpu: (CpuView { pc: 0x200, ..old(self)@.cpu }),
                ..old(self)@
            }),
            r is Err ==> (r == Err::<(), Error>(Error::ExecutionLocked) && final(self)@ == old(
                self,
            )@),
    {
        if !self.state.start() {
            return Err(Error::ExecutionLocked);
        }
        self.cpu.jump(0x200);
        Ok(())
    }

    /// End execution: clear the run flag, which both timer tasks
    /// observe within one tick.  The embedding application joins them.
    pub fn close(&mut self)
        ensures
            final(self)@ == old(self)@,
    {
        self.state.stop();
    }

    /// Draw one sprite row at row `yrow`: toggle a pixel for each set
    /// bit, clipping at the right edge.  Returns whether any toggle hit
    /// a pixel that was on, and whether any pixel was toggled.
    fn draw_row_exec(&mut self, x0: u8, yrow: u8, sprite: u8) -> (res: (bool, bool))
        requires
            old(self).wf(),
            x0 < 64,
            yrow < 32,
        ensures
            final(self).wf(),
            ({
                let (pf, hf, tf) = crate::semantics::draw_row(
                    old(self)@.cpu.pix,
                    x0 as int,
                    yrow as int,
                    sprite,
                    0,
                );
                &&& final(self)@ == (ChipView {
                    cpu: (CpuView {
                        pix: pf,
                        pix_dirty: (old(self)@.cpu.pix_dirty || tf),
                        ..old(self)@.cpu
                    }),
                    ..old(self)@
                })
                &&& res.0 == hf
                &&& res.1 == tf
            }),
    {
        let mut hit = false;
        let mut touched = false;
        let mut k: u8 = 0;
        while k < 8 && x0 + k < 64
            invariant
                self.wf(),
                x0 < 64,
                yrow < 32,
                k <= 8,
                self@ == (ChipView {
                    cpu: (CpuView {
                        pix: self@.cpu.pix,
                        pix_dirty: self@.cpu.pix_dirty,
                        ..old(self)@.cpu
                    }),
                    ..old(self)@
                }),
                self@.cpu.pix_dirty == (old(self)@.cpu.pix_dirty || touched),
                ({
                    let (pf, hf, tf) = crate::semantics::draw_row(
                        old(self)@.cpu.pix,
                        x0 as int,
                        yrow as int,
                        sprite,
                        0,
                    );
                    let (pr, hr, tr) = crate::semantics::draw_row(
                        self@.cpu.pix,
                        x0 as int,
                        yrow as int,
                        sprite,
                        k as int,
                    );
                    &&& pf == pr
                    &&& hf == (hit || hr)
                    &&& tf == (touched || tr)
                }),
            decreases 8 - k,
        {
            let shift: u8 = 7 - k;
            let bit = (sprite >> shift) & 1;
            proof {
                assert((sprite >> shift) & 1 <= 1) by (bit_vector);
                assert(crate::semantics::sprite_bit(sprite, k as int) == (bit == 1));
            }
            let ghost pixb = self@.cpu.pix;
            let h = self.cpu.pixel_decide(x0 + k, yrow, bit);
            if h {
                hit = true;
            }
            if bit > 0 {
                touched = true;
            }
            proof {
                assert((yrow as int) % 32 == yrow as int);
                assert(((x0 + k) as int) % 64 == x0 as int + k as int);
                let step = crate::semantics::draw_row(pixb, x0 as int, yrow as int, sprite, k as int);
                let next = crate::semantics::draw_row(
                    self@.cpu.pix,
                    x0 as int,
                    yrow as int,
                    sprite,
                    k as int + 1,
                );
                assert(step.0 == next.0 && step.1 == ((bit == 1 && pixb[yrow * 64 + x0 + k] > 0)
                    || next.1) && step.2 == ((bit == 1) || next.2));
            }
            k = k + 1;
        }
        proof {
            let base = crate::semantics::draw_row(
                self@.cpu.pix,
                x0 as int,
                yrow as int,
                sprite,
                k as int,
            );
            assert(base.0 == self@.cpu.pix && !base.1 && !base.2);
        }
        (hit, touched)
    }

    /// Draw a sprite of `height` rows read from memory at `i`, starting
    /// at the wrapped coordinates, stopping at the bottom edge.  Returns
    /// whether any toggle hit a pixel that was on.
    fn draw_sprite_exec(&mut self, x0: u8, y0: u8, i: u16, height: u8) -> (set: bool)
        requires
            old(self).wf(),
            x0 < 64,
            y0 < 32,
            i < 0x1000,
        ensures
            final(self).wf(),
            ({
                let rows = if height as int <= 32 - y0 as int {
                    height as int
                } else {
                    32 - y0 as int
                };
                let (pf, cf, tf) = crate::semantics::draw_sprite(
                    old(self)@.cpu.pix,
                    old(self)@.cpu.mem,
                    i as int,
                    x0 as int,
                    y0 as int,
                    rows,
                    0,
                );
                &&& final(self)@ == (ChipView {
                    cpu: (CpuView {
                        pix: pf,
                        pix_dirty: (old(self)@.cpu.pix_dirty || tf),
                        ..old(self)@.cpu
                    }),
                    ..old(self)@
                })
                &&& set == cf
            }),
    {
        let ghost rows = if height as int <= 32 - y0 as int {
            height as int
        } else {
            32 - y0 as int
        };
        let mut set = false;
        let mut touched = false;
        let mut r: u8 = 0;
        while r < height && y0 + r < 32
            invariant
                self.wf(),
                x0 < 64,
                y0 < 32,
                i < 0x1000,
                r <= height,
                y0 as int + r as int <= 32,
                rows == (if height as int <= 32 - y0 as int {
                    height as int
                } else {
                    32 - y0 as int
                }),
                r as int <= rows,
                self@ == (ChipView {
                    cpu: (CpuView {
                        pix: self@.cpu.pix,
                        pix_dirty: self@.cpu.pix_dirty,
                        ..old(self)@.cpu
                    }),
                    ..old(self)@
                }),
                self@.cpu.pix_dirty == (old(self)@.cpu.pix_dirty || touched),
                ({
                    let (pf, cf, tf) = crate::semantics::draw_sprite(
                        old(self)@.cpu.pix,
                        old(self)@.cpu.mem,
                        i as int,
                        x0 as int,
                        y0 as int,
                        rows,
                        0,
                    );
                    let (pr, cr, tr) = crate::semantics::draw_sprite(
                        self@.cpu.pix,
                        old(self)@.cpu.mem,
                        i as int,
                        x0 as int,
                        y0 as int,
                        rows,
                        r as int,
                    );
                    &&& pf == pr
                    &&& cf == (set || cr)
                    &&& tf == (touched || tr)
                }),
            decreases height - r,
        {
            let sprite = self.cpu.memory().derefrence(i + r as u16);
            let ghost pixb = self@.cpu.pix;
            let (h, t) = self.draw_row_exec(x0, y0 + r, sprite);
            if h {
                set = true;
            }
            if t {
                touched = true;
            }
            proof {
                let step = crate::semantics::draw_sprite(
                    pixb,
                    old(self)@.cpu.mem,
                    i as int,
                    x0 as int,
                    y0 as int,
                    rows,
                    r as int,
                );
                let row = crate::semantics::draw_row(
                    pixb,
                    x0 as int,
                    y0 as int + r as int,
                    mem_at(old(self)@.cpu.mem, i as int + r as int),
                    0,
                );
                let next = crate::semantics::draw_sprite(
                    self@.cpu.pix,
                    old(self)@.cpu.mem,
                    i as int,
                    x0 as int,
                    y0 as int,
                    rows,
                    r as int + 1,
                );
                assert(step.0 == next.0 && step.1 == (row.1 || next.1) && step.2 == (row.2
                    || next.2));
            }
            r = r + 1;
        }
        proof {
            let base = crate::semantics::draw_sprite(
                self@.cpu.pix,
                old(self)@.cpu.mem,
                i as int,
                x0 as int,
                y0 as int,
                rows,
                r as int,
            );
            assert(base.0 == self@.cpu.pix && !base.1 && !base.2);
        }
        set
    }

    /// The key-wait scan: copy the lowest-coded pressed key into
    /// register X, or mark the machine as still waiting.
    fn wait_for_key_handler(&mut self, instruction: u16) -> (r: bool)
        requires
            old(self).wf(),
        ensures
            final(self).wf(),
            (match first_pressed_code(old(self)@.cpu.keys, 0) {
                Some(c) => r && final(self)@ == (ChipView {
                    needs_key: false,
                    ..old(self)@.set_reg(crate::semantics::x_of(instruction), c)
                }),
                None => !r && final(self)@ == (ChipView { needs_key: true, ..old(self)@ }),
            }),
    {
        let x = ((instruction / 0x100) % 16) as u8;
        let fp = self.cpu.aux().keyboard().first_pressed();
        match fp {
            Some(ev) => {
                let code = ev.key.into_byte();
                proof {
                    lemma_first_pressed_some(self@.cpu.keys, 0, code as int);
                }
                self.cpu.set_register(x, code);
                self.needs_key = false;
                true
            },
            None => {
                proof {
                    lemma_first_pressed_none(self@.cpu.keys, 0);
                }
                self.needs_key = true;
                false
            },
        }
    }

    /// Fetch, decode and execute the instruction at the program
    /// counter.  The program counter is advanced past the word before
    /// the opcode body runs, so skip opcodes add one further step.
    #[verifier::rlimit(100)]
    pub fn execute_instruction(&mut self) -> (r: Result<(), Error>)
        requires
            old(self).wf(),
        ensures
            final(self).wf(),
            exists|orc: StepOracle| steps_to(old(self)@, final(self)@, r, orc),
    {
        let ghost pre = self@;
        let ghost plain = StepOracle {
            rnd: 0,
            delay_read: None,
            delay_write_ok: false,
            sound_write_ok: false,
        };
        let instruction = self.cpu.instruction();
        self.cpu.inc_instruction();
        let x = ((instruction / 0x100) % 16) as u8;
        let y = ((instruction / 0x10) % 16) as u8;
        let kk = (instruction % 0x100) as u8;
        let n = (instruction % 16) as u8;
        match instruction {
            0x00E0 => {
                self.cpu.clear_display();
                proof {
                    assert(steps_to(pre, self@, Ok::<(), Error>(()), plain));
                }
                Ok(())
            },
            0x00EE => {
                if self.cpu.ret() {
                    proof {
                        assert(steps_to(pre, self@, Ok::<(), Error>(()), plain));
                    }
                    Ok(())
                } else {
                    proof {
                        assert(steps_to(
                            pre,
                            self@,
                            Err::<(), Error>(Error::StackUnderflow),
                            plain,
                        ));
                    }
                    Err(Error::StackUnderflow)
                }
            },
            0x00FD => {
                proof {
                    assert(steps_to(pre, self@, Ok::<(), Error>(()), plain));
                }
                Ok(())
            },
            _ => {
                let op = ((instruction / 0x1000) % 16) as u8;
                match op {
                    0x0 | 0x1 => {
                        self.cpu.jump(instruction);
                        proof {
                            assert(steps_to(pre, self@, Ok::<(), Error>(()), plain));
                        }
                        Ok(())
                    },
                    0x2 => {
                        self.cpu.call(instruction);
                        proof {
                            assert(steps_to(pre, self@, Ok::<(), Error>(()), plain));
                        }
                        Ok(())
                    },
                    0x3 => {
                        if *self.cpu.register(x) == kk {
                            self.cpu.inc_instruction();
                        }
                        proof {
                            assert(steps_to(pre, self@, Ok::<(), Error>(()), plain));
                        }
                        Ok(())
                    },
                    0x4 => {
                        if *self.cpu.register(x) != kk {
                            self.cpu.inc_instruction();
                        }
                        proof {
                            assert(steps_to(pre, self@, Ok::<(), Error>(()), plain));
                        }
                        Ok(())
                    },
                    0x5 => {
                        if n != 0 {
                            proof {
                                assert(steps_to(
                                    pre,
                                    self@,
                                    Err::<(), Error>(Error::InvalidInstruction),
                                    plain,
                                ));
                            }
                            return Err(Error::InvalidInstruction);
                        }
                        if *self.cpu.register(x) == *self.cpu.register(y) {
                            self.cpu.inc_instruction();
                        }
                        proof {
                            assert(steps_to(pre, self@, Ok::<(), Error>(()), plain));
                        }
                        Ok(())
                    },
                    0x6 => {
                        self.cpu.set_register(x, kk);
                        proof {
                            assert(steps_to(pre, self@, Ok::<(), Error>(()), plain));
                        }
                        Ok(())
                    },
                    0x7 => {
                        let rx = *self.cpu.register(x);
                        let sum: u16 = rx as u16 + kk as u16;
                        self.cpu.set_register(x, (sum % 256) as u8);
                        proof {
                            assert(steps_to(pre, self@, Ok::<(), Error>(()), plain));
                        }
                        Ok(())
                    },
                    0x8 => self.execute_alu(Ghost(pre), instruction, x, y, n),
                    0x9 => {
                        if n != 0 {
                            proof {
                                assert(steps_to(
                                    pre,
                                    self@,
                                    Err::<(), Error>(Error::InvalidInstruction),
                                    plain,
                                ));
                            }
                            return Err(Error::InvalidInstruction);
                        }
                        if *self.cpu.register(x) != *self.cpu.register(y) {
                            self.cpu.inc_instruction();
                        }
                        proof {
                            assert(steps_to(pre, self@, Ok::<(), Error>(()), plain));
                        }
                        Ok(())
                    },
                    0xA => {
                        self.cpu.set_register_i(instruction % 0x1000);
                        proof {
                            assert(steps_to(pre, self@, Ok::<(), Error>(()), plain));
                        }
                        Ok(())
                    },
                    0xB => {
                        if self.cosmic {
                            self.cpu.jump(instruction);
                            let r0 = *self.cpu.register(0);
                            self.cpu.jumpn(r0 as u16);
                        } else {
                            self.cpu.jump(instruction);
                            let rx = *self.cpu.register(x);
                            self.cpu.jumpn(rx as u16);
                        }
                        proof {
                            vstd::arithmetic::div_mod::lemma_add_mod_noop(
                                instruction as int,
                                (if pre.cosmic {
                                    pre.advance().reg(0)
                                } else {
                                    pre.advance().reg(crate::semantics::x_of(instruction))
                                }) as int,
                                4096,
                            );
                            vstd::arithmetic::div_mod::lemma_mod_twice(instruction as int, 4096);
                            assert(steps_to(pre, self@, Ok::<(), Error>(()), plain));
                        }
                        Ok(())
                    },
                    0xC => {
                        let rb = self.cpu.random();
                        self.cpu.set_register(x, rb & kk);
                        proof {
                            assert(steps_to(
                                pre,
                                self@,
                                Ok::<(), Error>(()),
                                StepOracle { rnd: rb, ..plain },
                            ));
                        }
                        Ok(())
                    },
                    0xD => {
                        let rx = *self.cpu.register(x);
                        let ry = *self.cpu.register(y);
                        let x0 = rx % 64;
                        let y0 = ry % 32;
                        let i = self.cpu.register_i();
                        let set = self.draw_sprite_exec(x0, y0, i, n);
                        if set {
                            self.cpu.set_register(0xF, 1);
                        } else {
                            self.cpu.set_register(0xF, 0);
                        }
                        proof {
                            assert(steps_to(pre, self@, Ok::<(), Error>(()), plain));
                        }
                        Ok(())
                    },
                    0xE => {
                        if kk == 0x9E || kk == 0xA1 {
                            let rx = *self.cpu.register(x);
                            let code = rx % 16;
                            let k = match Key::from_byte(code) {
                                Some(k) => k,
                                None => {
                                    proof {
                                        assert(false);
                                    }
                                    Key::A
                                },
                            };
                            let pressed = self.cpu.aux().keyboard().is_pressed(k);
                            if (kk == 0x9E && pressed) || (kk == 0xA1 && !pressed) {
                                self.cpu.inc_instruction();
                            }
                            proof {
                                assert(steps_to(pre, self@, Ok::<(), Error>(()), plain));
                            }
                            Ok(())
                        } else {
                            proof {
                                assert(steps_to(
                                    pre,
                                    self@,
                                    Err::<(), Error>(Error::InvalidInstruction),
                                    plain,
                                ));
                            }
                            Err(Error::InvalidInstruction)
                        }
                    },
                    0xF => self.execute_misc(Ghost(pre), instruction, x, kk),
                    _ => {
                        proof {
                            assert(steps_to(
                                pre,
                                self@,
                                Err::<(), Error>(Error::InvalidInstruction),
                                plain,
                            ));
                        }
                        Err(Error::InvalidInstruction)
                    },
                }
            },
        }
    }

    /// The ALU opcode family on registers X and Y.
    #[verifier::rlimit(100)]
    fn execute_alu(&mut self, Ghost(pre): Ghost<ChipView>, instruction: u16, x: u8, y: u8, n: u8) -> (r:
        Result<(), Error>)
        requires
            old(self).wf(),
            pre.wf(),
            old(self)@ == pre.advance(),
            crate::semantics::op_of(word_at(pre.cpu.mem, pre.cpu.pc as int)) == 8,
            word_at(pre.cpu.mem, pre.cpu.pc as int) == instruction,
            x == crate::semantics::x_of(instruction),
            y == crate::semantics::y_of(instruction),
            n == crate::semantics::n_of(instruction),
        ensures
            final(self).wf(),
            exists|orc: StepOracle| steps_to(pre, final(self)@, r, orc),
    {
        let ghost plain = StepOracle {
            rnd: 0,
            delay_read: None,
            delay_write_ok: false,
            sound_write_ok: false,
        };
        match n {
            0x0 => {
                let ry = *self.cpu.register(y);
                self.cpu.set_register(x, ry);
            },
            0x1 => {
                let rx = *self.cpu.register(x);
                let ry = *self.cpu.register(y);
                self.cpu.set_register(x, rx | ry);
            },
            0x2 => {
                let rx = *self.cpu.register(x);
                let ry = *self.cpu.register(y);
                self.cpu.set_register(x, rx & ry);
            },
            0x3 => {
                let rx = *self.cpu.register(x);
                let ry = *self.cpu.register(y);
                self.cpu.set_register(x, rx ^ ry);
            },
            0x4 => {
                let rx = *self.cpu.register(x);
                let ry = *self.cpu.register(y);
                let sum: u16 = rx as u16 + ry as u16;
                self.cpu.set_register(x, (sum % 256) as u8);
                if sum > 255 {
                    self.cpu.set_register(0xF, 1);
                } else {
                    self.cpu.set_register(0xF, 0);
                }
            },
            0x5 => {
                let rx = *self.cpu.register(x);
                let ry = *self.cpu.register(y);
                if rx > ry {
                    self.cpu.set_register(0xF, 1);
                } else {
                    self.cpu.set_register(0xF, 0);
                }
                let rx2 = *self.cpu.register(x);
                let ry2 = *self.cpu.register(y);
                let res: u16 = (rx2 as u16 + 256 - ry2 as u16) % 256;
                self.cpu.set_register(x, res as u8);
                proof {
                    vstd::arithmetic::div_mod::lemma_mod_add_multiples_vanish(
                        rx2 as int - ry2 as int,
                        256,
                    );
                }
            },
            0x6 => {
                if self.cosmic {
                    let ry = *self.cpu.register(y);
                    self.cpu.set_register(x, ry);
                }
                let rx = *self.cpu.register(x);
                if rx % 2 == 1 {
                    self.cpu.set_register(0xF, 1);
                } else {
                    self.cpu.set_register(0xF, 0);
                }
                let rx2 = *self.cpu.register(x);
                self.cpu.set_register(x, rx2 / 2);
            },
            0x7 => {
                let rx = *self.cpu.register(x);
                let ry = *self.cpu.register(y);
                if ry > rx {
                    self.cpu.set_register(0xF, 1);
                } else {
                    self.cpu.set_register(0xF, 0);
                }
                let rx2 = *self.cpu.register(x);
                let ry2 = *self.cpu.register(y);
                let res: u16 = (ry2 as u16 + 256 - rx2 as u16) % 256;
                self.cpu.set_register(x, res as u8);
                proof {
                    vstd::arithmetic::div_mod::lemma_mod_add_multiples_vanish(
                        ry2 as int - rx2 as int,
                        256,
                    );
                }
            },
            0xE => {
                if self.cosmic {
                    let ry = *self.cpu.register(y);
                    self.cpu.set_register(x, ry);
                }
                let rx = *self.cpu.register(x);
                if rx >= 128 {
                    self.cpu.set_register(0xF, 1);
                } else {
                    self.cpu.set_register(0xF, 0);
                }
                let rx2 = *self.cpu.register(x);
                let dbl: u16 = (rx2 as u16 * 2) % 256;
                self.cpu.set_register(x, dbl as u8);
            },
            _ => {
                proof {
                    assert(steps_to(pre, self@, Err::<(), Error>(Error::InvalidInstruction), plain));
                }
                return Err(Error::InvalidInstruction);
            },
        }
        proof {
            assert(steps_to(pre, self@, Ok::<(), Error>(()), plain));
        }
        Ok(())
    }

    /// The timer, key-wait, index and register-transfer opcode family.
    #[verifier::rlimit(100)]
    fn execute_misc(&mut self, Ghost(pre): Ghost<ChipView>, instruction: u16, x: u8, kk: u8) -> (r:
        Result<(), Error>)
        requires
            old(self).wf(),
            pre.wf(),
            old(self)@ == pre.advance(),
            crate::semantics::op_of(word_at(pre.cpu.mem, pre.cpu.pc as int)) == 0xF,
            word_at(pre.cpu.mem, pre.cpu.pc as int) == instruction,
            x == crate::semantics::x_of(instruction),
            kk == crate::semantics::kk_of(instruction),
        ensures
            final(self).wf(),
            exists|orc: StepOracle| steps_to(pre, final(self)@, r, orc),
    {
        let ghost plain = StepOracle {
            rnd: 0,
            delay_read: None,
            delay_write_ok: false,
            sound_write_ok: false,
        };
        match kk {
            0x07 => {
                match self.state.read_delay() {
                    Some(wv) => {
                        self.cpu.set_register(x, wv);
                        proof {
                            assert(steps_to(
                                pre,
                                self@,
                                Ok::<(), Error>(()),
                                StepOracle { delay_read: Some(wv), ..plain },
                            ));
                        }
                        Ok(())
                    },
                    None => {
                        proof {
                            assert(steps_to(
                                pre,
                                self@,
                                Err::<(), Error>(Error::DelayTimerLocked),
                                plain,
                            ));
                        }
                        Err(Error::DelayTimerLocked)
                    },
                }
            },
            0x0A => {
                if !self.wait_for_key_handler(instruction) {
                    self.cpu.dec_instruction();
                }
                proof {
                    assert(steps_to(pre, self@, Ok::<(), Error>(()), plain));
                }
                Ok(())
            },
            0x15 => {
                let byte = *self.cpu.register(x);
                if self.state.write_delay(byte) {
                    proof {
                        assert(steps_to(
                            pre,
                            self@,
                            Ok::<(), Error>(()),
                            StepOracle { delay_write_ok: true, ..plain },
                        ));
                    }
                    Ok(())
                } else {
                    proof {
                        assert(steps_to(
                            pre,
                            self@,
                            Err::<(), Error>(Error::DelayTimerLocked),
                            plain,
                        ));
                    }
                    Err(Error::DelayTimerLocked)
                }
            },
            0x18 => {
                let byte = *self.cpu.register(x);
                if self.state.write_sound(byte) {
                    proof {
                        assert(steps_to(
                            pre,
                            self@,
                            Ok::<(), Error>(()),
                            StepOracle { sound_write_ok: true, ..plain },
                        ));
                    }
                    Ok(())
                } else {
                    proof {
                        assert(steps_to(
                            pre,
                            self@,
                            Err::<(), Error>(Error::SoundTimerLocked),
                            plain,
                        ));
                    }
                    Err(Error::SoundTimerLocked)
                }
            },
            0x1E => {
                let rx = *self.cpu.register(x);
                let sum: u16 = rx as u16 + self.cpu.register_i();
                if !self.cosmic {
                    if sum > 0xFFF {
                        self.cpu.set_register(0xF, 1);
                    } else {
                        self.cpu.set_register(0xF, 0);
                    }
                }
                self.cpu.set_register_i(sum);
                proof {
                    assert(steps_to(pre, self@, Ok::<(), Error>(()), plain));
                }
                Ok(())
            },
            0x29 => {
                let rx = *self.cpu.register(x);
                let glyph: u16 = ((rx % 16) as u16) * 5;
                self.cpu.set_register_i(glyph);
                proof {
                    assert(steps_to(pre, self@, Ok::<(), Error>(()), plain));
                }
                Ok(())
            },
            0x33 => {
                let val = *self.cpu.register(x);
                let i = self.cpu.register_i();
                self.cpu.store_byte(i, val / 100);
                self.cpu.store_byte(i + 1, (val / 10) % 10);
                self.cpu.store_byte(i + 2, val % 10);
                proof {
                    assert(steps_to(pre, self@, Ok::<(), Error>(()), plain));
                }
                Ok(())
            },
            0x65 => {
                let addr = self.cpu.register_i();
                self.cpu.fill_registers(addr, x);
                if self.cosmic {
                    self.cpu.set_register_i(addr + x as u16 + 1);
                }
                proof {
                    assert(steps_to(pre, self@, Ok::<(), Error>(()), plain));
                }
                Ok(())
            },
            0x55 => {
                let addr = self.cpu.register_i();
                self.cpu.load_registers(addr, x);
                if self.cosmic {
                    self.cpu.set_register_i(addr + x as u16 + 1);
                }
                proof {
                    assert(steps_to(pre, self@, Ok::<(), Error>(()), plain));
                }
                Ok(())
            },
            _ => {
                proof {
                    assert(steps_to(pre, self@, Err::<(), Error>(Error::InvalidInstruction), plain));
                }
                Err(Error::InvalidInstruction)
            },
        }
    }

    /// One call of the single-step entry point: if the machine is
    /// running, execute one instruction and report its error; stepping
    /// while not running, or with an unreadable run flag, fails with
    /// `ExecutionLocked` and changes nothing.  Pacing to the target
    /// instruction rate is the embedding application's concern.
    pub fn execute_step(&mut self) -> (r: Error)
        requires
            old(self).wf(),
        ensures
            final(self).wf(),
            exists|running: Option<bool>, orc: StepOracle|
                runs_to(old(self)@, final(self)@, r, running, orc),
    {
        let ghost plain = StepOracle {
            rnd: 0,
            delay_read: None,
            delay_write_ok: false,
            sound_write_ok: false,
        };
        match self.state.is_running() {
            Some(is_r) => {
                if is_r {
                    let res = self.execute_instruction();
                    let ghost orc = choose|orc: StepOracle| steps_to(old(self)@, self@, res, orc);
                    match res {
                        Ok(_) => {
                            proof {
                                assert(runs_to(
                                    old(self)@,
                                    self@,
                                    Error::NoError,
                                    Some(true),
                                    orc,
                                ));
                            }
                            Error::NoError
                        },
                        Err(e) => {
                            proof {
                                assert(runs_to(old(self)@, self@, e, Some(true), orc));
                            }
                            e
                        },
                    }
                } else {
                    proof {
                        assert(runs_to(old(self)@, self@, Error::ExecutionLocked, Some(false), plain));
                    }
                    Error::ExecutionLocked
                }
            },
            None => {
                proof {
                    assert(runs_to(old(self)@, self@, Error::ExecutionLocked, None, plain));
                }
                Error::ExecutionLocked
            },
        }
    }
}

/// No key at or past `n` is pressed exactly when the scan finds none.
proof fn lemma_first_pressed_none(keys: Seq<KeyEventKind>, n: int)
    requires
        0 <= n <= 16,
        forall|j: int| n <= j < 16 ==> !(keys[j] is KeyPress),
    ensures
        first_pressed_code(keys, n) is None,
    decreases 16 - n,
{
    if n < 16 {
        lemma_first_pressed_none(keys, n + 1);
    }
}

/// The scan from `n` finds `c` when `c` is the first pressed key at or
/// past `n`.
proof fn lemma_first_pressed_some(keys: Seq<KeyEventKind>, n: int, c: int)
    requires
        0 <= n <= c < 16,
        keys[c] is KeyPress,
        forall|j: int| n <= j < c ==> !(keys[j] is KeyPress),
    ensures
        first_pressed_code(keys, n) == Some(c as u8),
    decreases 16 - n,
{
    if n < c {
        lemma_first_pressed_some(keys, n + 1, c);
    }
}

} // verus!
