use chip8::chip8::{chip8_cpu, cosmic_chip8_cpu, custom_chip8, default_chip8_cpu, sound_tick, timer_tick};
use chip8::errors::Error;
use chip8::graphics::PixMap;
use chip8::keyboard::Key;
use chip8::sound::Sound;

#[test]
fn add_with_carry_scenario() {
    // 6005: V0 = 5; 6103: V1 = 3; 8014: V0 += V1.
    let mut m = default_chip8_cpu();
    m.load_program("600561038014");
    m.start().unwrap();
    for _ in 0..3 {
        assert_eq!(m.execute_step(), Error::NoError);
    }
    assert_eq!(m.cpu.registery()[0], 8);
    assert_eq!(m.cpu.registery()[15], 0);
    m.close();
}

#[test]
fn add_with_carry_overflow() {
    // 60FF: V0 = 255; 61FF: V1 = 255; 8014: V0 += V1 with carry.
    let mut m = default_chip8_cpu();
    m.load_program("60FF61FF8014");
    m.start().unwrap();
    for _ in 0..3 {
        assert_eq!(m.execute_step(), Error::NoError);
    }
    assert_eq!(m.cpu.registery()[0], 254);
    assert_eq!(m.cpu.registery()[15], 1);
    m.close();
}

#[test]
fn random_never_escapes_mask() {
    // C00F: V0 = random & 0x0F, many times over.
    let mut m = default_chip8_cpu();
    m.load_program("C00F");
    m.start().unwrap();
    for _ in 0..20 {
        assert_eq!(m.execute_step(), Error::NoError);
        assert_eq!(m.cpu.registery()[0] & 0xF0, 0);
        // Jump back to re-run the same instruction.
        m.cpu.jump(0x200);
    }
    m.close();
}

#[test]
fn return_on_empty_stack_underflows() {
    let mut m = default_chip8_cpu();
    m.load_program("00EE");
    m.start().unwrap();
    assert_eq!(m.execute_step(), Error::StackUnderflow);
    m.close();
}

#[test]
fn call_then_return_restores_pc() {
    // 0x200: 2204 (call 0x204); 0x204: 00EE (return).
    let mut m = default_chip8_cpu();
    m.load_program_binary(&[0x22, 0x04, 0x00, 0x00, 0x00, 0xEE]);
    m.start().unwrap();
    assert_eq!(m.execute_step(), Error::NoError);
    assert_eq!(m.cpu.program_counter(), 0x204);
    assert_eq!(m.execute_step(), Error::NoError);
    assert_eq!(m.cpu.program_counter(), 0x202);
    m.close();
}

#[test]
fn draw_twice_restores_pixels() {
    // Draw the 0xFF sprite row at (5, 3) twice: the second draw undoes
    // the first and reports the collision.
    let mut m = default_chip8_cpu();
    m.load_program_binary(&[
        0x60, 0x05, 0x61, 0x03, 0xA2, 0x0C, 0xD0, 0x11, 0xD0, 0x11, 0x00, 0x00, 0xFF,
    ]);
    m.start().unwrap();
    for _ in 0..4 {
        assert_eq!(m.execute_step(), Error::NoError);
    }
    for c in 5..13 {
        assert_eq!(m.graphics().get(c, 3), 1);
    }
    assert_eq!(m.cpu.registery()[15], 0);
    assert_eq!(m.execute_step(), Error::NoError);
    for c in 5..13 {
        assert_eq!(m.graphics().get(c, 3), 0);
    }
    assert_eq!(m.cpu.registery()[15], 1);
    m.close();
}

#[test]
fn draw_clips_at_right_edge() {
    // V0 = 60: the 0xFF row only reaches columns 60..63.
    let mut m = default_chip8_cpu();
    m.load_program_binary(&[
        0x60, 0x3C, 0x61, 0x00, 0xA2, 0x0A, 0xD0, 0x11, 0x00, 0x00, 0xFF,
    ]);
    m.start().unwrap();
    for _ in 0..4 {
        assert_eq!(m.execute_step(), Error::NoError);
    }
    for c in 60..64 {
        assert_eq!(m.graphics().get(c, 0), 1);
    }
    assert_eq!(m.graphics().get(0, 0), 0);
    m.close();
}

#[test]
fn store_then_load_registers_round_trips() {
    // F155 stores V0..=V1, 6000/6100 clears them, F165 loads them back.
    let mut m = default_chip8_cpu();
    m.load_program("60056103A300F155600061006000F165");
    m.start().unwrap();
    for _ in 0..8 {
        assert_eq!(m.execute_step(), Error::NoError);
    }
    assert_eq!(m.cpu.registery()[0], 5);
    assert_eq!(m.cpu.registery()[1], 3);
    m.close();
}

#[test]
fn bcd_writes_decimal_digits() {
    // V0 = 205; A300: I = 0x300; F033: digits 2, 0, 5.
    let mut m = default_chip8_cpu();
    m.load_program("60CDA300F033");
    m.start().unwrap();
    for _ in 0..3 {
        assert_eq!(m.execute_step(), Error::NoError);
    }
    assert_eq!(m.cpu.memory().u16(0x300), 0x0200);
    assert_eq!(m.cpu.memory().u16(0x302), 0x0500);
    m.close();
}

#[test]
fn sound_timer_drives_device() {
    // A counter of 3 plays for three ticks and pauses on the fourth.
    let mut sound = Sound::pack();
    let mut timer: u8 = 3;
    let mut observed = Vec::new();
    for _ in 0..4 {
        timer = sound_tick(timer, &mut sound);
        observed.push(sound.is_playing());
    }
    assert_eq!(observed, vec![true, true, true, false]);
    assert_eq!(timer, 0);
}

#[test]
fn timer_tick_stops_at_zero() {
    assert_eq!(timer_tick(5), 4);
    assert_eq!(timer_tick(1), 0);
    assert_eq!(timer_tick(0), 0);
}

#[test]
fn key_wait_rewinds_until_press() {
    // F00A: wait for a key.
    let mut m = default_chip8_cpu();
    m.load_program("F00A");
    m.start().unwrap();
    for _ in 0..3 {
        assert_eq!(m.execute_step(), Error::NoError);
        assert_eq!(m.cpu.program_counter(), 0x200);
    }
    m.keyboard_mut().press(Key::Five);
    assert_eq!(m.execute_step(), Error::NoError);
    assert_eq!(m.cpu.program_counter(), 0x202);
    assert_eq!(m.cpu.registery()[0], Key::Five.into_byte());
    m.close();
}

#[test]
fn skip_if_key_pressed() {
    // V0 = 2 names Key::C; E09E skips only while that key is down.
    let mut m = default_chip8_cpu();
    m.load_program("6002E09E");
    m.start().unwrap();
    assert_eq!(m.execute_step(), Error::NoError);
    m.keyboard_mut().press(Key::C);
    assert_eq!(m.execute_step(), Error::NoError);
    assert_eq!(m.cpu.program_counter(), 0x206);
    m.close();
}

#[test]
fn skip_if_key_not_pressed() {
    // E0A1 with no key down always skips.
    let mut m = default_chip8_cpu();
    m.load_program("6002E0A1");
    m.start().unwrap();
    assert_eq!(m.execute_step(), Error::NoError);
    assert_eq!(m.execute_step(), Error::NoError);
    assert_eq!(m.cpu.program_counter(), 0x206);
    m.close();
}

#[test]
fn delay_timer_write_and_read() {
    // 600A: V0 = 10; F015: delay = V0; F107: V1 = delay.  No timer
    // task runs, so the counter keeps its value.
    let mut m = default_chip8_cpu();
    m.load_program("600AF015F107");
    m.start().unwrap();
    for _ in 0..3 {
        assert_eq!(m.execute_step(), Error::NoError);
    }
    assert_eq!(m.cpu.registery()[1], 10);
    m.close();
}

#[test]
fn invalid_instruction_is_fatal() {
    let mut m = default_chip8_cpu();
    m.load_program("5121");
    m.start().unwrap();
    assert_eq!(m.execute_step(), Error::InvalidInstruction);
    m.close();
}

#[test]
fn unknown_misc_opcode_is_invalid() {
    let mut m = default_chip8_cpu();
    m.load_program("F0FF");
    m.start().unwrap();
    assert_eq!(m.execute_step(), Error::InvalidInstruction);
    m.close();
}

#[test]
fn stopped_machine_does_not_step() {
    let mut m = default_chip8_cpu();
    m.load_program("6005");
    assert_eq!(m.execute_step(), Error::ExecutionLocked);
    assert_eq!(m.cpu.program_counter(), 0x200);
    assert_eq!(m.cpu.registery()[0], 0);
}

#[test]
fn run_flag_follows_start_and_close() {
    let mut m = default_chip8_cpu();
    let state = m.cpu_state();
    assert_eq!(state.is_running(), Some(false));
    m.start().unwrap();
    assert_eq!(state.is_running(), Some(true));
    m.close();
    assert_eq!(state.is_running(), Some(false));
}

#[test]
fn shift_right_keeps_x_without_quirk() {
    // 6007: V0 = 7; 6104: V1 = 4; 8016: V0 >>= 1 with flag = old bit 0.
    let mut m = default_chip8_cpu();
    m.load_program("600761048016");
    m.start().unwrap();
    for _ in 0..3 {
        assert_eq!(m.execute_step(), Error::NoError);
    }
    assert_eq!(m.cpu.registery()[0], 3);
    assert_eq!(m.cpu.registery()[15], 1);
    m.close();
}

#[test]
fn shift_right_copies_y_under_quirk() {
    let mut m = cosmic_chip8_cpu();
    m.load_program("600761048016");
    m.start().unwrap();
    for _ in 0..3 {
        assert_eq!(m.execute_step(), Error::NoError);
    }
    assert_eq!(m.cpu.registery()[0], 2);
    assert_eq!(m.cpu.registery()[15], 0);
    m.close();
}

#[test]
fn subtract_sets_borrow_flag() {
    // 8015: V0 = V0 - V1, flag 1 iff V0 > V1 beforehand.
    let mut m = default_chip8_cpu();
    m.load_program("600361058015");
    m.start().unwrap();
    for _ in 0..3 {
        assert_eq!(m.execute_step(), Error::NoError);
    }
    assert_eq!(m.cpu.registery()[0], 254);
    assert_eq!(m.cpu.registery()[15], 0);
    m.close();
}

#[test]
fn jump_with_offset_uses_v0_under_quirk() {
    let mut quirky = cosmic_chip8_cpu();
    quirky.load_program("6004B300");
    quirky.start().unwrap();
    assert_eq!(quirky.execute_step(), Error::NoError);
    assert_eq!(quirky.execute_step(), Error::NoError);
    assert_eq!(quirky.cpu.program_counter(), 0x304);
    quirky.close();

    // Without the quirk the offset register is the high nibble of NNN.
    let mut strict = default_chip8_cpu();
    strict.load_program("6304B300");
    strict.start().unwrap();
    assert_eq!(strict.execute_step(), Error::NoError);
    assert_eq!(strict.execute_step(), Error::NoError);
    assert_eq!(strict.cpu.program_counter(), 0x304);
    strict.close();
}

#[test]
fn index_add_sets_overflow_flag() {
    // AFFF: I = 0xFFF; 6005: V0 = 5; F01E: I += V0 with overflow flag.
    let mut m = default_chip8_cpu();
    m.load_program("AFFF6005F01E");
    m.start().unwrap();
    for _ in 0..3 {
        assert_eq!(m.execute_step(), Error::NoError);
    }
    assert_eq!(m.cpu.register_i(), 0x004);
    assert_eq!(m.cpu.registery()[15], 1);
    m.close();
}

#[test]
fn font_glyph_select() {
    // 600A: V0 = 10; F029: I = 5 * 10.
    let mut m = default_chip8_cpu();
    m.load_program("600AF029");
    m.start().unwrap();
    for _ in 0..2 {
        assert_eq!(m.execute_step(), Error::NoError);
    }
    assert_eq!(m.cpu.register_i(), 50);
    m.close();
}

#[test]
fn clear_display_blanks_all_pixels() {
    let mut m = default_chip8_cpu();
    m.load_program_binary(&[
        0x60, 0x00, 0x61, 0x00, 0xA2, 0x0A, 0xD0, 0x11, 0x00, 0xE0, 0xFF,
    ]);
    m.start().unwrap();
    for _ in 0..4 {
        assert_eq!(m.execute_step(), Error::NoError);
    }
    assert_eq!(m.graphics().get(0, 0), 1);
    assert_eq!(m.execute_step(), Error::NoError);
    for c in 0..8 {
        assert_eq!(m.graphics().get(c, 0), 0);
    }
    m.close();
}

#[test]
fn classic_font_is_loaded() {
    let m = default_chip8_cpu();
    // Glyph for 0 starts F0 90 90 90 F0.
    assert_eq!(m.cpu.memory().u16(0), 0xF090);
    assert_eq!(m.cpu.memory().u16(4), 0xF020);
}

#[test]
fn custom_font_replaces_glyphs() {
    let m = custom_chip8(false, "AABBCC");
    assert_eq!(m.cpu.memory().u16(0), 0xAABB);
    assert_eq!(m.cpu.memory().u16(2), 0xCC00);
}

#[test]
fn machine_with_devices() {
    let m = chip8_cpu(false, PixMap::pack(), Sound::pack());
    assert_eq!(m.cpu.program_counter(), 0x200);
    assert_eq!(m.cpu.register_i(), 0);
    assert!(m.graphics().ready());
}
