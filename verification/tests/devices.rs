use chip8::cpu::{MemoryStick, load_charfont, load_font};
use chip8::fonts::{C8_CLASSIC_FONT, FontPack};
use chip8::errors::Error;
use chip8::graphics::PixMap;
use chip8::keyboard::{Key, KeyEvent, KeyEventKind, Keyboard};
use chip8::sound::Sound;

#[test]
fn memory_wraps_addresses() {
    let mut m = MemoryStick::open();
    m.load_binary(0xFFF, &[0xAB, 0xCD]);
    // The second byte wraps to address 0.
    assert_eq!(m.u16(0xFFF), 0xABCD);
    assert_eq!(m.u16(0) >> 8, 0xCD);
}

#[test]
fn memory_word_is_big_endian() {
    let mut m = MemoryStick::open();
    m.load_binary(0x200, &[0x12, 0x34]);
    assert_eq!(m.u16(0x200), 0x1234);
}

#[test]
fn load_hex_decodes_pairs() {
    let mut m = MemoryStick::open();
    m.load_hex(0x200, "12AB");
    assert_eq!(m.u16(0x200), 0x12AB);
}

#[test]
fn load_hex_skips_non_hex_text() {
    let mut m = MemoryStick::open();
    m.load_hex(0x200, " 1 2,A~B\n3 ");
    // The lone trailing digit encodes nothing.
    assert_eq!(m.u16(0x200), 0x12AB);
    assert_eq!(m.u16(0x202), 0x0000);
}

#[test]
fn load_hex_is_case_insensitive() {
    let mut m = MemoryStick::open();
    m.load_hex(0, "aAbB");
    assert_eq!(m.u16(0), 0xAABB);
}

#[test]
fn loadn_hex_stops_at_limit() {
    let mut m = MemoryStick::open();
    m.loadn_hex(0, "AABBCCDD", 2);
    assert_eq!(m.u16(0), 0xAABB);
    assert_eq!(m.u16(2), 0x0000);
}

#[test]
fn big_binary_loader_drops_odd_tail() {
    let mut m = MemoryStick::open();
    m.load_big_binary_instructions(0x200, &[0x11, 0x22, 0x33, 0x44, 0x55]);
    assert_eq!(m.u16(0x200), 0x1122);
    assert_eq!(m.u16(0x202), 0x3344);
    assert_eq!(m.u16(0x204), 0x0000);
}

#[test]
fn fill_and_load_memory() {
    let mut m = MemoryStick::open();
    m.fill(0x10, &[1, 2, 3]);
    assert_eq!(m.u16(0x10), 0x0102);
    let mut other = MemoryStick::alloced(0x3);
    other.fill(0, &[9, 8, 7, 6]);
    m.load_memory(0x20, other);
    assert_eq!(m.u16(0x20), 0x0908);
    assert_eq!(m.u16(0x22), 0x0706);
}

#[test]
fn stack_push_pop_order() {
    let mut m = MemoryStick::open();
    assert_eq!(m.pop(), None);
    m.push(0x202);
    m.push(0x404);
    assert_eq!(m.pop(), Some(0x404));
    assert_eq!(m.pop(), Some(0x202));
    assert_eq!(m.pop(), None);
}

#[test]
fn font_helpers_place_glyphs() {
    let mut m = MemoryStick::open();
    load_font(&mut m, "F0909090F0");
    assert_eq!(m.u16(0), 0xF090);
    load_charfont(&mut m, 1, "2060202070");
    assert_eq!(m.u16(5), 0x2060);
}

#[test]
fn pixmap_toggles_and_reports() {
    let mut p = PixMap::pack();
    assert_eq!(p.get(4, 2), 0);
    assert!(!p.draw(4, 2));
    assert_eq!(p.get(4, 2), 1);
    assert!(p.draw(4, 2));
    assert_eq!(p.get(4, 2), 0);
}

#[test]
fn pixmap_decide_ignores_zero_bits() {
    let mut p = PixMap::pack();
    p.flush();
    assert!(!p.decide(1, 1, 0));
    assert!(!p.ready());
    assert!(!p.decide(1, 1, 1));
    assert!(p.ready());
    assert!(p.decide(1, 1, 1));
    assert_eq!(p.get(1, 1), 0);
}

#[test]
fn pixmap_erase_and_clear() {
    let mut p = PixMap::pack();
    p.draw(0, 0);
    assert!(p.erase(0, 0));
    assert!(!p.erase(0, 0));
    p.draw(63, 31);
    p.clear();
    assert_eq!(p.get(63, 31), 0);
}

#[test]
fn pixmap_dirty_flag_cycle() {
    let mut p = PixMap::pack();
    assert!(p.ready());
    p.flush();
    assert!(!p.ready());
    p.force_redisplay();
    assert!(p.ready());
}

#[test]
fn pixmap_wraps_coordinates() {
    let mut p = PixMap::pack();
    p.draw(64, 32);
    assert_eq!(p.get(0, 0), 1);
}

#[test]
fn keyboard_press_release_cycle() {
    let mut k = Keyboard::new();
    assert!(!k.is_pressed(Key::A));
    assert!(k.is_released(Key::A));
    assert!(!k.is_currenly_released(Key::A));
    k.press(Key::A);
    assert!(k.is_pressed(Key::A));
    k.release(Key::A);
    assert!(k.is_currenly_released(Key::A));
    k.reset();
    assert!(!k.is_currenly_released(Key::A));
    assert!(k.is_released(Key::A));
}

#[test]
fn keyboard_reset_keeps_pressed_keys() {
    let mut k = Keyboard::new();
    k.press(Key::Two);
    k.release(Key::Nine);
    k.reset();
    assert!(k.is_pressed(Key::Two));
    assert!(!k.is_currenly_released(Key::Nine));
}

#[test]
fn keyboard_enumerations() {
    let mut k = Keyboard::new();
    k.press(Key::B);
    k.press(Key::Seven);
    k.release(Key::Zero);
    assert_eq!(k.all_events().len(), 16);
    let pressed: Vec<u8> = k.all_pressed().iter().map(|e| e.key.into_byte()).collect();
    assert_eq!(pressed, vec![Key::B.into_byte(), Key::Seven.into_byte()]);
    let released: Vec<u8> = k.all_currenly_released().iter().map(|e| e.key.into_byte()).collect();
    assert_eq!(released, vec![Key::Zero.into_byte()]);
    assert_eq!(k.all_released().len(), 14);
}

#[test]
fn keyboard_commit_applies_events_in_order() {
    let mut k = Keyboard::new();
    let evs = vec![
        KeyEvent::new(Key::C, KeyEventKind::KeyPress),
        KeyEvent::new(Key::C, KeyEventKind::KeyRelease),
        KeyEvent::new(Key::D, KeyEventKind::KeyPress),
    ];
    k.commit(&evs);
    assert!(k.is_currenly_released(Key::C));
    assert!(k.is_pressed(Key::D));
}

#[test]
fn key_codes_round_trip() {
    for b in 0..16u8 {
        let k = Key::from_byte(b).unwrap();
        assert_eq!(k.into_byte(), b);
    }
    assert!(Key::from_byte(16).is_none());
    assert!(Key::from_byte(255).is_none());
}

#[test]
fn key_event_raw_mapping() {
    let press = KeyEvent::raw(0x15, 0);
    assert_eq!(press.key.into_byte(), 5);
    assert_eq!(press.kind, KeyEventKind::KeyPress);
    let release = KeyEvent::raw(0x03, 7);
    assert_eq!(release.kind, KeyEventKind::KeyRelease);
    let ev = KeyEvent::from_keyd(0x21, KeyEventKind::KeyDefault);
    assert_eq!(ev.key.into_byte(), 1);
}

#[test]
fn sound_flag_transitions() {
    let mut s = Sound::pack();
    assert!(!s.is_playing());
    s.play();
    assert!(s.is_playing());
    s.safeplay();
    assert!(s.is_playing());
    s.pause();
    assert!(!s.is_playing());
    s.safepause();
    assert!(!s.is_playing());
}

#[test]
fn error_locked_classification() {
    assert!(Error::ExecutionLocked.locked());
    assert!(Error::DelayTimerLocked.locked());
    assert!(Error::SoundTimerLocked.locked());
    assert!(!Error::NoError.locked());
    assert!(!Error::StackUnderflow.locked());
    assert!(!Error::UnhookedKeyBoard.locked());
    assert!(!Error::InvalidInstruction.locked());
}

#[test]
fn error_messages() {
    assert_eq!(Error::NoError.message(), "no error");
    assert_eq!(Error::InvalidInstruction.message(), "invalid instruction");
    assert!(Error::StackUnderflow.message().contains("underflow"));
}

#[test]
fn font_pack_construction() {
    let _empty = FontPack::empty();
    let mut p = FontPack::with_font(C8_CLASSIC_FONT);
    p.load_charfont(0, "AABBCCDDEE");
    let _classic = FontPack::classic();
}
