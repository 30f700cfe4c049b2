use chip8_core::cpu::{Chip8, Fault, Quirks};
use chip8_core::display::Display;

fn fresh() -> Chip8 {
    let display = Display::new(64, 32, 8);
    Chip8::new(&Vec::new(), &Vec::new(), &Vec::new(), display, None)
}

fn fresh_with(quirks: Quirks) -> Chip8 {
    let display = Display::new(64, 32, 8);
    Chip8::new(&Vec::new(), &Vec::new(), &Vec::new(), display, Some(quirks))
}

fn exec(chip: &mut Chip8, word: u16) {
    let inst = chip.decode(word);
    chip.execute_with_random(inst, 0).unwrap();
}

#[test]
fn initial_state() {
    let chip = fresh();
    assert_eq!(chip.pc, 0x200);
    assert_eq!(chip.sp, -1);
    assert_eq!(chip.i, 0);
    assert_eq!(chip.v, vec![0u8; 16]);
    assert_eq!(chip.stack, vec![0u16; 32]);
}

#[test]
fn fonts_and_program_load_at_fixed_offsets() {
    let display = Display::new(64, 32, 8);
    let chip = Chip8::new(
        &vec![0xAA, 0xBB],
        &vec![0xCC],
        &vec![0x12, 0x34],
        display,
        None,
    );
    assert_eq!(chip.memory[0], 0xAA);
    assert_eq!(chip.memory[1], 0xBB);
    assert_eq!(chip.memory[0x50], 0xCC);
    assert_eq!(chip.memory[0x200], 0x12);
    assert_eq!(chip.memory[0x201], 0x34);
}

#[test]
fn add_with_carry() {
    // 8xy4: 0xFF + 0x01 wraps to 0x00 with VF = 1.
    let mut chip = fresh();
    chip.v[0] = 0xFF;
    chip.v[1] = 0x01;
    exec(&mut chip, 0x8014);
    assert_eq!(chip.v[0], 0x00);
    assert_eq!(chip.v[0xF], 1);

    // 0x01 + 0x01 gives 0x02 with VF = 0.
    let mut chip = fresh();
    chip.v[0] = 0x01;
    chip.v[1] = 0x01;
    exec(&mut chip, 0x8014);
    assert_eq!(chip.v[0], 0x02);
    assert_eq!(chip.v[0xF], 0);
}

#[test]
fn sub_with_borrow() {
    // 8xy5: 0x03 - 0x05 wraps to 0xFE with VF = 0 (borrow occurred).
    let mut chip = fresh();
    chip.v[0] = 0x03;
    chip.v[1] = 0x05;
    exec(&mut chip, 0x8015);
    assert_eq!(chip.v[0], 0xFE);
    assert_eq!(chip.v[0xF], 0);
}

#[test]
fn jump_with_offset_uses_v0_when_quirk_enabled() {
    let mut chip = fresh_with(Quirks {
        cosmac_shift: false,
        cosmac_fx1e: false,
        cosmac_fx55: false,
        cosmac_bnnn: true,
    });
    chip.v[0] = 0x10;
    chip.v[3] = 0x99;
    exec(&mut chip, 0xB300);
    assert_eq!(chip.pc, 0x310);
}

#[test]
fn jump_with_offset_uses_vx_when_quirk_disabled() {
    let mut chip = fresh();
    chip.v[0] = 0x10;
    chip.v[3] = 0x05;
    exec(&mut chip, 0xB300);
    assert_eq!(chip.pc, 0x305);
}

#[test]
fn register_dump_auto_increment_quirk() {
    // Fx55 with the quirk advances I by x+1; without it I is unchanged.
    let mut chip = fresh_with(Quirks {
        cosmac_shift: false,
        cosmac_fx1e: false,
        cosmac_fx55: true,
        cosmac_bnnn: false,
    });
    chip.i = 0x300;
    chip.v[0] = 1;
    chip.v[1] = 2;
    chip.v[2] = 3;
    exec(&mut chip, 0xF255);
    assert_eq!(chip.memory[0x300], 1);
    assert_eq!(chip.memory[0x301], 2);
    assert_eq!(chip.memory[0x302], 3);
    assert_eq!(chip.i, 0x303);

    let mut chip = fresh();
    chip.i = 0x300;
    exec(&mut chip, 0xF255);
    assert_eq!(chip.i, 0x300);
}

#[test]
fn register_load_auto_increment_quirk() {
    let mut chip = fresh_with(Quirks {
        cosmac_shift: false,
        cosmac_fx1e: false,
        cosmac_fx55: true,
        cosmac_bnnn: false,
    });
    chip.i = 0x300;
    chip.memory[0x300] = 7;
    chip.memory[0x301] = 8;
    exec(&mut chip, 0xF165);
    assert_eq!(chip.v[0], 7);
    assert_eq!(chip.v[1], 8);
    assert_eq!(chip.i, 0x302);

    let mut chip = fresh();
    chip.i = 0x300;
    exec(&mut chip, 0xF165);
    assert_eq!(chip.i, 0x300);
}

#[test]
fn key_wait_stalls_until_new_key_edge() {
    // Fx0A at 0x200: PC stays put over repeated steps until a new key
    // press is observed, then advances normally.
    let mut chip = fresh();
    chip.read_to_memory(&vec![0xF0, 0x0A], 0x200);
    for _ in 0..3 {
        chip.step().unwrap();
        assert_eq!(chip.pc, 0x200);
    }
    chip.display.keypad.key_down(42, Some(5));
    chip.step().unwrap();
    assert_eq!(chip.pc, 0x202);
}

#[test]
fn call_and_return() {
    let mut chip = fresh();
    exec(&mut chip, 0x2345);
    assert_eq!(chip.pc, 0x345);
    assert_eq!(chip.sp, 0);
    assert_eq!(chip.stack[0], 0x200);
    exec(&mut chip, 0x00EE);
    assert_eq!(chip.pc, 0x200);
    assert_eq!(chip.sp, -1);
}

#[test]
fn stack_overflow_is_a_checked_fault() {
    let mut chip = fresh();
    for _ in 0..32 {
        exec(&mut chip, 0x2345);
    }
    assert_eq!(chip.sp, 31);
    let inst = chip.decode(0x2345);
    assert_eq!(chip.execute_with_random(inst, 0), Err(Fault::StackOverflow));
    assert_eq!(chip.sp, 31);
}

#[test]
fn stack_underflow_is_a_checked_fault() {
    let mut chip = fresh();
    let inst = chip.decode(0x00EE);
    assert_eq!(chip.execute_with_random(inst, 0), Err(Fault::StackUnderflow));
    assert_eq!(chip.pc, 0x200);
}

#[test]
fn memory_range_fault_leaves_state_unchanged() {
    let mut chip = fresh();
    chip.i = 0xFFFD;
    chip.v[0] = 123;
    let inst = chip.decode(0xF033);
    assert_eq!(
        chip.execute_with_random(inst, 0),
        Err(Fault::MemoryOutOfRange)
    );
    assert_eq!(chip.i, 0xFFFD);
    assert_eq!(chip.memory[0xFFFD], 0);
}

#[test]
fn bcd_conversion() {
    let mut chip = fresh();
    chip.i = 0x300;
    chip.v[2] = 123;
    exec(&mut chip, 0xF233);
    assert_eq!(chip.memory[0x300], 1);
    assert_eq!(chip.memory[0x301], 2);
    assert_eq!(chip.memory[0x302], 3);
}

#[test]
fn skip_instructions() {
    let mut chip = fresh();
    chip.v[4] = 0x42;
    exec(&mut chip, 0x3442); // skips: equal
    assert_eq!(chip.pc, 0x202);
    exec(&mut chip, 0x3443); // no skip
    assert_eq!(chip.pc, 0x202);
    exec(&mut chip, 0x4443); // skips: not equal
    assert_eq!(chip.pc, 0x204);
    chip.v[5] = 0x42;
    exec(&mut chip, 0x5450); // skips: registers equal
    assert_eq!(chip.pc, 0x206);
    exec(&mut chip, 0x9450); // no skip: registers equal
    assert_eq!(chip.pc, 0x206);
}

#[test]
fn shift_right_quirk_copies_vy_first() {
    let mut chip = fresh_with(Quirks {
        cosmac_shift: true,
        cosmac_fx1e: false,
        cosmac_fx55: false,
        cosmac_bnnn: false,
    });
    chip.v[0] = 0;
    chip.v[1] = 0x05;
    exec(&mut chip, 0x8016);
    assert_eq!(chip.v[0], 0x02);
    assert_eq!(chip.v[0xF], 1);

    let mut chip = fresh();
    chip.v[0] = 0x04;
    chip.v[1] = 0xFF;
    exec(&mut chip, 0x8016);
    assert_eq!(chip.v[0], 0x02);
    assert_eq!(chip.v[0xF], 0);
}

#[test]
fn shift_left_reports_bit_shifted_out() {
    let mut chip = fresh();
    chip.v[0] = 0x81;
    exec(&mut chip, 0x801E);
    assert_eq!(chip.v[0], 0x02);
    assert_eq!(chip.v[0xF], 1);
}

#[test]
fn index_add_wraps_and_flags() {
    let mut chip = fresh();
    chip.i = 0xFFE;
    chip.v[0] = 0x10;
    exec(&mut chip, 0xF01E);
    assert_eq!(chip.i, (0xFFE + 0x10) % 0xFFF);
    assert_eq!(chip.v[0xF], 1);

    let mut chip = fresh_with(Quirks {
        cosmac_shift: false,
        cosmac_fx1e: true,
        cosmac_fx55: false,
        cosmac_bnnn: false,
    });
    chip.i = 0xFFE;
    chip.v[0] = 0x10;
    exec(&mut chip, 0xF01E);
    assert_eq!(chip.v[0xF], 0);
}

#[test]
fn random_opcode_masks_the_drawn_byte() {
    let mut chip = fresh();
    let inst = chip.decode(0xC00F);
    chip.execute_with_random(inst, 0xAB).unwrap();
    assert_eq!(chip.v[0], 0x0B);
    let inst = chip.decode(0xC1FF);
    chip.execute_with_random(inst, 0xAB).unwrap();
    assert_eq!(chip.v[1], 0xAB);
}

#[test]
fn font_addresses() {
    let mut chip = fresh();
    chip.v[0] = 7;
    exec(&mut chip, 0xF029);
    assert_eq!(chip.i, 35);
    exec(&mut chip, 0xF030);
    assert_eq!(chip.i, 0x50 + 70);
}

#[test]
fn timer_opcodes_and_tick() {
    let mut chip = fresh();
    chip.v[0] = 2;
    exec(&mut chip, 0xF015); // delay = 2
    chip.v[0] = 1;
    exec(&mut chip, 0xF018); // sound = 1
    chip.timer_tick();
    assert_eq!(chip.delay, 1);
    assert_eq!(chip.sound, 0);
    assert!(chip.display.beep);
    chip.timer_tick();
    assert_eq!(chip.delay, 0);
    assert!(!chip.display.beep);
    chip.timer_tick();
    assert_eq!(chip.delay, 0);
    exec(&mut chip, 0xF107); // V1 = delay
    assert_eq!(chip.v[1], 0);
}

#[test]
fn flag_persistence_round_trip() {
    let mut chip = fresh();
    chip.v[0] = 9;
    chip.v[1] = 8;
    chip.v[2] = 7;
    exec(&mut chip, 0xF275); // write V0..V2 (exclusive of V2) to the blob
    assert_eq!(chip.flags, vec![9, 8]);
    chip.v[0] = 0;
    chip.v[1] = 0;
    exec(&mut chip, 0x5023); // read blob back into V0..V2 (exclusive)
    assert_eq!(chip.v[0], 9);
    assert_eq!(chip.v[1], 8);
}

#[test]
fn unknown_opcodes_are_no_ops() {
    let mut chip = fresh();
    exec(&mut chip, 0x0123);
    exec(&mut chip, 0x800A);
    exec(&mut chip, 0xE077);
    exec(&mut chip, 0xF0FF);
    assert_eq!(chip.pc, 0x200);
    assert_eq!(chip.v, vec![0u8; 16]);
}

#[test]
fn step_fetches_big_endian_and_advances() {
    let mut chip = fresh();
    // 6A42: V10 = 0x42.
    chip.read_to_memory(&vec![0x6A, 0x42], 0x200);
    chip.step().unwrap();
    assert_eq!(chip.pc, 0x202);
    assert_eq!(chip.v[10], 0x42);
}

#[test]
fn faulting_step_moves_nothing() {
    let mut chip = fresh();
    chip.read_to_memory(&vec![0x00, 0xEE], 0x200); // return with empty stack
    assert_eq!(chip.step(), Err(Fault::StackUnderflow));
    assert_eq!(chip.pc, 0x200);
}

#[test]
fn key_state_skips() {
    let mut chip = fresh();
    chip.v[0] = 5;
    chip.display.keypad.key_down(42, Some(5));
    exec(&mut chip, 0xE09E); // skip: key 5 held
    assert_eq!(chip.pc, 0x202);
    exec(&mut chip, 0xE0A1); // no skip: key 5 held
    assert_eq!(chip.pc, 0x202);
    chip.display.keypad.key_up(Some(5));
    exec(&mut chip, 0xE09E); // no skip: key 5 released
    assert_eq!(chip.pc, 0x202);
    exec(&mut chip, 0xE0A1); // skip: key 5 released
    assert_eq!(chip.pc, 0x204);
}

#[test]
fn key_skip_with_out_of_range_register_is_a_fault() {
    let mut chip = fresh();
    chip.v[0] = 16;
    let inst = chip.decode(0xE09E);
    assert_eq!(
        chip.execute_with_random(inst, 0),
        Err(Fault::MemoryOutOfRange)
    );
}

#[test]
fn reverse_subtract() {
    // 8xy7: Vx = Vy - Vx, VF = 1 when no borrow.
    let mut chip = fresh();
    chip.v[0] = 0x05;
    chip.v[1] = 0x03;
    exec(&mut chip, 0x8017);
    assert_eq!(chip.v[0], 0xFE);
    assert_eq!(chip.v[0xF], 0);

    let mut chip = fresh();
    chip.v[0] = 0x03;
    chip.v[1] = 0x05;
    exec(&mut chip, 0x8017);
    assert_eq!(chip.v[0], 0x02);
    assert_eq!(chip.v[0xF], 1);
}

#[test]
fn immediates_and_jumps() {
    let mut chip = fresh();
    exec(&mut chip, 0x6742); // V7 = 0x42
    assert_eq!(chip.v[7], 0x42);
    exec(&mut chip, 0x77C0); // V7 += 0xC0, wrapping, no flag
    assert_eq!(chip.v[7], 0x02);
    assert_eq!(chip.v[0xF], 0);
    exec(&mut chip, 0xA123); // I = 0x123
    assert_eq!(chip.i, 0x123);
    exec(&mut chip, 0x1456); // jump
    assert_eq!(chip.pc, 0x456);
}

#[test]
fn logic_opcodes() {
    let mut chip = fresh();
    chip.v[0] = 0b1100;
    chip.v[1] = 0b1010;
    exec(&mut chip, 0x8011);
    assert_eq!(chip.v[0], 0b1110);
    chip.v[0] = 0b1100;
    exec(&mut chip, 0x8012);
    assert_eq!(chip.v[0], 0b1000);
    chip.v[0] = 0b1100;
    exec(&mut chip, 0x8013);
    assert_eq!(chip.v[0], 0b0110);
    exec(&mut chip, 0x8010);
    assert_eq!(chip.v[0], 0b1010);
}

#[test]
fn random_opcode_stays_within_its_mask() {
    // C03F draws a real random byte; whatever came back, only masked bits
    // can be set.
    let mut chip = fresh();
    chip.read_to_memory(&vec![0xC0, 0x3F], 0x200);
    chip.step().unwrap();
    assert_eq!(chip.v[0] & !0x3F, 0);
    assert_eq!(chip.pc, 0x202);
}
