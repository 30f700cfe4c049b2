use chip8_core::cpu::Chip8;
use chip8_core::display::Display;

fn fresh() -> Chip8 {
    let display = Display::new(64, 32, 8);
    Chip8::new(&Vec::new(), &Vec::new(), &Vec::new(), display, None)
}

fn exec(chip: &mut Chip8, word: u16) {
    let inst = chip.decode(word);
    chip.execute_with_random(inst, 0).unwrap();
}

fn assert_all_dark(d: &Display) {
    for y in 0..d.height {
        for x in 0..d.width {
            assert_eq!(d.get_pixel(x, y), 0);
        }
    }
}

#[test]
fn set_and_get_pixel() {
    let mut d = Display::new(64, 32, 8);
    assert_eq!(d.get_pixel(0, 0), 0);
    d.set_pixel(0, 0, 1);
    d.set_pixel(63, 31, 1);
    d.set_pixel(33, 7, 1);
    assert_eq!(d.get_pixel(0, 0), 1);
    assert_eq!(d.get_pixel(63, 31), 1);
    assert_eq!(d.get_pixel(33, 7), 1);
    assert_eq!(d.get_pixel(1, 0), 0);
    d.set_pixel(33, 7, 0);
    assert_eq!(d.get_pixel(33, 7), 0);
}

#[test]
fn pixels_pack_32_per_word_msb_first() {
    let mut d = Display::new(64, 32, 8);
    d.set_pixel(0, 0, 1);
    assert_eq!(d.display[0], 1 << 31);
    d.set_pixel(33, 0, 1);
    assert_eq!(d.display[1], 1 << 30);
}

#[test]
fn clear_screen_opcode_darkens_everything() {
    let mut chip = fresh();
    chip.display.set_pixel(3, 4, 1);
    chip.display.set_pixel(60, 30, 1);
    exec(&mut chip, 0x00E0);
    assert_eq!(chip.display.width, 64);
    assert_eq!(chip.display.height, 32);
    assert_all_dark(&chip.display);
}

#[test]
fn box_sprite_draws_border_without_collision() {
    // An 8x5 box at (0,0) on a cleared grid: exactly the border pixels of
    // the box go on, and VF stays 0.
    let mut chip = fresh();
    let sprite = vec![0xFFu8, 0x81, 0x81, 0x81, 0xFF];
    chip.read_to_memory(&sprite, 0x300);
    chip.i = 0x300;
    chip.v[0] = 0;
    chip.v[1] = 0;
    exec(&mut chip, 0xD015);
    for y in 0..5u16 {
        for x in 0..8u16 {
            let expected = (sprite[y as usize] >> (7 - x)) & 1;
            assert_eq!(chip.display.get_pixel(x, y), expected);
        }
    }
    for y in 5..32u16 {
        for x in 0..64u16 {
            assert_eq!(chip.display.get_pixel(x, y), 0);
        }
    }
    for y in 0..5u16 {
        for x in 8..64u16 {
            assert_eq!(chip.display.get_pixel(x, y), 0);
        }
    }
    assert_eq!(chip.v[0xF], 0);
}

#[test]
fn drawing_twice_restores_and_reports_collision() {
    let mut chip = fresh();
    let sprite = vec![0xFFu8, 0x81, 0x81, 0x81, 0xFF];
    chip.read_to_memory(&sprite, 0x300);
    chip.i = 0x300;
    exec(&mut chip, 0xD015);
    assert_eq!(chip.v[0xF], 0);
    exec(&mut chip, 0xD015);
    assert_eq!(chip.v[0xF], 1);
    assert_all_dark(&chip.display);
}

#[test]
fn sprite_clips_at_right_edge_and_bottom() {
    let mut chip = fresh();
    chip.read_to_memory(&vec![0xFFu8, 0xFF], 0x300);
    chip.i = 0x300;
    chip.v[0] = 60;
    chip.v[1] = 31;
    exec(&mut chip, 0xD012);
    // Only columns 60..64 of the last row go on; nothing wraps.
    for x in 60..64u16 {
        assert_eq!(chip.display.get_pixel(x, 31), 1);
    }
    for x in 0..60u16 {
        assert_eq!(chip.display.get_pixel(x, 31), 0);
    }
    for y in 0..31u16 {
        for x in 0..64u16 {
            assert_eq!(chip.display.get_pixel(x, y), 0);
        }
    }
}

#[test]
fn sprite_position_wraps_modulo_dimensions() {
    let mut chip = fresh();
    chip.read_to_memory(&vec![0x80u8], 0x300);
    chip.i = 0x300;
    chip.v[0] = 64; // wraps to column 0
    chip.v[1] = 33; // wraps to row 1
    exec(&mut chip, 0xD011);
    assert_eq!(chip.display.get_pixel(0, 1), 1);
}

#[test]
fn large_sprite_draws_16_wide() {
    let mut chip = fresh();
    let mut sprite = Vec::new();
    for _ in 0..16 {
        sprite.push(0xFFu8);
        sprite.push(0xFF);
    }
    chip.read_to_memory(&sprite, 0x300);
    chip.i = 0x300;
    exec(&mut chip, 0xD010); // n = 0 selects the 16x16 encoding
    for y in 0..16u16 {
        for x in 0..16u16 {
            assert_eq!(chip.display.get_pixel(x, y), 1);
        }
    }
    assert_eq!(chip.display.get_pixel(16, 0), 0);
    assert_eq!(chip.v[0xF], 0);
}

#[test]
fn scrolling_down_moves_rows_and_discards_the_last() {
    let mut d = Display::new(64, 32, 8);
    d.set_pixel(5, 0, 1);
    d.set_pixel(9, 13, 1);
    d.set_pixel(20, 31, 1); // bottom row: discarded, not wrapped
    d.shift_down();
    assert_eq!(d.get_pixel(5, 1), 1);
    assert_eq!(d.get_pixel(9, 14), 1);
    for x in 0..64u16 {
        assert_eq!(d.get_pixel(x, 0), 0);
    }
    let mut on = 0;
    for y in 0..32u16 {
        for x in 0..64u16 {
            on += d.get_pixel(x, y) as u32;
        }
    }
    assert_eq!(on, 2);
}

#[test]
fn scrolling_up_left_right() {
    let mut d = Display::new(64, 32, 8);
    d.set_pixel(10, 10, 1);
    d.shift_up();
    assert_eq!(d.get_pixel(10, 9), 1);
    d.shift_left();
    assert_eq!(d.get_pixel(9, 9), 1);
    d.shift_right();
    d.shift_right();
    assert_eq!(d.get_pixel(11, 9), 1);
}

#[test]
fn scroll_opcodes() {
    let mut chip = fresh();
    chip.display.set_pixel(10, 10, 1);
    exec(&mut chip, 0x00C3); // scroll down 3
    assert_eq!(chip.display.get_pixel(10, 13), 1);
    exec(&mut chip, 0x00D2); // scroll up 2
    assert_eq!(chip.display.get_pixel(10, 11), 1);
    exec(&mut chip, 0x00FB); // scroll right 4
    assert_eq!(chip.display.get_pixel(14, 11), 1);
    exec(&mut chip, 0x00FC); // scroll left 4
    assert_eq!(chip.display.get_pixel(10, 11), 1);
}

#[test]
fn resolution_switch_clears_and_resizes() {
    let mut chip = fresh();
    chip.display.set_pixel(1, 1, 1);
    exec(&mut chip, 0x00FF);
    assert_eq!(chip.display.width, 128);
    assert_eq!(chip.display.height, 64);
    assert_eq!(chip.display.scale, 4);
    assert_all_dark(&chip.display);
    exec(&mut chip, 0x00FE);
    assert_eq!(chip.display.width, 64);
    assert_eq!(chip.display.height, 32);
    assert_eq!(chip.display.scale, 8);
    assert_all_dark(&chip.display);
}

#[test]
fn repeat_marker_rewinds_pc() {
    let mut chip = fresh();
    chip.read_to_memory(&vec![0x00u8, 0xFD], 0x200);
    chip.step().unwrap();
    assert_eq!(chip.pc, 0x200);
}
