use chip8_core::keypad::Keypad;

#[test]
fn press_and_release_track_held_keys() {
    let mut kp = Keypad::new();
    assert!(!kp.new_key_pressed);
    kp.key_down(49, Some(1));
    assert!(kp.keypad[1]);
    assert!(kp.new_key_pressed);
    assert_eq!(kp.last_key, Some(49));
    kp.key_up(Some(1));
    assert!(!kp.keypad[1]);
    assert!(!kp.new_key_pressed);
    assert_eq!(kp.last_key, None);
}

#[test]
fn unmapped_press_raises_no_new_key_flag() {
    let mut kp = Keypad::new();
    kp.key_down(27, None);
    assert!(!kp.new_key_pressed);
    assert_eq!(kp.last_key, Some(27));
    assert_eq!(kp.keypad, vec![false; 16]);
}

#[test]
fn flag_clears_only_once_all_keys_are_up() {
    let mut kp = Keypad::new();
    kp.key_down(49, Some(1));
    kp.key_down(50, Some(2));
    kp.key_up(Some(1));
    assert!(kp.new_key_pressed);
    kp.key_up(Some(2));
    assert!(!kp.new_key_pressed);
}

#[test]
fn discrete_press_detection_consumes_the_stored_key() {
    let mut kp = Keypad::new();
    kp.key_down(99, None);
    assert!(!kp.check_key_down_and_reset(98));
    assert!(kp.check_key_down_and_reset(99));
    assert!(!kp.check_key_down_and_reset(99));
}
