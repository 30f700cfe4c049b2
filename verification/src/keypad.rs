//! Logical state of the 16-key hex keypad: which keys are held, whether a
//! new key press has been observed since the flag was last consumed, and the
//! last raw key code seen, used to detect discrete presses.
//!
//! Mapping physical key codes to the 16 logical keys is the input backend's
//! configuration; these methods take the mapped logical key, if any, together
//! with the raw code.

use vstd::prelude::*;

verus! {

/// Abstract keypad state.
pub ghost struct KeypadV {
    pub keys: Seq<bool>,
    pub new_key_pressed: bool,
    pub last_key: Option<i32>,
}

pub struct Keypad {
    /// Held state of the 16 logical keys.
    pub keypad: Vec<bool>,
    /// A key press has been observed and not yet consumed.
    pub new_key_pressed: bool,
    /// Raw code of the most recent press, until released or consumed.
    pub last_key: Option<i32>,
}

impl View for Keypad {
    type V = KeypadV;

    open spec fn view(&self) -> KeypadV {
        KeypadV { keys: self.keypad@, new_key_pressed: self.new_key_pressed, last_key: self.last_key }
    }
}

impl Keypad {
    /// All sixteen keys are tracked.
    pub open spec fn wf(&self) -> bool {
        self.keypad@.len() == 16
    }

    pub fn new() -> (kp: Keypad)
        ensures
            kp.wf(),
            kp@.keys == Seq::new(16, |i: int| false),
            !kp@.new_key_pressed,
            kp@.last_key is None,
    {
        let kp = Keypad { keypad: vec![false; 16], new_key_pressed: false, last_key: None };
        proof {
            assert(kp.keypad@ =~= Seq::new(16, |i: int| false));
        }
        kp
    }

    /// True, consuming the stored press, exactly when the most recent press
    /// was of the given raw code.
    pub fn check_key_down_and_reset(&mut self, key: i32) -> (hit: bool)
        ensures
            hit == (old(self)@.last_key == Some(key)),
            final(self)@.keys == old(self)@.keys,
            final(self)@.new_key_pressed == old(self)@.new_key_pressed,
            final(self)@.last_key == if hit {
                None::<i32>
            } else {
                old(self)@.last_key
            },
    {
        match self.last_key {
            Some(k) => {
                if k == key {
                    self.last_key = None;
                    return true;
                }
            },
            None => {},
        }
        false
    }

    /// Records a press of the raw code `key`, mapped to logical key
    /// `logical` if the backend maps it at all. An unmapped press still
    /// replaces the stored raw code but raises no new-key flag.
    pub fn key_down(&mut self, key: i32, logical: Option<u8>)
        requires
            old(self).wf(),
            logical matches Some(k) ==> k < 16,
        ensures
            final(self).wf(),
            final(self)@.last_key == Some(key),
            final(self)@.new_key_pressed == (logical is Some),
            final(self)@.keys == match logical {
                Some(k) => old(self)@.keys.update(k as int, true),
                None => old(self)@.keys,
            },
    {
        self.new_key_pressed = true;
        self.last_key = Some(key);
        match logical {
            Some(k) => {
                self.keypad[k as usize] = true;
            },
            None => {
                self.new_key_pressed = false;
            },
        }
    }

    /// Records a release of the key mapped to `logical`, if any, and drops
    /// the stored raw code; once no key is held the new-key flag clears.
    pub fn key_up(&mut self, logical: Option<u8>)
        requires
            old(self).wf(),
            logical matches Some(k) ==> k < 16,
        ensures
            final(self).wf(),
            final(self)@.last_key is None,
            final(self)@.keys == match logical {
                Some(k) => old(self)@.keys.update(k as int, false),
                None => old(self)@.keys,
            },
            final(self)@.new_key_pressed == if forall|i: int|
                0 <= i < 16 ==> !final(self)@.keys[i] {
                false
            } else {
                old(self)@.new_key_pressed
            },
    {
        self.last_key = None;
        match logical {
            Some(k) => {
                self.keypad[k as usize] = false;
            },
            None => {},
        }
        let mut all_up = true;
        let mut i: usize = 0;
        while i < 16
            invariant
                i <= 16,
                self.wf(),
                all_up == forall|j: int| 0 <= j < i ==> !self.keypad@[j],
                self@.keys == match logical {
                    Some(k) => old(self)@.keys.update(k as int, false),
                    None => old(self)@.keys,
                },
                self@.last_key is None,
                self@.new_key_pressed == old(self)@.new_key_pressed,
            decreases 16 - i,
        {
            if self.keypad[i] {
                all_up = false;
            }
            i = i + 1;
        }
        if all_up {
            self.new_key_pressed = false;
        }
    }
}

} // verus!
