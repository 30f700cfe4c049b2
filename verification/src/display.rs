//! Bit-packed monochrome framebuffer: a logical `width` by `height` pixel
//! grid stored row-major, 32 pixels per storage word, with pixel (x, y) at
//! word `(y*width+x)/32`, bit `31 - ((y*width+x) % 32)` counted from the
//! least significant end.

use vstd::prelude::*;
use crate::keypad::{Keypad, KeypadV};
use crate::rle::zero_words;

verus! {

/// Whether bit `b` (counted from the least significant end) of `w` is set.
pub open spec fn word_bit(w: u32, b: u32) -> bool
    recommends
        b < 32,
{
    (w >> b) & 1 == 1
}

/// The pixel at flat index `i` of a packed word sequence.
pub open spec fn packed_bit(words: Seq<u32>, i: int) -> bool
    recommends
        0 <= i < 32 * words.len(),
{
    word_bit(words[i / 32], (31 - i % 32) as u32)
}

/// The packed words unpacked into one pixel per element, row-major.
pub open spec fn unpack_pixels(words: Seq<u32>, width: u16, height: u16) -> Seq<bool> {
    Seq::new((width * height) as nat, |i: int| packed_bit(words, i))
}

/// The storage holds exactly one bit per pixel, and the grid is small
/// enough that every flat pixel index fits in 16 bits.
pub open spec fn fb_wf(words: Seq<u32>, width: u16, height: u16) -> bool {
    &&& width as int * height as int <= 0xFFFF
    &&& words.len() == (width as int * height as int + 31) / 32
}

/// Abstract framebuffer state: one element per pixel, row-major.
pub ghost struct DisplayV {
    pub pixels: Seq<bool>,
    pub width: u16,
    pub height: u16,
    pub scale: u16,
    pub original_scale: u16,
    pub beep: bool,
    pub keypad: KeypadV,
}

pub struct Display {
    /// Packed pixel storage, 32 pixels per word.
    pub display: Vec<u32>,
    pub width: u16,
    pub height: u16,
    pub keypad: Keypad,
    pub scale: u16,
    pub original_scale: u16,
    /// Whether the sound timer is asking the audio backend to beep.
    pub beep: bool,
}

impl View for Display {
    type V = DisplayV;

    open spec fn view(&self) -> DisplayV {
        DisplayV {
            pixels: unpack_pixels(self.display@, self.width, self.height),
            width: self.width,
            height: self.height,
            scale: self.scale,
            original_scale: self.original_scale,
            beep: self.beep,
            keypad: self.keypad@,
        }
    }
}

/// A flat pixel index stays inside the grid.
proof fn lemma_flat_index_bound(x: int, y: int, w: int, h: int)
    by (nonlinear_arith)
    requires
        0 <= x < w,
        0 <= y < h,
    ensures
        0 <= y * w + x < w * h,
{
}

/// A flat index below `32 * len` lands in word `i / 32`, bit `i % 32`.
proof fn lemma_word_of_index(i: int, len: int)
    by (nonlinear_arith)
    requires
        0 <= i < 32 * len,
    ensures
        0 <= i / 32 < len,
        0 <= i % 32 < 32,
        i == 32 * (i / 32) + i % 32,
{
}

/// The storage length bound puts every pixel index inside the words.
proof fn lemma_fb_capacity(words: Seq<u32>, width: u16, height: u16)
    requires
        fb_wf(words, width, height),
    ensures
        width as int * height as int <= 32 * words.len(),
{
    let a = width as int * height as int;
    assert(32 * ((a + 31) / 32) >= a) by (nonlinear_arith);
}

/// Setting or clearing one bit of a word changes that bit alone.
proof fn lemma_word_bit_update(w: u32, j: u32, k: u32)
    by (bit_vector)
    requires
        j < 32,
        k < 32,
    ensures
        word_bit(w | (1u32 << j), k) == if k == j {
            true
        } else {
            word_bit(w, k)
        },
        word_bit(w & !(1u32 << j), k) == if k == j {
            false
        } else {
            word_bit(w, k)
        },
{
}

/// A zero word has no bits set.
proof fn lemma_zero_word_bit(k: u32)
    by (bit_vector)
    requires
        k < 32,
    ensures
        !word_bit(0u32, k),
{
}

/// Every pixel of an all-zero storage is off.
pub proof fn lemma_zero_words_pixels(n: nat, width: u16, height: u16)
    ensures
        forall|i: int|
            0 <= i < width as int * height as int && i < 32 * n ==> !unpack_pixels(
                zero_words(n),
                width,
                height,
            )[i],
{
    assert forall|i: int|
        0 <= i < width as int * height as int && i < 32 * n implies !unpack_pixels(
        zero_words(n),
        width,
        height,
    )[i] by {
        lemma_word_of_index(i, n as int);
        lemma_zero_word_bit((31 - i % 32) as u32);
    }
}

/// A flat index with `0 <= i < w * h` decomposes into column `i % w` and
/// row `i / w`.
proof fn lemma_flat_decomp(i: int, w: int, h: int)
    by (nonlinear_arith)
    requires
        1 <= w,
        0 <= i < w * h,
    ensures
        0 <= i % w < w,
        0 <= i / w < h,
        i == (i / w) * w + i % w,
{
}

/// Column and row of a flat index built from coordinates.
proof fn lemma_flat_coords(x: int, y: int, w: int)
    by (nonlinear_arith)
    requires
        0 <= x < w,
        0 <= y,
    ensures
        (y * w + x) / w == y,
        (y * w + x) % w == x,
{
}

/// The grid scrolled up one row: every pixel takes the value of the pixel
/// below it and the bottom row clears.
pub open spec fn shift_up_pixels(p: Seq<bool>, w: u16, h: u16) -> Seq<bool> {
    Seq::new(
        p.len(),
        |i: int|
            if i / (w as int) < h - 1 {
                p[i + w]
            } else {
                false
            },
    )
}

/// The grid scrolled down one row: every pixel takes the value of the pixel
/// above it and the top row clears.
pub open spec fn shift_down_pixels(p: Seq<bool>, w: u16, h: u16) -> Seq<bool> {
    Seq::new(
        p.len(),
        |i: int|
            if i / (w as int) >= 1 {
                p[i - w]
            } else {
                false
            },
    )
}

/// The grid scrolled left one column: every pixel takes the value of its
/// right neighbour and the rightmost column clears.
pub open spec fn shift_left_pixels(p: Seq<bool>, w: u16, h: u16) -> Seq<bool> {
    Seq::new(
        p.len(),
        |i: int|
            if i % (w as int) < w - 1 {
                p[i + 1]
            } else {
                false
            },
    )
}

/// The grid scrolled right one column: every pixel takes the value of its
/// left neighbour and the leftmost column clears.
pub open spec fn shift_right_pixels(p: Seq<bool>, w: u16, h: u16) -> Seq<bool> {
    Seq::new(
        p.len(),
        |i: int|
            if i % (w as int) >= 1 {
                p[i - 1]
            } else {
                false
            },
    )
}

/// Whether sprite-row bit `b` (of `nbits`, leftmost first) is set.
pub open spec fn row_bit(row: u16, nbits: u16, b: int) -> bool
    recommends
        0 <= b < nbits <= 16,
{
    (row >> ((nbits - 1 - b) as u16)) & 1 == 1
}

/// Whether flat index `i` is toggled when the leftmost `blim` bits of a
/// sprite row are XOR-drawn at (x0, y): it sits in row y, within the drawn
/// and unclipped span, under a set sprite bit.
pub open spec fn row_covers(w: u16, x0: int, y: int, row: u16, nbits: u16, blim: int, i: int) -> bool {
    &&& i / (w as int) == y
    &&& x0 <= i % (w as int) < x0 + blim
    &&& row_bit(row, nbits, i % (w as int) - x0)
}

/// The grid after one sprite row is XOR-drawn at (x0, y).
pub open spec fn xor_row_pixels(p: Seq<bool>, w: u16, x0: int, y: int, row: u16, nbits: u16) -> Seq<
    bool,
> {
    Seq::new(
        p.len(),
        |i: int|
            if row_covers(w, x0, y, row, nbits, nbits as int, i) {
                !p[i]
            } else {
                p[i]
            },
    )
}

/// Whether XOR-drawing the row at (x0, y) turns some pixel off.
pub open spec fn xor_row_hit(p: Seq<bool>, w: u16, x0: int, y: int, row: u16, nbits: u16) -> bool {
    exists|i: int| 0 <= i < p.len() && row_covers(w, x0, y, row, nbits, nbits as int, i) && p[i]
}

/// Law: XOR-drawing the same sprite row twice at the same spot restores
/// the grid, since every covered pixel is toggled exactly twice; and the
/// second draw turns a pixel off exactly where the first turned one on.
pub proof fn lemma_xor_row_involution(p: Seq<bool>, w: u16, x0: int, y: int, row: u16, nbits: u16)
    ensures
        xor_row_pixels(xor_row_pixels(p, w, x0, y, row, nbits), w, x0, y, row, nbits) == p,
{
    assert(xor_row_pixels(xor_row_pixels(p, w, x0, y, row, nbits), w, x0, y, row, nbits) =~= p);
}

impl Display {
    /// The storage matches the dimensions and all 16 keys are tracked.
    pub open spec fn wf(&self) -> bool {
        &&& fb_wf(self.display@, self.width, self.height)
        &&& self.keypad.wf()
    }

    /// The pixel at (x, y) of the abstract grid.
    pub open spec fn spec_pixel(&self, x: int, y: int) -> bool
        recommends
            0 <= x < self.width,
            0 <= y < self.height,
    {
        self@.pixels[y * self.width + x]
    }

    pub fn new(width: u16, height: u16, scale: u16) -> (d: Display)
        requires
            width as int * height as int <= 0xFFFF,
        ensures
            d.wf(),
            d.width == width,
            d.height == height,
            d.scale == scale,
            d.original_scale == scale,
            !d.beep,
            d@.keypad.keys == Seq::new(16, |i: int| false),
            !d@.keypad.new_key_pressed,
            d@.keypad.last_key is None,
            forall|x: int, y: int| 0 <= x < width && 0 <= y < height ==> !d.spec_pixel(x, y),
    {
        let len = (width * height) as usize;
        let d = Display {
            display: vec![0u32; (len + 31) / 32],
            width,
            height,
            keypad: Keypad::new(),
            scale,
            original_scale: scale,
            beep: false,
        };
        proof {
            assert(d.display@ =~= zero_words((((width * height) as int + 31) / 32) as nat));
            lemma_fb_capacity(d.display@, width, height);
            lemma_zero_words_pixels(d.display@.len() as nat, width, height);
            assert forall|x: int, y: int|
                0 <= x < width && 0 <= y < height implies !d.spec_pixel(x, y) by {
                lemma_flat_index_bound(x, y, width as int, height as int);
            }
        }
        d
    }

    /// Turns every pixel off, keeping the dimensions.
    pub fn clear(&mut self)
        requires
            old(self).wf(),
        ensures
            final(self).wf(),
            final(self)@ == (DisplayV {
                pixels: Seq::new(old(self)@.pixels.len(), |i: int| false),
                ..old(self)@
            }),
            final(self).width == old(self).width,
            final(self).height == old(self).height,
    {
        let num_u32s = ((self.width * self.height) as usize + 31) / 32;
        self.display = vec![0u32; num_u32s];
        proof {
            assert(self.display@ =~= zero_words(num_u32s as nat));
            lemma_fb_capacity(self.display@, self.width, self.height);
            lemma_zero_words_pixels(num_u32s as nat, self.width, self.height);
            assert(self@.pixels =~= Seq::new(old(self)@.pixels.len(), |i: int| false));
        }
    }

    /// The pixel at (x, y): 1 when on, 0 when off.
    pub fn get_pixel(&self, x: u16, y: u16) -> (v: u8)
        requires
            self.wf(),
            x < self.width,
            y < self.height,
        ensures
            v == if self.spec_pixel(x as int, y as int) {
                1u8
            } else {
                0u8
            },
    {
        proof {
            lemma_flat_index_bound(x as int, y as int, self.width as int, self.height as int);
            lemma_fb_capacity(self.display@, self.width, self.height);
            lemma_word_of_index((y * self.width + x) as int, self.display@.len() as int);
        }
        let index = (y * self.width + x) as usize;
        let u32_index = index / 32;
        let bit_index = index % 32;
        let shift: u32 = (31 - bit_index) as u32;
        let wv = self.display[u32_index];
        let bit = (wv >> shift) & 1;
        proof {
            assert((wv >> shift) & 1 <= 1) by (bit_vector);
        }
        bit as u8
    }

    /// Sets the pixel at (x, y) on when `v` is 1, off otherwise; every other
    /// pixel and every other field keeps its value.
    pub fn set_pixel(&mut self, x: u16, y: u16, v: u8)
        requires
            old(self).wf(),
            x < old(self).width,
            y < old(self).height,
        ensures
            final(self).wf(),
            final(self)@ == (DisplayV {
                pixels: old(self)@.pixels.update(
                    y as int * old(self).width as int + x as int,
                    v == 1,
                ),
                ..old(self)@
            }),
            final(self).width == old(self).width,
            final(self).height == old(self).height,
    {
        proof {
            lemma_flat_index_bound(x as int, y as int, self.width as int, self.height as int);
            lemma_fb_capacity(self.display@, self.width, self.height);
            lemma_word_of_index((y * self.width + x) as int, self.display@.len() as int);
        }
        let index = (y * self.width + x) as usize;
        let u32_index = index / 32;
        let bit_index = index % 32;
        let shift: u32 = (31 - bit_index) as u32;
        let w = self.display[u32_index];
        let nw = if v == 1 {
            w | (1u32 << shift)
        } else {
            w & !(1u32 << shift)
        };
        self.display[u32_index] = nw;
        proof {
            let widthi = old(self).width as int;
            let idx = y as int * widthi + x as int;
            assert forall|i: int| 0 <= i < old(self)@.pixels.len() implies #[trigger] self@.pixels[i]
                == old(self)@.pixels.update(idx, v == 1)[i] by {
                lemma_word_of_index(i, self.display@.len() as int);
                if i / 32 == idx / 32 {
                    lemma_word_bit_update(w, (31 - idx % 32) as u32, (31 - i % 32) as u32);
                }
            }
            assert(self@.pixels =~= old(self)@.pixels.update(idx, v == 1));
        }
    }

    /// Reallocates the grid at the new dimensions, cleared, and records the
    /// new pixel scale.
    pub fn resize(&mut self, new_width: u16, new_height: u16, new_scale: u16)
        requires
            old(self).wf(),
            new_width as int * new_height as int <= 0xFFFF,
        ensures
            final(self).wf(),
            final(self)@ == (DisplayV {
                pixels: Seq::new((new_width * new_height) as nat, |i: int| false),
                width: new_width,
                height: new_height,
                scale: new_scale,
                ..old(self)@
            }),
            final(self).width == new_width,
            final(self).height == new_height,
    {
        self.width = new_width;
        self.height = new_height;
        self.scale = new_scale;
        let num_u32s = ((self.width * self.height) as usize + 31) / 32;
        self.display = vec![0u32; num_u32s];
        proof {
            assert(self.display@ =~= zero_words(num_u32s as nat));
            lemma_fb_capacity(self.display@, new_width, new_height);
            lemma_zero_words_pixels(num_u32s as nat, new_width, new_height);
            assert(self@.pixels =~= Seq::new((new_width * new_height) as nat, |i: int| false));
        }
    }

    /// Everything but the pixel contents agrees with `o`.
    pub open spec fn same_but_pixels(&self, o: &Display) -> bool {
        &&& self.wf()
        &&& self.width == o.width
        &&& self.height == o.height
        &&& self.scale == o.scale
        &&& self.original_scale == o.original_scale
        &&& self.beep == o.beep
        &&& self.keypad@ == o.keypad@
    }

    /// Moves every pixel one row up, clearing the bottom row; nothing wraps.
    pub fn shift_up(&mut self)
        requires
            old(self).wf(),
            1 <= old(self).width,
            1 <= old(self).height,
        ensures
            final(self).wf(),
            final(self)@ == (DisplayV {
                pixels: shift_up_pixels(old(self)@.pixels, old(self).width, old(self).height),
                ..old(self)@
            }),
            final(self).width == old(self).width,
            final(self).height == old(self).height,
    {
        let w = self.width;
        let h = self.height;
        let ghost p0 = self@.pixels;
        let ghost target = shift_up_pixels(p0, w, h);
        let mut y: u16 = 0;
        while y < h - 1
            invariant
                self.same_but_pixels(old(self)),
                self.width == w,
                self.height == h,
                1 <= w,
                1 <= h,
                p0 == old(self)@.pixels,
                target == shift_up_pixels(p0, w, h),
                y <= h - 1,
                forall|i: int|
                    0 <= i < p0.len() ==> #[trigger] self@.pixels[i] == (if i / (w as int) < y {
                        target[i]
                    } else {
                        p0[i]
                    }),
            decreases h - 1 - y,
        {
            let mut x: u16 = 0;
            while x < w
                invariant
                    self.same_but_pixels(old(self)),
                    self.width == w,
                    self.height == h,
                    1 <= w,
                    1 <= h,
                    p0 == old(self)@.pixels,
                    target == shift_up_pixels(p0, w, h),
                    y < h - 1,
                    x <= w,
                    forall|i: int|
                        0 <= i < p0.len() ==> #[trigger] self@.pixels[i] == (if i / (w as int) < y
                            || (i / (w as int) == y && i % (w as int) < x) {
                            target[i]
                        } else {
                            p0[i]
                        }),
                decreases w - x,
            {
                let ghost prev = self@.pixels;
                let v = self.get_pixel(x, y + 1);
                self.set_pixel(x, y, v);
                proof {
                    let wi = w as int;
                    let idx = y as int * wi + x as int;
                    let idx2 = (y as int + 1) * wi + x as int;
                    lemma_flat_coords(x as int, y as int, wi);
                    lemma_flat_coords(x as int, y as int + 1, wi);
                    lemma_flat_index_bound(x as int, y as int, wi, h as int);
                    lemma_flat_index_bound(x as int, y as int + 1, wi, h as int);
                    assert((y as int + 1) * wi == y as int * wi + wi) by (nonlinear_arith);
                    assert(idx2 == idx + wi);
                    assert forall|i: int| 0 <= i < p0.len() implies #[trigger] self@.pixels[i] == (
                    if i / wi < y || (i / wi == y && i % wi < x + 1) {
                        target[i]
                    } else {
                        p0[i]
                    }) by {
                        lemma_flat_decomp(i, wi, h as int);
                        if i == idx {
                            assert(self@.pixels[i] == (v == 1));
                            assert(prev[idx2] == p0[idx2]);
                        } else {
                            assert(self@.pixels[i] == prev[i]);
                        }
                    }
                }
                x = x + 1;
            }
            y = y + 1;
        }
        let mut x: u16 = 0;
        while x < w
            invariant
                self.same_but_pixels(old(self)),
                self.width == w,
                self.height == h,
                1 <= w,
                1 <= h,
                p0 == old(self)@.pixels,
                target == shift_up_pixels(p0, w, h),
                x <= w,
                forall|i: int|
                    0 <= i < p0.len() ==> #[trigger] self@.pixels[i] == (if i / (w as int) < h - 1
                        || (i / (w as int) == h - 1 && i % (w as int) < x) {
                        target[i]
                    } else {
                        p0[i]
                    }),
            decreases w - x,
        {
            let ghost prev = self@.pixels;
            self.set_pixel(x, h - 1, 0);
            proof {
                let wi = w as int;
                let idx = (h as int - 1) * wi + x as int;
                lemma_flat_coords(x as int, h as int - 1, wi);
                lemma_flat_index_bound(x as int, h as int - 1, wi, h as int);
                assert forall|i: int| 0 <= i < p0.len() implies #[trigger] self@.pixels[i] == (if i
                    / wi < h - 1 || (i / wi == h - 1 && i % wi < x + 1) {
                    target[i]
                } else {
                    p0[i]
                }) by {
                    lemma_flat_decomp(i, wi, h as int);
                    if i == idx {
                        assert(self@.pixels[i] == false);
                        assert(target[i] == false);
                    } else {
                        assert(self@.pixels[i] == prev[i]);
                    }
                }
            }
            x = x + 1;
        }
        proof {
            assert forall|i: int| 0 <= i < p0.len() implies #[trigger] self@.pixels[i] == target[i] by {
                lemma_flat_decomp(i, w as int, h as int);
            }
            assert(self@.pixels =~= target);
        }
    }

    /// Moves every pixel one row down, clearing the top row; nothing wraps:
    /// the bottom row's previous contents are discarded.
    pub fn shift_down(&mut self)
        requires
            old(self).wf(),
            1 <= old(self).width,
            1 <= old(self).height,
        ensures
            final(self).wf(),
            final(self)@ == (DisplayV {
                pixels: shift_down_pixels(old(self)@.pixels, old(self).width, old(self).height),
                ..old(self)@
            }),
            final(self).width == old(self).width,
            final(self).height == old(self).height,
    {
        let w = self.width;
        let h = self.height;
        let ghost p0 = self@.pixels;
        let ghost target = shift_down_pixels(p0, w, h);
        let mut y: u16 = h - 1;
        proof {
            assert forall|i: int| 0 <= i < p0.len() implies #[trigger] (i / (w as int)) <= h - 1 by {
                lemma_flat_decomp(i, w as int, h as int);
            }
        }
        while y >= 1
            invariant
                self.same_but_pixels(old(self)),
                self.width == w,
                self.height == h,
                1 <= w,
                1 <= h,
                p0 == old(self)@.pixels,
                target == shift_down_pixels(p0, w, h),
                y <= h - 1,
                forall|i: int|
                    0 <= i < p0.len() ==> #[trigger] self@.pixels[i] == (if i / (w as int) > y {
                        target[i]
                    } else {
                        p0[i]
                    }),
            decreases y,
        {
            let mut x: u16 = 0;
            while x < w
                invariant
                    self.same_but_pixels(old(self)),
                    self.width == w,
                    self.height == h,
                    1 <= w,
                    1 <= h,
                    p0 == old(self)@.pixels,
                    target == shift_down_pixels(p0, w, h),
                    1 <= y <= h - 1,
                    x <= w,
                    forall|i: int|
                        0 <= i < p0.len() ==> #[trigger] self@.pixels[i] == (if i / (w as int) > y
                            || (i / (w as int) == y && i % (w as int) < x) {
                            target[i]
                        } else {
                            p0[i]
                        }),
                decreases w - x,
            {
                let ghost prev = self@.pixels;
                let v = self.get_pixel(x, y - 1);
                self.set_pixel(x, y, v);
                proof {
                    let wi = w as int;
                    let idx = y as int * wi + x as int;
                    let idx2 = (y as int - 1) * wi + x as int;
                    lemma_flat_coords(x as int, y as int, wi);
                    lemma_flat_coords(x as int, y as int - 1, wi);
                    lemma_flat_index_bound(x as int, y as int, wi, h as int);
                    lemma_flat_index_bound(x as int, y as int - 1, wi, h as int);
                    assert((y as int - 1) * wi == y as int * wi - wi) by (nonlinear_arith);
                    assert(idx2 == idx - wi);
                    assert forall|i: int| 0 <= i < p0.len() implies #[trigger] self@.pixels[i] == (
                    if i / wi > y || (i / wi == y && i % wi < x + 1) {
                        target[i]
                    } else {
                        p0[i]
                    }) by {
                        lemma_flat_decomp(i, wi, h as int);
                        if i == idx {
                            assert(self@.pixels[i] == (v == 1));
                            assert(prev[idx2] == p0[idx2]);
                        } else {
                            assert(self@.pixels[i] == prev[i]);
                        }
                    }
                }
                x = x + 1;
            }
            y = y - 1;
        }
        let mut x: u16 = 0;
        while x < w
            invariant
                self.same_but_pixels(old(self)),
                self.width == w,
                self.height == h,
                1 <= w,
                1 <= h,
                p0 == old(self)@.pixels,
                target == shift_down_pixels(p0, w, h),
                x <= w,
                forall|i: int|
                    0 <= i < p0.len() ==> #[trigger] self@.pixels[i] == (if i / (w as int) > 0 || (i
                        / (w as int) == 0 && i % (w as int) < x) {
                        target[i]
                    } else {
                        p0[i]
                    }),
            decreases w - x,
        {
            let ghost prev = self@.pixels;
            self.set_pixel(x, 0, 0);
            proof {
                let wi = w as int;
                let idx = x as int;
                lemma_flat_coords(x as int, 0, wi);
                lemma_flat_index_bound(x as int, 0, wi, h as int);
                assert forall|i: int| 0 <= i < p0.len() implies #[trigger] self@.pixels[i] == (if i
                    / wi > 0 || (i / wi == 0 && i % wi < x + 1) {
                    target[i]
                } else {
                    p0[i]
                }) by {
                    lemma_flat_decomp(i, wi, h as int);
                    if i == idx {
                        assert(self@.pixels[i] == false);
                        assert(target[i] == false);
                    } else {
                        assert(self@.pixels[i] == prev[i]);
                    }
                }
            }
            x = x + 1;
        }
        proof {
            assert forall|i: int| 0 <= i < p0.len() implies #[trigger] self@.pixels[i] == target[i] by {
                lemma_flat_decomp(i, w as int, h as int);
            }
            assert(self@.pixels =~= target);
        }
    }

    /// Moves every pixel one column left, clearing the rightmost column;
    /// nothing wraps: the leftmost column's previous contents are discarded.
    pub fn shift_left(&mut self)
        requires
            old(self).wf(),
            1 <= old(self).width,
            1 <= old(self).height,
        ensures
            final(self).wf(),
            final(self)@ == (DisplayV {
                pixels: shift_left_pixels(old(self)@.pixels, old(self).width, old(self).height),
                ..old(self)@
            }),
            final(self).width == old(self).width,
            final(self).height == old(self).height,
    {
        let w = self.width;
        let h = self.height;
        let ghost p0 = self@.pixels;
        let ghost target = shift_left_pixels(p0, w, h);
        let mut y: u16 = 0;
        while y < h
            invariant
                self.same_but_pixels(old(self)),
                self.width == w,
                self.height == h,
                1 <= w,
                1 <= h,
                p0 == old(self)@.pixels,
                target == shift_left_pixels(p0, w, h),
                y <= h,
                forall|i: int|
                    0 <= i < p0.len() ==> #[trigger] self@.pixels[i] == (if i / (w as int) < y && i
                        % (w as int) < w - 1 {
                        target[i]
                    } else {
                        p0[i]
                    }),
            decreases h - y,
        {
            let mut x: u16 = 0;
            while x < w - 1
                invariant
                    self.same_but_pixels(old(self)),
                    self.width == w,
                    self.height == h,
                    1 <= w,
                    1 <= h,
                    p0 == old(self)@.pixels,
                    target == shift_left_pixels(p0, w, h),
                    y < h,
                    x <= w - 1,
                    forall|i: int|
                        0 <= i < p0.len() ==> #[trigger] self@.pixels[i] == (if (i / (w as int) < y
                            && i % (w as int) < w - 1) || (i / (w as int) == y && i % (w as int)
                            < x) {
                            target[i]
                        } else {
                            p0[i]
                        }),
                decreases w - 1 - x,
            {
                let ghost prev = self@.pixels;
                let v = self.get_pixel(x + 1, y);
                self.set_pixel(x, y, v);
                proof {
                    let wi = w as int;
                    let idx = y as int * wi + x as int;
                    let idx2 = y as int * wi + x as int + 1;
                    lemma_flat_coords(x as int, y as int, wi);
                    lemma_flat_coords(x as int + 1, y as int, wi);
                    lemma_flat_index_bound(x as int, y as int, wi, h as int);
                    lemma_flat_index_bound(x as int + 1, y as int, wi, h as int);
                    assert forall|i: int| 0 <= i < p0.len() implies #[trigger] self@.pixels[i] == (
                    if (i / wi < y && i % wi < w - 1) || (i / wi == y && i % wi < x + 1) {
                        target[i]
                    } else {
                        p0[i]
                    }) by {
                        lemma_flat_decomp(i, wi, h as int);
                        if i == idx {
                            assert(self@.pixels[i] == (v == 1));
                            assert(prev[idx2] == p0[idx2]);
                        } else {
                            assert(self@.pixels[i] == prev[i]);
                        }
                    }
                }
                x = x + 1;
            }
            y = y + 1;
        }
        let mut y2: u16 = 0;
        proof {
            assert forall|i: int| 0 <= i < p0.len() implies #[trigger] (i / (w as int)) < h by {
                lemma_flat_decomp(i, w as int, h as int);
            }
        }
        while y2 < h
            invariant
                self.same_but_pixels(old(self)),
                self.width == w,
                self.height == h,
                1 <= w,
                1 <= h,
                p0 == old(self)@.pixels,
                target == shift_left_pixels(p0, w, h),
                y2 <= h,
                forall|i: int|
                    0 <= i < p0.len() ==> #[trigger] self@.pixels[i] == (if i % (w as int) < w - 1
                        || (i % (w as int) == w - 1 && i / (w as int) < y2) {
                        target[i]
                    } else {
                        p0[i]
                    }),
            decreases h - y2,
        {
            let ghost prev = self@.pixels;
            self.set_pixel(w - 1, y2, 0);
            proof {
                let wi = w as int;
                let idx = y2 as int * wi + (w as int - 1);
                lemma_flat_coords(w as int - 1, y2 as int, wi);
                lemma_flat_index_bound(w as int - 1, y2 as int, wi, h as int);
                assert forall|i: int| 0 <= i < p0.len() implies #[trigger] self@.pixels[i] == (if i
                    % wi < w - 1 || (i % wi == w - 1 && i / wi < y2 + 1) {
                    target[i]
                } else {
                    p0[i]
                }) by {
                    lemma_flat_decomp(i, wi, h as int);
                    if i == idx {
                        assert(self@.pixels[i] == false);
                        assert(target[i] == false);
                    } else {
                        assert(self@.pixels[i] == prev[i]);
                    }
                }
            }
            y2 = y2 + 1;
        }
        proof {
            assert forall|i: int| 0 <= i < p0.len() implies #[trigger] self@.pixels[i] == target[i] by {
                lemma_flat_decomp(i, w as int, h as int);
            }
            assert(self@.pixels =~= target);
        }
    }

    /// Moves every pixel one column right, clearing the leftmost column;
    /// nothing wraps: the rightmost column's previous contents are discarded.
    pub fn shift_right(&mut self)
        requires
            old(self).wf(),
            1 <= old(self).width,
            1 <= old(self).height,
        ensures
            final(self).wf(),
            final(self)@ == (DisplayV {
                pixels: shift_right_pixels(old(self)@.pixels, old(self).width, old(self).height),
                ..old(self)@
            }),
            final(self).width == old(self).width,
            final(self).height == old(self).height,
    {
        let w = self.width;
        let h = self.height;
        let ghost p0 = self@.pixels;
        let ghost target = shift_right_pixels(p0, w, h);
        let mut y: u16 = 0;
        while y < h
            invariant
                self.same_but_pixels(old(self)),
                self.width == w,
                self.height == h,
                1 <= w,
                1 <= h,
                p0 == old(self)@.pixels,
                target == shift_right_pixels(p0, w, h),
                y <= h,
                forall|i: int|
                    0 <= i < p0.len() ==> #[trigger] self@.pixels[i] == (if i / (w as int) < y && i
                        % (w as int) >= 1 {
                        target[i]
                    } else {
                        p0[i]
                    }),
            decreases h - y,
        {
            let mut x: u16 = w - 1;
            while x >= 1
                invariant
                    self.same_but_pixels(old(self)),
                    self.width == w,
                    self.height == h,
                    1 <= w,
                    1 <= h,
                    p0 == old(self)@.pixels,
                    target == shift_right_pixels(p0, w, h),
                    y < h,
                    x <= w - 1,
                    forall|i: int|
                        0 <= i < p0.len() ==> #[trigger] self@.pixels[i] == (if (i / (w as int) < y
                            && i % (w as int) >= 1) || (i / (w as int) == y && i % (w as int)
                            > x) {
                            target[i]
                        } else {
                            p0[i]
                        }),
                decreases x,
            {
                let ghost prev = self@.pixels;
                let v = self.get_pixel(x - 1, y);
                self.set_pixel(x, y, v);
                proof {
                    let wi = w as int;
                    let idx = y as int * wi + x as int;
                    let idx2 = y as int * wi + x as int - 1;
                    lemma_flat_coords(x as int, y as int, wi);
                    lemma_flat_coords(x as int - 1, y as int, wi);
                    lemma_flat_index_bound(x as int, y as int, wi, h as int);
                    lemma_flat_index_bound(x as int - 1, y as int, wi, h as int);
                    assert forall|i: int| 0 <= i < p0.len() implies #[trigger] self@.pixels[i] == (
                    if (i / wi < y && i % wi >= 1) || (i / wi == y && i % wi > x - 1) {
                        target[i]
                    } else {
                        p0[i]
                    }) by {
                        lemma_flat_decomp(i, wi, h as int);
                        if i == idx {
                            assert(self@.pixels[i] == (v == 1));
                            assert(prev[idx2] == p0[idx2]);
                        } else {
                            assert(self@.pixels[i] == prev[i]);
                        }
                    }
                }
                x = x - 1;
            }
            y = y + 1;
        }
        let mut y2: u16 = 0;
        proof {
            assert forall|i: int| 0 <= i < p0.len() implies #[trigger] (i / (w as int)) < h by {
                lemma_flat_decomp(i, w as int, h as int);
            }
        }
        while y2 < h
            invariant
                self.same_but_pixels(old(self)),
                self.width == w,
                self.height == h,
                1 <= w,
                1 <= h,
                p0 == old(self)@.pixels,
                target == shift_right_pixels(p0, w, h),
                y2 <= h,
                forall|i: int|
                    0 <= i < p0.len() ==> #[trigger] self@.pixels[i] == (if i % (w as int) >= 1 || (
                    i % (w as int) == 0 && i / (w as int) < y2) {
                        target[i]
                    } else {
                        p0[i]
                    }),
            decreases h - y2,
        {
            let ghost prev = self@.pixels;
            self.set_pixel(0, y2, 0);
            proof {
                let wi = w as int;
                let idx = y2 as int * wi;
                lemma_flat_coords(0, y2 as int, wi);
                lemma_flat_index_bound(0, y2 as int, wi, h as int);
                assert forall|i: int| 0 <= i < p0.len() implies #[trigger] self@.pixels[i] == (if i
                    % wi >= 1 || (i % wi == 0 && i / wi < y2 + 1) {
                    target[i]
                } else {
                    p0[i]
                }) by {
                    lemma_flat_decomp(i, wi, h as int);
                    if i == idx {
                        assert(self@.pixels[i] == false);
                        assert(target[i] == false);
                    } else {
                        assert(self@.pixels[i] == prev[i]);
                    }
                }
            }
            y2 = y2 + 1;
        }
        proof {
            assert forall|i: int| 0 <= i < p0.len() implies #[trigger] self@.pixels[i] == target[i] by {
                lemma_flat_decomp(i, w as int, h as int);
            }
            assert(self@.pixels =~= target);
        }
    }

    /// XOR-draws the leftmost `nbits` bits of one sprite row at (x0, y),
    /// clipping at the right edge; reports whether any pixel went off.
    pub fn xor_row(&mut self, x0: u16, y: u16, row: u16, nbits: u16) -> (hit: bool)
        requires
            old(self).wf(),
            x0 < old(self).width,
            y < old(self).height,
            1 <= nbits <= 16,
        ensures
            final(self).wf(),
            final(self)@ == (DisplayV {
                pixels: xor_row_pixels(
                    old(self)@.pixels,
                    old(self).width,
                    x0 as int,
                    y as int,
                    row,
                    nbits,
                ),
                ..old(self)@
            }),
            hit == xor_row_hit(old(self)@.pixels, old(self).width, x0 as int, y as int, row, nbits),
            final(self).width == old(self).width,
            final(self).height == old(self).height,
    {
        let w = self.width;
        let h = self.height;
        let ghost p0 = self@.pixels;
        let ghost target = xor_row_pixels(p0, w, x0 as int, y as int, row, nbits);
        let mut hit = false;
        let mut b: u16 = 0;
        while b < nbits
            invariant
                self.same_but_pixels(old(self)),
                self.width == w,
                self.height == h,
                1 <= w,
                1 <= h,
                p0 == old(self)@.pixels,
                target == xor_row_pixels(p0, w, x0 as int, y as int, row, nbits),
                x0 < w,
                y < h,
                1 <= nbits <= 16,
                b <= nbits,
                x0 + b <= w,
                forall|i: int|
                    0 <= i < p0.len() ==> #[trigger] self@.pixels[i] == (if row_covers(
                        w,
                        x0 as int,
                        y as int,
                        row,
                        nbits,
                        b as int,
                        i,
                    ) {
                        !p0[i]
                    } else {
                        p0[i]
                    }),
                hit == exists|i: int|
                    0 <= i < p0.len() && #[trigger] row_covers(
                        w,
                        x0 as int,
                        y as int,
                        row,
                        nbits,
                        b as int,
                        i,
                    ) && p0[i],
            decreases nbits - b,
        {
            let x = x0 + b;
            if x >= w {
                proof {
                    assert forall|i: int| 0 <= i < p0.len() implies (row_covers(
                        w,
                        x0 as int,
                        y as int,
                        row,
                        nbits,
                        nbits as int,
                        i,
                    ) == row_covers(w, x0 as int, y as int, row, nbits, b as int, i)) by {
                        lemma_flat_decomp(i, w as int, h as int);
                    }
                    assert(self@.pixels =~= target);
                }
                return hit;
            }
            let bit = (row >> (nbits - 1 - b)) & 1;
            let ghost prev = self@.pixels;
            let ghost idx = y as int * w as int + x as int;
            let ghost hit0 = hit;
            proof {
                lemma_flat_coords(x as int, y as int, w as int);
                lemma_flat_index_bound(x as int, y as int, w as int, h as int);
                assert(!row_covers(w, x0 as int, y as int, row, nbits, b as int, idx));
            }
            let px = self.get_pixel(x, y);
            if bit == 1 {
                if px == 1 {
                    self.set_pixel(x, y, 0);
                    hit = true;
                } else {
                    self.set_pixel(x, y, 1);
                }
            }
            proof {
                let wi = w as int;
                let bp = b as int + 1;
                assert(row_bit(row, nbits, b as int) == (bit == 1));
                assert forall|i: int| 0 <= i < p0.len() implies #[trigger] self@.pixels[i] == (
                if row_covers(w, x0 as int, y as int, row, nbits, bp, i) {
                    !p0[i]
                } else {
                    p0[i]
                }) by {
                    lemma_flat_decomp(i, wi, h as int);
                    if i != idx && bit == 1 {
                        assert(self@.pixels[i] == prev[i]);
                    }
                }
                if hit {
                    if hit0 {
                        let wit = choose|i: int|
                            0 <= i < p0.len() && #[trigger] row_covers(
                                w,
                                x0 as int,
                                y as int,
                                row,
                                nbits,
                                b as int,
                                i,
                            ) && p0[i];
                        assert(row_covers(w, x0 as int, y as int, row, nbits, bp, wit) && p0[wit]);
                    } else {
                        assert(prev[idx] == p0[idx]);
                        assert(row_covers(w, x0 as int, y as int, row, nbits, bp, idx) && p0[idx]);
                    }
                    assert(exists|i: int|
                        0 <= i < p0.len() && #[trigger] row_covers(
                            w,
                            x0 as int,
                            y as int,
                            row,
                            nbits,
                            bp,
                            i,
                        ) && p0[i]);
                } else {
                    assert forall|i: int|
                        0 <= i < p0.len() && #[trigger] row_covers(
                            w,
                            x0 as int,
                            y as int,
                            row,
                            nbits,
                            bp,
                            i,
                        ) implies !p0[i] by {
                        lemma_flat_decomp(i, wi, h as int);
                        if row_covers(w, x0 as int, y as int, row, nbits, b as int, i) {
                            if p0[i] {
                                assert(hit0);
                            }
                        } else {
                            assert(i % wi == x0 + b);
                            assert(i == idx);
                            if p0[i] {
                                assert(prev[idx] == p0[idx]);
                                assert(px == 1 && bit == 1);
                                assert(hit);
                            }
                        }
                    }
                }
            }
            b = b + 1;
        }
        proof {
            assert(self@.pixels =~= target);
        }
        hit
    }

    /// Records whether the audio backend should be beeping.
    pub fn set_beep(&mut self, flag: bool)
        requires
            old(self).wf(),
        ensures
            final(self).wf(),
            final(self)@ == (DisplayV { beep: flag, ..old(self)@ }),
            final(self).width == old(self).width,
            final(self).height == old(self).height,
    {
        self.beep = flag;
    }
}

} // verus!
