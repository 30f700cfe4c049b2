//! The instruction interpreter: registers, stack, memory, timers and quirk
//! configuration, with a fetch/decode/execute cycle over the framebuffer.
//!
//! Stack overflow on call, stack underflow on return, and out-of-range
//! memory or index arithmetic are explicit, checked faults: a faulting step
//! returns an error and leaves the whole machine state unchanged.

use vstd::prelude::*;
use crate::display::{Display, DisplayV};

verus! {

/// Configurable deviations in opcode semantics between historical variants.
#[derive(Clone, Copy)]
pub struct Quirks {
    /// Shift opcodes first copy Vy into Vx.
    pub cosmac_shift: bool,
    /// Index-register overflow past 0xFFF leaves VF alone.
    pub cosmac_fx1e: bool,
    /// Register dump/load advances the index register by x+1.
    pub cosmac_fx55: bool,
    /// Jump-with-offset adds V0 rather than Vx.
    pub cosmac_bnnn: bool,
}

/// A decoded 16-bit instruction word.
#[derive(Clone, Copy)]
pub struct Instruction {
    pub raw: u16,
    /// High nibble: the opcode selector.
    pub op: u8,
    /// Second nibble: first register index.
    pub x: u8,
    /// Third nibble: second register index.
    pub y: u8,
    /// Low nibble: immediate.
    pub n: u8,
    /// Low byte: immediate.
    pub nn: u8,
    /// Low 12 bits: address immediate.
    pub nnn: u16,
}

/// An execution fault that the original hardware left as silent corruption;
/// here each is checked and reported, leaving the state unchanged.
#[derive(Clone, Copy, Debug, PartialEq, Eq, Structural)]
pub enum Fault {
    /// A call past the 32-entry stack.
    StackOverflow,
    /// A return with an empty stack.
    StackUnderflow,
    /// Memory or index arithmetic outside the address space.
    MemoryOutOfRange,
}

/// The fields a word decodes into.
pub open spec fn spec_decode(word: u16) -> Instruction {
    Instruction {
        raw: word,
        op: (word >> 12) as u8,
        x: ((word & 0x0F00) >> 8) as u8,
        y: ((word & 0x00F0) >> 4) as u8,
        n: (word & 0x000F) as u8,
        nn: (word & 0x00FF) as u8,
        nnn: word & 0x0FFF,
    }
}

/// Decoded fields stay in their nibble and byte ranges.
pub proof fn lemma_decode_ranges(word: u16)
    by (bit_vector)
    ensures
        (word >> 12) as u8 <= 0xF,
        ((word & 0x0F00) >> 8) as u8 <= 0xF,
        ((word & 0x00F0) >> 4) as u8 <= 0xF,
        (word & 0x000F) as u8 <= 0xF,
        word & 0x0FFF <= 0xFFF,
{
}

/// Abstract machine state.
pub ghost struct StateV {
    pub v: Seq<u8>,
    pub i: u16,
    pub pc: u16,
    pub sp: i8,
    pub stack: Seq<u16>,
    pub memory: Seq<u8>,
    pub delay: u8,
    pub sound: u8,
    pub display: DisplayV,
    pub quirks: Quirks,
    pub flags: Seq<u8>,
}

/// The machine state that spec.* functions transform.
pub struct Chip8 {
    /// The sixteen general-purpose registers V0..VF.
    pub v: Vec<u8>,
    /// The index register.
    pub i: u16,
    /// The program counter.
    pub pc: u16,
    /// The stack pointer: -1 when empty, else the index of the top entry.
    pub sp: i8,
    /// The 32-entry return-address stack.
    pub stack: Vec<u16>,
    /// The 65535-byte address space.
    pub memory: Vec<u8>,
    /// The delay timer.
    pub delay: u8,
    /// The sound timer.
    pub sound: u8,
    pub display: Display,
    pub quirks: Quirks,
    /// The persistent flag-register blob.
    pub flags: Vec<u8>,
}

impl View for Chip8 {
    type V = StateV;

    open spec fn view(&self) -> StateV {
        StateV {
            v: self.v@,
            i: self.i,
            pc: self.pc,
            sp: self.sp,
            stack: self.stack@,
            memory: self.memory@,
            delay: self.delay,
            sound: self.sound,
            display: self.display@,
            quirks: self.quirks,
            flags: self.flags@,
        }
    }
}

/// Structural well-formedness of an abstract state.
pub open spec fn state_wf(s: StateV) -> bool {
    &&& s.v.len() == 16
    &&& s.stack.len() == 32
    &&& s.memory.len() == 0xFFFF
    &&& -1 <= s.sp < 32
    &&& (s.display.width == 64 && s.display.height == 32) || (s.display.width == 128
        && s.display.height == 64)
    &&& s.display.pixels.len() == s.display.width as int * s.display.height as int
    &&& s.display.keypad.keys.len() == 16
}

/// `dst` with `src` written over the range starting at `at`.
pub open spec fn overwrite<A>(dst: Seq<A>, at: int, src: Seq<A>) -> Seq<A> {
    Seq::new(
        dst.len(),
        |j: int|
            if at <= j < at + src.len() {
                src[j - at]
            } else {
                dst[j]
            },
    )
}

/// Relies on rand::random: one uniformly distributed random byte; nothing
/// is assumed of the value.
#[verifier::external_body]
fn random_byte() -> u8 {
    rand::random::<u8>()
}

/// Copies `count` elements of `src` starting at `src_at` into `dst`
/// starting at `at`.
fn copy_range(dst: &mut Vec<u8>, at: usize, src: &Vec<u8>, src_at: usize, count: usize)
    requires
        at + count <= old(dst)@.len(),
        src_at + count <= src@.len(),
    ensures
        final(dst)@ == overwrite(
            old(dst)@,
            at as int,
            src@.subrange(src_at as int, src_at + count),
        ),
{
    let dlen = dst.len();
    let slen = src.len();
    let mut k: usize = 0;
    while k < count
        invariant
            k <= count,
            at + count <= dlen,
            src_at + count <= slen,
            dst@.len() == dlen,
            src@.len() == slen,
            dst@ == overwrite(old(dst)@, at as int, src@.subrange(src_at as int, src_at + k)),
        decreases count - k,
    {
        dst[at + k] = src[src_at + k];
        proof {
            assert(dst@ =~= overwrite(
                old(dst)@,
                at as int,
                src@.subrange(src_at as int, src_at + k + 1),
            ));
        }
        k = k + 1;
    }
    proof {
        assert(dst@ =~= overwrite(old(dst)@, at as int, src@.subrange(src_at as int, src_at
            + count)));
    }
}

impl Chip8 {
    /// The state is structurally well-formed and the framebuffer storage
    /// matches its dimensions.
    pub open spec fn wf(&self) -> bool {
        &&& self.display.wf()
        &&& state_wf(self@)
    }

    /// The default quirk configuration: all deviations off.
    pub open spec fn spec_default_quirks() -> Quirks {
        Quirks { cosmac_shift: false, cosmac_fx1e: false, cosmac_fx55: false, cosmac_bnnn: false }
    }

    /// Memory after the font, large font and program blobs are loaded at
    /// their fixed offsets into zeroed memory.
    pub open spec fn spec_initial_memory(font: Seq<u8>, bigfont: Seq<u8>, program: Seq<u8>) -> Seq<
        u8,
    > {
        let m0 = crate::rle::zero_bytes(0xFFFF);
        let m1 = overwrite(m0, 0, clipped(font, 0));
        let m2 = overwrite(m1, 0x50, clipped(bigfont, 0x50));
        overwrite(m2, 0x200, clipped(program, 0x200))
    }

    /// Builds a machine with fonts at 0x000 and 0x050, the program at
    /// 0x200, the program counter at 0x200 and an empty stack.
    pub fn new(
        font: &Vec<u8>,
        bigfont: &Vec<u8>,
        program: &Vec<u8>,
        display: Display,
        quirks: Option<Quirks>,
    ) -> (cpu: Chip8)
        requires
            display.wf(),
            (display.width == 64 && display.height == 32) || (display.width == 128
                && display.height == 64),
        ensures
            cpu.wf(),
            cpu@.v == Seq::new(16, |j: int| 0u8),
            cpu@.i == 0,
            cpu@.pc == 0x200,
            cpu@.sp == -1,
            cpu@.stack == Seq::new(32, |j: int| 0u16),
            cpu@.delay == 0,
            cpu@.sound == 0,
            cpu@.memory == Self::spec_initial_memory(font@, bigfont@, program@),
            cpu@.display == display@,
            cpu@.flags == Seq::<u8>::empty(),
            cpu@.quirks == match quirks {
                Some(q) => q,
                None => Self::spec_default_quirks(),
            },
    {
        let quirks: Quirks = match quirks {
            Some(q) => q,
            None => Quirks {
                cosmac_shift: false,
                cosmac_fx1e: false,
                cosmac_fx55: false,
                cosmac_bnnn: false,
            },
        };
        let mut cpu = Chip8 {
            v: vec![0u8; 16],
            i: 0,
            pc: 0x200,
            sp: -1,
            stack: vec![0u16; 32],
            memory: vec![0u8; 0xFFFF],
            delay: 0,
            sound: 0,
            display,
            quirks,
            flags: Vec::new(),
        };
        proof {
            assert(cpu.v@ =~= Seq::new(16, |j: int| 0u8));
            assert(cpu.stack@ =~= Seq::new(32, |j: int| 0u16));
            assert(cpu.memory@ =~= crate::rle::zero_bytes(0xFFFF));
        }
        cpu.read_to_memory(font, 0);
        cpu.read_to_memory(bigfont, 0x50);
        cpu.read_to_memory(program, 0x200);
        cpu
    }

    /// Copies the blob into memory at the address, dropping whatever does
    /// not fit before the end of the address space.
    pub fn read_to_memory(&mut self, data: &Vec<u8>, address: u16)
        requires
            old(self).wf(),
        ensures
            final(self).wf(),
            final(self)@ == (StateV {
                memory: overwrite(old(self)@.memory, address as int, clipped(data@, address as int)),
                ..old(self)@
            }),
    {
        let room = 0xFFFFusize - address as usize;
        let count = if data.len() < room {
            data.len()
        } else {
            room
        };
        copy_range(&mut self.memory, address as usize, data, 0, count);
        proof {
            assert(data@.subrange(0, count as int) =~= clipped(data@, address as int));
        }
    }

    /// One 60 Hz timer tick: the delay timer counts down saturating at
    /// zero; while the sound timer is nonzero it counts down and asks for
    /// the beep, otherwise the beep stops.
    pub fn timer_tick(&mut self)
        requires
            old(self).wf(),
        ensures
            final(self).wf(),
            final(self)@ == (StateV {
                delay: if old(self).delay > 0 {
                    (old(self).delay - 1) as u8
                } else {
                    0u8
                },
                sound: if old(self).sound > 0 {
                    (old(self).sound - 1) as u8
                } else {
                    0u8
                },
                display: DisplayV { beep: old(self).sound > 0, ..old(self)@.display },
                ..old(self)@
            }),
    {
        self.delay = if self.delay > 0 {
            self.delay - 1
        } else {
            0
        };
        if self.sound > 0 {
            self.display.set_beep(true);
            self.sound = self.sound - 1;
        } else {
            self.display.set_beep(false);
        }
    }

    /// Splits a 16-bit word into its opcode fields; every word decodes.
    pub fn decode(&self, instruction: u16) -> (inst: Instruction)
        ensures
            inst == spec_decode(instruction),
            inst.op <= 0xF,
            inst.x <= 0xF,
            inst.y <= 0xF,
            inst.n <= 0xF,
            inst.nnn <= 0xFFF,
    {
        proof {
            lemma_decode_ranges(instruction);
        }
        Instruction {
            raw: instruction,
            op: (instruction >> 12) as u8,
            x: ((instruction & 0x0F00) >> 8) as u8,
            y: ((instruction & 0x00F0) >> 4) as u8,
            n: (instruction & 0x000F) as u8,
            nn: (instruction & 0x00FF) as u8,
            nnn: instruction & 0x0FFF,
        }
    }
}

/// The prefix of `src` that fits in a 65535-byte space starting at `at`.
pub open spec fn clipped(src: Seq<u8>, at: int) -> Seq<u8> {
    if src.len() <= 0xFFFF - at {
        src
    } else {
        src.take(0xFFFF - at)
    }
}

/// The low byte of an integer: 8-bit wrapping arithmetic.
pub open spec fn wrap8(x: int) -> u8 {
    (((x % 256) + 256) % 256) as u8
}

/// A decoded instruction is consistent with its raw word.
pub open spec fn inst_wf(inst: Instruction) -> bool {
    inst == spec_decode(inst.raw)
}

/// The state after a conditional skip of one 2-byte instruction.
pub open spec fn spec_skip(s: StateV, cond: bool) -> Result<StateV, Fault> {
    if cond {
        if s.pc > 0xFFFD {
            Err(Fault::MemoryOutOfRange)
        } else {
            Ok(StateV { pc: (s.pc + 2) as u16, ..s })
        }
    } else {
        Ok(s)
    }
}

/// The pixel grid scrolled down `n` rows, one row at a time.
pub open spec fn shiftn_down(p: Seq<bool>, w: u16, h: u16, n: nat) -> Seq<bool>
    decreases n,
{
    if n == 0 {
        p
    } else {
        crate::display::shift_down_pixels(shiftn_down(p, w, h, (n - 1) as nat), w, h)
    }
}

/// The pixel grid scrolled up `n` rows, one row at a time.
pub open spec fn shiftn_up(p: Seq<bool>, w: u16, h: u16, n: nat) -> Seq<bool>
    decreases n,
{
    if n == 0 {
        p
    } else {
        crate::display::shift_up_pixels(shiftn_up(p, w, h, (n - 1) as nat), w, h)
    }
}

/// The pixel grid scrolled left `n` columns, one column at a time.
pub open spec fn shiftn_left(p: Seq<bool>, w: u16, h: u16, n: nat) -> Seq<bool>
    decreases n,
{
    if n == 0 {
        p
    } else {
        crate::display::shift_left_pixels(shiftn_left(p, w, h, (n - 1) as nat), w, h)
    }
}

/// The pixel grid scrolled right `n` columns, one column at a time.
pub open spec fn shiftn_right(p: Seq<bool>, w: u16, h: u16, n: nat) -> Seq<bool>
    decreases n,
{
    if n == 0 {
        p
    } else {
        crate::display::shift_right_pixels(shiftn_right(p, w, h, (n - 1) as nat), w, h)
    }
}

/// The pixel grid after the sprite rows are XOR-drawn downward from `y0`,
/// stopping at the bottom edge.
pub open spec fn draw_rows_pixels(
    p: Seq<bool>,
    w: u16,
    h: u16,
    x0: int,
    y0: int,
    rows: Seq<u16>,
    nbits: u16,
) -> Seq<bool>
    decreases rows.len(),
{
    if rows.len() == 0 || y0 >= h {
        p
    } else {
        draw_rows_pixels(
            crate::display::xor_row_pixels(p, w, x0, y0, rows[0], nbits),
            w,
            h,
            x0,
            y0 + 1,
            rows.skip(1),
            nbits,
        )
    }
}

/// Whether XOR-drawing the sprite rows turns any pixel off.
pub open spec fn draw_rows_hit(
    p: Seq<bool>,
    w: u16,
    h: u16,
    x0: int,
    y0: int,
    rows: Seq<u16>,
    nbits: u16,
) -> bool
    decreases rows.len(),
{
    if rows.len() == 0 || y0 >= h {
        false
    } else {
        crate::display::xor_row_hit(p, w, x0, y0, rows[0], nbits) || draw_rows_hit(
            crate::display::xor_row_pixels(p, w, x0, y0, rows[0], nbits),
            w,
            h,
            x0,
            y0 + 1,
            rows.skip(1),
            nbits,
        )
    }
}

/// XOR-draws of rows at distinct heights touch disjoint pixels, so their
/// order does not matter.
proof fn lemma_xor_rows_commute(
    p: Seq<bool>,
    w: u16,
    x0: int,
    y1: int,
    r1: u16,
    y2: int,
    r2: u16,
    nbits: u16,
)
    requires
        y1 != y2,
    ensures
        crate::display::xor_row_pixels(
            crate::display::xor_row_pixels(p, w, x0, y1, r1, nbits),
            w,
            x0,
            y2,
            r2,
            nbits,
        ) == crate::display::xor_row_pixels(
            crate::display::xor_row_pixels(p, w, x0, y2, r2, nbits),
            w,
            x0,
            y1,
            r1,
            nbits,
        ),
{
    assert(crate::display::xor_row_pixels(
        crate::display::xor_row_pixels(p, w, x0, y1, r1, nbits),
        w,
        x0,
        y2,
        r2,
        nbits,
    ) =~= crate::display::xor_row_pixels(
        crate::display::xor_row_pixels(p, w, x0, y2, r2, nbits),
        w,
        x0,
        y1,
        r1,
        nbits,
    ));
}

/// An XOR-draw of one row above a sprite's rows commutes with drawing the
/// sprite.
proof fn lemma_xor_row_draw_commutes(
    p: Seq<bool>,
    w: u16,
    h: u16,
    x0: int,
    yr: int,
    row: u16,
    y0: int,
    rows: Seq<u16>,
    nbits: u16,
)
    requires
        yr < y0,
    ensures
        draw_rows_pixels(
            crate::display::xor_row_pixels(p, w, x0, yr, row, nbits),
            w,
            h,
            x0,
            y0,
            rows,
            nbits,
        ) == crate::display::xor_row_pixels(
            draw_rows_pixels(p, w, h, x0, y0, rows, nbits),
            w,
            x0,
            yr,
            row,
            nbits,
        ),
    decreases rows.len(),
{
    if rows.len() == 0 || y0 >= h {
    } else {
        lemma_xor_rows_commute(p, w, x0, yr, row, y0, rows[0], nbits);
        lemma_xor_row_draw_commutes(
            crate::display::xor_row_pixels(p, w, x0, y0, rows[0], nbits),
            w,
            h,
            x0,
            yr,
            row,
            y0 + 1,
            rows.skip(1),
            nbits,
        );
    }
}

/// Law: XOR-drawing the same sprite rows twice at the same spot restores
/// the pixel grid exactly: every pixel the first draw toggled, the second
/// toggles back, clipping included.
pub proof fn lemma_draw_rows_involution(
    p: Seq<bool>,
    w: u16,
    h: u16,
    x0: int,
    y0: int,
    rows: Seq<u16>,
    nbits: u16,
)
    ensures
        draw_rows_pixels(
            draw_rows_pixels(p, w, h, x0, y0, rows, nbits),
            w,
            h,
            x0,
            y0,
            rows,
            nbits,
        ) == p,
    decreases rows.len(),
{
    if rows.len() == 0 || y0 >= h {
    } else {
        let p1 = crate::display::xor_row_pixels(p, w, x0, y0, rows[0], nbits);
        let d1 = draw_rows_pixels(p1, w, h, x0, y0 + 1, rows.skip(1), nbits);
        lemma_xor_row_draw_commutes(p1, w, h, x0, y0, rows[0], y0 + 1, rows.skip(1), nbits);
        crate::display::lemma_xor_row_involution(p, w, x0, y0, rows[0], nbits);
        assert(crate::display::xor_row_pixels(d1, w, x0, y0, rows[0], nbits) == draw_rows_pixels(
            p,
            w,
            h,
            x0,
            y0 + 1,
            rows.skip(1),
            nbits,
        ));
        lemma_draw_rows_involution(p, w, h, x0, y0 + 1, rows.skip(1), nbits);
    }
}

/// The system opcodes: clear, return, resolution switch, scrolls and the
/// repeat marker; anything else in this group is ignored.
pub open spec fn spec_exec_op0(s: StateV, inst: Instruction) -> Result<StateV, Fault> {
    let d = s.display;
    let raw = inst.raw;
    if raw == 0x00E0 {
        Ok(
            StateV {
                display: DisplayV { pixels: Seq::new(d.pixels.len(), |i: int| false), ..d },
                ..s
            },
        )
    } else if raw == 0x00EE {
        if s.sp < 0 {
            Err(Fault::StackUnderflow)
        } else {
            Ok(StateV { pc: s.stack[s.sp as int], sp: (s.sp - 1) as i8, ..s })
        }
    } else if raw == 0x00FF {
        Ok(
            StateV {
                display: DisplayV {
                    pixels: Seq::new((128 * 64) as nat, |i: int| false),
                    width: 128,
                    height: 64,
                    scale: (d.original_scale / 2) as u16,
                    ..d
                },
                ..s
            },
        )
    } else if raw == 0x00FE {
        Ok(
            StateV {
                display: DisplayV {
                    pixels: Seq::new((64 * 32) as nat, |i: int| false),
                    width: 64,
                    height: 32,
                    scale: d.original_scale,
                    ..d
                },
                ..s
            },
        )
    } else if raw == 0x00FB {
        Ok(
            StateV {
                display: DisplayV {
                    pixels: shiftn_right(d.pixels, d.width, d.height, 4),
                    ..d
                },
                ..s
            },
        )
    } else if raw == 0x00FC {
        Ok(StateV { display: DisplayV { pixels: shiftn_left(d.pixels, d.width, d.height, 4), ..d }, ..s })
    } else if raw == 0x00FD {
        if s.pc < 2 {
            Err(Fault::MemoryOutOfRange)
        } else {
            Ok(StateV { pc: (s.pc - 2) as u16, ..s })
        }
    } else if raw & 0xFFF0 == 0x00C0 {
        Ok(
            StateV {
                display: DisplayV {
                    pixels: shiftn_down(d.pixels, d.width, d.height, (raw & 0x000F) as nat),
                    ..d
                },
                ..s
            },
        )
    } else if raw & 0x00F0 == 0x00D0 {
        Ok(
            StateV {
                display: DisplayV {
                    pixels: shiftn_up(d.pixels, d.width, d.height, (raw & 0x000F) as nat),
                    ..d
                },
                ..s
            },
        )
    } else {
        Ok(s)
    }
}

/// Flag-blob transfer opcodes and the two-register skip.
pub open spec fn spec_exec_op5(s: StateV, inst: Instruction) -> Result<StateV, Fault> {
    let x = inst.x as int;
    let y = inst.y as int;
    let sub = inst.raw & 0x000F;
    if sub == 0x2 {
        if x > y {
            Err(Fault::MemoryOutOfRange)
        } else {
            Ok(StateV { flags: s.v.subrange(x, y), ..s })
        }
    } else if sub == 0x3 {
        if x > y {
            Err(Fault::MemoryOutOfRange)
        } else if s.flags.len() >= y - x {
            Ok(StateV { v: overwrite(s.v, x, s.flags.take(y - x)), ..s })
        } else {
            Ok(s)
        }
    } else {
        spec_skip(s, s.v[x] == s.v[y])
    }
}

/// Register-to-register arithmetic and logic, including the shift quirks.
pub open spec fn spec_exec_op8(s: StateV, inst: Instruction) -> Result<StateV, Fault> {
    let x = inst.x as int;
    let y = inst.y as int;
    let sub = inst.raw & 0x000F;
    if sub == 0x0 {
        Ok(StateV { v: s.v.update(x, s.v[y]), ..s })
    } else if sub == 0x1 {
        Ok(StateV { v: s.v.update(x, s.v[x] | s.v[y]), ..s })
    } else if sub == 0x2 {
        Ok(StateV { v: s.v.update(x, s.v[x] & s.v[y]), ..s })
    } else if sub == 0x3 {
        Ok(StateV { v: s.v.update(x, s.v[x] ^ s.v[y]), ..s })
    } else if sub == 0x4 {
        let sum = s.v[x] as int + s.v[y] as int;
        let v1 = s.v.update(
            15,
            if sum >= 256 {
                1u8
            } else {
                0u8
            },
        );
        Ok(StateV { v: v1.update(x, wrap8(sum)), ..s })
    } else if sub == 0x5 {
        let a = s.v[x];
        let b = s.v[y];
        let v1 = s.v.update(x, wrap8(a as int - b as int));
        Ok(
            StateV {
                v: v1.update(
                    15,
                    if a >= b {
                        1u8
                    } else {
                        0u8
                    },
                ),
                ..s
            },
        )
    } else if sub == 0x6 {
        let base = if s.quirks.cosmac_shift {
            s.v.update(x, s.v[y])
        } else {
            s.v
        };
        let v1 = base.update(15, base[x] & 1);
        Ok(StateV { v: v1.update(x, v1[x] / 2), ..s })
    } else if sub == 0x7 {
        let a = s.v[x];
        let b = s.v[y];
        let v1 = s.v.update(x, wrap8(b as int - a as int));
        Ok(
            StateV {
                v: v1.update(
                    15,
                    if b >= a {
                        1u8
                    } else {
                        0u8
                    },
                ),
                ..s
            },
        )
    } else if sub == 0xE {
        let base = if s.quirks.cosmac_shift {
            s.v.update(x, s.v[y])
        } else {
            s.v
        };
        let bit_out = base[x] / 128;
        let v1 = base.update(x, wrap8(base[x] as int * 2));
        Ok(StateV { v: v1.update(15, bit_out), ..s })
    } else {
        Ok(s)
    }
}

/// Key-state skips: the register names a keypad entry.
pub open spec fn spec_exec_ope(s: StateV, inst: Instruction) -> Result<StateV, Fault> {
    let sub = inst.raw & 0x00FF;
    let key = s.v[inst.x as int];
    if sub == 0x9E {
        if key >= 16 {
            Err(Fault::MemoryOutOfRange)
        } else {
            spec_skip(s, s.display.keypad.keys[key as int])
        }
    } else if sub == 0xA1 {
        if key >= 16 {
            Err(Fault::MemoryOutOfRange)
        } else {
            spec_skip(s, !s.display.keypad.keys[key as int])
        }
    } else {
        Ok(s)
    }
}

/// Timer access, index arithmetic, key wait, BCD, register dump/load, font
/// lookup and flag persistence.
pub open spec fn spec_exec_opf(s: StateV, inst: Instruction) -> Result<StateV, Fault> {
    let x = inst.x as int;
    let vx = s.v[x];
    let sub = inst.raw & 0x00FF;
    if sub == 0x07 {
        Ok(StateV { v: s.v.update(x, s.delay), ..s })
    } else if sub == 0x15 {
        Ok(StateV { delay: vx, ..s })
    } else if sub == 0x18 {
        Ok(StateV { sound: vx, ..s })
    } else if sub == 0x1E {
        let sum = s.i as int + vx as int;
        if sum > 0xFFFF {
            Err(Fault::MemoryOutOfRange)
        } else if sum > 0xFFF {
            Ok(
                StateV {
                    i: (sum % 0xFFF) as u16,
                    v: if !s.quirks.cosmac_fx1e {
                        s.v.update(15, 1u8)
                    } else {
                        s.v
                    },
                    ..s
                },
            )
        } else {
            Ok(StateV { i: sum as u16, ..s })
        }
    } else if sub == 0x0A {
        if !s.display.keypad.new_key_pressed {
            if s.pc < 2 {
                Err(Fault::MemoryOutOfRange)
            } else {
                Ok(StateV { pc: (s.pc - 2) as u16, ..s })
            }
        } else {
            Ok(s)
        }
    } else if sub == 0x29 {
        Ok(StateV { i: (vx as int * 5) as u16, ..s })
    } else if sub == 0x30 {
        Ok(StateV { i: (0x50 + vx as int * 10) as u16, ..s })
    } else if sub == 0x33 {
        if s.i > 0xFFFC {
            Err(Fault::MemoryOutOfRange)
        } else {
            Ok(
                StateV {
                    memory: s.memory.update(s.i as int, (vx / 100) as u8).update(
                        s.i + 1,
                        ((vx / 10) % 10) as u8,
                    ).update(s.i + 2, (vx % 10) as u8),
                    ..s
                },
            )
        }
    } else if sub == 0x55 {
        let cnt = x + 1;
        if s.i + cnt > 0xFFFF {
            Err(Fault::MemoryOutOfRange)
        } else {
            Ok(
                StateV {
                    memory: overwrite(s.memory, s.i as int, s.v.take(cnt)),
                    i: if s.quirks.cosmac_fx55 {
                        (s.i + cnt) as u16
                    } else {
                        s.i
                    },
                    ..s
                },
            )
        }
    } else if sub == 0x65 {
        let cnt = x + 1;
        if s.i + cnt > 0xFFFF {
            Err(Fault::MemoryOutOfRange)
        } else {
            Ok(
                StateV {
                    v: overwrite(s.v, 0, s.memory.subrange(s.i as int, s.i + cnt)),
                    i: if s.quirks.cosmac_fx55 {
                        (s.i + cnt) as u16
                    } else {
                        s.i
                    },
                    ..s
                },
            )
        }
    } else if sub == 0x75 {
        Ok(StateV { flags: s.v.subrange(0, x), ..s })
    } else if sub == 0x85 {
        let cnt = inst.y as int;
        if s.flags.len() >= cnt {
            Ok(StateV { v: overwrite(s.v, 0, s.flags.take(cnt)), ..s })
        } else {
            Ok(s)
        }
    } else {
        Ok(s)
    }
}

/// The sprite rows held in memory at the index register: `count` bytes, or
/// `count` big-endian byte pairs for the wide 16-pixel encoding.
pub open spec fn sprite_rows(m: Seq<u8>, i: u16, count: int, wide: bool) -> Seq<u16> {
    if wide {
        Seq::new(count as nat, |r: int| (m[i + 2 * r] as int * 256 + m[i + 2 * r + 1] as int) as u16)
    } else {
        Seq::new(count as nat, |r: int| m[i + r] as u16)
    }
}

/// Sprite draw: XOR the 8-wide rows (or the 16x16 sprite when n is 0) onto
/// the grid at (Vx mod width, Vy mod height), clipping right, stopping at
/// the bottom, VF reporting any pixel turned off.
pub open spec fn spec_exec_draw(s: StateV, inst: Instruction) -> Result<StateV, Fault> {
    let d = s.display;
    let w = d.width;
    let h = d.height;
    if inst.n == 0 {
        if s.i > 65534 - 31 {
            Err(Fault::MemoryOutOfRange)
        } else {
            let x0 = s.v[inst.x as int] as int % w as int;
            let y0 = s.v[inst.y as int] as int % h as int;
            let rows = sprite_rows(s.memory, s.i, 16, true);
            let hit = draw_rows_hit(d.pixels, w, h, x0, y0, rows, 16);
            Ok(
                StateV {
                    v: s.v.update(
                        15,
                        if hit {
                            1u8
                        } else {
                            0u8
                        },
                    ),
                    display: DisplayV {
                        pixels: draw_rows_pixels(d.pixels, w, h, x0, y0, rows, 16),
                        ..d
                    },
                    ..s
                },
            )
        }
    } else {
        if s.i as int + inst.n as int - 1 > 65534 {
            Err(Fault::MemoryOutOfRange)
        } else {
            let x0 = s.v[inst.x as int] as int % (w as u8) as int;
            let y0 = s.v[inst.y as int] as int % (h as u8) as int;
            let rows = sprite_rows(s.memory, s.i, inst.n as int, false);
            let hit = draw_rows_hit(d.pixels, w, h, x0, y0, rows, 8);
            Ok(
                StateV {
                    v: s.v.update(
                        15,
                        if hit {
                            1u8
                        } else {
                            0u8
                        },
                    ),
                    display: DisplayV {
                        pixels: draw_rows_pixels(d.pixels, w, h, x0, y0, rows, 8),
                        ..d
                    },
                    ..s
                },
            )
        }
    }
}

/// What one decoded instruction does to the machine state. `rnd` is the
/// byte the random-number opcode draws; no other opcode reads it.
pub open spec fn spec_exec(s: StateV, inst: Instruction, rnd: u8) -> Result<StateV, Fault> {
    let op = inst.op;
    let x = inst.x as int;
    let y = inst.y as int;
    if op == 0x0 {
        spec_exec_op0(s, inst)
    } else if op == 0x1 {
        Ok(StateV { pc: inst.nnn, ..s })
    } else if op == 0x2 {
        if s.sp >= 31 {
            Err(Fault::StackOverflow)
        } else {
            Ok(
                StateV {
                    sp: (s.sp + 1) as i8,
                    stack: s.stack.update(s.sp + 1, s.pc),
                    pc: inst.nnn,
                    ..s
                },
            )
        }
    } else if op == 0x3 {
        spec_skip(s, s.v[x] == inst.nn)
    } else if op == 0x4 {
        spec_skip(s, s.v[x] != inst.nn)
    } else if op == 0x5 {
        spec_exec_op5(s, inst)
    } else if op == 0x6 {
        Ok(StateV { v: s.v.update(x, inst.nn), ..s })
    } else if op == 0x7 {
        Ok(StateV { v: s.v.update(x, wrap8(s.v[x] as int + inst.nn as int)), ..s })
    } else if op == 0x8 {
        spec_exec_op8(s, inst)
    } else if op == 0x9 {
        spec_skip(s, s.v[x] != s.v[y])
    } else if op == 0xA {
        Ok(StateV { i: inst.nnn, ..s })
    } else if op == 0xB {
        let off = if s.quirks.cosmac_bnnn {
            s.v[0]
        } else {
            s.v[x]
        };
        Ok(StateV { pc: (inst.nnn + off) as u16, ..s })
    } else if op == 0xC {
        Ok(StateV { v: s.v.update(x, rnd & inst.nn), ..s })
    } else if op == 0xD {
        spec_exec_draw(s, inst)
    } else if op == 0xE {
        spec_exec_ope(s, inst)
    } else if op == 0xF {
        spec_exec_opf(s, inst)
    } else {
        Ok(s)
    }
}

/// Fetching reads the big-endian word at PC and advances PC by 2.
pub open spec fn spec_fetch(s: StateV) -> Result<(u16, StateV), Fault> {
    if s.pc > 0xFFFD {
        Err(Fault::MemoryOutOfRange)
    } else {
        let word = (s.memory[s.pc as int] as int * 256 + s.memory[s.pc as int + 1] as int) as u16;
        Ok((word, StateV { pc: (s.pc + 2) as u16, ..s }))
    }
}

/// One whole cycle: fetch, decode, execute.
pub open spec fn spec_step(s: StateV, rnd: u8) -> Result<StateV, Fault> {
    match spec_fetch(s) {
        Err(f) => Err(f),
        Ok((word, s1)) => spec_exec(s1, spec_decode(word), rnd),
    }
}

/// Law: executing the clear-screen opcode yields a framebuffer that is
/// entirely dark, at the same dimensions, whatever it showed before; no
/// other part of the machine moves.
pub proof fn lemma_clear_screen(s: StateV, rnd: u8)
    requires
        state_wf(s),
    ensures
        spec_exec(s, spec_decode(0x00E0), rnd) == Ok::<StateV, Fault>(
            StateV {
                display: DisplayV {
                    pixels: Seq::new(s.display.pixels.len(), |i: int| false),
                    ..s.display
                },
                ..s
            },
        ),
        forall|i: int|
            0 <= i < s.display.pixels.len() ==> !spec_exec(
                s,
                spec_decode(0x00E0),
                rnd,
            )->Ok_0.display.pixels[i],
{
    assert((0x00E0u16 >> 12) as u8 == 0 && 0x00E0u16 & 0x0FFF == 0xE0) by (bit_vector);
}

/// Law: while no new key press has been observed, the key-wait opcode
/// leaves the whole machine unchanged, the program counter included, so
/// the same instruction re-executes on the next step; once a new press is
/// there, the step advances the program counter normally.
pub proof fn lemma_key_wait_stalls(s: StateV, rnd: u8)
    requires
        state_wf(s),
        s.pc <= 0xFFFD,
        s.memory[s.pc as int] >= 0xF0,
        s.memory[s.pc as int + 1] == 0x0A,
    ensures
        !s.display.keypad.new_key_pressed ==> spec_step(s, rnd) == Ok::<StateV, Fault>(s),
        s.display.keypad.new_key_pressed ==> spec_step(s, rnd) == Ok::<StateV, Fault>(
            StateV { pc: (s.pc + 2) as u16, ..s },
        ),
{
    let hi = s.memory[s.pc as int];
    let lo = s.memory[s.pc as int + 1];
    let word = (hi as int * 256 + lo as int) as u16;
    assert(spec_fetch(s) == Ok::<(u16, StateV), Fault>(
        (word, StateV { pc: (s.pc + 2) as u16, ..s }),
    ));
    assert((word >> 12) as u8 == 0xF && word & 0x00FF == 0x0A) by (bit_vector)
        requires
            word == hi as u16 * 256 + lo as u16,
            hi >= 0xF0,
            lo == 0x0A,
    ;
    let inst = spec_decode(word);
    assert(inst.op == 0xF && inst.raw & 0x00FF == 0x0A);
    let s1 = StateV { pc: (s.pc + 2) as u16, ..s };
    if !s.display.keypad.new_key_pressed {
        assert(spec_exec(s1, inst, rnd) == Ok::<StateV, Fault>(StateV { pc: s.pc, ..s1 }));
        assert(StateV { pc: s.pc, ..s1 } == s);
    } else {
        assert(spec_exec(s1, inst, rnd) == Ok::<StateV, Fault>(s1));
    }
}

/// How an executed step relates to its specification: on success the state
/// becomes what the specification says, on a fault it does not move.
pub open spec fn steps_to(
    pre: StateV,
    post: StateV,
    sr: Result<StateV, Fault>,
    r: Result<(), Fault>,
) -> bool {
    match r {
        Ok(u) => sr == Ok::<StateV, Fault>(post),
        Err(f) => sr == Err::<StateV, Fault>(f) && post == pre,
    }
}

/// A big-endian byte pair assembles to its arithmetic value.
proof fn lemma_be16(hi: u8, lo: u8)
    by (bit_vector)
    ensures
        ((hi as u16) << 8) | (lo as u16) == hi as u16 * 256 + lo as u16,
{
}

impl Chip8 {
    /// Advances PC over one 2-byte instruction when the condition holds.
    fn skip_if(&mut self, cond: bool) -> (r: Result<(), Fault>)
        requires
            old(self).wf(),
        ensures
            final(self).wf(),
            steps_to(old(self)@, final(self)@, spec_skip(old(self)@, cond), r),
    {
        if cond {
            if self.pc > 0xFFFD {
                return Err(Fault::MemoryOutOfRange);
            }
            self.pc = self.pc + 2;
        }
        Ok(())
    }

    /// The system opcode group: clear, return, resolution, scrolls.
    fn exec_op0(&mut self, inst: Instruction) -> (r: Result<(), Fault>)
        requires
            old(self).wf(),
            inst_wf(inst),
            inst.op == 0x0,
        ensures
            final(self).wf(),
            steps_to(old(self)@, final(self)@, spec_exec_op0(old(self)@, inst), r),
    {
        let raw = inst.raw;
        if raw == 0x00E0 {
            self.display.clear();
            Ok(())
        } else if raw == 0x00EE {
            if self.sp < 0 {
                return Err(Fault::StackUnderflow);
            }
            self.pc = self.stack[self.sp as usize];
            self.sp = self.sp - 1;
            Ok(())
        } else if raw == 0x00FF {
            let ns = self.display.original_scale / 2;
            self.display.resize(128, 64, ns);
            Ok(())
        } else if raw == 0x00FE {
            let ns = self.display.original_scale;
            self.display.resize(64, 32, ns);
            Ok(())
        } else if raw == 0x00FB {
            let ghost p0 = self@.display.pixels;
            let w = self.display.width;
            let h = self.display.height;
            let mut k: u16 = 0;
            while k < 4
                invariant
                    self.wf(),
                    self.display.width == w,
                    self.display.height == h,
                    1 <= w,
                    1 <= h,
                    k <= 4,
                    p0 == old(self)@.display.pixels,
                    self@ == (StateV {
                        display: DisplayV {
                            pixels: shiftn_right(p0, w, h, k as nat),
                            ..old(self)@.display
                        },
                        ..old(self)@
                    }),
                decreases 4 - k,
            {
                self.display.shift_right();
                k = k + 1;
            }
            Ok(())
        } else if raw == 0x00FC {
            let ghost p0 = self@.display.pixels;
            let w = self.display.width;
            let h = self.display.height;
            let mut k: u16 = 0;
            while k < 4
                invariant
                    self.wf(),
                    self.display.width == w,
                    self.display.height == h,
                    1 <= w,
                    1 <= h,
                    k <= 4,
                    p0 == old(self)@.display.pixels,
                    self@ == (StateV {
                        display: DisplayV {
                            pixels: shiftn_left(p0, w, h, k as nat),
                            ..old(self)@.display
                        },
                        ..old(self)@
                    }),
                decreases 4 - k,
            {
                self.display.shift_left();
                k = k + 1;
            }
            Ok(())
        } else if raw == 0x00FD {
            if self.pc < 2 {
                return Err(Fault::MemoryOutOfRange);
            }
            self.pc = self.pc - 2;
            Ok(())
        } else if raw & 0xFFF0 == 0x00C0 {
            let cnt = raw & 0x000F;
            let ghost p0 = self@.display.pixels;
            let w = self.display.width;
            let h = self.display.height;
            let mut k: u16 = 0;
            while k < cnt
                invariant
                    self.wf(),
                    self.display.width == w,
                    self.display.height == h,
                    1 <= w,
                    1 <= h,
                    k <= cnt,
                    p0 == old(self)@.display.pixels,
                    self@ == (StateV {
                        display: DisplayV {
                            pixels: shiftn_down(p0, w, h, k as nat),
                            ..old(self)@.display
                        },
                        ..old(self)@
                    }),
                decreases cnt - k,
            {
                self.display.shift_down();
                k = k + 1;
            }
            Ok(())
        } else if raw & 0x00F0 == 0x00D0 {
            let cnt = raw & 0x000F;
            let ghost p0 = self@.display.pixels;
            let w = self.display.width;
            let h = self.display.height;
            let mut k: u16 = 0;
            while k < cnt
                invariant
                    self.wf(),
                    self.display.width == w,
                    self.display.height == h,
                    1 <= w,
                    1 <= h,
                    k <= cnt,
                    p0 == old(self)@.display.pixels,
                    self@ == (StateV {
                        display: DisplayV {
                            pixels: shiftn_up(p0, w, h, k as nat),
                            ..old(self)@.display
                        },
                        ..old(self)@
                    }),
                decreases cnt - k,
            {
                self.display.shift_up();
                k = k + 1;
            }
            Ok(())
        } else {
            Ok(())
        }
    }

    /// The flag-blob transfer group and the two-register skip.
    fn exec_op5(&mut self, inst: Instruction) -> (r: Result<(), Fault>)
        requires
            old(self).wf(),
            inst_wf(inst),
            inst.op == 0x5,
        ensures
            final(self).wf(),
            steps_to(old(self)@, final(self)@, spec_exec_op5(old(self)@, inst), r),
    {
        proof {
            lemma_decode_ranges(inst.raw);
        }
        let xu = inst.x as usize;
        let yu = inst.y as usize;
        let sub = inst.raw & 0x000F;
        if sub == 0x2 {
            if xu > yu {
                return Err(Fault::MemoryOutOfRange);
            }
            self.flags = vstd::slice::slice_to_vec(
                vstd::slice::slice_subrange(self.v.as_slice(), xu, yu),
            );
            Ok(())
        } else if sub == 0x3 {
            if xu > yu {
                return Err(Fault::MemoryOutOfRange);
            }
            let cnt = yu - xu;
            if self.flags.len() >= cnt {
                copy_range(&mut self.v, xu, &self.flags, 0, cnt);
                proof {
                    assert(self.flags@.subrange(0, cnt as int) =~= self.flags@.take(cnt as int));
                }
            }
            Ok(())
        } else {
            let cond = self.v[xu] == self.v[yu];
            self.skip_if(cond)
        }
    }

    /// The register-to-register arithmetic and logic group.
    #[verifier::rlimit(100)]
    #[verifier::spinoff_prover]
    fn exec_op8(&mut self, inst: Instruction) -> (r: Result<(), Fault>)
        requires
            old(self).wf(),
            inst_wf(inst),
            inst.op == 0x8,
        ensures
            final(self).wf(),
            steps_to(old(self)@, final(self)@, spec_exec_op8(old(self)@, inst), r),
    {
        proof {
            lemma_decode_ranges(inst.raw);
        }
        let xu = inst.x as usize;
        let yu = inst.y as usize;
        let sub = inst.raw & 0x000F;
        if sub == 0x0 {
            self.v[xu] = self.v[yu];
            proof {
                assert(spec_exec_op8(old(self)@, inst) == Ok::<StateV, Fault>(self@));
            }
        } else if sub == 0x1 {
            self.v[xu] = self.v[xu] | self.v[yu];
            proof {
                assert(spec_exec_op8(old(self)@, inst) == Ok::<StateV, Fault>(self@));
            }
        } else if sub == 0x2 {
            self.v[xu] = self.v[xu] & self.v[yu];
            proof {
                assert(spec_exec_op8(old(self)@, inst) == Ok::<StateV, Fault>(self@));
            }
        } else if sub == 0x3 {
            self.v[xu] = self.v[xu] ^ self.v[yu];
            proof {
                assert(spec_exec_op8(old(self)@, inst) == Ok::<StateV, Fault>(self@));
            }
        } else if sub == 0x4 {
            let sum: u16 = self.v[xu] as u16 + self.v[yu] as u16;
            self.v[15] = if sum >= 0x100 {
                1
            } else {
                0
            };
            self.v[xu] = (sum % 256) as u8;
            proof {
                assert((sum % 256) as u8 == wrap8(sum as int));
                assert(spec_exec_op8(old(self)@, inst) == Ok::<StateV, Fault>(self@));
            }
        } else if sub == 0x5 {
            let a = self.v[xu];
            let b = self.v[yu];
            self.v[xu] = ((a as u16 + 256 - b as u16) % 256) as u8;
            self.v[15] = if a >= b {
                1
            } else {
                0
            };
            proof {
                assert(((a as u16 + 256 - b as u16) % 256) as u8 == wrap8(a as int - b as int));
                assert(spec_exec_op8(old(self)@, inst) == Ok::<StateV, Fault>(self@));
            }
        } else if sub == 0x6 {
            if self.quirks.cosmac_shift {
                self.v[xu] = self.v[yu];
            }
            self.v[15] = self.v[xu] & 1;
            self.v[xu] = self.v[xu] / 2;
            proof {
                assert(spec_exec_op8(old(self)@, inst) == Ok::<StateV, Fault>(self@));
            }
        } else if sub == 0x7 {
            let a = self.v[xu];
            let b = self.v[yu];
            self.v[xu] = ((b as u16 + 256 - a as u16) % 256) as u8;
            self.v[15] = if b >= a {
                1
            } else {
                0
            };
            proof {
                assert(((b as u16 + 256 - a as u16) % 256) as u8 == wrap8(b as int - a as int));
                assert(spec_exec_op8(old(self)@, inst) == Ok::<StateV, Fault>(self@));
            }
        } else if sub == 0xE {
            if self.quirks.cosmac_shift {
                self.v[xu] = self.v[yu];
            }
            let vx = self.v[xu];
            self.v[xu] = ((vx as u16 * 2) % 256) as u8;
            self.v[15] = vx / 128;
            proof {
                assert(((vx as u16 * 2) % 256) as u8 == wrap8(vx as int * 2));
                assert(spec_exec_op8(old(self)@, inst) == Ok::<StateV, Fault>(self@));
            }
        }
        Ok(())
    }

    /// The key-state skip group.
    fn exec_ope(&mut self, inst: Instruction) -> (r: Result<(), Fault>)
        requires
            old(self).wf(),
            inst_wf(inst),
            inst.op == 0xE,
        ensures
            final(self).wf(),
            steps_to(old(self)@, final(self)@, spec_exec_ope(old(self)@, inst), r),
    {
        proof {
            lemma_decode_ranges(inst.raw);
        }
        let sub = inst.raw & 0x00FF;
        if sub == 0x9E || sub == 0xA1 {
            let key = self.v[inst.x as usize];
            if key >= 16 {
                return Err(Fault::MemoryOutOfRange);
            }
            let held = self.display.keypad.keypad[key as usize];
            if sub == 0x9E {
                self.skip_if(held)
            } else {
                self.skip_if(!held)
            }
        } else {
            Ok(())
        }
    }

    /// The timer, index, key-wait, BCD, dump/load, font and flag group.
    fn exec_opf(&mut self, inst: Instruction) -> (r: Result<(), Fault>)
        requires
            old(self).wf(),
            inst_wf(inst),
            inst.op == 0xF,
        ensures
            final(self).wf(),
            steps_to(old(self)@, final(self)@, spec_exec_opf(old(self)@, inst), r),
    {
        proof {
            lemma_decode_ranges(inst.raw);
        }
        let xu = inst.x as usize;
        let sub = inst.raw & 0x00FF;
        if sub == 0x07 {
            self.v[xu] = self.delay;
            Ok(())
        } else if sub == 0x15 {
            self.delay = self.v[xu];
            Ok(())
        } else if sub == 0x18 {
            self.sound = self.v[xu];
            Ok(())
        } else if sub == 0x1E {
            let sum: u32 = self.i as u32 + self.v[xu] as u32;
            if sum > 0xFFFF {
                return Err(Fault::MemoryOutOfRange);
            }
            self.i = sum as u16;
            if self.i > 0xFFF {
                self.i = self.i % 0xFFF;
                if !self.quirks.cosmac_fx1e {
                    self.v[15] = 1;
                }
            }
            Ok(())
        } else if sub == 0x0A {
            if !self.display.keypad.new_key_pressed {
                if self.pc < 2 {
                    return Err(Fault::MemoryOutOfRange);
                }
                self.pc = self.pc - 2;
            }
            Ok(())
        } else if sub == 0x29 {
            self.i = self.v[xu] as u16 * 5;
            Ok(())
        } else if sub == 0x30 {
            self.i = 0x50 + self.v[xu] as u16 * 10;
            Ok(())
        } else if sub == 0x33 {
            if self.i > 0xFFFC {
                return Err(Fault::MemoryOutOfRange);
            }
            let value = self.v[xu];
            let iu = self.i as usize;
            self.memory[iu] = value / 100;
            self.memory[iu + 1] = (value / 10) % 10;
            self.memory[iu + 2] = value % 10;
            Ok(())
        } else if sub == 0x55 {
            let cnt = xu + 1;
            if self.i as usize + cnt > 0xFFFF {
                return Err(Fault::MemoryOutOfRange);
            }
            copy_range(&mut self.memory, self.i as usize, &self.v, 0, cnt);
            proof {
                assert(self.v@.subrange(0, cnt as int) =~= self.v@.take(cnt as int));
            }
            if self.quirks.cosmac_fx55 {
                self.i = self.i + inst.x as u16 + 1;
            }
            Ok(())
        } else if sub == 0x65 {
            let cnt = xu + 1;
            if self.i as usize + cnt > 0xFFFF {
                return Err(Fault::MemoryOutOfRange);
            }
            copy_range(&mut self.v, 0, &self.memory, self.i as usize, cnt);
            if self.quirks.cosmac_fx55 {
                self.i = self.i + inst.x as u16 + 1;
            }
            Ok(())
        } else if sub == 0x75 {
            self.flags = vstd::slice::slice_to_vec(
                vstd::slice::slice_subrange(self.v.as_slice(), 0, xu),
            );
            Ok(())
        } else if sub == 0x85 {
            let cnt = inst.y as usize;
            if self.flags.len() >= cnt {
                copy_range(&mut self.v, 0, &self.flags, 0, cnt);
                proof {
                    assert(self.flags@.subrange(0, cnt as int) =~= self.flags@.take(cnt as int));
                }
            }
            Ok(())
        } else {
            Ok(())
        }
    }

    /// XOR-draws `count` sprite rows read from memory at the index
    /// register, walking down from (x0, y0) and stopping at the bottom
    /// edge; reports whether any pixel went off.
    fn draw_sprite_rows(&mut self, x0: u16, y0: u16, count: u16, wide: bool) -> (hit: bool)
        requires
            old(self).wf(),
            x0 < old(self).display.width,
            y0 < old(self).display.height,
            1 <= count <= 16,
            wide ==> old(self).i as int + 2 * count - 1 <= 65534,
            !wide ==> old(self).i as int + count - 1 <= 65534,
        ensures
            final(self).wf(),
            final(self)@ == (StateV {
                display: DisplayV {
                    pixels: draw_rows_pixels(
                        old(self)@.display.pixels,
                        old(self).display.width,
                        old(self).display.height,
                        x0 as int,
                        y0 as int,
                        sprite_rows(old(self)@.memory, old(self).i, count as int, wide),
                        if wide {
                            16u16
                        } else {
                            8u16
                        },
                    ),
                    ..old(self)@.display
                },
                ..old(self)@
            }),
            hit == draw_rows_hit(
                old(self)@.display.pixels,
                old(self).display.width,
                old(self).display.height,
                x0 as int,
                y0 as int,
                sprite_rows(old(self)@.memory, old(self).i, count as int, wide),
                if wide {
                    16u16
                } else {
                    8u16
                },
            ),
    {
        let w = self.display.width;
        let h = self.display.height;
        let nbits: u16 = if wide {
            16
        } else {
            8
        };
        let ghost p0 = self@.display.pixels;
        let ghost rows = sprite_rows(self@.memory, self.i, count as int, wide);
        let ghost target = draw_rows_pixels(p0, w, h, x0 as int, y0 as int, rows, nbits);
        let ghost target_hit = draw_rows_hit(p0, w, h, x0 as int, y0 as int, rows, nbits);
        let mut hit = false;
        let mut r: u16 = 0;
        let mut y: u16 = y0;
        proof {
            assert(rows.skip(0) =~= rows);
        }
        while r < count && y < h
            invariant
                self.wf(),
                self.display.width == w,
                self.display.height == h,
                x0 < w,
                r <= count <= 16,
                1 <= nbits <= 16,
                y as int == y0 as int + r as int,
                y0 < h,
                wide ==> (nbits == 16 && self.i as int + 2 * count - 1 <= 65534),
                !wide ==> (nbits == 8 && self.i as int + count - 1 <= 65534),
                rows == sprite_rows(old(self)@.memory, old(self).i, count as int, wide),
                target == draw_rows_pixels(p0, w, h, x0 as int, y0 as int, rows, nbits),
                target_hit == draw_rows_hit(p0, w, h, x0 as int, y0 as int, rows, nbits),
                self@ == (StateV {
                    display: DisplayV { pixels: self@.display.pixels, ..old(self)@.display },
                    ..old(self)@
                }),
                target == draw_rows_pixels(
                    self@.display.pixels,
                    w,
                    h,
                    x0 as int,
                    y as int,
                    rows.skip(r as int),
                    nbits,
                ),
                target_hit == (hit || draw_rows_hit(
                    self@.display.pixels,
                    w,
                    h,
                    x0 as int,
                    y as int,
                    rows.skip(r as int),
                    nbits,
                )),
            decreases count - r,
        {
            let iu = self.i as usize;
            let ru = r as usize;
            let word: u16 = if wide {
                let hi = self.memory[iu + 2 * ru];
                let lo = self.memory[iu + 2 * ru + 1];
                proof {
                    lemma_be16(hi, lo);
                }
                ((hi as u16) << 8) | lo as u16
            } else {
                self.memory[iu + ru] as u16
            };
            proof {
                assert(word == rows[r as int]);
                assert(rows.skip(r as int)[0] == rows[r as int]);
                assert(rows.skip(r as int).skip(1) =~= rows.skip(r as int + 1));
                assert(rows.skip(r as int).len() == count - r);
            }
            let rowhit = self.display.xor_row(x0, y, word, nbits);
            if rowhit {
                hit = true;
            }
            y = y + 1;
            r = r + 1;
        }
        proof {
            if r == count {
                assert(rows.skip(r as int) =~= Seq::<u16>::empty());
            }
            assert(target == self@.display.pixels);
            assert(target_hit == hit);
        }
        hit
    }

    /// The sprite-draw opcode.
    fn exec_draw(&mut self, inst: Instruction) -> (r: Result<(), Fault>)
        requires
            old(self).wf(),
            inst_wf(inst),
            inst.op == 0xD,
        ensures
            final(self).wf(),
            steps_to(old(self)@, final(self)@, spec_exec_draw(old(self)@, inst), r),
    {
        proof {
            lemma_decode_ranges(inst.raw);
        }
        let w = self.display.width;
        let h = self.display.height;
        if inst.n == 0 {
            if self.i > 65534 - 31 {
                return Err(Fault::MemoryOutOfRange);
            }
            let x0 = (self.v[inst.x as usize] as u16) % w;
            let y0 = (self.v[inst.y as usize] as u16) % h;
            let hit = self.draw_sprite_rows(x0, y0, 16, true);
            self.v[15] = if hit {
                1
            } else {
                0
            };
            proof {
                assert(spec_exec_draw(old(self)@, inst) == Ok::<StateV, Fault>(self@));
            }
            Ok(())
        } else {
            if self.i as usize + inst.n as usize > 65535 {
                return Err(Fault::MemoryOutOfRange);
            }
            let x0 = self.v[inst.x as usize] % (w as u8);
            let y0 = self.v[inst.y as usize] % (h as u8);
            let hit = self.draw_sprite_rows(x0 as u16, y0 as u16, inst.n as u16, false);
            self.v[15] = if hit {
                1
            } else {
                0
            };
            proof {
                assert(spec_exec_draw(old(self)@, inst) == Ok::<StateV, Fault>(self@));
            }
            Ok(())
        }
    }

    /// Executes one decoded instruction with the given byte standing in
    /// for the random opcode's draw: fully deterministic.
    pub fn execute_with_random(&mut self, inst: Instruction, rnd: u8) -> (r: Result<(), Fault>)
        requires
            old(self).wf(),
            inst_wf(inst),
        ensures
            final(self).wf(),
            steps_to(old(self)@, final(self)@, spec_exec(old(self)@, inst, rnd), r),
    {
        proof {
            lemma_decode_ranges(inst.raw);
        }
        let xu = inst.x as usize;
        let yu = inst.y as usize;
        match inst.op {
            0x0 => self.exec_op0(inst),
            0x1 => {
                self.pc = inst.nnn;
                Ok(())
            },
            0x2 => {
                if self.sp >= 31 {
                    return Err(Fault::StackOverflow);
                }
                self.sp = self.sp + 1;
                self.stack[self.sp as usize] = self.pc;
                self.pc = inst.nnn;
                Ok(())
            },
            0x3 => {
                let cond = self.v[xu] == inst.nn;
                self.skip_if(cond)
            },
            0x4 => {
                let cond = self.v[xu] != inst.nn;
                self.skip_if(cond)
            },
            0x5 => self.exec_op5(inst),
            0x6 => {
                self.v[xu] = inst.nn;
                Ok(())
            },
            0x7 => {
                let sum: u16 = self.v[xu] as u16 + inst.nn as u16;
                self.v[xu] = (sum % 256) as u8;
                proof {
                    assert((sum % 256) as u8 == wrap8(sum as int));
                }
                Ok(())
            },
            0x8 => self.exec_op8(inst),
            0x9 => {
                let cond = self.v[xu] != self.v[yu];
                self.skip_if(cond)
            },
            0xA => {
                self.i = inst.nnn;
                Ok(())
            },
            0xB => {
                let off = if self.quirks.cosmac_bnnn {
                    self.v[0]
                } else {
                    self.v[xu]
                };
                self.pc = inst.nnn + off as u16;
                Ok(())
            },
            0xC => {
                self.v[xu] = rnd & inst.nn;
                Ok(())
            },
            0xD => self.exec_draw(inst),
            0xE => self.exec_ope(inst),
            _ => self.exec_opf(inst),
        }
    }

    /// Executes one decoded instruction; the random opcode draws a fresh
    /// byte, so the outcome is one of the specified results over all bytes.
    pub fn execute(&mut self, inst: Instruction) -> (r: Result<(), Fault>)
        requires
            old(self).wf(),
            inst_wf(inst),
        ensures
            final(self).wf(),
            match r {
                Ok(u) => exists|rnd: u8| spec_exec(old(self)@, inst, rnd) == Ok::<StateV, Fault>(
                    final(self)@,
                ),
                Err(f) => final(self)@ == old(self)@ && forall|rnd: u8|
                    spec_exec(old(self)@, inst, rnd) == Err::<StateV, Fault>(f),
            },
    {
        let rnd = random_byte();
        let r = self.execute_with_random(inst, rnd);
        proof {
            match r {
                Ok(u) => {
                    assert(spec_exec(old(self)@, inst, rnd) == Ok::<StateV, Fault>(self@));
                },
                Err(f) => {
                    assert forall|r2: u8|
                        spec_exec(old(self)@, inst, r2) == Err::<StateV, Fault>(f) by {
                        assert(spec_exec(old(self)@, inst, rnd) == Err::<StateV, Fault>(f));
                    }
                },
            }
        }
        r
    }

    /// Fetches the big-endian word at PC and advances PC by 2.
    fn fetch(&mut self) -> (r: Result<u16, Fault>)
        requires
            old(self).wf(),
        ensures
            final(self).wf(),
            match r {
                Ok(word) => spec_fetch(old(self)@) == Ok::<(u16, StateV), Fault>(
                    (word, final(self)@),
                ),
                Err(f) => spec_fetch(old(self)@) == Err::<(u16, StateV), Fault>(f) && final(self)@
                    == old(self)@,
            },
    {
        if self.pc > 0xFFFD {
            return Err(Fault::MemoryOutOfRange);
        }
        let hi = self.memory[self.pc as usize];
        let lo = self.memory[self.pc as usize + 1];
        self.pc = self.pc + 2;
        proof {
            lemma_be16(hi, lo);
        }
        Ok(((hi as u16) << 8) | lo as u16)
    }

    /// One cycle: fetch the word at PC, decode it, execute it. On a fault
    /// the machine does not move, the program counter included.
    #[verifier::rlimit(100)]
    #[verifier::spinoff_prover]
    pub fn step(&mut self) -> (r: Result<(), Fault>)
        requires
            old(self).wf(),
        ensures
            final(self).wf(),
            match r {
                Ok(u) => exists|rnd: u8| spec_step(old(self)@, rnd) == Ok::<StateV, Fault>(
                    final(self)@,
                ),
                Err(f) => final(self)@ == old(self)@ && forall|rnd: u8|
                    spec_step(old(self)@, rnd) == Err::<StateV, Fault>(f),
            },
    {
        let ghost pre = self@;
        let word = match self.fetch() {
            Ok(word) => word,
            Err(f) => {
                return Err(f);
            },
        };
        let ghost s1 = self@;
        let inst = self.decode(word);
        let r = self.execute(inst);
        if r.is_err() {
            // Undo the fetch's advance: a faulting step moves nothing.
            self.pc = self.pc - 2;
        }
        proof {
            assert(spec_fetch(pre) == Ok::<(u16, StateV), Fault>((word, s1)));
            assert(inst == spec_decode(word));
            match r {
                Ok(u) => {
                    let rnd = choose|rnd: u8|
                        spec_exec(s1, inst, rnd) == Ok::<StateV, Fault>(self@);
                    assert(spec_exec(s1, inst, rnd) == Ok::<StateV, Fault>(self@));
                    assert(spec_step(pre, rnd) == spec_exec(s1, spec_decode(word), rnd));
                    assert(spec_step(pre, rnd) == Ok::<StateV, Fault>(self@));
                },
                Err(f) => {
                    assert forall|rnd: u8| spec_step(pre, rnd) == Err::<StateV, Fault>(f) by {
                        assert(spec_exec(s1, inst, rnd) == Err::<StateV, Fault>(f));
                        assert(spec_step(pre, rnd) == spec_exec(s1, spec_decode(word), rnd));
                    }
                },
            }
        }
        r
    }
}

} // verus!
