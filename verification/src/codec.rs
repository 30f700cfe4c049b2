//! The binary save-state container: a tagged sequence of sections holding
//! registers, timers, stack, zero-run-compressed memory and the display
//! dimensions with the zero-run-compressed packed pixel words. Loading is
//! the structural inverse of saving, validates every tag and the version,
//! and restores all or nothing.

use vstd::prelude::*;
use crate::cpu::{Chip8, StateV};
use crate::display::DisplayV;
use crate::rle::{
    spec_encode_rle, spec_encode_rle_u32, spec_decode_rle_take, spec_decode_rle_u32_take,
    encode_rle, encode_rle_u32, decode_rle_take, decode_rle_u32_take,
    lemma_decode_rle_take_round_trip, lemma_decode_rle_u32_take_round_trip,
};

verus! {

/// Why a save-state container was rejected.
#[derive(Clone, Copy, Debug, PartialEq, Eq, Structural)]
pub enum LoadError {
    /// A section tag is not where the layout puts it, or a field
    /// contradicts another.
    CorruptFormat,
    /// The format version is not the one this codec writes.
    UnsupportedVersion,
    /// The container ends before the layout does.
    TruncatedInput,
}

/// The two little-endian bytes of a 16-bit value.
pub open spec fn le16_bytes(x: u16) -> Seq<u8> {
    seq![(x & 0xFF) as u8, ((x >> 8) & 0xFF) as u8]
}

/// The 16-bit value two little-endian bytes hold.
pub open spec fn le16_val(b0: u8, b1: u8) -> u16 {
    (b0 as u16) | (b1 as u16) << 8
}

/// The eight little-endian bytes of a 64-bit value.
pub open spec fn le64_bytes(x: u64) -> Seq<u8> {
    seq![
        (x & 0xFF) as u8,
        ((x >> 8) & 0xFF) as u8,
        ((x >> 16) & 0xFF) as u8,
        ((x >> 24) & 0xFF) as u8,
        ((x >> 32) & 0xFF) as u8,
        ((x >> 40) & 0xFF) as u8,
        ((x >> 48) & 0xFF) as u8,
        ((x >> 56) & 0xFF) as u8,
    ]
}

/// The 64-bit value eight little-endian bytes hold.
pub open spec fn le64_val(
    b0: u8,
    b1: u8,
    b2: u8,
    b3: u8,
    b4: u8,
    b5: u8,
    b6: u8,
    b7: u8,
) -> u64 {
    (b0 as u64) | (b1 as u64) << 8 | (b2 as u64) << 16 | (b3 as u64) << 24 | (b4 as u64) << 32 | (
    b5 as u64) << 40 | (b6 as u64) << 48 | (b7 as u64) << 56
}

/// Reassembling the two little-endian bytes gives the value back.
proof fn lemma_le16_round(x: u16)
    by (bit_vector)
    ensures
        le16_val((x & 0xFF) as u8, ((x >> 8) & 0xFF) as u8) == x,
{
}

/// Reassembling the eight little-endian bytes gives the value back.
proof fn lemma_le64_round(x: u64)
    by (bit_vector)
    ensures
        le64_val(
            (x & 0xFF) as u8,
            ((x >> 8) & 0xFF) as u8,
            ((x >> 16) & 0xFF) as u8,
            ((x >> 24) & 0xFF) as u8,
            ((x >> 32) & 0xFF) as u8,
            ((x >> 40) & 0xFF) as u8,
            ((x >> 48) & 0xFF) as u8,
            ((x >> 56) & 0xFF) as u8,
        ) == x,
{
}

/// The stack pointer's byte, two's complement.
pub open spec fn sp_byte(sp: i8) -> u8 {
    if sp >= 0 {
        sp as u8
    } else {
        (sp + 256) as u8
    }
}

/// The stack pointer a byte holds, two's complement.
pub open spec fn sp_of_byte(b: u8) -> i8 {
    if b < 128 {
        b as i8
    } else {
        (b - 256) as i8
    }
}

/// The stack entries flattened to little-endian byte pairs.
pub open spec fn stack_bytes(st: Seq<u16>) -> Seq<u8> {
    Seq::new(
        2 * st.len(),
        |j: int|
            if j % 2 == 0 {
                (st[j / 2] & 0xFF) as u8
            } else {
                ((st[j / 2] >> 8) & 0xFF) as u8
            },
    )
}

/// The container's byte layout for a machine state whose display storage
/// holds the given packed words.
pub open spec fn spec_save_bytes(s: StateV, words: Seq<u32>) -> Seq<u8> {
    seq![0x48u8, 0x45, 0x41, 0x44].add(seq![1u8, 0, 0]).add(seq![0x52u8, 0x45, 0x47, 0x53]).add(
        s.v,
    ).add(le16_bytes(s.i)).add(le16_bytes(s.pc)).add(seq![sp_byte(s.sp)]).add(
        seq![0x54u8, 0x49, 0x4D, 0x45],
    ).add(seq![s.delay, s.sound]).add(seq![0x53u8, 0x54, 0x43, 0x4B]).add(stack_bytes(s.stack)).add(
        seq![0x52u8, 0x4D, 0x45, 0x4D],
    ).add(spec_encode_rle(s.memory)).add(seq![0x44u8, 0x49, 0x53, 0x50]).add(
        le16_bytes(s.display.width),
    ).add(le16_bytes(s.display.height)).add(le64_bytes(words.len() as u64)).add(
        spec_encode_rle_u32(words),
    )
}

/// The fields a well-formed container holds.
pub ghost struct Loaded {
    pub v: Seq<u8>,
    pub i: u16,
    pub pc: u16,
    pub sp: i8,
    pub delay: u8,
    pub sound: u8,
    pub stack: Seq<u16>,
    pub memory: Seq<u8>,
    pub width: u16,
    pub height: u16,
    pub words: Seq<u32>,
}

/// Parsing a container: each tag and the version are validated, memory is
/// decoded until its full 65535 bytes, the display words until the count
/// the header names, and nothing may be left over.
pub open spec fn spec_load(d: Seq<u8>) -> Result<Loaded, LoadError> {
    if d.len() < 110 {
        Err(LoadError::TruncatedInput)
    } else if !(d[0] == 0x48 && d[1] == 0x45 && d[2] == 0x41 && d[3] == 0x44) {
        Err(LoadError::CorruptFormat)
    } else if !(d[4] == 1 && d[5] == 0 && d[6] == 0) {
        Err(LoadError::UnsupportedVersion)
    } else if !(d[7] == 0x52 && d[8] == 0x45 && d[9] == 0x47 && d[10] == 0x53) {
        Err(LoadError::CorruptFormat)
    } else if !(d[32] == 0x54 && d[33] == 0x49 && d[34] == 0x4D && d[35] == 0x45) {
        Err(LoadError::CorruptFormat)
    } else if !(d[38] == 0x53 && d[39] == 0x54 && d[40] == 0x43 && d[41] == 0x4B) {
        Err(LoadError::CorruptFormat)
    } else if !(d[106] == 0x52 && d[107] == 0x4D && d[108] == 0x45 && d[109] == 0x4D) {
        Err(LoadError::CorruptFormat)
    } else if !(-1 <= sp_of_byte(d[31]) < 32) {
        Err(LoadError::CorruptFormat)
    } else {
        match spec_decode_rle_take(d.skip(110), 0xFFFF) {
            None => Err(LoadError::TruncatedInput),
            Some(pm) => {
                let p: int = 110 + pm.1 as int;
                if d.len() < p + 16 {
                    Err(LoadError::TruncatedInput)
                } else if !(d[p] == 0x44 && d[p + 1] == 0x49 && d[p + 2] == 0x53 && d[p + 3]
                    == 0x50) {
                    Err(LoadError::CorruptFormat)
                } else {
                    let w = le16_val(d[p + 4], d[p + 5]);
                    let h = le16_val(d[p + 6], d[p + 7]);
                    let cnt = le64_val(
                        d[p + 8],
                        d[p + 9],
                        d[p + 10],
                        d[p + 11],
                        d[p + 12],
                        d[p + 13],
                        d[p + 14],
                        d[p + 15],
                    );
                    if !((w == 64 && h == 32) || (w == 128 && h == 64)) {
                        Err(LoadError::CorruptFormat)
                    } else if cnt as int != (w as int * h as int + 31) / 32 {
                        Err(LoadError::CorruptFormat)
                    } else {
                        match spec_decode_rle_u32_take(d.skip(p + 16), cnt as nat) {
                            None => Err(LoadError::TruncatedInput),
                            Some(pw) => {
                                if p + 16 + pw.1 != d.len() {
                                    Err(LoadError::CorruptFormat)
                                } else {
                                    Ok(
                                        Loaded {
                                            v: d.subrange(11, 27),
                                            i: le16_val(d[27], d[28]),
                                            pc: le16_val(d[29], d[30]),
                                            sp: sp_of_byte(d[31]),
                                            delay: d[36],
                                            sound: d[37],
                                            stack: Seq::new(
                                                32,
                                                |j: int| le16_val(d[42 + 2 * j], d[43 + 2 * j]),
                                            ),
                                            memory: pm.0,
                                            width: w,
                                            height: h,
                                            words: pw.0,
                                        },
                                    )
                                }
                            },
                        }
                    }
                }
            },
        }
    }
}

/// Appends the two little-endian bytes of a 16-bit value.
fn push_le16(out: &mut Vec<u8>, x: u16)
    ensures
        final(out)@ == old(out)@.add(le16_bytes(x)),
{
    out.push((x & 0xFF) as u8);
    out.push(((x >> 8) & 0xFF) as u8);
    proof {
        assert(out@ =~= old(out)@.add(le16_bytes(x)));
    }
}

/// Appends the eight little-endian bytes of a 64-bit value.
fn push_le64(out: &mut Vec<u8>, x: u64)
    ensures
        final(out)@ == old(out)@.add(le64_bytes(x)),
{
    out.push((x & 0xFF) as u8);
    out.push(((x >> 8) & 0xFF) as u8);
    out.push(((x >> 16) & 0xFF) as u8);
    out.push(((x >> 24) & 0xFF) as u8);
    out.push(((x >> 32) & 0xFF) as u8);
    out.push(((x >> 40) & 0xFF) as u8);
    out.push(((x >> 48) & 0xFF) as u8);
    out.push(((x >> 56) & 0xFF) as u8);
    proof {
        assert(out@ =~= old(out)@.add(le64_bytes(x)));
    }
}

impl Chip8 {
    /// Serializes the whole machine state to the tagged binary container.
    #[verifier::rlimit(100)]
    #[verifier::spinoff_prover]
    pub fn save_state(&self) -> (out: Vec<u8>)
        requires
            self.wf(),
        ensures
            out@ == spec_save_bytes(self@, self.display.display@),
    {
        let mut out: Vec<u8> = Vec::new();
        out.push(0x48);
        out.push(0x45);
        out.push(0x41);
        out.push(0x44);
        out.push(1);
        out.push(0);
        out.push(0);
        out.push(0x52);
        out.push(0x45);
        out.push(0x47);
        out.push(0x53);
        out.extend_from_slice(self.v.as_slice());
        push_le16(&mut out, self.i);
        push_le16(&mut out, self.pc);
        if self.sp >= 0 {
            out.push(self.sp as u8);
        } else {
            out.push((self.sp as i16 + 256) as u8);
        }
        out.push(0x54);
        out.push(0x49);
        out.push(0x4D);
        out.push(0x45);
        out.push(self.delay);
        out.push(self.sound);
        out.push(0x53);
        out.push(0x54);
        out.push(0x43);
        out.push(0x4B);
        let ghost stack_prefix = out@;
        let mut k: usize = 0;
        while k < 32
            invariant
                k <= 32,
                self.stack@.len() == 32,
                out@ == stack_prefix.add(stack_bytes(self.stack@.take(k as int))),
            decreases 32 - k,
        {
            let e = self.stack[k];
            out.push((e & 0xFF) as u8);
            out.push(((e >> 8) & 0xFF) as u8);
            proof {
                assert(out@ =~= stack_prefix.add(stack_bytes(self.stack@.take(k as int + 1))));
            }
            k = k + 1;
        }
        proof {
            assert(self.stack@.take(32) =~= self.stack@);
        }
        out.push(0x52);
        out.push(0x4D);
        out.push(0x45);
        out.push(0x4D);
        let mut em = encode_rle(self.memory.as_slice());
        out.append(&mut em);
        out.push(0x44);
        out.push(0x49);
        out.push(0x53);
        out.push(0x50);
        push_le16(&mut out, self.display.width);
        push_le16(&mut out, self.display.height);
        push_le64(&mut out, self.display.display.len() as u64);
        let mut ed = encode_rle_u32(self.display.display.as_slice());
        out.append(&mut ed);
        proof {
            assert(out@ =~= spec_save_bytes(self@, self.display.display@));
        }
        out
    }

    /// Restores the machine from a container: the exact structural inverse
    /// of saving. Every tag and the version are validated, and on any
    /// error the machine is left exactly as it was.
    pub fn load_state(&mut self, data: &[u8]) -> (r: Result<(), LoadError>)
        requires
            old(self).wf(),
        ensures
            final(self).wf(),
            match r {
                Ok(u) => spec_load(data@) matches Ok(ld) && final(self)@ == (StateV {
                    v: ld.v,
                    i: ld.i,
                    pc: ld.pc,
                    sp: ld.sp,
                    delay: ld.delay,
                    sound: ld.sound,
                    stack: ld.stack,
                    display: DisplayV {
                        pixels: crate::display::unpack_pixels(ld.words, ld.width, ld.height),
                        width: ld.width,
                        height: ld.height,
                        ..old(self)@.display
                    },
                    memory: ld.memory,
                    ..old(self)@
                }) && final(self).display.display@ == ld.words,
                Err(e) => spec_load(data@) == Err::<Loaded, LoadError>(e) && final(self)@ == old(
                    self,
                )@ && final(self).display.display@ == old(self).display.display@,
            },
    {
        if data.len() < 110 {
            return Err(LoadError::TruncatedInput);
        }
        if !(data[0] == 0x48 && data[1] == 0x45 && data[2] == 0x41 && data[3] == 0x44) {
            return Err(LoadError::CorruptFormat);
        }
        if !(data[4] == 1 && data[5] == 0 && data[6] == 0) {
            return Err(LoadError::UnsupportedVersion);
        }
        if !(data[7] == 0x52 && data[8] == 0x45 && data[9] == 0x47 && data[10] == 0x53) {
            return Err(LoadError::CorruptFormat);
        }
        if !(data[32] == 0x54 && data[33] == 0x49 && data[34] == 0x4D && data[35] == 0x45) {
            return Err(LoadError::CorruptFormat);
        }
        if !(data[38] == 0x53 && data[39] == 0x54 && data[40] == 0x43 && data[41] == 0x4B) {
            return Err(LoadError::CorruptFormat);
        }
        if !(data[106] == 0x52 && data[107] == 0x4D && data[108] == 0x45 && data[109] == 0x4D) {
            return Err(LoadError::CorruptFormat);
        }
        let spb = data[31];
        let sp: i8 = if spb < 128 {
            spb as i8
        } else {
            ((spb as i16) - 256) as i8
        };
        if !(-1 <= sp && sp < 32) {
            return Err(LoadError::CorruptFormat);
        }
        let (mem, p) = match decode_rle_take(data, 110, 0xFFFF) {
            Some(q) => q,
            None => {
                return Err(LoadError::TruncatedInput);
            },
        };
        if p > data.len() - 16 {
            return Err(LoadError::TruncatedInput);
        }
        if !(data[p] == 0x44 && data[p + 1] == 0x49 && data[p + 2] == 0x53 && data[p + 3] == 0x50) {
            return Err(LoadError::CorruptFormat);
        }
        let w = data[p + 4] as u16 | (data[p + 5] as u16) << 8;
        let h = data[p + 6] as u16 | (data[p + 7] as u16) << 8;
        let cnt = data[p + 8] as u64 | (data[p + 9] as u64) << 8 | (data[p + 10] as u64) << 16 | (
        data[p + 11] as u64) << 24 | (data[p + 12] as u64) << 32 | (data[p + 13] as u64) << 40 | (
        data[p + 14] as u64) << 48 | (data[p + 15] as u64) << 56;
        if !((w == 64 && h == 32) || (w == 128 && h == 64)) {
            return Err(LoadError::CorruptFormat);
        }
        if cnt != ((w as u64 * h as u64) + 31) / 32 {
            return Err(LoadError::CorruptFormat);
        }
        let (words, q) = match decode_rle_u32_take(data, p + 16, cnt as usize) {
            Some(q) => q,
            None => {
                return Err(LoadError::TruncatedInput);
            },
        };
        if q != data.len() {
            return Err(LoadError::CorruptFormat);
        }
        let vregs = vstd::slice::slice_to_vec(vstd::slice::slice_subrange(data, 11, 27));
        let i = data[27] as u16 | (data[28] as u16) << 8;
        let pc = data[29] as u16 | (data[30] as u16) << 8;
        let delay = data[36];
        let sound = data[37];
        let mut stack: Vec<u16> = Vec::new();
        let mut k: usize = 0;
        while k < 32
            invariant
                k <= 32,
                data@.len() >= 110,
                stack@ == Seq::new(
                    k as nat,
                    |j: int| le16_val(data@[42 + 2 * j], data@[43 + 2 * j]),
                ),
            decreases 32 - k,
        {
            let e = data[42 + 2 * k] as u16 | (data[43 + 2 * k] as u16) << 8;
            stack.push(e);
            proof {
                assert(stack@ =~= Seq::new(
                    k as nat + 1,
                    |j: int| le16_val(data@[42 + 2 * j], data@[43 + 2 * j]),
                ));
            }
            k = k + 1;
        }
        self.v = vregs;
        self.i = i;
        self.pc = pc;
        self.sp = sp;
        self.delay = delay;
        self.sound = sound;
        self.stack = stack;
        self.memory = mem;
        self.display.display = words;
        self.display.width = w;
        self.display.height = h;
        proof {
            crate::rle::lemma_decode_rle_take_len(data@.skip(110), 0xFFFF);
            crate::rle::lemma_decode_rle_u32_take_len(data@.skip(p + 16), cnt as nat);
            let ld = spec_load(data@)->Ok_0;
            assert(self.v@ =~= ld.v);
            assert(self.stack@ =~= ld.stack);
        }
        Ok(())
    }
}

/// Law: loading what saving produced restores exactly the saved state.
/// The one caveat is inherited from the word codec: no nonzero display
/// word may have a zero low byte, since its first little-endian byte would
/// collide with the zero-run marker.
#[verifier::rlimit(100)]
#[verifier::spinoff_prover]
pub proof fn lemma_load_inverts_save(s: StateV, words: Seq<u32>)
    requires
        crate::cpu::state_wf(s),
        words.len() == (s.display.width as int * s.display.height as int + 31) / 32,
        forall|k: int| 0 <= k < words.len() ==> (words[k] == 0 || words[k] as nat % 256 != 0),
    ensures
        spec_load(spec_save_bytes(s, words)) == Ok::<Loaded, LoadError>(
            Loaded {
                v: s.v,
                i: s.i,
                pc: s.pc,
                sp: s.sp,
                delay: s.delay,
                sound: s.sound,
                stack: s.stack,
                memory: s.memory,
                width: s.display.width,
                height: s.display.height,
                words,
            },
        ),
{
    let d = spec_save_bytes(s, words);
    let em = spec_encode_rle(s.memory);
    let tail2 = seq![0x44u8, 0x49, 0x53, 0x50].add(le16_bytes(s.display.width)).add(
        le16_bytes(s.display.height),
    ).add(le64_bytes(words.len() as u64)).add(spec_encode_rle_u32(words));
    let fixed = seq![0x48u8, 0x45, 0x41, 0x44].add(seq![1u8, 0, 0]).add(
        seq![0x52u8, 0x45, 0x47, 0x53],
    ).add(s.v).add(le16_bytes(s.i)).add(le16_bytes(s.pc)).add(seq![sp_byte(s.sp)]).add(
        seq![0x54u8, 0x49, 0x4D, 0x45],
    ).add(seq![s.delay, s.sound]).add(seq![0x53u8, 0x54, 0x43, 0x4B]).add(stack_bytes(s.stack)).add(
        seq![0x52u8, 0x4D, 0x45, 0x4D],
    );
    assert(fixed.len() == 110);
    assert(d =~= fixed.add(em).add(tail2));
    assert(d.skip(110) =~= em.add(tail2));
    lemma_decode_rle_take_round_trip(s.memory, tail2);
    assert(spec_decode_rle_take(d.skip(110), 0xFFFF) == Some::<(Seq<u8>, nat)>(
        (s.memory, em.len()),
    ));
    let p: int = 110 + em.len() as int;
    assert(d.len() == p + tail2.len());
    assert(tail2.len() == 16 + spec_encode_rle_u32(words).len());
    lemma_le16_round(s.i);
    lemma_le16_round(s.pc);
    lemma_le16_round(s.display.width);
    lemma_le16_round(s.display.height);
    lemma_le64_round(words.len() as u64);
    assert(le16_val(d[p + 4], d[p + 5]) == s.display.width);
    assert(le16_val(d[p + 6], d[p + 7]) == s.display.height);
    assert(le64_val(
        d[p + 8],
        d[p + 9],
        d[p + 10],
        d[p + 11],
        d[p + 12],
        d[p + 13],
        d[p + 14],
        d[p + 15],
    ) == words.len() as u64);
    assert(d.skip(p + 16) =~= spec_encode_rle_u32(words));
    assert(spec_encode_rle_u32(words).add(Seq::<u8>::empty()) =~= spec_encode_rle_u32(words));
    lemma_decode_rle_u32_take_round_trip(words, Seq::empty());
    assert(spec_decode_rle_u32_take(d.skip(p + 16), words.len()) == Some::<(Seq<u32>, nat)>(
        (words, spec_encode_rle_u32(words).len()),
    ));
    assert(sp_of_byte(sp_byte(s.sp)) == s.sp);
    assert(d.subrange(11, 27) =~= s.v);
    assert forall|j: int| 0 <= j < 32 implies le16_val(d[42 + 2 * j], d[43 + 2 * j])
        == s.stack[j] by {
        assert(d[42 + 2 * j] == stack_bytes(s.stack)[2 * j]);
        assert(d[43 + 2 * j] == stack_bytes(s.stack)[2 * j + 1]);
        lemma_le16_round(s.stack[j]);
    }
    assert(Seq::new(32, |j: int| le16_val(d[42 + 2 * j], d[43 + 2 * j])) =~= s.stack);
}

} // verus!
