//! Zero-run compression for byte sequences and for 32-bit-word sequences.
//!
//! A run of zero values is replaced by a single zero marker byte followed by
//! a 4-byte little-endian run length; non-zero values pass through unchanged
//! (the word variant writes them as their own 4 little-endian bytes).
//! Decoding a truncated or malformed trailing run is not an error: decoding
//! stops and returns whatever was decoded so far.

use vstd::prelude::*;
use crate::le32;

verus! {

/// A sequence of `n` zero bytes.
pub open spec fn zero_bytes(n: nat) -> Seq<u8> {
    Seq::new(n, |i: int| 0u8)
}

/// A sequence of `n` zero words.
pub open spec fn zero_words(n: nat) -> Seq<u32> {
    Seq::new(n, |i: int| 0u32)
}

/// The four little-endian bytes of a 32-bit value.
pub open spec fn le32_bytes(w: u32) -> Seq<u8> {
    seq![
        (w & 0xFF) as u8,
        ((w >> 8) & 0xFF) as u8,
        ((w >> 16) & 0xFF) as u8,
        ((w >> 24) & 0xFF) as u8,
    ]
}

/// A zero-run marker: the zero byte, then the run length in little endian.
pub open spec fn run_marker(count: nat) -> Seq<u8> {
    seq![0u8].add(le32_bytes(count as u32))
}

/// Reassembling four little-endian bytes undoes `le32_bytes`, and the low
/// byte of a word is zero exactly when the word is divisible by 256.
pub proof fn lemma_le32_bytes(w: u32)
    by (bit_vector)
    ensures
        le32((w & 0xFF) as u8, ((w >> 8) & 0xFF) as u8, ((w >> 16) & 0xFF) as u8, (
        (w >> 24) & 0xFF) as u8) == w,
        ((w & 0xFF) as u8 == 0) <==> (w as nat % 256 == 0),
{
}

/// Encoding with `pending` zeros seen and not yet written out.
pub open spec fn encode_rle_aux(s: Seq<u8>, pending: nat) -> Seq<u8>
    decreases s.len(),
{
    if s.len() == 0 {
        if pending > 0 {
            run_marker(pending)
        } else {
            Seq::empty()
        }
    } else if s[0] == 0 {
        encode_rle_aux(s.skip(1), pending + 1)
    } else {
        (if pending > 0 {
            run_marker(pending)
        } else {
            Seq::empty()
        }).add(seq![s[0]]).add(encode_rle_aux(s.skip(1), 0))
    }
}

/// What `encode_rle` returns.
pub open spec fn spec_encode_rle(s: Seq<u8>) -> Seq<u8> {
    encode_rle_aux(s, 0)
}

/// What `decode_rle` returns.
pub open spec fn spec_decode_rle(d: Seq<u8>) -> Seq<u8>
    decreases d.len(),
{
    if d.len() == 0 {
        Seq::empty()
    } else if d[0] == 0 {
        if d.len() >= 5 {
            zero_bytes(le32(d[1], d[2], d[3], d[4]) as nat).add(spec_decode_rle(d.skip(5)))
        } else {
            Seq::empty()
        }
    } else {
        seq![d[0]].add(spec_decode_rle(d.skip(1)))
    }
}

/// Encoding with `pending` zeros seen and not yet written out.
pub open spec fn encode_rle_u32_aux(s: Seq<u32>, pending: nat) -> Seq<u8>
    decreases s.len(),
{
    if s.len() == 0 {
        if pending > 0 {
            run_marker(pending)
        } else {
            Seq::empty()
        }
    } else if s[0] == 0 {
        encode_rle_u32_aux(s.skip(1), pending + 1)
    } else {
        (if pending > 0 {
            run_marker(pending)
        } else {
            Seq::empty()
        }).add(le32_bytes(s[0])).add(encode_rle_u32_aux(s.skip(1), 0))
    }
}

/// What `encode_rle_u32` returns.
pub open spec fn spec_encode_rle_u32(s: Seq<u32>) -> Seq<u8> {
    encode_rle_u32_aux(s, 0)
}

/// What `decode_rle_u32` returns.
pub open spec fn spec_decode_rle_u32(d: Seq<u8>) -> Seq<u32>
    decreases d.len(),
{
    if d.len() == 0 {
        Seq::empty()
    } else if d[0] == 0 {
        if d.len() >= 5 {
            zero_words(le32(d[1], d[2], d[3], d[4]) as nat).add(spec_decode_rle_u32(d.skip(5)))
        } else {
            Seq::empty()
        }
    } else if d.len() >= 4 {
        seq![le32(d[0], d[1], d[2], d[3])].add(spec_decode_rle_u32(d.skip(4)))
    } else {
        Seq::empty()
    }
}

/// Appends the zero marker and the little-endian run length.
fn push_marker(encoded: &mut Vec<u8>, count: u32)
    ensures
        final(encoded)@ == old(encoded)@.add(run_marker(count as nat)),
{
    encoded.push(0);
    encoded.push((count & 0xFF) as u8);
    encoded.push(((count >> 8) & 0xFF) as u8);
    encoded.push(((count >> 16) & 0xFF) as u8);
    encoded.push(((count >> 24) & 0xFF) as u8);
    proof {
        assert(encoded@ =~= old(encoded)@.add(run_marker(count as nat)));
    }
}

/// Compresses a byte sequence, replacing each zero run by a marker.
pub fn encode_rle(data: &[u8]) -> (encoded: Vec<u8>)
    requires
        data@.len() < 0x1_0000_0000,
    ensures
        encoded@ == spec_encode_rle(data@),
{
    let mut encoded: Vec<u8> = Vec::new();
    let mut count: u32 = 0;
    let mut idx: usize = 0;

    proof {
        assert(data@.skip(0) =~= data@);
    }
    while idx < data.len()
        invariant
            idx <= data@.len(),
            data@.len() < 0x1_0000_0000,
            count <= idx,
            encoded@.add(encode_rle_aux(data@.skip(idx as int), count as nat))
                == spec_encode_rle(data@),
        decreases data@.len() - idx,
    {
        proof {
            assert(data@.skip(idx as int).skip(1) =~= data@.skip(idx as int + 1));
            assert(data@.skip(idx as int)[0] == data@[idx as int]);
        }
        let byte = data[idx];
        if byte == 0x00 {
            count = count + 1;
        } else {
            if count > 0 {
                push_marker(&mut encoded, count);
                count = 0;
            }
            encoded.push(byte);
        }
        proof {
            assert(encoded@.add(encode_rle_aux(data@.skip(idx as int + 1), count as nat))
                =~= spec_encode_rle(data@));
        }
        idx = idx + 1;
    }

    proof {
        assert(data@.skip(idx as int) =~= Seq::<u8>::empty());
    }
    if count > 0 {
        push_marker(&mut encoded, count);
    }
    proof {
        assert(encoded@ =~= spec_encode_rle(data@));
    }
    encoded
}

/// Appends `n` zero bytes.
fn push_zero_bytes(decoded: &mut Vec<u8>, n: u32)
    requires
        old(decoded)@.len() + n <= usize::MAX,
    ensures
        final(decoded)@ == old(decoded)@.add(zero_bytes(n as nat)),
{
    let mut k: u32 = 0;
    while k < n
        invariant
            k <= n,
            old(decoded)@.len() + n <= usize::MAX,
            decoded@ == old(decoded)@.add(zero_bytes(k as nat)),
        decreases n - k,
    {
        decoded.push(0);
        proof {
            assert(decoded@ =~= old(decoded)@.add(zero_bytes(k as nat + 1)));
        }
        k = k + 1;
    }
    proof {
        assert(decoded@ =~= old(decoded)@.add(zero_bytes(n as nat)));
    }
}

/// Expands a compressed byte sequence; a truncated trailing marker ends
/// decoding early with everything decoded so far.
pub fn decode_rle(data: &[u8]) -> (decoded: Vec<u8>)
    requires
        spec_decode_rle(data@).len() <= usize::MAX,
    ensures
        decoded@ == spec_decode_rle(data@),
{
    let mut decoded: Vec<u8> = Vec::new();
    let mut idx: usize = 0;

    proof {
        assert(data@.skip(0) =~= data@);
    }
    while idx < data.len()
        invariant
            idx <= data@.len(),
            spec_decode_rle(data@).len() <= usize::MAX,
            decoded@.add(spec_decode_rle(data@.skip(idx as int))) == spec_decode_rle(data@),
        decreases data@.len() - idx,
    {
        let rest = data.len() - idx;
        if data[idx] == 0x00 {
            if rest >= 5 {
                let length = le32_exec(data[idx + 1], data[idx + 2], data[idx + 3], data[idx + 4]);
                proof {
                    let tail = data@.skip(idx as int);
                    assert(tail[0] == data@[idx as int]);
                    assert(tail[1] == data@[idx as int + 1]);
                    assert(tail[2] == data@[idx as int + 2]);
                    assert(tail[3] == data@[idx as int + 3]);
                    assert(tail[4] == data@[idx as int + 4]);
                    assert(tail.skip(5) =~= data@.skip(idx as int + 5));
                    assert(spec_decode_rle(tail) == zero_bytes(length as nat).add(
                        spec_decode_rle(data@.skip(idx as int + 5))));
                    assert(decoded@.len() + length <= usize::MAX);
                }
                push_zero_bytes(&mut decoded, length);
                idx = idx + 5;
            } else {
                // A truncated zero-run marker: stop, keeping what was decoded.
                proof {
                    assert(spec_decode_rle(data@.skip(idx as int)) =~= Seq::<u8>::empty());
                    assert(decoded@ =~= spec_decode_rle(data@));
                }
                return decoded;
            }
        } else {
            proof {
                let tail = data@.skip(idx as int);
                assert(tail[0] == data@[idx as int]);
                assert(tail.skip(1) =~= data@.skip(idx as int + 1));
            }
            decoded.push(data[idx]);
            proof {
                assert(decoded@.add(spec_decode_rle(data@.skip(idx as int + 1)))
                    =~= spec_decode_rle(data@));
            }
            idx = idx + 1;
        }
    }

    proof {
        assert(data@.skip(idx as int) =~= Seq::<u8>::empty());
        assert(decoded@ =~= spec_decode_rle(data@));
    }
    decoded
}

/// Reassembles four little-endian bytes into a 32-bit value.
fn le32_exec(b0: u8, b1: u8, b2: u8, b3: u8) -> (w: u32)
    ensures
        w == le32(b0, b1, b2, b3),
{
    (b0 as u32) | (b1 as u32) << 8 | (b2 as u32) << 16 | (b3 as u32) << 24
}

/// Compresses a word sequence: zero runs become markers, other words their
/// own four little-endian bytes.
pub fn encode_rle_u32(data: &[u32]) -> (encoded: Vec<u8>)
    requires
        data@.len() < 0x1_0000_0000,
    ensures
        encoded@ == spec_encode_rle_u32(data@),
{
    let mut encoded: Vec<u8> = Vec::new();
    let mut count: u32 = 0;
    let mut idx: usize = 0;

    proof {
        assert(data@.skip(0) =~= data@);
    }
    while idx < data.len()
        invariant
            idx <= data@.len(),
            data@.len() < 0x1_0000_0000,
            count <= idx,
            encoded@.add(encode_rle_u32_aux(data@.skip(idx as int), count as nat))
                == spec_encode_rle_u32(data@),
        decreases data@.len() - idx,
    {
        proof {
            assert(data@.skip(idx as int).skip(1) =~= data@.skip(idx as int + 1));
            assert(data@.skip(idx as int)[0] == data@[idx as int]);
        }
        let value = data[idx];
        if value == 0 {
            count = count + 1;
        } else {
            if count > 0 {
                push_marker(&mut encoded, count);
                count = 0;
            }
            encoded.push((value & 0xFF) as u8);
            encoded.push(((value >> 8) & 0xFF) as u8);
            encoded.push(((value >> 16) & 0xFF) as u8);
            encoded.push(((value >> 24) & 0xFF) as u8);
        }
        proof {
            assert(encoded@.add(encode_rle_u32_aux(data@.skip(idx as int + 1), count as nat))
                =~= spec_encode_rle_u32(data@));
        }
        idx = idx + 1;
    }

    proof {
        assert(data@.skip(idx as int) =~= Seq::<u32>::empty());
    }
    if count > 0 {
        push_marker(&mut encoded, count);
    }
    proof {
        assert(encoded@ =~= spec_encode_rle_u32(data@));
    }
    encoded
}

/// Appends `n` zero words.
fn push_zero_words(decoded: &mut Vec<u32>, n: u32)
    requires
        old(decoded)@.len() + n <= usize::MAX,
    ensures
        final(decoded)@ == old(decoded)@.add(zero_words(n as nat)),
{
    let mut k: u32 = 0;
    while k < n
        invariant
            k <= n,
            old(decoded)@.len() + n <= usize::MAX,
            decoded@ == old(decoded)@.add(zero_words(k as nat)),
        decreases n - k,
    {
        decoded.push(0);
        proof {
            assert(decoded@ =~= old(decoded)@.add(zero_words(k as nat + 1)));
        }
        k = k + 1;
    }
    proof {
        assert(decoded@ =~= old(decoded)@.add(zero_words(n as nat)));
    }
}

/// Expands a compressed word sequence; a truncated trailing marker or value
/// ends decoding early with everything decoded so far.
pub fn decode_rle_u32(data: &[u8]) -> (decoded: Vec<u32>)
    requires
        spec_decode_rle_u32(data@).len() <= usize::MAX,
    ensures
        decoded@ == spec_decode_rle_u32(data@),
{
    let mut decoded: Vec<u32> = Vec::new();
    let mut idx: usize = 0;

    proof {
        assert(data@.skip(0) =~= data@);
    }
    while idx < data.len()
        invariant
            idx <= data@.len(),
            spec_decode_rle_u32(data@).len() <= usize::MAX,
            decoded@.add(spec_decode_rle_u32(data@.skip(idx as int))) == spec_decode_rle_u32(data@),
        decreases data@.len() - idx,
    {
        let rest = data.len() - idx;
        if data[idx] == 0 {
            if rest >= 5 {
                let length = le32_exec(data[idx + 1], data[idx + 2], data[idx + 3], data[idx + 4]);
                proof {
                    let tail = data@.skip(idx as int);
                    assert(tail[0] == data@[idx as int]);
                    assert(tail[1] == data@[idx as int + 1]);
                    assert(tail[2] == data@[idx as int + 2]);
                    assert(tail[3] == data@[idx as int + 3]);
                    assert(tail[4] == data@[idx as int + 4]);
                    assert(tail.skip(5) =~= data@.skip(idx as int + 5));
                    assert(spec_decode_rle_u32(tail) == zero_words(length as nat).add(
                        spec_decode_rle_u32(data@.skip(idx as int + 5))));
                    assert(decoded@.len() + length <= usize::MAX);
                }
                push_zero_words(&mut decoded, length);
                idx = idx + 5;
            } else {
                // A truncated zero-run marker: stop, keeping what was decoded.
                proof {
                    assert(spec_decode_rle_u32(data@.skip(idx as int)) =~= Seq::<u32>::empty());
                    assert(decoded@ =~= spec_decode_rle_u32(data@));
                }
                return decoded;
            }
        } else if rest >= 4 {
            let value = le32_exec(data[idx], data[idx + 1], data[idx + 2], data[idx + 3]);
            proof {
                let tail = data@.skip(idx as int);
                assert(tail[0] == data@[idx as int]);
                assert(tail[1] == data@[idx as int + 1]);
                assert(tail[2] == data@[idx as int + 2]);
                assert(tail[3] == data@[idx as int + 3]);
                assert(tail.skip(4) =~= data@.skip(idx as int + 4));
            }
            decoded.push(value);
            proof {
                assert(decoded@.add(spec_decode_rle_u32(data@.skip(idx as int + 4)))
                    =~= spec_decode_rle_u32(data@));
            }
            idx = idx + 4;
        } else {
            // A truncated trailing value: stop, keeping what was decoded.
            proof {
                assert(spec_decode_rle_u32(data@.skip(idx as int)) =~= Seq::<u32>::empty());
                assert(decoded@ =~= spec_decode_rle_u32(data@));
            }
            return decoded;
        }
    }

    proof {
        assert(data@.skip(idx as int) =~= Seq::<u8>::empty());
        assert(decoded@ =~= spec_decode_rle_u32(data@));
    }
    decoded
}

/// Encoding a run of zeros with `p` zeros already pending yields one marker.
proof fn lemma_encode_rle_zeros(c: nat, p: nat)
    requires
        p + c >= 1,
        p + c < 0x1_0000_0000,
    ensures
        encode_rle_aux(zero_bytes(c), p) == run_marker(p + c),
    decreases c,
{
    if c == 0 {
        assert(zero_bytes(0) =~= Seq::<u8>::empty());
    } else {
        assert(zero_bytes(c)[0] == 0);
        assert(zero_bytes(c).skip(1) =~= zero_bytes((c - 1) as nat));
        lemma_encode_rle_zeros((c - 1) as nat, p + 1);
    }
}

/// Decoding undoes encoding, whatever follows the encoded bytes: the `p`
/// pending zeros come out first, then the sequence, then the decode of the
/// remainder.
proof fn lemma_decode_encode_rle(s: Seq<u8>, p: nat, t: Seq<u8>)
    requires
        s.len() + p < 0x1_0000_0000,
    ensures
        spec_decode_rle(encode_rle_aux(s, p).add(t)) == zero_bytes(p).add(s).add(
        spec_decode_rle(t)),
    decreases s.len(),
{
    let lhs = encode_rle_aux(s, p).add(t);
    if s.len() == 0 {
        if p > 0 {
            lemma_decode_run_marker(p, t);
            assert(zero_bytes(p).add(s).add(spec_decode_rle(t)) =~= zero_bytes(p).add(
            spec_decode_rle(t)));
        } else {
            assert(lhs =~= t);
            assert(zero_bytes(0).add(s).add(spec_decode_rle(t)) =~= spec_decode_rle(t));
        }
    } else if s[0] == 0 {
        lemma_decode_encode_rle(s.skip(1), p + 1, t);
        assert(zero_bytes(p + 1).add(s.skip(1)).add(spec_decode_rle(t)) =~= zero_bytes(p).add(
        s).add(spec_decode_rle(t)));
    } else {
        let rest = seq![s[0]].add(encode_rle_aux(s.skip(1), 0)).add(t);
        lemma_decode_encode_rle(s.skip(1), 0, t);
        assert(seq![s[0]].add(encode_rle_aux(s.skip(1), 0).add(t)) =~= rest);
        assert(rest[0] == s[0]);
        assert(rest.skip(1) =~= encode_rle_aux(s.skip(1), 0).add(t));
        assert(spec_decode_rle(rest) == seq![s[0]].add(zero_bytes(0).add(s.skip(1)).add(
        spec_decode_rle(t))));
        if p > 0 {
            lemma_decode_run_marker(p, rest);
            assert(lhs =~= run_marker(p).add(rest));
        } else {
            assert(lhs =~= rest);
        }
        assert(spec_decode_rle(lhs) =~= zero_bytes(p).add(s).add(spec_decode_rle(t)));
    }
}

/// A whole run marker at the front decodes to its run of zeros.
proof fn lemma_decode_run_marker(p: nat, t: Seq<u8>)
    requires
        1 <= p < 0x1_0000_0000,
    ensures
        spec_decode_rle(run_marker(p).add(t)) == zero_bytes(p).add(spec_decode_rle(t)),
        spec_decode_rle_u32(run_marker(p).add(t)) == zero_words(p).add(spec_decode_rle_u32(t)),
{
    let d = run_marker(p).add(t);
    let w = p as u32;
    lemma_le32_bytes(w);
    assert(d[0] == 0);
    assert(d.len() >= 5);
    assert(d[1] == (w & 0xFF) as u8 && d[2] == ((w >> 8) & 0xFF) as u8 && d[3] == ((w >> 16)
        & 0xFF) as u8 && d[4] == ((w >> 24) & 0xFF) as u8);
    assert(le32(d[1], d[2], d[3], d[4]) == w);
    assert(d.skip(5) =~= t);
}

/// Decoding an encoded byte sequence gives the sequence back, for every
/// byte sequence that the 32-bit run lengths can describe.
pub proof fn lemma_rle_round_trip(s: Seq<u8>)
    requires
        s.len() < 0x1_0000_0000,
    ensures
        spec_decode_rle(spec_encode_rle(s)) == s,
{
    lemma_decode_encode_rle(s, 0, Seq::empty());
    assert(spec_encode_rle(s).add(Seq::<u8>::empty()) =~= spec_encode_rle(s));
    assert(zero_bytes(0).add(s).add(spec_decode_rle(Seq::empty())) =~= s);
}

/// Appending a trailing zero run to a sequence without one appends a single
/// marker to its encoding.
proof fn lemma_encode_append_zeros(s: Seq<u8>, p: nat, c: nat)
    requires
        1 <= c,
        s.len() + p + c < 0x1_0000_0000,
        s.len() == 0 ==> p == 0,
        s.len() > 0 ==> s[s.len() - 1] != 0,
    ensures
        encode_rle_aux(s.add(zero_bytes(c)), p) == encode_rle_aux(s, p).add(run_marker(c)),
    decreases s.len(),
{
    let full = s.add(zero_bytes(c));
    if s.len() == 0 {
        assert(full =~= zero_bytes(c));
        lemma_encode_rle_zeros(c, 0);
        assert(encode_rle_aux(s, 0) =~= Seq::<u8>::empty());
        assert(encode_rle_aux(s, 0).add(run_marker(c)) =~= run_marker(c));
    } else {
        assert(full[0] == s[0]);
        assert(full.skip(1) =~= s.skip(1).add(zero_bytes(c)));
        if s[0] == 0 {
            lemma_encode_append_zeros(s.skip(1), p + 1, c);
        } else {
            lemma_encode_append_zeros(s.skip(1), 0, c);
            assert((if p > 0 {
                run_marker(p)
            } else {
                Seq::<u8>::empty()
            }).add(seq![s[0]]).add(encode_rle_aux(s.skip(1), 0).add(run_marker(c))) =~= (if p > 0 {
                run_marker(p)
            } else {
                Seq::<u8>::empty()
            }).add(seq![s[0]]).add(encode_rle_aux(s.skip(1), 0)).add(run_marker(c)));
        }
    }
}

/// Truncating an encoding inside its final zero-run marker still decodes,
/// and decodes to a prefix of the sequence that was encoded: everything
/// before the final run.
pub proof fn lemma_rle_truncated_run(s: Seq<u8>, c: nat, j: int)
    requires
        1 <= c,
        1 <= j <= 4,
        s.len() + c < 0x1_0000_0000,
        s.len() == 0 || s[s.len() - 1] != 0,
    ensures
        ({
            let full = s.add(zero_bytes(c));
            let enc = spec_encode_rle(full);
            spec_decode_rle(enc.take(enc.len() - j)) == s && s == full.take(s.len() as int)
        }),
{
    let full = s.add(zero_bytes(c));
    let enc = spec_encode_rle(full);
    lemma_encode_append_zeros(s, 0, c);
    let head = encode_rle_aux(s, 0);
    let t = run_marker(c).take(5 - j);
    assert(enc.take(enc.len() - j) =~= head.add(t));
    assert(t.len() >= 1 && t[0] == 0 && t.len() < 5);
    assert(spec_decode_rle(t) =~= Seq::<u8>::empty());
    lemma_decode_encode_rle(s, 0, t);
    assert(zero_bytes(0).add(s).add(spec_decode_rle(t)) =~= s);
    assert(s =~= full.take(s.len() as int));
}

/// Decoding whole word tokens until exactly `target` words have come out.
/// `None` when the data runs out first, or when a zero run overshoots the
/// target. On success: the decoded words and how many input bytes the
/// tokens took.
pub open spec fn spec_decode_rle_u32_take(d: Seq<u8>, target: nat) -> Option<(Seq<u32>, nat)>
    decreases d.len(),
{
    if target == 0 {
        Some((Seq::empty(), 0))
    } else if d.len() == 0 {
        None
    } else if d[0] == 0 {
        if d.len() >= 5 {
            let n = le32(d[1], d[2], d[3], d[4]) as nat;
            if n <= target {
                match spec_decode_rle_u32_take(d.skip(5), (target - n) as nat) {
                    Some(p) => Some((zero_words(n).add(p.0), p.1 + 5)),
                    None => None,
                }
            } else {
                None
            }
        } else {
            None
        }
    } else if d.len() >= 4 {
        match spec_decode_rle_u32_take(d.skip(4), (target - 1) as nat) {
            Some(p) => Some((seq![le32(d[0], d[1], d[2], d[3])].add(p.0), p.1 + 4)),
            None => None,
        }
    } else {
        None
    }
}

/// Decodes whole word tokens starting at `start` until exactly `target`
/// words have come out; `None` when the input runs out or a run overshoots.
pub fn decode_rle_u32_take(data: &[u8], start: usize, target: usize) -> (r: Option<
    (Vec<u32>, usize),
>)
    requires
        start <= data@.len(),
    ensures
        match spec_decode_rle_u32_take(data@.skip(start as int), target as nat) {
            Some(p) => r matches Some(q) && q.0@ == p.0 && q.1 == start + p.1,
            None => r is None,
        },
{
    let ghost goal = spec_decode_rle_u32_take(data@.skip(start as int), target as nat);
    let mut out: Vec<u32> = Vec::new();
    let mut idx: usize = start;

    loop
        invariant
            start <= idx <= data@.len(),
            out@.len() <= target,
            goal == spec_decode_rle_u32_take(data@.skip(start as int), target as nat),
            match spec_decode_rle_u32_take(data@.skip(idx as int), (target - out@.len()) as nat) {
                Some(p) => goal == Some::<(Seq<u32>, nat)>(
                    (out@.add(p.0), (idx - start) as nat + p.1),
                ),
                None => goal is None,
            },
        decreases data@.len() - idx + (target - out@.len()),
    {
        if out.len() >= target {
            proof {
                let tail = data@.skip(idx as int);
                assert(spec_decode_rle_u32_take(tail, 0) == Some::<(Seq<u32>, nat)>(
                    (Seq::empty(), 0),
                ));
                assert(out@.add(Seq::<u32>::empty()) =~= out@);
            }
            return Some((out, idx));
        }
        if idx >= data.len() {
            proof {
                assert(data@.skip(idx as int) =~= Seq::<u8>::empty());
            }
            return None;
        }
        let ghost tail = data@.skip(idx as int);
        if data[idx] == 0x00 {
            if data.len() - idx >= 5 {
                let n = le32_exec(data[idx + 1], data[idx + 2], data[idx + 3], data[idx + 4]);
                proof {
                    assert(tail[0] == data@[idx as int]);
                    assert(tail[1] == data@[idx as int + 1]);
                    assert(tail[2] == data@[idx as int + 2]);
                    assert(tail[3] == data@[idx as int + 3]);
                    assert(tail[4] == data@[idx as int + 4]);
                    assert(tail.skip(5) =~= data@.skip(idx as int + 5));
                }
                if (n as usize) <= target - out.len() {
                    push_zero_words(&mut out, n);
                    idx = idx + 5;
                    proof {
                        if spec_decode_rle_u32_take(data@.skip(idx as int), (target
                            - out@.len()) as nat) is Some {
                            let p = spec_decode_rle_u32_take(
                                data@.skip(idx as int),
                                (target - out@.len()) as nat,
                            )->Some_0;
                            assert(out@.add(p.0) =~= out@.subrange(
                                0,
                                out@.len() - n,
                            ).add(zero_words(n as nat).add(p.0)));
                        }
                    }
                } else {
                    return None;
                }
            } else {
                return None;
            }
        } else if data.len() - idx >= 4 {
            let value = le32_exec(data[idx], data[idx + 1], data[idx + 2], data[idx + 3]);
            proof {
                assert(tail[0] == data@[idx as int]);
                assert(tail[1] == data@[idx as int + 1]);
                assert(tail[2] == data@[idx as int + 2]);
                assert(tail[3] == data@[idx as int + 3]);
                assert(tail.skip(4) =~= data@.skip(idx as int + 4));
            }
            out.push(value);
            idx = idx + 4;
            proof {
                if spec_decode_rle_u32_take(data@.skip(idx as int), (target
                    - out@.len()) as nat) is Some {
                    let p = spec_decode_rle_u32_take(
                        data@.skip(idx as int),
                        (target - out@.len()) as nat,
                    )->Some_0;
                    assert(out@.add(p.0) =~= out@.subrange(0, out@.len() - 1).add(seq![le32(
                        tail[0],
                        tail[1],
                        tail[2],
                        tail[3],
                    )].add(p.0)));
                }
            }
        } else {
            return None;
        }
    }
}

/// Exact-target word decoding undoes encoding: with `p` zero words
/// pending, the tokens of the encoding decode back, whatever follows them,
/// provided no nonzero word has a zero low byte.
proof fn lemma_decode_u32_take_encoded(s: Seq<u32>, p: nat, t: Seq<u8>)
    requires
        s.len() + p < 0x1_0000_0000,
        forall|k: int| 0 <= k < s.len() ==> (s[k] == 0 || s[k] as nat % 256 != 0),
    ensures
        spec_decode_rle_u32_take(encode_rle_u32_aux(s, p).add(t), p + s.len()) == Some::<
            (Seq<u32>, nat),
        >((zero_words(p).add(s), encode_rle_u32_aux(s, p).len())),
    decreases s.len(),
{
    let lhs = encode_rle_u32_aux(s, p).add(t);
    if s.len() == 0 {
        if p > 0 {
            let d = run_marker(p).add(t);
            let w = p as u32;
            lemma_le32_bytes(w);
            assert(d[0] == 0 && d.len() >= 5);
            assert(le32(d[1], d[2], d[3], d[4]) == w);
            assert(d.skip(5) =~= t);
            assert(spec_decode_rle_u32_take(t, 0) == Some::<(Seq<u32>, nat)>((Seq::empty(), 0)));
            assert(zero_words(p).add(Seq::<u32>::empty()) =~= zero_words(p).add(s));
        } else {
            assert(lhs =~= t);
            assert(zero_words(0).add(s) =~= Seq::<u32>::empty());
        }
    } else if s[0] == 0 {
        lemma_decode_u32_take_encoded(s.skip(1), p + 1, t);
        assert(encode_rle_u32_aux(s, p) == encode_rle_u32_aux(s.skip(1), p + 1));
        assert(zero_words(p + 1).add(s.skip(1)) =~= zero_words(p).add(s));
    } else {
        let w = s[0];
        lemma_le32_bytes(w);
        let rest = le32_bytes(w).add(encode_rle_u32_aux(s.skip(1), 0)).add(t);
        lemma_decode_u32_take_encoded(s.skip(1), 0, t);
        assert(le32_bytes(w).add(encode_rle_u32_aux(s.skip(1), 0).add(t)) =~= rest);
        assert(rest[0] == (w & 0xFF) as u8 && rest[1] == ((w >> 8) & 0xFF) as u8 && rest[2] == ((w
            >> 16) & 0xFF) as u8 && rest[3] == ((w >> 24) & 0xFF) as u8);
        assert(rest[0] != 0);
        assert(rest.len() >= 4);
        assert(le32(rest[0], rest[1], rest[2], rest[3]) == w);
        assert(rest.skip(4) =~= encode_rle_u32_aux(s.skip(1), 0).add(t));
        assert(zero_words(0).add(s.skip(1)) =~= s.skip(1));
        assert(spec_decode_rle_u32_take(rest, s.len()) == Some::<(Seq<u32>, nat)>(
            (seq![w].add(s.skip(1)), encode_rle_u32_aux(s.skip(1), 0).len() + 4),
        ));
        assert(seq![w].add(s.skip(1)) =~= s);
        if p > 0 {
            let d = run_marker(p).add(rest);
            assert(lhs =~= d);
            let pw = p as u32;
            lemma_le32_bytes(pw);
            assert(d[0] == 0 && d.len() >= 5);
            assert(le32(d[1], d[2], d[3], d[4]) == pw);
            assert(d.skip(5) =~= rest);
            assert(zero_words(p).add(s) =~= zero_words(p).add(seq![w].add(s.skip(1))));
            assert(encode_rle_u32_aux(s, p).len() == 5 + 4 + encode_rle_u32_aux(s.skip(1), 0).len());
        } else {
            assert(lhs =~= rest);
            assert(zero_words(0).add(s) =~= s);
            assert(encode_rle_u32_aux(s, p).len() == 4 + encode_rle_u32_aux(s.skip(1), 0).len());
        }
    }
}

/// Exact-target decoding of a fresh word encoding, with anything after it,
/// returns the encoded words and consumes exactly the encoding, provided
/// no nonzero word has a zero low byte.
pub proof fn lemma_decode_rle_u32_take_round_trip(s: Seq<u32>, t: Seq<u8>)
    requires
        s.len() < 0x1_0000_0000,
        forall|k: int| 0 <= k < s.len() ==> (s[k] == 0 || s[k] as nat % 256 != 0),
    ensures
        spec_decode_rle_u32_take(spec_encode_rle_u32(s).add(t), s.len()) == Some::<
            (Seq<u32>, nat),
        >((s, spec_encode_rle_u32(s).len())),
{
    lemma_decode_u32_take_encoded(s, 0, t);
    assert(zero_words(0).add(s) =~= s);
}

/// Decoding undoes the word encoding, whatever follows the encoded bytes,
/// provided no nonzero word has a zero low byte: such a word's first
/// little-endian byte would be mistaken for a zero-run marker.
proof fn lemma_decode_encode_rle_u32(s: Seq<u32>, p: nat, t: Seq<u8>)
    requires
        s.len() + p < 0x1_0000_0000,
        forall|k: int| 0 <= k < s.len() ==> (s[k] == 0 || s[k] as nat % 256 != 0),
    ensures
        spec_decode_rle_u32(encode_rle_u32_aux(s, p).add(t)) == zero_words(p).add(s).add(
        spec_decode_rle_u32(t)),
    decreases s.len(),
{
    let lhs = encode_rle_u32_aux(s, p).add(t);
    if s.len() == 0 {
        if p > 0 {
            lemma_decode_run_marker(p, t);
            assert(zero_words(p).add(s).add(spec_decode_rle_u32(t)) =~= zero_words(p).add(
            spec_decode_rle_u32(t)));
        } else {
            assert(lhs =~= t);
            assert(zero_words(0).add(s).add(spec_decode_rle_u32(t)) =~= spec_decode_rle_u32(t));
        }
    } else if s[0] == 0 {
        lemma_decode_encode_rle_u32(s.skip(1), p + 1, t);
        assert(zero_words(p + 1).add(s.skip(1)).add(spec_decode_rle_u32(t)) =~= zero_words(p).add(
        s).add(spec_decode_rle_u32(t)));
    } else {
        let w = s[0];
        lemma_le32_bytes(w);
        let rest = le32_bytes(w).add(encode_rle_u32_aux(s.skip(1), 0)).add(t);
        lemma_decode_encode_rle_u32(s.skip(1), 0, t);
        assert(rest[0] == (w & 0xFF) as u8 && rest[1] == ((w >> 8) & 0xFF) as u8 && rest[2] == ((w
            >> 16) & 0xFF) as u8 && rest[3] == ((w >> 24) & 0xFF) as u8);
        assert(rest[0] != 0);
        assert(rest.len() >= 4);
        assert(le32(rest[0], rest[1], rest[2], rest[3]) == w);
        assert(rest.skip(4) =~= encode_rle_u32_aux(s.skip(1), 0).add(t));
        assert(spec_decode_rle_u32(rest) == seq![w].add(zero_words(0).add(s.skip(1)).add(
        spec_decode_rle_u32(t))));
        if p > 0 {
            lemma_decode_run_marker(p, rest);
            assert(lhs =~= run_marker(p).add(rest));
        } else {
            assert(lhs =~= rest);
        }
        assert(spec_decode_rle_u32(lhs) =~= zero_words(p).add(s).add(spec_decode_rle_u32(t)));
    }
}

/// Decoding whole tokens until exactly `target` bytes have come out.
/// `None` when the data runs out first, or when a zero run overshoots the
/// target. On success: the decoded bytes and how many input bytes the
/// tokens took.
pub open spec fn spec_decode_rle_take(d: Seq<u8>, target: nat) -> Option<(Seq<u8>, nat)>
    decreases d.len(),
{
    if target == 0 {
        Some((Seq::empty(), 0))
    } else if d.len() == 0 {
        None
    } else if d[0] == 0 {
        if d.len() >= 5 {
            let n = le32(d[1], d[2], d[3], d[4]) as nat;
            if n <= target {
                match spec_decode_rle_take(d.skip(5), (target - n) as nat) {
                    Some(p) => Some((zero_bytes(n).add(p.0), p.1 + 5)),
                    None => None,
                }
            } else {
                None
            }
        } else {
            None
        }
    } else {
        match spec_decode_rle_take(d.skip(1), (target - 1) as nat) {
            Some(p) => Some((seq![d[0]].add(p.0), p.1 + 1)),
            None => None,
        }
    }
}

/// Decodes whole tokens starting at `start` until exactly `target` bytes
/// have come out; `None` when the input runs out or a zero run overshoots.
pub fn decode_rle_take(data: &[u8], start: usize, target: usize) -> (r: Option<(Vec<u8>, usize)>)
    requires
        start <= data@.len(),
    ensures
        match spec_decode_rle_take(data@.skip(start as int), target as nat) {
            Some(p) => r matches Some(q) && q.0@ == p.0 && q.1 == start + p.1,
            None => r is None,
        },
{
    let ghost goal = spec_decode_rle_take(data@.skip(start as int), target as nat);
    let mut out: Vec<u8> = Vec::new();
    let mut idx: usize = start;

    loop
        invariant
            start <= idx <= data@.len(),
            out@.len() <= target,
            goal == spec_decode_rle_take(data@.skip(start as int), target as nat),
            match spec_decode_rle_take(data@.skip(idx as int), (target - out@.len()) as nat) {
                Some(p) => goal == Some::<(Seq<u8>, nat)>(
                    (out@.add(p.0), (idx - start) as nat + p.1),
                ),
                None => goal is None,
            },
        decreases data@.len() - idx + (target - out@.len()),
    {
        if out.len() >= target {
            proof {
                let tail = data@.skip(idx as int);
                assert(spec_decode_rle_take(tail, 0) == Some::<(Seq<u8>, nat)>((Seq::empty(), 0)));
                assert(out@.add(Seq::<u8>::empty()) =~= out@);
            }
            return Some((out, idx));
        }
        if idx >= data.len() {
            proof {
                assert(data@.skip(idx as int) =~= Seq::<u8>::empty());
            }
            return None;
        }
        let ghost tail = data@.skip(idx as int);
        let ghost want = (target - out@.len()) as nat;
        if data[idx] == 0x00 {
            if data.len() - idx >= 5 {
                let n = le32_exec(data[idx + 1], data[idx + 2], data[idx + 3], data[idx + 4]);
                proof {
                    assert(tail[0] == data@[idx as int]);
                    assert(tail[1] == data@[idx as int + 1]);
                    assert(tail[2] == data@[idx as int + 2]);
                    assert(tail[3] == data@[idx as int + 3]);
                    assert(tail[4] == data@[idx as int + 4]);
                    assert(tail.skip(5) =~= data@.skip(idx as int + 5));
                }
                if (n as usize) <= target - out.len() {
                    push_zero_bytes(&mut out, n);
                    idx = idx + 5;
                    proof {
                        if spec_decode_rle_take(data@.skip(idx as int), (target
                            - out@.len()) as nat) is Some {
                            let p = spec_decode_rle_take(
                                data@.skip(idx as int),
                                (target - out@.len()) as nat,
                            )->Some_0;
                            assert(out@.add(p.0) =~= out@.subrange(
                                0,
                                out@.len() - n,
                            ).add(zero_bytes(n as nat).add(p.0)));
                        }
                    }
                } else {
                    return None;
                }
            } else {
                return None;
            }
        } else {
            proof {
                assert(tail[0] == data@[idx as int]);
                assert(tail.skip(1) =~= data@.skip(idx as int + 1));
            }
            out.push(data[idx]);
            idx = idx + 1;
            proof {
                if spec_decode_rle_take(data@.skip(idx as int), (target - out@.len()) as nat) is Some {
                    let p = spec_decode_rle_take(
                        data@.skip(idx as int),
                        (target - out@.len()) as nat,
                    )->Some_0;
                    assert(out@.add(p.0) =~= out@.subrange(0, out@.len() - 1).add(seq![tail[0]].add(
                    p.0)));
                }
            }
        }
    }
}

/// Exact-target decoding undoes encoding: with `p` zeros pending, the tokens
/// of the encoding decode to exactly `p` plus the sequence's length in bytes,
/// whatever follows them.
proof fn lemma_decode_take_encoded(s: Seq<u8>, p: nat, t: Seq<u8>)
    requires
        s.len() + p < 0x1_0000_0000,
    ensures
        spec_decode_rle_take(encode_rle_aux(s, p).add(t), p + s.len()) == Some::<(Seq<u8>, nat)>(
            (zero_bytes(p).add(s), encode_rle_aux(s, p).len()),
        ),
    decreases s.len(),
{
    let lhs = encode_rle_aux(s, p).add(t);
    if s.len() == 0 {
        if p > 0 {
            let d = run_marker(p).add(t);
            let w = p as u32;
            lemma_le32_bytes(w);
            assert(d[0] == 0 && d.len() >= 5);
            assert(le32(d[1], d[2], d[3], d[4]) == w);
            assert(d.skip(5) =~= t);
            assert(spec_decode_rle_take(t, 0) == Some::<(Seq<u8>, nat)>((Seq::empty(), 0)));
            assert(zero_bytes(p).add(Seq::<u8>::empty()) =~= zero_bytes(p).add(s));
        } else {
            assert(lhs =~= t);
            assert(zero_bytes(0).add(s) =~= Seq::<u8>::empty());
        }
    } else if s[0] == 0 {
        lemma_decode_take_encoded(s.skip(1), p + 1, t);
        assert(encode_rle_aux(s, p) == encode_rle_aux(s.skip(1), p + 1));
        assert(zero_bytes(p + 1).add(s.skip(1)) =~= zero_bytes(p).add(s));
    } else {
        let rest = seq![s[0]].add(encode_rle_aux(s.skip(1), 0)).add(t);
        lemma_decode_take_encoded(s.skip(1), 0, t);
        assert(seq![s[0]].add(encode_rle_aux(s.skip(1), 0).add(t)) =~= rest);
        assert(rest[0] == s[0] && rest[0] != 0);
        assert(rest.skip(1) =~= encode_rle_aux(s.skip(1), 0).add(t));
        assert(zero_bytes(0).add(s.skip(1)) =~= s.skip(1));
        assert(spec_decode_rle_take(rest, s.len()) == Some::<(Seq<u8>, nat)>(
            (seq![s[0]].add(s.skip(1)), encode_rle_aux(s.skip(1), 0).len() + 1),
        ));
        assert(seq![s[0]].add(s.skip(1)) =~= s);
        if p > 0 {
            let d = run_marker(p).add(rest);
            assert(lhs =~= d);
            let w = p as u32;
            lemma_le32_bytes(w);
            assert(d[0] == 0 && d.len() >= 5);
            assert(le32(d[1], d[2], d[3], d[4]) == w);
            assert(d.skip(5) =~= rest);
            assert(zero_bytes(p).add(s) =~= zero_bytes(p).add(seq![s[0]].add(s.skip(1))));
            assert(encode_rle_aux(s, p).len() == 5 + 1 + encode_rle_aux(s.skip(1), 0).len());
        } else {
            assert(lhs =~= rest);
            assert(zero_bytes(0).add(s) =~= s);
            assert(encode_rle_aux(s, p).len() == 1 + encode_rle_aux(s.skip(1), 0).len());
        }
    }
}

/// Exact-target decoding of a fresh encoding, with anything after it,
/// returns the encoded sequence and consumes exactly the encoding.
pub proof fn lemma_decode_rle_take_round_trip(s: Seq<u8>, t: Seq<u8>)
    requires
        s.len() < 0x1_0000_0000,
    ensures
        spec_decode_rle_take(spec_encode_rle(s).add(t), s.len()) == Some::<(Seq<u8>, nat)>(
            (s, spec_encode_rle(s).len()),
        ),
{
    lemma_decode_take_encoded(s, 0, t);
    assert(zero_bytes(0).add(s) =~= s);
}

/// Decoding an encoded word sequence gives the sequence back, provided no
/// nonzero word has a zero low byte (the first little-endian byte of such a
/// word collides with the zero-run marker, and the decode then misreads it).
pub proof fn lemma_rle_u32_round_trip(s: Seq<u32>)
    requires
        s.len() < 0x1_0000_0000,
        forall|k: int| 0 <= k < s.len() ==> (s[k] == 0 || s[k] as nat % 256 != 0),
    ensures
        spec_decode_rle_u32(spec_encode_rle_u32(s)) == s,
{
    lemma_decode_encode_rle_u32(s, 0, Seq::empty());
    assert(spec_encode_rle_u32(s).add(Seq::<u8>::empty()) =~= spec_encode_rle_u32(s));
    assert(zero_words(0).add(s).add(spec_decode_rle_u32(Seq::empty())) =~= s);
}

/// A successful exact-target decode yields exactly the target length.
pub proof fn lemma_decode_rle_take_len(d: Seq<u8>, target: nat)
    ensures
        spec_decode_rle_take(d, target) matches Some(p) ==> p.0.len() == target,
    decreases d.len(),
{
    if target == 0 {
    } else if d.len() == 0 {
    } else if d[0] == 0 {
        if d.len() >= 5 {
            let n = le32(d[1], d[2], d[3], d[4]) as nat;
            if n <= target {
                lemma_decode_rle_take_len(d.skip(5), (target - n) as nat);
            }
        }
    } else {
        lemma_decode_rle_take_len(d.skip(1), (target - 1) as nat);
    }
}

/// A successful exact-target word decode yields exactly the target length.
pub proof fn lemma_decode_rle_u32_take_len(d: Seq<u8>, target: nat)
    ensures
        spec_decode_rle_u32_take(d, target) matches Some(p) ==> p.0.len() == target,
    decreases d.len(),
{
    if target == 0 {
    } else if d.len() == 0 {
    } else if d[0] == 0 {
        if d.len() >= 5 {
            let n = le32(d[1], d[2], d[3], d[4]) as nat;
            if n <= target {
                lemma_decode_rle_u32_take_len(d.skip(5), (target - n) as nat);
            }
        }
    } else if d.len() >= 4 {
        lemma_decode_rle_u32_take_len(d.skip(4), (target - 1) as nat);
    }
}

} // verus!
