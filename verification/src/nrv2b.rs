//! The bitstream LZ decompressor used for compressed archive payloads.
//!
//! The format interleaves one stream of bits (pulled MSB-first out of
//! whole bytes through an accumulator) with literal and offset bytes.
//! A run of 1-bits copies literals; a 0-bit starts a match whose offset
//! and length come as unary-prefixed binary codes; the offset value
//! `0xffffffff` is the sentinel that ends the stream.
//!
//! The spec functions below form a small-step interpreter for exactly
//! that bit grammar; the executable decoder is proved to return
//! precisely what the interpreter denotes, so decoding is a pure
//! function of the input bytes and the declared output length.

use vstd::prelude::*;

verus! {

/// Why a stream is rejected: it ran out of input bytes, would write
/// past the declared output length, or references data before the
/// start of the output.
#[derive(Debug, Clone, Copy, PartialEq, Eq, Structural)]
pub enum DecompressError {
    InputOverrun,
    OutputOverrun,
    LookbehindOverrun,
}

/// A bit can be produced: either the accumulator still holds bits
/// (low 7 bits nonzero) or a refill byte is available.
pub open spec fn getbit_ready(src: Seq<u8>, bb: u32, ilen: int) -> bool {
    bb % 128 != 0 || ilen < src.len()
}

/// One bit pulled from the accumulator: `(bit, bb', ilen')`. While the
/// low 7 bits are nonzero the accumulator doubles; otherwise it refills
/// from the next input byte as `byte*2 + 1`. The bit handed out is bit 8.
pub open spec fn getbit_next(src: Seq<u8>, bb: u32, ilen: int) -> (u32, u32, int) {
    if bb % 128 != 0 {
        let nb = ((2 * bb) % 0x1_0000_0000) as u32;
        ((nb / 256) % 2, nb, ilen)
    } else {
        let nb = (src[ilen] * 2 + 1) as u32;
        ((nb / 256) % 2, nb, ilen + 1)
    }
}

/// How many more times the accumulator can double before it must
/// refill: 7 minus the position of its lowest set bit, 0 once the low
/// 7 bits are empty.
pub open spec fn bit_capacity(bb: u32) -> u32 {
    if bb % 2 == 1 {
        7u32
    } else if bb % 4 == 2 {
        6u32
    } else if bb % 8 == 4 {
        5u32
    } else if bb % 16 == 8 {
        4u32
    } else if bb % 32 == 16 {
        3u32
    } else if bb % 64 == 32 {
        2u32
    } else if bb % 128 == 64 {
        1u32
    } else {
        0u32
    }
}

/// Doubling a non-drained accumulator strictly lowers its capacity.
pub proof fn lemma_double_lowers_capacity(bb: u32, b2: u32)
    requires
        bb % 128 != 0,
        b2 == ((2 * (bb as u64)) % 0x1_0000_0000) as u32,
    ensures
        bit_capacity(b2) < bit_capacity(bb),
{
    assert(bb % 128 != 0 && b2 == ((2 * (bb as u64)) % 0x1_0000_0000) as u32
        ==> bit_capacity(b2) < bit_capacity(bb)) by (bit_vector);
}

/// One `getbit` step never grows the measure `(input left, capacity)`
/// and strictly shrinks it: a refill consumes input, a double lowers
/// the capacity.
pub proof fn lemma_getbit_measure(src: Seq<u8>, bb: u32, ilen: int)
    requires
        getbit_ready(src, bb, ilen),
        0 <= ilen <= src.len(),
    ensures
        ({
            let (bit, bb2, il2) = getbit_next(src, bb, ilen);
            &&& ilen <= il2 <= src.len()
            &&& il2 > ilen || (il2 == ilen && bit_capacity(bb2) < bit_capacity(bb))
            &&& bit <= 1
        }),
{
    let (bit, bb2, il2) = getbit_next(src, bb, ilen);
    if bb % 128 != 0 {
        assert(bb2 == ((2 * (bb as u64)) % 0x1_0000_0000) as u32);
        lemma_double_lowers_capacity(bb, bb2);
    }
}

/// A back-reference copy: `n` bytes appended one at a time, each read
/// `off` positions before the current end, so an overlapping copy sees
/// the bytes it has just written.
#[verifier::opaque]
pub open spec fn back_copy(out: Seq<u8>, off: int, n: nat) -> Seq<u8>
    decreases n,
{
    if n == 0 {
        out
    } else {
        back_copy(out.push(out[out.len() - off]), off, (n - 1) as nat)
    }
}

/// The literal phase: while the next bit is 1, copy one input byte to
/// the output; a 0 bit hands over to the match-offset phase.
#[verifier::opaque]
pub open spec fn lit_phase(
    src: Seq<u8>,
    dst_len: nat,
    bb: u32,
    ilen: int,
    out: Seq<u8>,
    last: u32,
) -> Result<Seq<u8>, DecompressError>
    decreases src.len() - ilen, bit_capacity(bb), 0int,
        when 0 <= ilen <= src.len()
{
    if !getbit_ready(src, bb, ilen) {
        Err(DecompressError::InputOverrun)
    } else {
        let (bit, bb1, il1) = getbit_next(src, bb, ilen);
        proof {
            lemma_getbit_measure(src, bb, ilen);
        }
        if bit == 1 {
            if il1 >= src.len() {
                Err(DecompressError::InputOverrun)
            } else if out.len() >= dst_len {
                Err(DecompressError::OutputOverrun)
            } else {
                lit_phase(src, dst_len, bb1, il1 + 1, out.push(src[il1]), last)
            }
        } else {
            off_phase(src, dst_len, bb1, il1, out, last, 1)
        }
    }
}

/// The match-offset phase: grow `m_off` by one data bit per round until
/// a 1 stop-bit ends the code; a code past `0xffffff + 3` is rejected
/// before it can terminate.
#[verifier::opaque]
pub open spec fn off_phase(
    src: Seq<u8>,
    dst_len: nat,
    bb: u32,
    ilen: int,
    out: Seq<u8>,
    last: u32,
    m_off: u32,
) -> Result<Seq<u8>, DecompressError>
    decreases src.len() - ilen, bit_capacity(bb), 0int,
        when 0 <= ilen <= src.len()
{
    if !getbit_ready(src, bb, ilen) {
        Err(DecompressError::InputOverrun)
    } else {
        let (b1, bb1, il1) = getbit_next(src, bb, ilen);
        proof {
            lemma_getbit_measure(src, bb, ilen);
        }
        let m2 = ((2 * m_off + b1) % 0x1_0000_0000) as u32;
        if m2 > 0x1000002 {
            Err(DecompressError::LookbehindOverrun)
        } else if !getbit_ready(src, bb1, il1) {
            Err(DecompressError::InputOverrun)
        } else {
            let (b2, bb2, il2) = getbit_next(src, bb1, il1);
            proof {
                lemma_getbit_measure(src, bb1, il1);
            }
            if b2 == 1 {
                resolve_phase(src, dst_len, bb2, il2, out, last, m2)
            } else {
                off_phase(src, dst_len, bb2, il2, out, last, m2)
            }
        }
    }
}

/// Offset resolution: code 2 reuses the previous match offset; any
/// other code consumes one more input byte. A raw value of `0xffffffff`
/// is the sentinel: the stream ends here, successfully. Otherwise the
/// offset is the value plus one and is remembered for reuse.
#[verifier::opaque]
pub open spec fn resolve_phase(
    src: Seq<u8>,
    dst_len: nat,
    bb: u32,
    ilen: int,
    out: Seq<u8>,
    last: u32,
    m_off: u32,
) -> Result<Seq<u8>, DecompressError>
    decreases src.len() - ilen, bit_capacity(bb), 2int,
        when 0 <= ilen <= src.len()
{
    if m_off == 2 {
        len_phase(src, dst_len, bb, ilen, out, last, last)
    } else if ilen >= src.len() {
        Err(DecompressError::InputOverrun)
    } else {
        let m = ((((m_off as int) - 3) * 256 + src[ilen]) % 0x1_0000_0000) as u32;
        if m == 0xffff_ffff {
            Ok(out)
        } else {
            len_phase(src, dst_len, bb, ilen + 1, out, (m + 1) as u32, (m + 1) as u32)
        }
    }
}

/// The match-length phase: two bits read MSB-first; a nonzero value is
/// the length code itself, zero switches to the extension code.
#[verifier::opaque]
pub open spec fn len_phase(
    src: Seq<u8>,
    dst_len: nat,
    bb: u32,
    ilen: int,
    out: Seq<u8>,
    last: u32,
    m_off: u32,
) -> Result<Seq<u8>, DecompressError>
    decreases src.len() - ilen, bit_capacity(bb), 1int,
        when 0 <= ilen <= src.len()
{
    if !getbit_ready(src, bb, ilen) {
        Err(DecompressError::InputOverrun)
    } else {
        let (b1, bb1, il1) = getbit_next(src, bb, ilen);
        proof {
            lemma_getbit_measure(src, bb, ilen);
        }
        if !getbit_ready(src, bb1, il1) {
            Err(DecompressError::InputOverrun)
        } else {
            let (b2, bb2, il2) = getbit_next(src, bb1, il1);
            proof {
                lemma_getbit_measure(src, bb1, il1);
            }
            let ml = (2 * b1 + b2) as u32;
            if ml == 0 {
                len_ext_phase(src, dst_len, bb2, il2, out, last, m_off, 1)
            } else {
                copy_phase(src, dst_len, bb2, il2, out, last, m_off, ml)
            }
        }
    }
}

/// The length extension code: the same unary-prefixed binary scheme as
/// the offset code, starting from 1, plus 2 when the stop bit arrives.
#[verifier::opaque]
pub open spec fn len_ext_phase(
    src: Seq<u8>,
    dst_len: nat,
    bb: u32,
    ilen: int,
    out: Seq<u8>,
    last: u32,
    m_off: u32,
    m_len: u32,
) -> Result<Seq<u8>, DecompressError>
    decreases src.len() - ilen, bit_capacity(bb), 1int,
        when 0 <= ilen <= src.len()
{
    if !getbit_ready(src, bb, ilen) {
        Err(DecompressError::InputOverrun)
    } else {
        let (b1, bb1, il1) = getbit_next(src, bb, ilen);
        proof {
            lemma_getbit_measure(src, bb, ilen);
        }
        let ml2 = ((2 * m_len + b1) % 0x1_0000_0000) as u32;
        if !getbit_ready(src, bb1, il1) {
            Err(DecompressError::InputOverrun)
        } else {
            let (b2, bb2, il2) = getbit_next(src, bb1, il1);
            proof {
                lemma_getbit_measure(src, bb1, il1);
            }
            if b2 == 1 {
                copy_phase(src, dst_len, bb2, il2, out, last, m_off, ((ml2 + 2) % 0x1_0000_0000) as u32)
            } else {
                len_ext_phase(src, dst_len, bb2, il2, out, last, m_off, ml2)
            }
        }
    }
}

/// The copy phase: a long match offset earns one extra byte, the copy
/// of `m_len + 1` bytes must fit in the declared output and must not
/// reach before its start, and decoding then resumes with literals.
#[verifier::opaque]
pub open spec fn copy_phase(
    src: Seq<u8>,
    dst_len: nat,
    bb: u32,
    ilen: int,
    out: Seq<u8>,
    last: u32,
    m_off: u32,
    m_len: u32,
) -> Result<Seq<u8>, DecompressError>
    decreases src.len() - ilen, bit_capacity(bb), 1int,
        when 0 <= ilen <= src.len()
{
    let ml = if m_off > 0x0d00 {
        ((m_len + 1) % 0x1_0000_0000) as u32
    } else {
        m_len
    };
    if out.len() + ml + 1 > dst_len {
        Err(DecompressError::OutputOverrun)
    } else if m_off > out.len() {
        Err(DecompressError::LookbehindOverrun)
    } else {
        lit_phase(src, dst_len, bb, ilen, back_copy(out, m_off as int, (ml + 1) as nat), last)
    }
}

/// What decompressing `src` to a declared length of `dst_len` yields:
/// the decoded bytes, or the error the stream runs into. Decoding is a
/// pure function of these two arguments.
pub open spec fn nrv2b_spec(src: Seq<u8>, dst_len: nat) -> Result<Seq<u8>, DecompressError> {
    lit_phase(src, dst_len, 0u32, 0, Seq::<u8>::empty(), 1u32)
}

/// Strict progress order on decoder states: more input consumed, or
/// the same input consumed with a more drained accumulator.
pub open spec fn measure_lt(il2: int, bb2: u32, il1: int, bb1: u32) -> bool {
    il2 > il1 || (il2 == il1 && bit_capacity(bb2) < bit_capacity(bb1))
}

/// Non-strict progress order on decoder states.
pub open spec fn measure_le(il2: int, bb2: u32, il1: int, bb1: u32) -> bool {
    il2 > il1 || (il2 == il1 && bit_capacity(bb2) <= bit_capacity(bb1))
}

/// Pulls one bit out of the accumulator, refilling it from `src` when
/// its low 7 bits are drained.
fn getbit(src: &[u8], bb: &mut u32, ilen: &mut usize) -> (r: Result<u32, DecompressError>)
    requires
        *old(ilen) <= src@.len(),
    ensures
        match r {
            Ok(bit) => {
                &&& getbit_ready(src@, *old(bb), *old(ilen) as int)
                &&& getbit_next(src@, *old(bb), *old(ilen) as int) == (
                    bit,
                    *final(bb),
                    *final(ilen) as int,
                )
                &&& *final(ilen) <= src@.len()
            },
            Err(e) => {
                &&& e == DecompressError::InputOverrun
                &&& !getbit_ready(src@, *old(bb), *old(ilen) as int)
                &&& *final(bb) == *old(bb)
                &&& *final(ilen) == *old(ilen)
            },
        },
{
    let b = *bb;
    proof {
        assert((b & 0x7f != 0) == (b % 128 != 0)) by (bit_vector);
    }
    if b & 0x7f != 0 {
        let nb: u32 = (((b as u64) * 2) % 0x1_0000_0000u64) as u32;
        *bb = nb;
        proof {
            assert((nb >> 8) & 1 == (nb / 256) % 2) by (bit_vector);
        }
        Ok((nb >> 8) & 1)
    } else {
        if *ilen >= src.len() {
            return Err(DecompressError::InputOverrun);
        }
        let byte = src[*ilen];
        let nb: u32 = (byte as u32) * 2 + 1;
        *bb = nb;
        *ilen = *ilen + 1;
        proof {
            assert((nb >> 8) & 1 == (nb / 256) % 2) by (bit_vector);
        }
        Ok((nb >> 8) & 1)
    }
}

/// The literal phase of the decoder: copies input bytes to the output
/// while the bit stream keeps saying 1, stopping on the 0 bit that
/// starts a match.
fn literal_run(
    src: &[u8],
    dst_len: usize,
    bb: &mut u32,
    ilen: &mut usize,
    dst: &mut Vec<u8>,
    last: u32,
    Ghost(gres): Ghost<Result<Seq<u8>, DecompressError>>,
) -> (r: Result<(), DecompressError>)
    requires
        *old(ilen) <= src@.len(),
        old(dst)@.len() <= dst_len,
        lit_phase(src@, dst_len as nat, *old(bb), *old(ilen) as int, old(dst)@, last) == gres,
    ensures
        *final(ilen) <= src@.len(),
        final(dst)@.len() <= dst_len,
        measure_le(*final(ilen) as int, *final(bb), *old(ilen) as int, *old(bb)),
        match r {
            Ok(_) => off_phase(src@, dst_len as nat, *final(bb), *final(ilen) as int,
                final(dst)@, last, 1) == gres,
            Err(e) => gres == Err::<Seq<u8>, DecompressError>(e),
        },
{
    let ghost il0: int = *ilen as int;
    let ghost bb0: u32 = *bb;
    loop
        invariant_except_break
            lit_phase(src@, dst_len as nat, *bb, *ilen as int, dst@, last) == gres,
        invariant
            *ilen <= src@.len(),
            dst@.len() <= dst_len,
            il0 == *old(ilen) as int,
            bb0 == *old(bb),
            measure_le(*ilen as int, *bb, il0, bb0),
        ensures
            off_phase(src@, dst_len as nat, *bb, *ilen as int, dst@, last, 1) == gres,
        decreases src@.len() - *ilen, bit_capacity(*bb),
    {
        let ghost pre_bb = *bb;
        let ghost pre_il = *ilen as int;
        let ghost pre_out = dst@;
        let bit = match getbit(src, bb, ilen) {
            Ok(bit) => bit,
            Err(e) => {
                proof {
                    reveal(lit_phase);
                    assert(lit_phase(src@, dst_len as nat, pre_bb, pre_il, pre_out, last)
                        == Err::<Seq<u8>, DecompressError>(DecompressError::InputOverrun));
                }
                return Err(e);
            },
        };
        proof {
            lemma_getbit_measure(src@, pre_bb, pre_il);
        }
        if bit != 0 {
            if *ilen >= src.len() {
                proof {
                    reveal(lit_phase);
                    assert(lit_phase(src@, dst_len as nat, pre_bb, pre_il, pre_out, last)
                        == Err::<Seq<u8>, DecompressError>(DecompressError::InputOverrun));
                }
                return Err(DecompressError::InputOverrun);
            }
            if dst.len() >= dst_len {
                proof {
                    reveal(lit_phase);
                    assert(lit_phase(src@, dst_len as nat, pre_bb, pre_il, pre_out, last)
                        == Err::<Seq<u8>, DecompressError>(DecompressError::OutputOverrun));
                }
                return Err(DecompressError::OutputOverrun);
            }
            let lit = src[*ilen];
            dst.push(lit);
            *ilen = *ilen + 1;
            proof {
                reveal(lit_phase);
                assert(lit_phase(src@, dst_len as nat, pre_bb, pre_il, pre_out, last)
                    == lit_phase(src@, dst_len as nat, *bb, *ilen as int, dst@, last));
            }
        } else {
            proof {
                reveal(lit_phase);
                reveal(off_phase);
                assert(lit_phase(src@, dst_len as nat, pre_bb, pre_il, pre_out, last)
                    == off_phase(src@, dst_len as nat, *bb, *ilen as int, dst@, last, 1));
            }
            break;
        }
    }
    Ok(())
}

/// Reads one match-offset code: the unary-prefixed binary value grown
/// one data bit per round until its stop bit, rejected once it passes
/// `0xffffff + 3`.
fn offset_code(
    src: &[u8],
    dst_len: usize,
    bb: &mut u32,
    ilen: &mut usize,
    dst: &Vec<u8>,
    last: u32,
    Ghost(gres): Ghost<Result<Seq<u8>, DecompressError>>,
) -> (r: Result<u32, DecompressError>)
    requires
        *old(ilen) <= src@.len(),
        off_phase(src@, dst_len as nat, *old(bb), *old(ilen) as int, dst@, last, 1) == gres,
    ensures
        *final(ilen) <= src@.len(),
        measure_le(*final(ilen) as int, *final(bb), *old(ilen) as int, *old(bb)),
        match r {
            Ok(m_off) => {
                &&& 2 <= m_off <= 0x1000002
                &&& resolve_phase(src@, dst_len as nat, *final(bb), *final(ilen) as int, dst@,
                    last, m_off) == gres
                &&& measure_lt(*final(ilen) as int, *final(bb), *old(ilen) as int, *old(bb))
            },
            Err(e) => gres == Err::<Seq<u8>, DecompressError>(e),
        },
{
    let ghost il0: int = *ilen as int;
    let ghost bb0: u32 = *bb;
    let mut m_off: u32 = 1;
    loop
        invariant_except_break
            off_phase(src@, dst_len as nat, *bb, *ilen as int, dst@, last, m_off) == gres,
        invariant
            *ilen <= src@.len(),
            1 <= m_off <= 0x1000002,
            il0 == *old(ilen) as int,
            bb0 == *old(bb),
            measure_le(*ilen as int, *bb, il0, bb0),
        ensures
            2 <= m_off <= 0x1000002,
            resolve_phase(src@, dst_len as nat, *bb, *ilen as int, dst@, last, m_off) == gres,
            measure_lt(*ilen as int, *bb, il0, bb0),
        decreases src@.len() - *ilen, bit_capacity(*bb),
    {
        let ghost pre_bb = *bb;
        let ghost pre_il = *ilen as int;
        let ghost pre_off = m_off;
        let b1 = match getbit(src, bb, ilen) {
            Ok(bit) => bit,
            Err(e) => {
                proof {
                    reveal(off_phase);
                    assert(off_phase(src@, dst_len as nat, pre_bb, pre_il, dst@, last, pre_off)
                        == Err::<Seq<u8>, DecompressError>(DecompressError::InputOverrun));
                }
                return Err(e);
            },
        };
        proof {
            lemma_getbit_measure(src@, pre_bb, pre_il);
        }
        let ghost mid_bb = *bb;
        let ghost mid_il = *ilen as int;
        let m2: u32 = m_off * 2 + b1;
        proof {
            assert(m2 == ((2 * pre_off + b1) % 0x1_0000_0000) as u32);
        }
        if m2 > 0x1000002 {
            proof {
                reveal(off_phase);
                assert(off_phase(src@, dst_len as nat, pre_bb, pre_il, dst@, last, pre_off)
                    == Err::<Seq<u8>, DecompressError>(DecompressError::LookbehindOverrun));
            }
            return Err(DecompressError::LookbehindOverrun);
        }
        let b2 = match getbit(src, bb, ilen) {
            Ok(bit) => bit,
            Err(e) => {
                proof {
                    reveal(off_phase);
                    assert(off_phase(src@, dst_len as nat, pre_bb, pre_il, dst@, last, pre_off)
                        == Err::<Seq<u8>, DecompressError>(DecompressError::InputOverrun));
                }
                return Err(e);
            },
        };
        proof {
            lemma_getbit_measure(src@, mid_bb, mid_il);
        }
        m_off = m2;
        if b2 != 0 {
            proof {
                reveal(off_phase);
                reveal(resolve_phase);
                assert(off_phase(src@, dst_len as nat, pre_bb, pre_il, dst@, last, pre_off)
                    == resolve_phase(src@, dst_len as nat, *bb, *ilen as int, dst@, last, m2));
            }
            break;
        } else {
            proof {
                reveal(off_phase);
                assert(off_phase(src@, dst_len as nat, pre_bb, pre_il, dst@, last, pre_off)
                    == off_phase(src@, dst_len as nat, *bb, *ilen as int, dst@, last, m2));
            }
        }
    }
    Ok(m_off)
}

/// Reads one match-length code: two plain bits, or, when those are
/// zero, the unary-prefixed extension code plus 2.
fn length_code(
    src: &[u8],
    dst_len: usize,
    bb: &mut u32,
    ilen: &mut usize,
    dst: &Vec<u8>,
    last: u32,
    m_off: u32,
    Ghost(gres): Ghost<Result<Seq<u8>, DecompressError>>,
) -> (r: Result<u32, DecompressError>)
    requires
        *old(ilen) <= src@.len(),
        len_phase(src@, dst_len as nat, *old(bb), *old(ilen) as int, dst@, last, m_off) == gres,
    ensures
        *final(ilen) <= src@.len(),
        measure_le(*final(ilen) as int, *final(bb), *old(ilen) as int, *old(bb)),
        match r {
            Ok(m_len) => copy_phase(src@, dst_len as nat, *final(bb), *final(ilen) as int, dst@,
                last, m_off, m_len) == gres,
            Err(e) => gres == Err::<Seq<u8>, DecompressError>(e),
        },
{
    let ghost il0: int = *ilen as int;
    let ghost bb0: u32 = *bb;
    let ghost pre_bb = *bb;
    let ghost pre_il = *ilen as int;
    let b1 = match getbit(src, bb, ilen) {
        Ok(bit) => bit,
        Err(e) => {
            proof {
                reveal(len_phase);
                assert(len_phase(src@, dst_len as nat, pre_bb, pre_il, dst@, last, m_off)
                    == Err::<Seq<u8>, DecompressError>(DecompressError::InputOverrun));
            }
            return Err(e);
        },
    };
    proof {
        lemma_getbit_measure(src@, pre_bb, pre_il);
    }
    let ghost mid_bb = *bb;
    let ghost mid_il = *ilen as int;
    let b2 = match getbit(src, bb, ilen) {
        Ok(bit) => bit,
        Err(e) => {
            proof {
                reveal(len_phase);
                assert(len_phase(src@, dst_len as nat, pre_bb, pre_il, dst@, last, m_off)
                    == Err::<Seq<u8>, DecompressError>(DecompressError::InputOverrun));
            }
            return Err(e);
        },
    };
    proof {
        lemma_getbit_measure(src@, mid_bb, mid_il);
    }
    let mut m_len: u32 = b1 * 2 + b2;
    proof {
        reveal(len_phase);
        reveal(len_ext_phase);
        reveal(copy_phase);
        assert(len_phase(src@, dst_len as nat, pre_bb, pre_il, dst@, last, m_off) == if m_len
            == 0 {
            len_ext_phase(src@, dst_len as nat, *bb, *ilen as int, dst@, last, m_off, 1)
        } else {
            copy_phase(src@, dst_len as nat, *bb, *ilen as int, dst@, last, m_off, m_len)
        });
    }
    if m_len != 0 {
        return Ok(m_len);
    }
    m_len = 1;
    loop
        invariant_except_break
            len_ext_phase(src@, dst_len as nat, *bb, *ilen as int, dst@, last, m_off, m_len)
                == gres,
        invariant
            *ilen <= src@.len(),
            il0 == *old(ilen) as int,
            bb0 == *old(bb),
            measure_le(*ilen as int, *bb, il0, bb0),
        ensures
            copy_phase(src@, dst_len as nat, *bb, *ilen as int, dst@, last, m_off, m_len) == gres,
            measure_le(*ilen as int, *bb, il0, bb0),
        decreases src@.len() - *ilen, bit_capacity(*bb),
    {
        let ghost pre_bb = *bb;
        let ghost pre_il = *ilen as int;
        let ghost pre_len = m_len;
        let eb1 = match getbit(src, bb, ilen) {
            Ok(bit) => bit,
            Err(e) => {
                proof {
                    reveal(len_ext_phase);
                    assert(len_ext_phase(src@, dst_len as nat, pre_bb, pre_il, dst@, last, m_off,
                        pre_len) == Err::<Seq<u8>, DecompressError>(DecompressError::InputOverrun));
                }
                return Err(e);
            },
        };
        proof {
            lemma_getbit_measure(src@, pre_bb, pre_il);
        }
        let ghost mid_bb = *bb;
        let ghost mid_il = *ilen as int;
        let ml2: u32 = ((2 * (m_len as u64) + (eb1 as u64)) % 0x1_0000_0000u64) as u32;
        proof {
            assert(ml2 == ((2 * pre_len + eb1) % 0x1_0000_0000) as u32);
        }
        let eb2 = match getbit(src, bb, ilen) {
            Ok(bit) => bit,
            Err(e) => {
                proof {
                    reveal(len_ext_phase);
                    assert(len_ext_phase(src@, dst_len as nat, pre_bb, pre_il, dst@, last, m_off,
                        pre_len) == Err::<Seq<u8>, DecompressError>(DecompressError::InputOverrun));
                }
                return Err(e);
            },
        };
        proof {
            lemma_getbit_measure(src@, mid_bb, mid_il);
        }
        if eb2 != 0 {
            proof {
                reveal(len_ext_phase);
                reveal(copy_phase);
                assert(len_ext_phase(src@, dst_len as nat, pre_bb, pre_il, dst@, last, m_off,
                    pre_len) == copy_phase(src@, dst_len as nat, *bb, *ilen as int, dst@, last,
                    m_off, ((ml2 + 2) % 0x1_0000_0000) as u32));
            }
            m_len = ((ml2 as u64 + 2) % 0x1_0000_0000u64) as u32;
            break;
        } else {
            proof {
                reveal(len_ext_phase);
                assert(len_ext_phase(src@, dst_len as nat, pre_bb, pre_il, dst@, last, m_off,
                    pre_len) == len_ext_phase(src@, dst_len as nat, *bb, *ilen as int, dst@, last,
                    m_off, ml2));
            }
            m_len = ml2;
        }
    }
    Ok(m_len)
}

/// Performs one back-reference copy: after the long-offset length bump,
/// appends `m_len + 1` bytes read `m_off` positions behind the end of
/// the output, one at a time, so overlapping copies repeat what they
/// just wrote.
#[verifier::rlimit(100)]
#[verifier::spinoff_prover]
fn back_reference(
    dst: &mut Vec<u8>,
    dst_len: usize,
    m_off: u32,
    m_len: u32,
    src: &[u8],
    Ghost(bb): Ghost<u32>,
    Ghost(ilen): Ghost<int>,
    Ghost(last): Ghost<u32>,
    Ghost(gres): Ghost<Result<Seq<u8>, DecompressError>>,
) -> (r: Result<(), DecompressError>)
    requires
        0 <= ilen <= src@.len(),
        1 <= m_off,
        old(dst)@.len() <= dst_len,
        copy_phase(src@, dst_len as nat, bb, ilen, old(dst)@, last, m_off, m_len) == gres,
    ensures
        final(dst)@.len() <= dst_len,
        match r {
            Ok(_) => lit_phase(src@, dst_len as nat, bb, ilen, final(dst)@, last) == gres,
            Err(e) => gres == Err::<Seq<u8>, DecompressError>(e) && final(dst)@ == old(dst)@,
        },
{
    let ml_f: u32 = if m_off > 0x0d00 {
        ((m_len as u64 + 1) % 0x1_0000_0000u64) as u32
    } else {
        m_len
    };
    if (ml_f as u64) + 1 > (dst_len as u64) - (dst.len() as u64) {
        proof {
            reveal(copy_phase);
            assert(copy_phase(src@, dst_len as nat, bb, ilen, dst@, last, m_off, m_len)
                == Err::<Seq<u8>, DecompressError>(DecompressError::OutputOverrun));
        }
        return Err(DecompressError::OutputOverrun);
    }
    if (m_off as u64) > (dst.len() as u64) {
        proof {
            reveal(copy_phase);
            assert(copy_phase(src@, dst_len as nat, bb, ilen, dst@, last, m_off, m_len)
                == Err::<Seq<u8>, DecompressError>(DecompressError::LookbehindOverrun));
        }
        return Err(DecompressError::LookbehindOverrun);
    }
    proof {
        reveal(lit_phase);
        reveal(copy_phase);
        assert(copy_phase(src@, dst_len as nat, bb, ilen, dst@, last, m_off, m_len) == lit_phase(
            src@, dst_len as nat, bb, ilen, back_copy(dst@, m_off as int, (ml_f + 1) as nat),
            last));
    }
    let count: usize = ((ml_f as u64) + 1) as usize;
    let start: usize = dst.len() - (m_off as usize);
    let ghost out0 = dst@;
    let mut j: usize = 0;
    while j < count
        invariant
            j <= count,
            count == ml_f as int + 1,
            dst@.len() == out0.len() + j,
            1 <= m_off as int <= out0.len(),
            start == out0.len() - m_off as int,
            out0.len() + count <= dst_len,
            back_copy(dst@, m_off as int, (count - j) as nat) == back_copy(out0, m_off as int,
                count as nat),
        decreases count - j,
    {
        let ghost pre_dst = dst@;
        let b = dst[start + j];
        dst.push(b);
        proof {
            reveal(back_copy);
            assert(back_copy(pre_dst, m_off as int, (count - j) as nat) == back_copy(dst@,
                m_off as int, (count - j - 1) as nat));
        }
        j = j + 1;
    }
    proof {
        reveal(back_copy);
        assert(dst@ == back_copy(out0, m_off as int, (ml_f + 1) as nat));
    }
    Ok(())
}


/// Unfolds offset resolution for the reuse code 2.
#[verifier::spinoff_prover]
proof fn lemma_resolve_reuse(src: Seq<u8>, dst_len: nat, bb: u32, ilen: int, out: Seq<u8>, last: u32)
    requires
        0 <= ilen <= src.len(),
    ensures
        resolve_phase(src, dst_len, bb, ilen, out, last, 2u32) == len_phase(src, dst_len, bb,
            ilen, out, last, last),
{
    reveal(resolve_phase);
}

/// Unfolds offset resolution when the code consumes an extra byte:
/// either the sentinel ends the stream or the resolved offset moves on
/// to the length code.
#[verifier::spinoff_prover]
proof fn lemma_resolve_consume(
    src: Seq<u8>,
    dst_len: nat,
    bb: u32,
    ilen: int,
    out: Seq<u8>,
    last: u32,
    m_off: u32,
)
    requires
        0 <= ilen < src.len(),
        m_off != 2,
    ensures
        ({
            let m = ((((m_off as int) - 3) * 256 + src[ilen]) % 0x1_0000_0000) as u32;
            resolve_phase(src, dst_len, bb, ilen, out, last, m_off) == if m == 0xffff_ffff {
                Ok::<Seq<u8>, DecompressError>(out)
            } else {
                len_phase(src, dst_len, bb, ilen + 1, out, (m + 1) as u32, (m + 1) as u32)
            }
        }),
{
    reveal(resolve_phase);
}

/// Unfolds offset resolution at the end of input: a non-reuse code with
/// no byte left to consume is an input overrun.
#[verifier::spinoff_prover]
proof fn lemma_resolve_overrun(
    src: Seq<u8>,
    dst_len: nat,
    bb: u32,
    ilen: int,
    out: Seq<u8>,
    last: u32,
    m_off: u32,
)
    requires
        ilen == src.len(),
        m_off != 2,
    ensures
        resolve_phase(src, dst_len, bb, ilen, out, last, m_off) == Err::<
            Seq<u8>,
            DecompressError,
        >(DecompressError::InputOverrun),
{
    reveal(resolve_phase);
}

/// Decompresses an NRV2B bitstream into at most `dst_len` bytes.
/// Returns exactly what the spec interpreter denotes for these inputs:
/// the decoded bytes up to the sentinel, or the error the stream runs
/// into. Corrupt input can never loop forever or touch memory out of
/// bounds; it ends in one of the three errors.
#[verifier::rlimit(100)]
#[verifier::spinoff_prover]
pub fn nrv2b_decompress_8(src: &[u8], dst_len: usize) -> (r: Result<Vec<u8>, DecompressError>)
    ensures
        match r {
            Ok(v) => nrv2b_spec(src@, dst_len as nat) == Ok::<Seq<u8>, DecompressError>(v@),
            Err(e) => nrv2b_spec(src@, dst_len as nat) == Err::<Seq<u8>, DecompressError>(e),
        },
{
    let ghost gres = nrv2b_spec(src@, dst_len as nat);
    let mut dst: Vec<u8> = Vec::new();
    let mut bb: u32 = 0;
    let mut ilen: usize = 0;
    let mut last_m_off: u32 = 1;

    loop
        invariant
            ilen <= src@.len(),
            dst@.len() <= dst_len,
            last_m_off >= 1,
            gres == nrv2b_spec(src@, dst_len as nat),
            lit_phase(src@, dst_len as nat, bb, ilen as int, dst@, last_m_off) == gres,
        decreases src@.len() - ilen, bit_capacity(bb),
    {
        match literal_run(src, dst_len, &mut bb, &mut ilen, &mut dst, last_m_off, Ghost(gres)) {
            Ok(()) => {},
            Err(e) => {
                return Err(e);
            },
        }

        let code = match offset_code(src, dst_len, &mut bb, &mut ilen, &dst, last_m_off, Ghost(
            gres,
        )) {
            Ok(code) => code,
            Err(e) => {
                return Err(e);
            },
        };

        // ---- offset resolution / sentinel ----
        let m_off: u32;
        if code == 2 {
            m_off = last_m_off;
            proof {
                lemma_resolve_reuse(src@, dst_len as nat, bb, ilen as int, dst@, last_m_off);
            }
        } else {
            if ilen >= src.len() {
                proof {
                    lemma_resolve_overrun(src@, dst_len as nat, bb, ilen as int, dst@, last_m_off,
                        code);
                }
                return Err(DecompressError::InputOverrun);
            }
            let ghost pre_il = ilen as int;
            let byte = src[ilen];
            let m: u32 = (code - 3) * 256 + (byte as u32);
            ilen = ilen + 1;
            proof {
                lemma_resolve_consume(src@, dst_len as nat, bb, pre_il, dst@, last_m_off, code);
                assert(m == ((((code as int) - 3) * 256 + src@[pre_il]) % 0x1_0000_0000) as u32);
            }
            if m == 0xffff_ffff {
                return Ok(dst);
            }
            m_off = m + 1;
            last_m_off = m_off;
        }

        let m_len = match length_code(src, dst_len, &mut bb, &mut ilen, &dst, last_m_off, m_off,
            Ghost(gres)) {
            Ok(m_len) => m_len,
            Err(e) => {
                return Err(e);
            },
        };

        match back_reference(&mut dst, dst_len, m_off, m_len, src, Ghost(bb), Ghost(ilen as int),
            Ghost(last_m_off), Ghost(gres)) {
            Ok(()) => {},
            Err(e) => {
                return Err(e);
            },
        }
    }
}

/// Decoding is deterministic: any two outputs that the decoder's
/// contract admits for the same input and declared length are equal,
/// so decoding the same entry twice yields byte-identical results.
pub proof fn lemma_nrv2b_deterministic(src: Seq<u8>, dst_len: nat, a: Seq<u8>, b: Seq<u8>)
    requires
        nrv2b_spec(src, dst_len) == Ok::<Seq<u8>, DecompressError>(a),
        nrv2b_spec(src, dst_len) == Ok::<Seq<u8>, DecompressError>(b),
    ensures
        a == b,
{
}

/// A back-reference copy of `n` bytes grows the output by exactly `n`.
proof fn lemma_back_copy_len(out: Seq<u8>, off: int, n: nat)
    ensures
        back_copy(out, off, n).len() == out.len() + n,
    decreases n,
{
    reveal(back_copy);
    if n > 0 {
        lemma_back_copy_len(out.push(out[out.len() - off]), off, (n - 1) as nat);
    }
}

/// From the literal phase on, a successful decode never exceeds the
/// declared output length.
#[verifier::rlimit(100)]
#[verifier::spinoff_prover]
proof fn lemma_lit_bounded(src: Seq<u8>, dst_len: nat, bb: u32, ilen: int, out: Seq<u8>, last: u32)
    requires
        0 <= ilen <= src.len(),
        out.len() <= dst_len,
    ensures
        lit_phase(src, dst_len, bb, ilen, out, last) matches Ok(v) ==> v.len() <= dst_len,
    decreases src.len() - ilen, bit_capacity(bb), 0int,
{
    reveal(lit_phase);
    if getbit_ready(src, bb, ilen) {
        let (bit, bb1, il1) = getbit_next(src, bb, ilen);
        lemma_getbit_measure(src, bb, ilen);
        if bit == 1 {
            if il1 < src.len() && out.len() < dst_len {
                lemma_lit_bounded(src, dst_len, bb1, il1 + 1, out.push(src[il1]), last);
            }
        } else {
            lemma_off_bounded(src, dst_len, bb1, il1, out, last, 1);
        }
    }
}

/// From the offset phase on, a successful decode never exceeds the
/// declared output length.
#[verifier::rlimit(100)]
#[verifier::spinoff_prover]
proof fn lemma_off_bounded(
    src: Seq<u8>,
    dst_len: nat,
    bb: u32,
    ilen: int,
    out: Seq<u8>,
    last: u32,
    m_off: u32,
)
    requires
        0 <= ilen <= src.len(),
        out.len() <= dst_len,
    ensures
        off_phase(src, dst_len, bb, ilen, out, last, m_off) matches Ok(v) ==> v.len() <= dst_len,
    decreases src.len() - ilen, bit_capacity(bb), 0int,
{
    reveal(off_phase);
    if getbit_ready(src, bb, ilen) {
        let (b1, bb1, il1) = getbit_next(src, bb, ilen);
        lemma_getbit_measure(src, bb, ilen);
        let m2 = ((2 * m_off + b1) % 0x1_0000_0000) as u32;
        if m2 <= 0x1000002 && getbit_ready(src, bb1, il1) {
            let (b2, bb2, il2) = getbit_next(src, bb1, il1);
            lemma_getbit_measure(src, bb1, il1);
            if b2 == 1 {
                lemma_resolve_bounded(src, dst_len, bb2, il2, out, last, m2);
            } else {
                lemma_off_bounded(src, dst_len, bb2, il2, out, last, m2);
            }
        }
    }
}

/// From offset resolution on, a successful decode never exceeds the
/// declared output length.
#[verifier::rlimit(100)]
#[verifier::spinoff_prover]
proof fn lemma_resolve_bounded(
    src: Seq<u8>,
    dst_len: nat,
    bb: u32,
    ilen: int,
    out: Seq<u8>,
    last: u32,
    m_off: u32,
)
    requires
        0 <= ilen <= src.len(),
        out.len() <= dst_len,
    ensures
        resolve_phase(src, dst_len, bb, ilen, out, last, m_off) matches Ok(v) ==> v.len()
            <= dst_len,
    decreases src.len() - ilen, bit_capacity(bb), 2int,
{
    reveal(resolve_phase);
    if m_off == 2 {
        lemma_len_bounded(src, dst_len, bb, ilen, out, last, last);
    } else if ilen < src.len() {
        let m = ((((m_off as int) - 3) * 256 + src[ilen]) % 0x1_0000_0000) as u32;
        if m != 0xffff_ffff {
            lemma_len_bounded(src, dst_len, bb, ilen + 1, out, (m + 1) as u32, (m + 1) as u32);
        }
    }
}

/// From the length phase on, a successful decode never exceeds the
/// declared output length.
#[verifier::rlimit(100)]
#[verifier::spinoff_prover]
proof fn lemma_len_bounded(
    src: Seq<u8>,
    dst_len: nat,
    bb: u32,
    ilen: int,
    out: Seq<u8>,
    last: u32,
    m_off: u32,
)
    requires
        0 <= ilen <= src.len(),
        out.len() <= dst_len,
    ensures
        len_phase(src, dst_len, bb, ilen, out, last, m_off) matches Ok(v) ==> v.len() <= dst_len,
    decreases src.len() - ilen, bit_capacity(bb), 1int,
{
    reveal(len_phase);
    if getbit_ready(src, bb, ilen) {
        let (b1, bb1, il1) = getbit_next(src, bb, ilen);
        lemma_getbit_measure(src, bb, ilen);
        if getbit_ready(src, bb1, il1) {
            let (b2, bb2, il2) = getbit_next(src, bb1, il1);
            lemma_getbit_measure(src, bb1, il1);
            let ml = (2 * b1 + b2) as u32;
            if ml == 0 {
                lemma_len_ext_bounded(src, dst_len, bb2, il2, out, last, m_off, 1);
            } else {
                lemma_copy_bounded(src, dst_len, bb2, il2, out, last, m_off, ml);
            }
        }
    }
}

/// From the length extension code on, a successful decode never
/// exceeds the declared output length.
#[verifier::rlimit(100)]
#[verifier::spinoff_prover]
proof fn lemma_len_ext_bounded(
    src: Seq<u8>,
    dst_len: nat,
    bb: u32,
    ilen: int,
    out: Seq<u8>,
    last: u32,
    m_off: u32,
    m_len: u32,
)
    requires
        0 <= ilen <= src.len(),
        out.len() <= dst_len,
    ensures
        len_ext_phase(src, dst_len, bb, ilen, out, last, m_off, m_len) matches Ok(v) ==> v.len()
            <= dst_len,
    decreases src.len() - ilen, bit_capacity(bb), 1int,
{
    reveal(len_ext_phase);
    if getbit_ready(src, bb, ilen) {
        let (b1, bb1, il1) = getbit_next(src, bb, ilen);
        lemma_getbit_measure(src, bb, ilen);
        let ml2 = ((2 * m_len + b1) % 0x1_0000_0000) as u32;
        if getbit_ready(src, bb1, il1) {
            let (b2, bb2, il2) = getbit_next(src, bb1, il1);
            lemma_getbit_measure(src, bb1, il1);
            if b2 == 1 {
                lemma_copy_bounded(src, dst_len, bb2, il2, out, last, m_off, ((ml2 + 2)
                    % 0x1_0000_0000) as u32);
            } else {
                lemma_len_ext_bounded(src, dst_len, bb2, il2, out, last, m_off, ml2);
            }
        }
    }
}

/// From the copy phase on, a successful decode never exceeds the
/// declared output length.
#[verifier::rlimit(100)]
#[verifier::spinoff_prover]
proof fn lemma_copy_bounded(
    src: Seq<u8>,
    dst_len: nat,
    bb: u32,
    ilen: int,
    out: Seq<u8>,
    last: u32,
    m_off: u32,
    m_len: u32,
)
    requires
        0 <= ilen <= src.len(),
        out.len() <= dst_len,
    ensures
        copy_phase(src, dst_len, bb, ilen, out, last, m_off, m_len) matches Ok(v) ==> v.len()
            <= dst_len,
    decreases src.len() - ilen, bit_capacity(bb), 1int,
{
    reveal(copy_phase);
    let ml = if m_off > 0x0d00 {
        ((m_len + 1) % 0x1_0000_0000) as u32
    } else {
        m_len
    };
    if out.len() + ml + 1 <= dst_len && m_off <= out.len() {
        lemma_back_copy_len(out, m_off as int, (ml + 1) as nat);
        lemma_lit_bounded(src, dst_len, bb, ilen, back_copy(out, m_off as int, (ml + 1) as nat),
            last);
    }
}

/// The decoder respects the declared length: whatever it decodes
/// successfully is at most `dst_len` bytes.
pub proof fn lemma_nrv2b_output_bounded(src: Seq<u8>, dst_len: nat, v: Seq<u8>)
    requires
        nrv2b_spec(src, dst_len) == Ok::<Seq<u8>, DecompressError>(v),
    ensures
        v.len() <= dst_len,
{
    lemma_lit_bounded(src, dst_len, 0u32, 0, Seq::<u8>::empty(), 1u32);
}

} // verus!
