//! Low-level readers over a message buffer: bit-granular reads for the
//! header's packed fields, and byte-granular reads for everything after it.
//!
//! Every reader takes the whole message buffer and a position, and returns
//! the value read together with the position just past it, or `Truncated`
//! when the buffer holds too little.

use vstd::prelude::*;

use crate::bits::{lemma_pow2n_increases, lemma_pow2n_values, pow2n, spec_bit, spec_bits_num};
use crate::DnsError;

verus! {

/// The big-endian 16-bit value at byte position `pos`.
pub open spec fn spec_u16_at(msg: Seq<u8>, pos: int) -> u16 {
    ((msg[pos] as int) * 256 + (msg[pos + 1] as int)) as u16
}

/// The big-endian 32-bit value at byte position `pos`.
pub open spec fn spec_u32_at(msg: Seq<u8>, pos: int) -> u32 {
    ((msg[pos] as int) * 0x1000000 + (msg[pos + 1] as int) * 0x10000 + (msg[pos + 2] as int) * 0x100
        + (msg[pos + 3] as int)) as u32
}

/// Takes `n <= 16` bits from the buffer, starting at bit position `pos`, and
/// parses them into a number, most significant bit first.
pub fn take_bits(msg: &Vec<u8>, pos: usize, n: u16) -> (r: Result<(u16, usize), DnsError>)
    requires
        n <= 16,
        pos <= 8 * msg@.len(),
        8 * msg@.len() + 16 <= usize::MAX,
    ensures
        match r {
            Ok((v, end)) => {
                &&& pos + n <= 8 * msg@.len()
                &&& v == spec_bits_num(msg@, pos as int, n as nat)
                &&& (v as nat) < pow2n(n as nat)
                &&& end == pos + n
            },
            Err(e) => e == DnsError::Truncated && pos + n > 8 * msg@.len(),
        },
{
    if (n as usize) > 8 * msg.len() - pos {
        return Err(DnsError::Truncated);
    }
    let mut v: u16 = 0;
    let mut i: usize = 0;
    while i < n as usize
        invariant
            i <= n <= 16,
            pos + n <= 8 * msg@.len(),
            8 * msg@.len() + 16 <= usize::MAX,
            v == spec_bits_num(msg@, pos as int, i as nat),
            (v as nat) < pow2n(i as nat),
        decreases n - i,
    {
        let bitpos = pos + i;
        let byte = msg[bitpos / 8];
        let sh: u8 = (7 - (bitpos % 8) as u8);
        let bit: u8 = (byte >> sh) & 1;
        proof {
            assert((byte >> sh) & 1 == 0 || (byte >> sh) & 1 == 1) by (bit_vector);
            assert((bit == 1) == spec_bit(msg@, pos + i));
            lemma_pow2n_values();
            lemma_pow2n_increases(i as nat, 15);
        }
        v = v * 2 + bit as u16;
        i = i + 1;
    }
    Ok((v, pos + n as usize))
}

/// Takes one bit from the buffer at bit position `pos`.
pub fn take_bit(msg: &Vec<u8>, pos: usize) -> (r: Result<(bool, usize), DnsError>)
    requires
        pos <= 8 * msg@.len(),
        8 * msg@.len() + 16 <= usize::MAX,
    ensures
        match r {
            Ok((b, end)) => pos < 8 * msg@.len() && b == spec_bit(msg@, pos as int) && end == pos
                + 1,
            Err(e) => e == DnsError::Truncated && pos >= 8 * msg@.len(),
        },
{
    proof {
        reveal_with_fuel(spec_bits_num, 3);
    }
    match take_bits(msg, pos, 1) {
        Ok((v, end)) => Ok((v == 1, end)),
        Err(e) => Err(e),
    }
}

/// Takes 4 bits from the buffer at bit position `pos`, as a number with
/// zeroes padding its high bits.
pub fn take_nibble(msg: &Vec<u8>, pos: usize) -> (r: Result<(u8, usize), DnsError>)
    requires
        pos <= 8 * msg@.len(),
        8 * msg@.len() + 16 <= usize::MAX,
    ensures
        match r {
            Ok((v, end)) => {
                &&& pos + 4 <= 8 * msg@.len()
                &&& v == spec_bits_num(msg@, pos as int, 4)
                &&& v < 16
                &&& end == pos + 4
            },
            Err(e) => e == DnsError::Truncated && pos + 4 > 8 * msg@.len(),
        },
{
    proof {
        lemma_pow2n_values();
    }
    match take_bits(msg, pos, 4) {
        Ok((v, end)) => Ok((v as u8, end)),
        Err(e) => Err(e),
    }
}

/// Takes 16 bits from the buffer at bit position `pos`, most significant bit
/// first.
pub fn take_u16(msg: &Vec<u8>, pos: usize) -> (r: Result<(u16, usize), DnsError>)
    requires
        pos <= 8 * msg@.len(),
        8 * msg@.len() + 16 <= usize::MAX,
    ensures
        match r {
            Ok((v, end)) => {
                &&& pos + 16 <= 8 * msg@.len()
                &&& v == spec_bits_num(msg@, pos as int, 16)
                &&& end == pos + 16
            },
            Err(e) => e == DnsError::Truncated && pos + 16 > 8 * msg@.len(),
        },
{
    take_bits(msg, pos, 16)
}

/// Reads the byte at byte position `pos`.
pub fn read_u8(msg: &Vec<u8>, pos: usize) -> (r: Result<(u8, usize), DnsError>)
    ensures
        match r {
            Ok((v, end)) => pos < msg@.len() && v == msg@[pos as int] && end == pos + 1,
            Err(e) => e == DnsError::Truncated && pos >= msg@.len(),
        },
{
    if pos < msg.len() {
        Ok((msg[pos], pos + 1))
    } else {
        Err(DnsError::Truncated)
    }
}

/// Reads the big-endian 16-bit value at byte position `pos`.
pub fn read_u16(msg: &Vec<u8>, pos: usize) -> (r: Result<(u16, usize), DnsError>)
    ensures
        match r {
            Ok((v, end)) => {
                &&& pos + 2 <= msg@.len()
                &&& v == spec_u16_at(msg@, pos as int)
                &&& end == pos + 2
            },
            Err(e) => e == DnsError::Truncated && pos + 2 > msg@.len(),
        },
{
    if msg.len() >= 2 && pos <= msg.len() - 2 {
        Ok(((msg[pos] as u16) * 256 + (msg[pos + 1] as u16), pos + 2))
    } else {
        Err(DnsError::Truncated)
    }
}

/// Reads the big-endian 32-bit value at byte position `pos`.
pub fn read_u32(msg: &Vec<u8>, pos: usize) -> (r: Result<(u32, usize), DnsError>)
    ensures
        match r {
            Ok((v, end)) => {
                &&& pos + 4 <= msg@.len()
                &&& v == spec_u32_at(msg@, pos as int)
                &&& end == pos + 4
            },
            Err(e) => e == DnsError::Truncated && pos + 4 > msg@.len(),
        },
{
    if msg.len() >= 4 && pos <= msg.len() - 4 {
        let v = (msg[pos] as u32) * 0x1000000 + (msg[pos + 1] as u32) * 0x10000 + (msg[pos
            + 2] as u32) * 0x100 + (msg[pos + 3] as u32);
        Ok((v, pos + 4))
    } else {
        Err(DnsError::Truncated)
    }
}

/// Copies the `n` bytes starting at byte position `pos`.
pub fn read_bytes(msg: &Vec<u8>, pos: usize, n: usize) -> (r: Result<(Vec<u8>, usize), DnsError>)
    ensures
        match r {
            Ok((v, end)) => {
                &&& pos + n <= msg@.len()
                &&& v@ == msg@.subrange(pos as int, pos + n)
                &&& end == pos + n
            },
            Err(e) => e == DnsError::Truncated && pos + n > msg@.len(),
        },
{
    if n > msg.len() || pos > msg.len() - n {
        return Err(DnsError::Truncated);
    }
    let mut v: Vec<u8> = Vec::new();
    let mut i: usize = 0;
    while i < n
        invariant
            i <= n,
            pos + n <= msg@.len() <= usize::MAX,
            v@ == msg@.subrange(pos as int, pos + i),
        decreases n - i,
    {
        v.push(msg[pos + i]);
        proof {
            assert(v@ =~= msg@.subrange(pos as int, pos + i + 1));
        }
        i = i + 1;
    }
    Ok((v, pos + n))
}

} // verus!
