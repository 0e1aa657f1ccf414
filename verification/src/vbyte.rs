//! Variable-length unsigned integers.
//!
//! A value is encoded least-significant group first: each byte carries seven
//! value bits, and its high bit is a continuation flag (set means more bytes
//! follow).  Decoding fails when the buffer ends before a byte with a clear
//! high bit, and when the value does not fit in 64 bits.

use vstd::prelude::*;
use vstd::arithmetic::mul::{
    lemma_mul_inequality,
    lemma_mul_is_distributive_add,
    lemma_mul_is_associative,
    lemma_mul_is_commutative,
};
use vstd::arithmetic::power2::{
    pow2,
    lemma_pow2_adds,
    lemma_pow2_strictly_increases,
    lemma2_to64,
    lemma2_to64_rest,
};
use vstd::bits::lemma_u64_shl_is_mul;

use crate::DictError;

verus! {

/// A terminating byte (high bit clear) lies at or after `pos`, with only
/// continuation bytes before it.
pub open spec fn vbyte_terminated(data: Seq<u8>, pos: int) -> bool
    decreases data.len() - pos,
{
    if pos < 0 || pos >= data.len() {
        false
    } else if data[pos] < 0x80 {
        true
    } else {
        vbyte_terminated(data, pos + 1)
    }
}

/// Number of bytes the encoding starting at `pos` occupies, terminator
/// included (meaningful only where `vbyte_terminated` holds).
pub open spec fn vbyte_len(data: Seq<u8>, pos: int) -> int
    decreases data.len() - pos,
{
    if pos < 0 || pos >= data.len() {
        0
    } else if data[pos] < 0x80 {
        1
    } else {
        1 + vbyte_len(data, pos + 1)
    }
}

/// The encoded value: seven value bits per byte, least-significant group
/// first.
pub open spec fn vbyte_value(data: Seq<u8>, pos: int) -> nat
    decreases data.len() - pos,
{
    if pos < 0 || pos >= data.len() {
        0
    } else if data[pos] < 0x80 {
        data[pos] as nat
    } else {
        ((data[pos] - 0x80) as nat) + 128 * vbyte_value(data, pos + 1)
    }
}

pub proof fn lemma_vbyte_len_nonneg(data: Seq<u8>, pos: int)
    ensures
        vbyte_len(data, pos) >= 0,
        0 <= pos < data.len() ==> vbyte_len(data, pos) >= 1,
    decreases data.len() - pos,
{
    if 0 <= pos < data.len() && data[pos] >= 0x80 {
        lemma_vbyte_len_nonneg(data, pos + 1);
    }
}

/// The encoding at `pos` is one this module decodes: terminated, at most ten
/// bytes long, and its value fits in 64 bits.
pub open spec fn vbyte_fits(data: Seq<u8>, pos: int) -> bool {
    &&& vbyte_terminated(data, pos)
    &&& vbyte_len(data, pos) <= 10
    &&& vbyte_value(data, pos) <= u64::MAX
}

/// Decodes the variable-length integer starting at `data[pos]`, returning the
/// value and the number of bytes consumed.
pub fn read_vbyte(data: &[u8], pos: usize) -> (r: Result<(u64, usize), DictError>)
    ensures
        match r {
            Ok(v) => {
                &&& vbyte_fits(data@, pos as int)
                &&& v.0 == vbyte_value(data@, pos as int)
                &&& v.1 == vbyte_len(data@, pos as int)
                &&& 1 <= v.1 <= 10
                &&& pos + v.1 <= data@.len()
            },
            Err(e) => !vbyte_fits(data@, pos as int) && e == DictError::MalformedVarint,
        },
{
    let len = data.len();
    if pos >= len {
        return Err(DictError::MalformedVarint);
    }
    let mut i = pos;
    let mut shift: u64 = 0;
    let mut acc: u64 = 0;
    proof {
        lemma2_to64();
    }
    loop
        invariant
            pos <= i <= len,
            len == data@.len(),
            shift == 7 * (i - pos),
            shift <= 63,
            acc < pow2(shift as nat),
            vbyte_terminated(data@, pos as int) == vbyte_terminated(data@, i as int),
            vbyte_len(data@, pos as int) == (i - pos) + vbyte_len(data@, i as int),
            vbyte_value(data@, pos as int) == acc + pow2(shift as nat) * vbyte_value(
                data@,
                i as int,
            ),
        decreases len - i,
    {
        if i >= len {
            // no terminating byte before the end of the buffer
            return Err(DictError::MalformedVarint);
        }
        let b = data[i];
        let ghost s = shift as nat;
        proof {
            lemma2_to64();
            lemma2_to64_rest();
            lemma_pow2_adds(s, 7);
        }
        if b < 0x80 {
            proof {
                assert(vbyte_terminated(data@, i as int));
                assert(vbyte_len(data@, i as int) == 1);
                assert(vbyte_value(data@, i as int) == b as nat);
            }
            if shift == 63 && b > 1 {
                // acc + 2^63 * b exceeds u64::MAX
                proof {
                    lemma_mul_inequality(2, b as int, pow2(63) as int);
                    lemma_mul_is_commutative(b as int, pow2(63) as int);
                    assert(pow2(63) == 0x8000000000000000);
                    assert(vbyte_value(data@, pos as int) == acc + pow2(63) * (b as nat));
                    assert(vbyte_value(data@, pos as int) > u64::MAX);
                }
                return Err(DictError::MalformedVarint);
            }
            proof {
                if shift == 63 {
                    lemma_mul_inequality(b as int, 1, pow2(s) as int);
                } else {
                    // shift is a multiple of 7, so shift <= 56 here
                    lemma_mul_inequality(b as int, 127, pow2(s) as int);
                    lemma_pow2_strictly_increases(s + 7, 64);
                }
                lemma_u64_shl_is_mul(b as u64, shift);
                lemma_mul_is_commutative(b as int, pow2(s) as int);
            }
            let value = acc + ((b as u64) << shift);
            return Ok((value, i - pos + 1));
        }
        if shift == 63 {
            // either an eleventh byte follows or the buffer ends unterminated
            proof {
                lemma_vbyte_len_nonneg(data@, i + 1);
                assert(vbyte_len(data@, i as int) == 1 + vbyte_len(data@, i + 1));
                assert(vbyte_terminated(data@, i as int) == vbyte_terminated(data@, i + 1));
                if i + 1 < data@.len() {
                    assert(vbyte_len(data@, pos as int) >= 11);
                } else {
                    assert(!vbyte_terminated(data@, i + 1));
                }
            }
            return Err(DictError::MalformedVarint);
        }
        let group = b - 0x80;
        proof {
            // shift <= 56: the next group still fits below 2^63
            lemma_mul_inequality(group as int, 127, pow2(s) as int);
            if s + 7 < 63 {
                lemma_pow2_strictly_increases(s + 7, 63);
            }
            lemma_u64_shl_is_mul(group as u64, shift);
            lemma_mul_is_commutative(group as int, pow2(s) as int);
            // redistribute the tail of the value equation over the new group
            assert(vbyte_value(data@, i as int) == group as nat + 128 * vbyte_value(
                data@,
                i + 1,
            ));
            lemma_mul_is_distributive_add(
                pow2(s) as int,
                group as int,
                128 * vbyte_value(data@, i + 1) as int,
            );
            lemma_mul_is_associative(pow2(s) as int, 128, vbyte_value(data@, i + 1) as int);
            lemma_mul_is_commutative(pow2(s) as int, 128);
        }
        acc = acc + ((group as u64) << shift);
        shift = shift + 7;
        i = i + 1;
    }
}

} // verus!
