//! The packed index: a read-only array of fixed bit-width unsigned integers,
//! packed contiguously across byte boundaries (bit `k` of the array is bit
//! `k % 8` of byte `k / 8`).  It gives the byte offset of each front-coding
//! block in constant time.

use vstd::prelude::*;
use vstd::bytes::{spec_u32_from_le_bytes, u32_from_le_bytes};
use vstd::slice::slice_to_vec;
use vstd::arithmetic::div_mod::{
    lemma_fundamental_div_mod_converse,
    lemma_mod_breakdown,
    lemma_small_mod,
};
use vstd::arithmetic::mul::lemma_mul_inequality;
use vstd::arithmetic::power2::{
    pow2,
    lemma_pow2_adds,
    lemma_pow2_strictly_increases,
    lemma2_to64,
    lemma2_to64_rest,
};
use vstd::bits::{lemma_u64_shl_is_mul, lemma_u64_shr_is_div};

use crate::{ChecksumKind, DictError};
use crate::crc::{crc8_of, crc32c_of, crc8_checksum, crc32c_checksum};
use crate::vbyte::{vbyte_fits, vbyte_len, vbyte_value, read_vbyte};

verus! {

/// Bit `k` of a packed byte buffer.
pub open spec fn bit_at(data: Seq<u8>, k: int) -> bool {
    ((data[k / 8] as u64) >> ((k % 8) as u64)) & 1 == 1
}

/// The unsigned integer stored in bits `start .. start + width`, least
/// significant bit first.
pub open spec fn bits_value(data: Seq<u8>, start: int, width: nat) -> nat
    decreases width,
{
    if width == 0 {
        0
    } else {
        bits_value(data, start, (width - 1) as nat) + if bit_at(data, start + width - 1) {
            pow2((width - 1) as nat)
        } else {
            0nat
        }
    }
}

/// A packed field is bounded by two to its width.
pub proof fn lemma_bits_value_bound(data: Seq<u8>, start: int, width: nat)
    ensures
        bits_value(data, start, width) < pow2(width),
    decreases width,
{
    if width == 0 {
        lemma2_to64();
    } else {
        lemma_bits_value_bound(data, start, (width - 1) as nat);
        lemma_pow2_adds((width - 1) as nat, 1);
        lemma2_to64();
    }
}

/// Bit `j` of the value `w`, as the packed buffer stores it.
pub open spec fn u64_bit(w: u64, j: int) -> bool {
    (w >> (j as u64)) & 1 == 1
}

/// Splitting off the top bit of the low `t + 1` bits of `w`.
proof fn lemma_mod_pow2_step(w: u64, t: u64)
    requires
        t < 64,
    ensures
        (w as nat) % pow2((t + 1) as nat) == (w as nat) % pow2(t as nat) + if u64_bit(w, t as int) {
            pow2(t as nat)
        } else {
            0nat
        },
{
    lemma2_to64();
    lemma2_to64_rest();
    lemma_pow2_adds(t as nat, 1);
    // w % 2^(t+1) splits into the low t bits and bit t
    lemma_mod_breakdown(w as int, pow2(t as nat) as int, 2);
    // bit t of w is the parity of w / 2^t
    lemma_u64_shr_is_div(w, t);
    assert((w >> t) & 1 == (w >> t) % 2) by (bit_vector);
    assert((w >> t) & 1 == 0 || (w >> t) & 1 == 1) by (bit_vector);
    assert(pow2((t + 1) as nat) == pow2(t as nat) * 2);
    assert((w as nat) % (pow2(t as nat) * 2) == pow2(t as nat) * (((w as nat) / pow2(t as nat))
        % 2) + (w as nat) % pow2(t as nat));
    assert(((w as nat) / pow2(t as nat)) % 2 == (w >> t) & 1);
    let x = ((w as nat) / pow2(t as nat)) % 2;
    let p = pow2(t as nat);
    if (w >> t) & 1 == 1 {
        assert(u64_bit(w, t as int));
        assert(p * x == p) by (nonlinear_arith)
            requires
                x == 1,
        ;
    } else {
        assert(!u64_bit(w, t as int));
        assert(p * x == 0) by (nonlinear_arith)
            requires
                x == 0,
        ;
    }
}

/// A packed field whose bits agree with those of `w` stores exactly `w`.
proof fn lemma_bits_value_matches(data: Seq<u8>, start: int, width: nat, w: u64)
    requires
        width <= 64,
        (w as nat) < pow2(width),
        forall|j: int| 0 <= j < width ==> bit_at(data, start + j) == u64_bit(w, j),
    ensures
        bits_value(data, start, width) == w,
{
    lemma_bits_value_mod(data, start, width, w);
    lemma_small_mod(w as nat, pow2(width));
}

proof fn lemma_bits_value_mod(data: Seq<u8>, start: int, width: nat, w: u64)
    requires
        width <= 64,
        forall|j: int| 0 <= j < width ==> bit_at(data, start + j) == u64_bit(w, j),
    ensures
        bits_value(data, start, width) == (w as nat) % pow2(width),
    decreases width,
{
    if width == 0 {
        lemma2_to64();
    } else {
        lemma_bits_value_mod(data, start, (width - 1) as nat, w);
        lemma_mod_pow2_step(w, (width - 1) as u64);
    }
}

/// Bit `m` of the packed image of `values`, each entry `bits` wide.
pub open spec fn entry_bit(values: Seq<u64>, bits: nat, m: int) -> bool {
    bits > 0 && u64_bit(values[m / bits as int], m % bits as int)
}

/// Sets bit `k` of the buffer, leaving every other bit as it was.
fn set_bit(data: &mut Vec<u8>, k: usize)
    requires
        k / 8 < old(data)@.len(),
    ensures
        final(data)@.len() == old(data)@.len(),
        forall|m: int|
            0 <= m < final(data)@.len() * 8 && m != k ==> bit_at(final(data)@, m) == bit_at(
                old(data)@,
                m,
            ),
        bit_at(final(data)@, k as int),
{
    let idx = k / 8;
    let b = data[idx];
    let nb = b | (1u8 << ((k % 8) as u8));
    data[idx] = nb;
    proof {
        let sk = (k % 8) as u64;
        assert(((nb as u64) >> sk) & 1 == 1) by (bit_vector)
            requires
                nb == b | (1u8 << (sk as u8)),
                sk < 8,
        ;
        assert forall|m: int| 0 <= m < data@.len() * 8 && m != k implies bit_at(data@, m)
            == bit_at(old(data)@, m) by {
            if m / 8 == k / 8 {
                let s = (m % 8) as u64;
                assert(((nb as u64) >> s) & 1 == ((b as u64) >> s) & 1) by (bit_vector)
                    requires
                        nb == b | (1u8 << (sk as u8)),
                        s < 8,
                        sk < 8,
                        s != sk,
                ;
            }
        }
    }
}

/// A read-only array of `len` unsigned integers, each `bits_per_entry` bits
/// wide, packed contiguously across a byte buffer.  Built once, never
/// mutated.
#[derive(Debug)]
pub struct Sequence {
    bits_per_entry: usize,
    entries: usize,
    data: Vec<u8>,
}

/// The values a packed payload holds, each `bits` wide.
pub open spec fn packed_view(payload: Seq<u8>, bits: nat, entries: nat) -> Seq<u64> {
    Seq::new(entries, |i: int| bits_value(payload, i * bits, bits) as u64)
}

impl View for Sequence {
    type V = Seq<u64>;

    closed spec fn view(&self) -> Seq<u64> {
        packed_view(self.data@, self.bits_per_entry as nat, self.entries as nat)
    }
}

/// Where the fields of an encoded packed index lie and what they hold.
pub ghost struct SeqLayout {
    pub bits: int,
    pub entries: int,
    pub payload_start: int,
    pub used: int,
}

/// How the bytes at `pos` parse as a packed index: a bits-per-entry byte and
/// an entry count, guarded by a CRC-8; then the packed payload, guarded by a
/// CRC-32C, stored in four little-endian bytes behind it.
pub open spec fn seq_parse(data: Seq<u8>, pos: int) -> Result<SeqLayout, DictError> {
    if pos < 0 || pos >= data.len() {
        Err(DictError::TruncatedInput)
    } else if !vbyte_fits(data, pos + 1) {
        Err(DictError::MalformedVarint)
    } else {
        let bits = data[pos] as int;
        let entries = vbyte_value(data, pos + 1) as int;
        let crc_pos = pos + 1 + vbyte_len(data, pos + 1);
        if crc_pos >= data.len() {
            Err(DictError::TruncatedInput)
        } else if data[crc_pos] != crc8_of(data.subrange(pos, crc_pos)) {
            Err(DictError::ChecksumMismatch(ChecksumKind::Index))
        } else if bits > 64 {
            Err(DictError::InvalidEncoding)
        } else if entries > usize::MAX || entries * bits + 7 > usize::MAX {
            Err(DictError::OutOfBounds)
        } else {
            let nbytes = (entries * bits + 7) / 8;
            if crc_pos + 1 + nbytes + 4 > data.len() {
                Err(DictError::TruncatedInput)
            } else if spec_u32_from_le_bytes(
                data.subrange(crc_pos + 1 + nbytes, crc_pos + 1 + nbytes + 4),
            ) != crc32c_of(data.subrange(crc_pos + 1, crc_pos + 1 + nbytes)) {
                Err(DictError::ChecksumMismatch(ChecksumKind::Index))
            } else {
                Ok(
                    SeqLayout {
                        bits,
                        entries,
                        payload_start: crc_pos + 1,
                        used: crc_pos + 1 + nbytes + 4 - pos,
                    },
                )
            }
        }
    }
}

/// Law: a packed-index encoding parses only when both its stored checksums
/// equal the ones computed over the data they guard, so a corrupted payload
/// is never silently accepted.
pub proof fn lemma_index_checksums_enforced(data: Seq<u8>, pos: int)
    requires
        seq_parse(data, pos) is Ok,
    ensures
        ({
            let l = seq_parse(data, pos)->Ok_0;
            let nbytes = (l.entries * l.bits + 7) / 8;
            &&& data[l.payload_start - 1] == crc8_of(data.subrange(pos, l.payload_start - 1))
            &&& spec_u32_from_le_bytes(
                data.subrange(l.payload_start + nbytes, l.payload_start + nbytes + 4),
            ) == crc32c_of(data.subrange(l.payload_start, l.payload_start + nbytes))
        }),
{
}

/// The index an encoding that parses denotes.
pub open spec fn seq_parsed_view(data: Seq<u8>, pos: int) -> Seq<u64> {
    let l = seq_parse(data, pos)->Ok_0;
    packed_view(
        data.subrange(l.payload_start, l.payload_start + (l.entries * l.bits + 7) / 8),
        l.bits as nat,
        l.entries as nat,
    )
}

impl Sequence {
    #[verifier::type_invariant]
    spec fn wf(self) -> bool {
        &&& self.bits_per_entry <= 64
        &&& self.data@.len() == (self.entries * self.bits_per_entry + 7) / 8
        &&& self.data@.len() <= usize::MAX / 8
    }

    /// Number of entries.
    pub fn len(&self) -> (r: usize)
        ensures
            r == self@.len(),
    {
        self.entries
    }

    /// Reads the `i`-th packed entry, true bit extraction across byte
    /// boundaries.
    pub fn get(&self, i: usize) -> (r: u64)
        requires
            i < self@.len(),
        ensures
            r == self@[i as int],
    {
        proof {
            use_type_invariant(&*self);
            lemma2_to64();
            lemma2_to64_rest();
            lemma_mul_inequality(i + 1, self.entries as int, self.bits_per_entry as int);
            assert((i + 1) * self.bits_per_entry == i * self.bits_per_entry
                + self.bits_per_entry) by (nonlinear_arith);
            assert(self.entries * self.bits_per_entry <= 8 * self.data@.len());
            assert(8 * self.data@.len() <= usize::MAX);
        }
        let bits = self.bits_per_entry;
        let start = i * bits;
        let mut j: usize = 0;
        let mut r: u64 = 0;
        while j < bits
            invariant
                self.wf(),
                j <= bits,
                bits == self.bits_per_entry,
                start == i * bits,
                start + bits <= self.entries * bits,
                self.entries * bits <= self.data@.len() * 8,
                self.data@.len() <= usize::MAX / 8,
                r == bits_value(self.data@, start as int, j as nat),
                r < pow2(j as nat),
            decreases bits - j,
        {
            proof {
                lemma2_to64();
                lemma2_to64_rest();
                lemma_pow2_adds(j as nat, 1);
                lemma_pow2_strictly_increases(j as nat, 64);
            }
            let k = start + j;
            let byte = self.data[k / 8];
            let sh = (k % 8) as u64;
            let bit = ((byte as u64) >> sh) & 1;
            proof {
                assert(bit == 0 || bit == 1) by (bit_vector)
                    requires
                        bit == ((byte as u64) >> sh) & 1,
                ;
                assert(bit == 1 <==> bit_at(self.data@, k as int));
                lemma_u64_shl_is_mul(bit, j as u64);
                assert(bits_value(self.data@, start as int, (j + 1) as nat) == bits_value(
                    self.data@,
                    start as int,
                    j as nat,
                ) + if bit_at(self.data@, start + j) {
                    pow2(j as nat)
                } else {
                    0nat
                });
            }
            r = r + (bit << (j as u64));
            j = j + 1;
        }
        proof {
            lemma_bits_value_bound(self.data@, start as int, bits as nat);
            lemma_pow2_strictly_increases(bits as nat, 65);
            if (bits as nat) < 64 {
                lemma_pow2_strictly_increases(bits as nat, 64);
            }
        }
        r
    }

    /// Reads a packed index from its wire form at `pos`, validating both its
    /// checksums, and returns it with the number of bytes consumed.
    pub fn read(data: &[u8], pos: usize) -> (r: Result<(Sequence, usize), DictError>)
        ensures
            match r {
                Ok(p) => {
                    &&& seq_parse(data@, pos as int) is Ok
                    &&& p.0@ == seq_parsed_view(data@, pos as int)
                    &&& p.1 == seq_parse(data@, pos as int)->Ok_0.used
                    &&& pos + p.1 <= data@.len()
                },
                Err(e) => seq_parse(data@, pos as int) matches Err(e2) && e == e2,
            },
    {
        let len = data.len();
        if pos >= len {
            return Err(DictError::TruncatedInput);
        }
        let bits_byte = data[pos];
        let (entries64, vlen) = match read_vbyte(data, pos + 1) {
            Ok(p) => p,
            Err(e) => {
                return Err(e);
            },
        };
        let crc_pos = pos + 1 + vlen;
        if crc_pos >= len {
            return Err(DictError::TruncatedInput);
        }
        let computed8 = crc8_checksum(&data[pos..crc_pos]);
        if computed8 != data[crc_pos] {
            return Err(DictError::ChecksumMismatch(ChecksumKind::Index));
        }
        if bits_byte > 64 {
            return Err(DictError::InvalidEncoding);
        }
        let bits = bits_byte as usize;
        if entries64 > usize::MAX as u64 {
            return Err(DictError::OutOfBounds);
        }
        let entries = entries64 as usize;
        let total_bits = match entries.checked_mul(bits) {
            Some(t) => t,
            None => {
                return Err(DictError::OutOfBounds);
            },
        };
        if total_bits > usize::MAX - 7 {
            return Err(DictError::OutOfBounds);
        }
        let nbytes = (total_bits + 7) / 8;
        let pstart = crc_pos + 1;
        if nbytes > len - pstart || 4 > len - pstart - nbytes {
            return Err(DictError::TruncatedInput);
        }
        let payload_slice = &data[pstart..pstart + nbytes];
        let computed32 = crc32c_checksum(payload_slice);
        let stored32 = u32_from_le_bytes(&data[pstart + nbytes..pstart + nbytes + 4]);
        if computed32 != stored32 {
            return Err(DictError::ChecksumMismatch(ChecksumKind::Index));
        }
        let payload = slice_to_vec(payload_slice);
        let s = Sequence { bits_per_entry: bits, entries, data: payload };
        Ok((s, pstart + nbytes + 4 - pos))
    }

    /// Packs `values` into fresh byte storage, `bits_per_entry` bits each;
    /// `get` is its exact inverse.
    pub fn build(values: &Vec<u64>, bits_per_entry: usize) -> (s: Sequence)
        requires
            bits_per_entry <= 64,
            values@.len() * bits_per_entry + 7 <= usize::MAX,
            forall|m: int| 0 <= m < values@.len() ==> (values@[m] as nat) < pow2(
                bits_per_entry as nat,
            ),
        ensures
            s@ == values@,
    {
        let n = values.len();
        let bits = bits_per_entry;
        let total_bits = n * bits;
        let nbytes = (total_bits + 7) / 8;
        let mut data: Vec<u8> = Vec::new();
        while data.len() < nbytes
            invariant
                data@.len() <= nbytes,
                forall|p: int| 0 <= p < data@.len() ==> data@[p] == 0u8,
            decreases nbytes - data@.len(),
        {
            data.push(0u8);
        }
        proof {
            assert forall|m: int| 0 <= m < data@.len() * 8 implies !bit_at(data@, m) by {
                let s = (m % 8) as u64;
                assert(((0u8 as u64) >> s) & 1 == 0) by (bit_vector);
            }
        }
        let mut v: usize = 0;
        while v < n
            invariant
                v <= n,
                n == values@.len(),
                bits == bits_per_entry,
                bits <= 64,
                total_bits == n * bits,
                total_bits + 7 <= usize::MAX,
                nbytes == (total_bits + 7) / 8,
                data@.len() == nbytes,
                forall|m: int| 0 <= m < v * bits ==> bit_at(data@, m) == entry_bit(
                    values@,
                    bits as nat,
                    m,
                ),
                forall|m: int| v * bits <= m < data@.len() * 8 ==> !bit_at(data@, m),
            decreases n - v,
        {
            proof {
                lemma_mul_inequality(v + 1, n as int, bits as int);
            }
            let w = values[v];
            let mut j: usize = 0;
            while j < bits
                invariant
                    j <= bits,
                    v < n,
                    n == values@.len(),
                    bits <= 64,
                    w == values@[v as int],
                    total_bits == n * bits,
                    total_bits + 7 <= usize::MAX,
                    nbytes == (total_bits + 7) / 8,
                    data@.len() == nbytes,
                    (v + 1) * bits <= n * bits,
                    forall|m: int| 0 <= m < v * bits + j ==> bit_at(data@, m) == entry_bit(
                        values@,
                        bits as nat,
                        m,
                    ),
                    forall|m: int| v * bits + j <= m < data@.len() * 8 ==> !bit_at(data@, m),
                decreases bits - j,
            {
                proof {
                    lemma_mul_inequality(v as int, n as int, bits as int);
                    assert((v + 1) * bits == v * bits + bits) by (nonlinear_arith);
                    assert(8 * nbytes >= total_bits);
                }
                let k = v * bits + j;
                proof {
                    // k lies in entry v at offset j
                    lemma_fundamental_div_mod_converse(k as int, bits as int, v as int, j as int);
                }
                let sh = j as u64;
                let bitv = (w >> sh) & 1;
                proof {
                    assert(bitv == 0 || bitv == 1) by (bit_vector)
                        requires
                            bitv == (w >> sh) & 1,
                    ;
                    assert(bitv == 1 <==> u64_bit(w, j as int));
                }
                if bitv == 1 {
                    set_bit(&mut data, k);
                } else {
                    proof {
                        assert(!bit_at(data@, k as int));
                    }
                }
                j = j + 1;
            }
            proof {
                assert((v + 1) * bits == v * bits + bits) by (nonlinear_arith);
            }
            v = v + 1;
        }
        let s = Sequence { bits_per_entry: bits, entries: n, data };
        proof {
            assert forall|i: int| 0 <= i < n implies s@[i] == values@[i] by {
                assert forall|j: int| 0 <= j < bits implies bit_at(s.data@, i * bits + j)
                    == u64_bit(values@[i], j) by {
                    lemma_mul_inequality(i + 1, n as int, bits as int);
                    assert((i + 1) * bits == i * bits + bits) by (nonlinear_arith);
                    lemma_fundamental_div_mod_converse(i * bits + j, bits as int, i, j);
                    assert(bit_at(s.data@, i * bits + j) == entry_bit(values@, bits as nat, i * bits + j));
                }
                lemma_bits_value_matches(s.data@, i * bits, bits as nat, values@[i]);
            }
            assert(s@ =~= values@);
        }
        s
    }
}

} // verus!
