//! The front-coded dictionary section: parsing and validation of the wire
//! form, and the two lookup directions over the resulting immutable data.
//!
//! A section holds `num_strings` strings, sorted in byte-wise lexicographic
//! order and grouped into blocks of `block_size`.  The first string of a
//! block is stored whole and 0x00-terminated; each following string is a
//! varint `shared_prefix_len` (exactly the longest common prefix with its
//! predecessor) and a 0x00-terminated suffix.  A packed index gives each
//! block's byte offset into the store.

use vstd::prelude::*;
use vstd::arithmetic::mul::lemma_mul_inequality;
use vstd::bytes::{spec_u32_from_le_bytes, u32_from_le_bytes};
use vstd::slice::slice_to_vec;
use vstd::string::StringSliceAdditionalSpecFns;
use vstd::utf8::{valid_utf8, encode_utf8};

use crate::{ChecksumKind, DictError};
use crate::crc::{crc8_of, crc32c_of, crc8_checksum, crc32c_checksum};
use crate::order::{
    lcp_len,
    lex_lt,
    lex_le,
    lex_cmp,
    lcp_extend,
    lemma_lcp_props,
    lemma_lcp_lower,
    lemma_lcp_full,
    lemma_lex_trichotomy,
    lemma_lex_lt_trans,
    lemma_lex_le_trans,
};
use crate::sequence::{Sequence, seq_parse, seq_parsed_view};
use crate::vbyte::{vbyte_fits, vbyte_len, vbyte_value, read_vbyte};

verus! {

/// Length of the string starting at `pos`: the number of bytes before the
/// first 0x00 byte (or before the end of the buffer if none follows).
pub open spec fn spec_strlen(store: Seq<u8>, pos: int) -> int
    decreases store.len() - pos,
{
    if pos < 0 || pos >= store.len() {
        0
    } else if store[pos] == 0 {
        0
    } else {
        1 + spec_strlen(store, pos + 1)
    }
}

pub proof fn lemma_strlen_nonneg(store: Seq<u8>, pos: int)
    ensures
        0 <= spec_strlen(store, pos),
    decreases store.len() - pos,
{
    if 0 <= pos < store.len() && store[pos] != 0 {
        lemma_strlen_nonneg(store, pos + 1);
    }
}

pub proof fn lemma_strlen_props(store: Seq<u8>, pos: int)
    requires
        0 <= pos <= store.len(),
    ensures
        0 <= spec_strlen(store, pos),
        pos + spec_strlen(store, pos) <= store.len(),
        pos + spec_strlen(store, pos) < store.len() ==> store[pos + spec_strlen(store, pos)] == 0,
        forall|m: int| pos <= m < pos + spec_strlen(store, pos) ==> store[m] != 0,
    decreases store.len() - pos,
{
    if pos < store.len() && store[pos] != 0 {
        lemma_strlen_props(store, pos + 1);
    }
}

/// One decoded block entry: the string itself and the position just past its
/// terminator, from where the next entry is read.
pub ghost struct BlockEntry {
    pub s: Seq<u8>,
    pub end: int,
}

/// The `k`-th string of the block starting at `off`, by the front-coding
/// chain: entry 0 is stored whole, entry `k` is the first
/// `shared_prefix_len` bytes of entry `k - 1` followed by the stored suffix.
pub open spec fn block_entry(store: Seq<u8>, off: int, k: nat) -> BlockEntry
    decreases k,
{
    if k == 0 {
        let l = spec_strlen(store, off);
        BlockEntry { s: store.subrange(off, off + l), end: off + l + 1 }
    } else {
        let prev = block_entry(store, off, (k - 1) as nat);
        let delta = vbyte_value(store, prev.end) as int;
        let p2 = prev.end + vbyte_len(store, prev.end);
        let l = spec_strlen(store, p2);
        BlockEntry { s: prev.s.take(delta) + store.subrange(p2, p2 + l), end: p2 + l + 1 }
    }
}

/// Entries `0 ..= k` of the block at `off` decode cleanly: every string has
/// its terminator inside the store, every varint is sound, and every
/// `shared_prefix_len` is exactly the longest common prefix with the
/// predecessor.
pub open spec fn block_entry_ok(store: Seq<u8>, off: int, k: nat) -> bool
    decreases k,
{
    if k == 0 {
        &&& 0 <= off
        &&& off + spec_strlen(store, off) < store.len()
    } else {
        let prev = block_entry(store, off, (k - 1) as nat);
        let delta = vbyte_value(store, prev.end) as int;
        let p2 = prev.end + vbyte_len(store, prev.end);
        &&& block_entry_ok(store, off, (k - 1) as nat)
        &&& vbyte_fits(store, prev.end)
        &&& delta <= prev.s.len()
        &&& p2 + spec_strlen(store, p2) < store.len()
        &&& lcp_len(prev.s, block_entry(store, off, k).s) == delta
    }
}

pub proof fn lemma_block_entry_ok_monotone(store: Seq<u8>, off: int, j: nat, k: nat)
    requires
        j <= k,
        block_entry_ok(store, off, k),
    ensures
        block_entry_ok(store, off, j),
    decreases k,
{
    if j < k {
        lemma_block_entry_ok_monotone(store, off, j, (k - 1) as nat);
    }
}

/// Number of blocks a section of `n` strings has.
pub open spec fn n_blocks(n: int, bs: int) -> int {
    (n + bs - 1) / bs
}

/// A string index `i` falls in block `i / bs`, at local position `i % bs`,
/// and that block and position exist.
pub proof fn lemma_id_block(n: int, bs: int, i: int)
    requires
        bs >= 1,
        0 <= i < n,
    ensures
        0 <= i / bs < n_blocks(n, bs),
        0 <= i % bs < bs,
        i % bs < block_count(n, bs, i / bs),
        (i / bs) * bs + (i % bs) == i,
{
    let b = i / bs;
    let q = n_blocks(n, bs);
    vstd::arithmetic::div_mod::lemma_fundamental_div_mod(i, bs);
    vstd::arithmetic::div_mod::lemma_fundamental_div_mod(n + bs - 1, bs);
    vstd::arithmetic::div_mod::lemma_mod_division_less_than_divisor(i, bs);
    vstd::arithmetic::div_mod::lemma_mod_division_less_than_divisor(n + bs - 1, bs);
    vstd::arithmetic::mul::lemma_mul_is_commutative(bs, b);
    vstd::arithmetic::mul::lemma_mul_is_commutative(bs, q);
    // the blocks together cover all n strings
    assert(q * bs >= n);
    if b >= q {
        lemma_mul_inequality(q, b, bs);
        assert(false);
    }
    if b < 0 {
        vstd::arithmetic::div_mod::lemma_div_pos_is_pos(i, bs);
    }
}

/// Number of strings block `b` holds (the last block may be shorter).
pub open spec fn block_count(n: int, bs: int, b: int) -> int {
    if n - b * bs < bs {
        n - b * bs
    } else {
        bs
    }
}

/// String `i` (0-based) of the section.
pub open spec fn sect_str(store: Seq<u8>, offs: Seq<u64>, bs: int, i: int) -> Seq<u8> {
    block_entry(store, offs[i / bs] as int, (i % bs) as nat).s
}

/// All strings of the section, in id order.
pub open spec fn sect_strings(store: Seq<u8>, offs: Seq<u64>, bs: int, n: int) -> Seq<Seq<u8>> {
    Seq::new(n as nat, |i: int| sect_str(store, offs, bs, i))
}

/// A well-formed section: one index entry per block, every block decodes
/// cleanly to its count, every string is UTF-8, and the strings ascend
/// strictly in lexicographic order.  Lookups are exact on well-formed
/// sections; checksums make accidental corruption loud, but cannot rule out
/// consistent garbage, so this predicate is what the lookup contracts are
/// conditioned on.
pub open spec fn sect_wf(store: Seq<u8>, offs: Seq<u64>, bs: int, n: int) -> bool {
    &&& bs >= 1
    &&& n >= 0
    &&& offs.len() == n_blocks(n, bs)
    &&& forall|b: int|
        0 <= b < offs.len() ==> block_entry_ok(
            store,
            #[trigger] offs[b] as int,
            (block_count(n, bs, b) - 1) as nat,
        )
    &&& forall|i: int|
        0 <= i < n ==> valid_utf8(#[trigger] sect_str(store, offs, bs, i))
    &&& forall|i: int, j: int|
        0 <= i < j < n ==> lex_lt(
            #[trigger] sect_str(store, offs, bs, i),
            #[trigger] sect_str(store, offs, bs, j),
        )
}

/// The first string of block `b`, stored whole at the block's offset.
pub open spec fn first_str(store: Seq<u8>, offs: Seq<u64>, bs: int, b: int) -> Seq<u8> {
    block_entry(store, offs[b] as int, 0).s
}

/// Every block of a section holds at least one and at most `bs` strings, and
/// its strings sit below `n`.
pub proof fn lemma_block_base(n: int, bs: int, b: int)
    requires
        bs >= 1,
        n >= 0,
        0 <= b < n_blocks(n, bs),
    ensures
        0 <= b * bs,
        b * bs < n,
        1 <= block_count(n, bs, b) <= bs,
        b * bs + block_count(n, bs, b) <= n,
{
    let q = n_blocks(n, bs);
    vstd::arithmetic::div_mod::lemma_fundamental_div_mod(n + bs - 1, bs);
    vstd::arithmetic::div_mod::lemma_mod_division_less_than_divisor(n + bs - 1, bs);
    vstd::arithmetic::mul::lemma_mul_is_commutative(bs, q);
    assert(q * bs >= n);
    assert(q * bs <= n + bs - 1);
    lemma_mul_inequality(b, q - 1, bs);
    vstd::arithmetic::mul::lemma_mul_is_distributive_sub(bs, q, 1);
    vstd::arithmetic::mul::lemma_mul_is_commutative(bs, q - 1);
    vstd::arithmetic::mul::lemma_mul_is_commutative(bs, b);
    lemma_mul_inequality(0, b, bs);
}

/// Local position `m` of block `b` is string `b * bs + m` of the section.
pub proof fn lemma_block_str(store: Seq<u8>, offs: Seq<u64>, bs: int, n: int, b: int, m: int)
    requires
        sect_wf(store, offs, bs, n),
        0 <= b < offs.len(),
        0 <= m < block_count(n, bs, b),
    ensures
        0 <= b * bs + m < n,
        sect_str(store, offs, bs, b * bs + m) == block_entry(store, offs[b] as int, m as nat).s,
{
    lemma_block_base(n, bs, b);
    vstd::arithmetic::div_mod::lemma_fundamental_div_mod_converse(b * bs + m, bs, b, m);
}

/// Block firsts ascend with the block index, which makes binary search over
/// them sound.
pub proof fn lemma_firsts_sorted(store: Seq<u8>, offs: Seq<u64>, bs: int, n: int, b1: int, b2: int)
    requires
        sect_wf(store, offs, bs, n),
        0 <= b1 < b2 < offs.len(),
    ensures
        lex_lt(first_str(store, offs, bs, b1), first_str(store, offs, bs, b2)),
{
    lemma_block_base(n, bs, b1);
    lemma_block_base(n, bs, b2);
    lemma_block_str(store, offs, bs, n, b1, 0);
    lemma_block_str(store, offs, bs, n, b2, 0);
    vstd::arithmetic::mul::lemma_mul_strict_inequality(b1, b2, bs);
}

/// Looking a string of the section up returns exactly its id.
pub proof fn lemma_str_id_of(store: Seq<u8>, offs: Seq<u64>, bs: int, n: int, i: int)
    requires
        sect_wf(store, offs, bs, n),
        0 <= i < n,
    ensures
        str_id(store, offs, bs, n, sect_str(store, offs, bs, i)) == i + 1,
{
    let s = sect_str(store, offs, bs, i);
    assert(exists|j: int| 0 <= j < n && sect_str(store, offs, bs, j) == s) by {
        assert(sect_str(store, offs, bs, i) == s);
    }
    let j = choose|j: int| 0 <= j < n && sect_str(store, offs, bs, j) == s;
    if j < i {
        lemma_lex_trichotomy(sect_str(store, offs, bs, j), s);
    }
    if j > i {
        lemma_lex_trichotomy(s, sect_str(store, offs, bs, j));
    }
}

/// A needle below every block's first string is in no block.
pub proof fn lemma_none_below(store: Seq<u8>, offs: Seq<u64>, bs: int, n: int, needle: Seq<u8>)
    requires
        sect_wf(store, offs, bs, n),
        forall|b: int| 0 <= b < offs.len() ==> lex_lt(needle, #[trigger] first_str(store, offs, bs, b)),
    ensures
        str_id(store, offs, bs, n, needle) == 0,
{
    assert forall|i: int| 0 <= i < n implies sect_str(store, offs, bs, i) != needle by {
        lemma_id_block(n, bs, i);
        let bi = i / bs;
        lemma_block_base(n, bs, bi);
        lemma_block_str(store, offs, bs, n, bi, 0);
        let f = first_str(store, offs, bs, bi);
        let si = sect_str(store, offs, bs, i);
        // the needle comes before the block's first string, which comes no
        // later than string i
        if bi * bs < i {
            lemma_lex_lt_trans(needle, f, si);
        }
        lemma_lex_trichotomy(needle, si);
    }
}

/// A needle that the candidate block does not hold is nowhere: earlier
/// blocks end before it, later blocks begin after it.
pub proof fn lemma_candidate_absent(
    store: Seq<u8>,
    offs: Seq<u64>,
    bs: int,
    n: int,
    needle: Seq<u8>,
    b: int,
)
    requires
        sect_wf(store, offs, bs, n),
        0 <= b < offs.len(),
        lex_le(first_str(store, offs, bs, b), needle),
        forall|b2: int|
            b < b2 < offs.len() ==> lex_lt(needle, #[trigger] first_str(store, offs, bs, b2)),
        first_str(store, offs, bs, b) != needle,
        forall|m: int|
            1 <= m < block_count(n, bs, b) ==> (#[trigger] block_entry(
                store,
                offs[b] as int,
                m as nat,
            ).s) != needle,
    ensures
        str_id(store, offs, bs, n, needle) == 0,
{
    let f = first_str(store, offs, bs, b);
    assert forall|i: int| 0 <= i < n implies sect_str(store, offs, bs, i) != needle by {
        lemma_id_block(n, bs, i);
        let bi = i / bs;
        let m = i % bs;
        let si = sect_str(store, offs, bs, i);
        lemma_block_base(n, bs, b);
        lemma_block_base(n, bs, bi);
        lemma_block_str(store, offs, bs, n, b, 0);
        if bi == b {
            lemma_block_str(store, offs, bs, n, b, m);
            if m == 0 {
                assert(si == f);
            } else {
                assert(block_entry(store, offs[b] as int, m as nat).s != needle);
            }
        } else if bi < b {
            // i lies before the candidate block's first string
            lemma_mul_inequality(bi, b - 1, bs);
            vstd::arithmetic::mul::lemma_mul_is_distributive_sub(bs, b, 1);
            vstd::arithmetic::mul::lemma_mul_is_commutative(bs, b - 1);
            vstd::arithmetic::mul::lemma_mul_is_commutative(bs, b);
            assert(i < b * bs);
            assert(lex_lt(si, f));
            if f != needle {
                assert(lex_lt(f, needle) || f == needle || lex_lt(needle, f)) by {
                    lemma_lex_trichotomy(f, needle);
                }
                if lex_lt(f, needle) {
                    lemma_lex_lt_trans(si, f, needle);
                }
            }
            lemma_lex_trichotomy(si, needle);
        } else {
            // i lies in a later block, at or after its first string
            lemma_block_base(n, bs, bi);
            lemma_block_str(store, offs, bs, n, bi, 0);
            let fi = first_str(store, offs, bs, bi);
            if bi * bs < i {
                lemma_lex_lt_trans(needle, fi, si);
            }
            lemma_lex_trichotomy(needle, si);
        }
    }
}

/// The id `string_to_id` owes for `needle`: the unique id whose string is
/// `needle`, and 0 where no string is.
pub open spec fn str_id(store: Seq<u8>, offs: Seq<u64>, bs: int, n: int, needle: Seq<u8>) -> int {
    if exists|i: int| 0 <= i < n && sect_str(store, offs, bs, i) == needle {
        (choose|i: int| 0 <= i < n && sect_str(store, offs, bs, i) == needle) + 1
    } else {
        0
    }
}

/// Value of the marker byte that introduces a front-coded section in the
/// container format.  The caller consumes it before handing the bytes over,
/// but it still participates in the header checksum.
pub const SECTION_TYPE_PFC: u8 = 2;

/// Where the fields of an encoded section lie and what they hold.
pub ghost struct SectLayout {
    pub num_strings: int,
    pub packed_length: int,
    pub block_size: int,
    pub seq_pos: int,
    pub store_start: int,
    pub used: int,
}

/// How a byte string parses as a section: three varints (`num_strings`,
/// `packed_length`, `block_size`) guarded by a CRC-8 that also covers the
/// marker byte, then the packed index, then `packed_length` bytes of block
/// store guarded by a CRC-32C in four little-endian bytes.
pub open spec fn sect_parse(data: Seq<u8>) -> Result<SectLayout, DictError> {
    if !vbyte_fits(data, 0) {
        Err(DictError::MalformedVarint)
    } else {
        let n = vbyte_value(data, 0) as int;
        let p1 = vbyte_len(data, 0);
        if !vbyte_fits(data, p1) {
            Err(DictError::MalformedVarint)
        } else {
            let pl = vbyte_value(data, p1) as int;
            let p2 = p1 + vbyte_len(data, p1);
            if !vbyte_fits(data, p2) {
                Err(DictError::MalformedVarint)
            } else {
                let bs = vbyte_value(data, p2) as int;
                let p3 = p2 + vbyte_len(data, p2);
                if p3 >= data.len() {
                    Err(DictError::TruncatedInput)
                } else if data[p3] != crc8_of(seq![SECTION_TYPE_PFC] + data.subrange(0, p3)) {
                    Err(DictError::ChecksumMismatch(ChecksumKind::Header))
                } else if n > usize::MAX || pl > usize::MAX || bs > usize::MAX {
                    Err(DictError::OutOfBounds)
                } else {
                    match seq_parse(data, p3 + 1) {
                        Err(e) => Err(e),
                        Ok(sl) => {
                            let sstart = p3 + 1 + sl.used;
                            if sstart + pl + 4 > data.len() {
                                Err(DictError::TruncatedInput)
                            } else if spec_u32_from_le_bytes(
                                data.subrange(sstart + pl, sstart + pl + 4),
                            ) != crc32c_of(data.subrange(sstart, sstart + pl)) {
                                Err(DictError::ChecksumMismatch(ChecksumKind::BlockStore))
                            } else {
                                Ok(
                                    SectLayout {
                                        num_strings: n,
                                        packed_length: pl,
                                        block_size: bs,
                                        seq_pos: p3 + 1,
                                        store_start: sstart,
                                        used: sstart + pl + 4,
                                    },
                                )
                            }
                        },
                    }
                }
            }
        }
    }
}

/// Number of double-quote characters in `s`.
pub open spec fn quote_count(s: Seq<char>) -> int
    decreases s.len(),
{
    if s.len() == 0 {
        0
    } else {
        quote_count(s.drop_last()) + if s.last() == '"' {
            1int
        } else {
            0int
        }
    }
}

/// Index of the last double quote in `s` (-1 where none occurs).
pub open spec fn last_quote(s: Seq<char>) -> int
    decreases s.len(),
{
    if s.len() == 0 {
        -1
    } else if s.last() == '"' {
        s.len() - 1
    } else {
        last_quote(s.drop_last())
    }
}

/// `s` with every double quote removed.
pub open spec fn strip_quotes(s: Seq<char>) -> Seq<char>
    decreases s.len(),
{
    if s.len() == 0 {
        Seq::empty()
    } else if s.last() == '"' {
        strip_quotes(s.drop_last())
    } else {
        strip_quotes(s.drop_last()).push(s.last())
    }
}

/// What `decode` returns.  With at least two quotes, the segment between the
/// last two of them moves to the front, requoted, followed by everything
/// before them with the remaining quotes dropped (what follows the last
/// quote is discarded).  With one quote, the part after it; with none, the
/// string itself.
pub open spec fn spec_decode(s: Seq<char>) -> Seq<char> {
    if quote_count(s) >= 2 {
        let l = last_quote(s);
        let k = last_quote(s.take(l));
        seq!['"'] + s.subrange(k + 1, l) + seq!['"'] + strip_quotes(s.take(k))
    } else if quote_count(s) == 1 {
        s.subrange(last_quote(s) + 1, s.len() as int)
    } else {
        s
    }
}

/// Law: a section encoding parses only when both its stored checksums equal
/// the ones computed over the data they guard (the packed index enforces its
/// own two the same way, stated in its module).  Corrupted bytes can thus
/// only be accepted by colliding with the stored checksum.
pub proof fn lemma_checksums_enforced(data: Seq<u8>)
    requires
        sect_parse(data) is Ok,
    ensures
        ({
            let l = sect_parse(data)->Ok_0;
            &&& data[l.seq_pos - 1] == crc8_of(
                seq![SECTION_TYPE_PFC] + data.subrange(0, l.seq_pos - 1),
            )
            &&& spec_u32_from_le_bytes(
                data.subrange(
                    l.store_start + l.packed_length,
                    l.store_start + l.packed_length + 4,
                ),
            ) == crc32c_of(data.subrange(l.store_start, l.store_start + l.packed_length))
        }),
{
}

/// A dictionary section, plain front coding: immutable once read, shared
/// freely by readers.
#[derive(Debug)]
pub struct DictSectPFC {
    num_strings: usize,
    packed_length: usize,
    block_size: usize,
    sequence: Sequence,
    packed_data: Vec<u8>,
}

impl DictSectPFC {
    #[verifier::type_invariant]
    spec fn inv(self) -> bool {
        self.packed_data@.len() == self.packed_length
    }

    /// The block store bytes.
    pub closed spec fn store(self) -> Seq<u8> {
        self.packed_data@
    }

    /// The per-block byte offsets.
    pub closed spec fn offsets(self) -> Seq<u64> {
        self.sequence@
    }

    pub closed spec fn spec_block_size(self) -> int {
        self.block_size as int
    }

    pub closed spec fn spec_num_strings(self) -> int {
        self.num_strings as int
    }

    /// The section decodes cleanly and its strings ascend strictly.
    pub open spec fn wf(self) -> bool {
        sect_wf(self.store(), self.offsets(), self.spec_block_size(), self.spec_num_strings())
    }

    /// The strings this section encodes, in id order (id `i + 1` holds
    /// string `i`).
    pub open spec fn strings(self) -> Seq<Seq<u8>> {
        sect_strings(self.store(), self.offsets(), self.spec_block_size(), self.spec_num_strings())
    }

    /// The id that searching for `needle` owes.
    pub open spec fn spec_string_to_id(self, needle: Seq<u8>) -> int {
        str_id(
            self.store(),
            self.offsets(),
            self.spec_block_size(),
            self.spec_num_strings(),
            needle,
        )
    }

    /// Total number of strings; valid ids are `1 ..= num_strings()`.
    pub fn num_strings(&self) -> (r: usize)
        ensures
            r == self.spec_num_strings(),
    {
        self.num_strings
    }

    /// Reads a section from its wire form (positioned just after the marker
    /// byte), validating all three checksums, and returns it with the number
    /// of bytes consumed.  Checksums catch corruption of the encoding; they
    /// cannot establish `wf`, which is a property of the decoded content.
    pub fn read(data: &[u8]) -> (r: Result<(Self, usize), DictError>)
        ensures
            match r {
                Ok(p) => {
                    &&& sect_parse(data@) is Ok
                    &&& {
                        let l = sect_parse(data@)->Ok_0;
                        &&& p.0.spec_num_strings() == l.num_strings
                        &&& p.0.spec_block_size() == l.block_size
                        &&& p.0.store() == data@.subrange(
                            l.store_start,
                            l.store_start + l.packed_length,
                        )
                        &&& p.0.offsets() == seq_parsed_view(data@, l.seq_pos)
                        &&& p.1 == l.used
                        &&& p.1 <= data@.len()
                    }
                },
                Err(e) => sect_parse(data@) matches Err(e2) && e == e2,
            },
    {
        let len = data.len();
        let (n64, l0) = match read_vbyte(data, 0) {
            Ok(p) => p,
            Err(e) => {
                return Err(e);
            },
        };
        let (pl64, l1) = match read_vbyte(data, l0) {
            Ok(p) => p,
            Err(e) => {
                return Err(e);
            },
        };
        let p2 = l0 + l1;
        let (bs64, l2) = match read_vbyte(data, p2) {
            Ok(p) => p,
            Err(e) => {
                return Err(e);
            },
        };
        let p3 = p2 + l2;
        if p3 >= len {
            return Err(DictError::TruncatedInput);
        }
        let mut header: Vec<u8> = Vec::new();
        header.push(SECTION_TYPE_PFC);
        header.extend_from_slice(&data[0..p3]);
        proof {
            assert(header@ =~= seq![SECTION_TYPE_PFC] + data@.subrange(0, p3 as int));
        }
        let computed8 = crc8_checksum(header.as_slice());
        if computed8 != data[p3] {
            return Err(DictError::ChecksumMismatch(ChecksumKind::Header));
        }
        if n64 > usize::MAX as u64 || pl64 > usize::MAX as u64 || bs64 > usize::MAX as u64 {
            return Err(DictError::OutOfBounds);
        }
        let num_strings = n64 as usize;
        let packed_length = pl64 as usize;
        let block_size = bs64 as usize;
        let (sequence, seq_used) = match Sequence::read(data, p3 + 1) {
            Ok(p) => p,
            Err(e) => {
                return Err(e);
            },
        };
        let sstart = p3 + 1 + seq_used;
        if packed_length > len - sstart || 4 > len - sstart - packed_length {
            return Err(DictError::TruncatedInput);
        }
        let store_slice = &data[sstart..sstart + packed_length];
        let computed32 = crc32c_checksum(store_slice);
        let stored32 = u32_from_le_bytes(
            &data[sstart + packed_length..sstart + packed_length + 4],
        );
        if computed32 != stored32 {
            return Err(DictError::ChecksumMismatch(ChecksumKind::BlockStore));
        }
        let packed_data = slice_to_vec(store_slice);
        let sect = DictSectPFC { num_strings, packed_length, block_size, sequence, packed_data };
        Ok((sect, sstart + packed_length + 4))
    }

    /// Length of the 0x00-terminated string at `offset` in the block store.
    fn strlen(&self, offset: usize) -> (r: usize)
        ensures
            r == spec_strlen(self.store(), offset as int),
            offset <= self.store().len() ==> offset + r <= self.store().len(),
    {
        proof {
            use_type_invariant(&*self);
        }
        let len = self.packed_data.len();
        let mut position = offset;
        if position >= len {
            return 0;
        }
        while position < len && self.packed_data[position] != 0
            invariant
                offset <= position <= len,
                len == self.store().len(),
                self.inv(),
                spec_strlen(self.store(), offset as int) == (position - offset) + spec_strlen(
                    self.store(),
                    position as int,
                ),
            decreases len - position,
        {
            position = position + 1;
        }
        position - offset
    }

    /// The raw bytes of string `id`, reconstructed along the front-coding
    /// chain of its block; `None` where the id is out of range or the data
    /// under it does not decode.
    fn extract_bytes(&self, id: usize) -> (r: Option<Vec<u8>>)
        ensures
            self.wf() && 1 <= id <= self.spec_num_strings() ==> (r matches Some(v) && v@
                == self.strings()[id - 1]),
            id == 0 || id > self.spec_num_strings() ==> r is None,
    {
        proof {
            use_type_invariant(&*self);
        }
        if id == 0 || id > self.num_strings {
            return None;
        }
        if self.block_size == 0 {
            return None;
        }
        let ghost good = self.wf();
        let ghost store = self.store();
        let i = id - 1;
        let block = i / self.block_size;
        let target = i % self.block_size;
        proof {
            if good {
                lemma_id_block(self.spec_num_strings(), self.spec_block_size(), i as int);
            }
        }
        if block >= self.sequence.len() {
            return None;
        }
        let ghost off = self.offsets()[block as int] as int;
        let ghost cnt = block_count(
            self.spec_num_strings(),
            self.spec_block_size(),
            block as int,
        );
        proof {
            if good {
                assert(block_entry_ok(store, off, (cnt - 1) as nat));
                lemma_block_entry_ok_monotone(store, off, 0, (cnt - 1) as nat);
                lemma_strlen_nonneg(store, off);
            }
        }
        let off64 = self.sequence.get(block);
        let len = self.packed_data.len();
        if off64 >= len as u64 {
            return None;
        }
        let mut pos = off64 as usize;
        let l = self.strlen(pos);
        if l >= len - pos {
            // the first string has no terminator inside the store
            return None;
        }
        let mut s: Vec<u8> = slice_to_vec(&self.packed_data[pos..pos + l]);
        pos = pos + l + 1;
        let mut k: usize = 0;
        proof {
            if good {
                assert(s@ == block_entry(store, off, 0).s);
                assert(pos == block_entry(store, off, 0).end);
            }
        }
        while k < target
            invariant
                self.inv(),
                len == store.len(),
                store == self.store(),
                pos <= len,
                k <= target,
                good == (self.wf() && 1 <= id <= self.spec_num_strings()),
                good ==> {
                    &&& off == self.offsets()[block as int] as int
                    &&& target < cnt
                    &&& cnt == block_count(
                        self.spec_num_strings(),
                        self.spec_block_size(),
                        block as int,
                    )
                    &&& block_entry_ok(store, off, (cnt - 1) as nat)
                    &&& s@ == block_entry(store, off, k as nat).s
                    &&& pos == block_entry(store, off, k as nat).end
                },
            decreases target - k,
        {
            proof {
                if good {
                    lemma_block_entry_ok_monotone(store, off, (k + 1) as nat, (cnt - 1) as nat);
                }
            }
            let (delta64, vl) = match read_vbyte(self.packed_data.as_slice(), pos) {
                Ok(p) => p,
                Err(_) => {
                    return None;
                },
            };
            if delta64 > s.len() as u64 {
                return None;
            }
            let delta = delta64 as usize;
            let p2 = pos + vl;
            let l = self.strlen(p2);
            if l >= len - p2 {
                return None;
            }
            s.truncate(delta);
            s.extend_from_slice(&self.packed_data[p2..p2 + l]);
            proof {
                if good {
                    assert(s@ == block_entry(store, off, (k + 1) as nat).s);
                }
            }
            pos = p2 + l + 1;
            k = k + 1;
        }
        proof {
            if good {
                assert(self.strings()[id - 1] == block_entry(store, off, target as nat).s);
            }
        }
        Some(s)
    }

    /// Turns a literal stored datatype-first (`^^<type>"value"`) back into
    /// lexical form: the last quoted segment moves to the front, keeping its
    /// quotes, with the datatype text behind it.
    pub fn decode(string: String) -> (r: String)
        ensures
            r@ == spec_decode(string@),
    {
        let s = string.as_str();
        let n = s.unicode_len();
        let ghost sv = string@;
        let mut cnt: usize = 0;
        let mut lq: usize = 0;
        let mut k2: usize = 0;
        let mut i: usize = 0;
        while i < n
            invariant
                0 <= i <= n,
                n == sv.len(),
                s@ == sv,
                cnt == quote_count(sv.take(i as int)),
                cnt <= i,
                cnt >= 1 ==> (lq < i && lq == last_quote(sv.take(i as int))),
                cnt >= 2 ==> (k2 < lq && k2 == last_quote(sv.take(lq as int))),
            decreases n - i,
        {
            let c = s.get_char(i);
            proof {
                assert(sv.take(i + 1).drop_last() =~= sv.take(i as int));
                assert(sv.take(i + 1).last() == sv[i as int]);
            }
            if c == '"' {
                k2 = lq;
                lq = i;
                cnt = cnt + 1;
            }
            i = i + 1;
        }
        proof {
            assert(sv.take(n as int) =~= sv);
        }
        if cnt >= 2 {
            let mut r = String::new();
            crate::term::push_char(&mut r, '"');
            r.append(s.substring_char(k2 + 1, lq));
            crate::term::push_char(&mut r, '"');
            let mut j: usize = 0;
            while j < k2
                invariant
                    0 <= j <= k2,
                    k2 < n,
                    n == sv.len(),
                    s@ == sv,
                    r@ == seq!['"'] + sv.subrange(k2 + 1, lq as int) + seq!['"'] + strip_quotes(
                        sv.take(j as int),
                    ),
                decreases k2 - j,
            {
                let c = s.get_char(j);
                proof {
                    assert(sv.take(j + 1).drop_last() =~= sv.take(j as int));
                    assert(sv.take(j + 1).last() == sv[j as int]);
                }
                if c != '"' {
                    crate::term::push_char(&mut r, c);
                    proof {
                        assert(r@ =~= seq!['"'] + sv.subrange(k2 + 1, lq as int) + seq!['"']
                            + strip_quotes(sv.take(j + 1)));
                    }
                }
                j = j + 1;
            }
            r
        } else if cnt == 1 {
            s.substring_char(lq + 1, n).to_owned()
        } else {
            string
        }
    }

    /// Relies on `String::from_utf8`: it succeeds exactly on UTF-8 input and
    /// preserves the bytes.
    #[verifier::external_body]
    fn utf8_to_string(bytes: Vec<u8>) -> (r: Option<String>)
        ensures
            r is Some <==> valid_utf8(bytes@),
            r matches Some(s) ==> encode_utf8(s@) == bytes@,
    {
        String::from_utf8(bytes).ok()
    }

    /// The 0x00-terminated string at `offset` in the block store, with the
    /// number of bytes it occupies, terminator included.  Fails with
    /// `OutOfBounds` where no terminator follows before the end of the
    /// store, and with `InvalidEncoding` where the bytes are not UTF-8.
    pub fn string_at(&self, offset: usize) -> (r: Result<(String, usize), DictError>)
        ensures
            ({
                let store = self.store();
                let l = spec_strlen(store, offset as int);
                match r {
                    Ok(p) => {
                        &&& offset + l < store.len()
                        &&& valid_utf8(store.subrange(offset as int, offset + l))
                        &&& encode_utf8(p.0@) == store.subrange(offset as int, offset + l)
                        &&& p.1 == l + 1
                    },
                    Err(e) => {
                        &&& (e == DictError::OutOfBounds <==> offset + l >= store.len())
                        &&& (e == DictError::InvalidEncoding <==> offset + l < store.len()
                            && !valid_utf8(store.subrange(offset as int, offset + l)))
                        &&& (e == DictError::OutOfBounds || e == DictError::InvalidEncoding)
                    },
                }
            }),
    {
        proof {
            use_type_invariant(&*self);
        }
        let len = self.packed_data.len();
        let l = self.strlen(offset);
        if offset >= len || l >= len - offset {
            return Err(DictError::OutOfBounds);
        }
        let bytes = slice_to_vec(&self.packed_data[offset..offset + l]);
        match Self::utf8_to_string(bytes) {
            Some(s) => Ok((s, l + 1)),
            None => Err(DictError::InvalidEncoding),
        }
    }

    /// Decodes a block whole: the string at each local position, in order.
    /// The block's length comes from `num_strings` (the last block is
    /// shorter).  `None` where the block index is out of range or the data
    /// under it does not decode; on a well-formed section every block
    /// decodes.
    pub fn decode_block(&self, block: usize) -> (r: Option<Vec<String>>)
        ensures
            self.wf() && (block as int) < self.offsets().len() ==> (r matches Some(v) && {
                let off = self.offsets()[block as int] as int;
                let cnt = block_count(
                    self.spec_num_strings(),
                    self.spec_block_size(),
                    block as int,
                );
                &&& v@.len() == cnt
                &&& forall|k: int|
                    0 <= k < cnt ==> encode_utf8((#[trigger] v@[k])@) == block_entry(
                        self.store(),
                        off,
                        k as nat,
                    ).s
            }),
            (block as int) >= self.offsets().len() ==> r is None,
    {
        proof {
            use_type_invariant(&*self);
        }
        let ghost good = self.wf() && (block as int) < self.offsets().len();
        let ghost store = self.store();
        let ghost offs = self.offsets();
        let ghost n = self.spec_num_strings();
        let ghost bs = self.spec_block_size();
        let ghost off_g: int = if (block as int) < offs.len() {
            offs[block as int] as int
        } else {
            0int
        };
        let ghost cnt_g = block_count(n, bs, block as int);
        proof {
            if good {
                lemma_block_base(n, bs, block as int);
                assert(block_entry_ok(store, off_g, (cnt_g - 1) as nat));
                lemma_block_entry_ok_monotone(store, off_g, 0, (cnt_g - 1) as nat);
                lemma_strlen_nonneg(store, off_g);
            }
        }
        if block >= self.sequence.len() {
            return None;
        }
        if self.block_size == 0 {
            return None;
        }
        let base = match block.checked_mul(self.block_size) {
            Some(x) => x,
            None => {
                return None;
            },
        };
        if base >= self.num_strings {
            return None;
        }
        let rem = self.num_strings - base;
        let cnt = if rem < self.block_size {
            rem
        } else {
            self.block_size
        };
        let off64 = self.sequence.get(block);
        let len = self.packed_data.len();
        if off64 >= len as u64 {
            return None;
        }
        let mut pos = off64 as usize;
        let l = self.strlen(pos);
        if l >= len - pos {
            return None;
        }
        let mut s: Vec<u8> = slice_to_vec(&self.packed_data[pos..pos + l]);
        pos = pos + l + 1;
        let mut out: Vec<String> = Vec::new();
        proof {
            if good {
                lemma_block_str(store, offs, bs, n, block as int, 0);
                assert(valid_utf8(block_entry(store, off_g, 0).s));
            }
        }
        match Self::utf8_to_string(slice_to_vec(s.as_slice())) {
            Some(first) => out.push(first),
            None => {
                return None;
            },
        }
        let mut k: usize = 1;
        while k < cnt
            invariant
                1 <= k <= cnt,
                pos <= len,
                len == store.len(),
                store == self.store(),
                offs == self.offsets(),
                n == self.spec_num_strings(),
                bs == self.spec_block_size(),
                out@.len() == k,
                good == (self.wf() && (block as int) < self.offsets().len()),
                good ==> {
                    &&& off_g == offs[block as int] as int
                    &&& cnt == cnt_g
                    &&& cnt_g == block_count(n, bs, block as int)
                    &&& block_entry_ok(store, off_g, (cnt_g - 1) as nat)
                    &&& s@ == block_entry(store, off_g, (k - 1) as nat).s
                    &&& pos == block_entry(store, off_g, (k - 1) as nat).end
                    &&& forall|j: int|
                        0 <= j < k ==> encode_utf8((#[trigger] out@[j])@) == block_entry(
                            store,
                            off_g,
                            j as nat,
                        ).s
                },
            decreases cnt - k,
        {
            proof {
                if good {
                    lemma_block_entry_ok_monotone(store, off_g, k as nat, (cnt_g - 1) as nat);
                }
            }
            let (delta64, vl) = match read_vbyte(self.packed_data.as_slice(), pos) {
                Ok(p) => p,
                Err(_) => {
                    return None;
                },
            };
            if delta64 > s.len() as u64 {
                return None;
            }
            let delta = delta64 as usize;
            let p2 = pos + vl;
            let l2 = self.strlen(p2);
            if l2 >= len - p2 {
                return None;
            }
            s.truncate(delta);
            s.extend_from_slice(&self.packed_data[p2..p2 + l2]);
            pos = p2 + l2 + 1;
            proof {
                if good {
                    assert(s@ == block_entry(store, off_g, k as nat).s);
                    lemma_block_str(store, offs, bs, n, block as int, k as int);
                    assert(valid_utf8(block_entry(store, off_g, k as nat).s));
                }
            }
            match Self::utf8_to_string(slice_to_vec(s.as_slice())) {
                Some(decoded) => out.push(decoded),
                None => {
                    return None;
                },
            }
            k = k + 1;
        }
        Some(out)
    }

    /// String `id` of the section.  Ids outside `1 ..= num_strings` yield
    /// the empty string: absence is a sentinel here, not an error.
    pub fn extract(&self, id: usize) -> (r: String)
        ensures
            self.wf() && 1 <= id <= self.spec_num_strings() ==> encode_utf8(r@)
                == self.strings()[id - 1],
            id == 0 || id > self.spec_num_strings() ==> r@ == Seq::<char>::empty(),
    {
        match self.extract_bytes(id) {
            None => String::new(),
            Some(bytes) => {
                proof {
                    if self.wf() && 1 <= id <= self.spec_num_strings() {
                        assert(valid_utf8(self.strings()[id - 1]));
                    }
                }
                match Self::utf8_to_string(bytes) {
                    Some(s) => s,
                    None => String::new(),
                }
            },
        }
    }

    /// Compares the first string of block `b` with `element`: `-1`, `0` or
    /// `1` as the first string comes before, equals, or comes after it.
    fn cmp_first(&self, b: usize, element: &[u8]) -> (r: i8)
        ensures
            self.wf() && (b as int) < self.offsets().len() ==> {
                let f = first_str(self.store(), self.offsets(), self.spec_block_size(), b as int);
                &&& (r == -1 <==> lex_lt(f, element@))
                &&& (r == 0 <==> f == element@)
                &&& (r == 1 <==> lex_lt(element@, f))
            },
    {
        proof {
            use_type_invariant(&*self);
            if self.wf() && (b as int) < self.offsets().len() {
                let off = self.offsets()[b as int] as int;
                let cnt = block_count(
                    self.spec_num_strings(),
                    self.spec_block_size(),
                    b as int,
                );
                lemma_block_base(self.spec_num_strings(), self.spec_block_size(), b as int);
                assert(block_entry_ok(self.store(), off, (cnt - 1) as nat));
                lemma_block_entry_ok_monotone(self.store(), off, 0, (cnt - 1) as nat);
                lemma_strlen_nonneg(self.store(), off);
            }
        }
        if b >= self.sequence.len() {
            return 0;
        }
        let off64 = self.sequence.get(b);
        let len = self.packed_data.len();
        if off64 >= len as u64 {
            return 0;
        }
        let off = off64 as usize;
        let l = self.strlen(off);
        lex_cmp(&self.packed_data[off..off + l], element)
    }

    /// Binary search over block first strings: `None` when `element` comes
    /// before every block; otherwise the last block whose first string is at
    /// or before `element`, with `true` when it hit the first string exactly.
    fn locate_block(&self, element: &[u8]) -> (r: Option<(usize, bool)>)
        ensures
            self.wf() ==> {
                let store = self.store();
                let offs = self.offsets();
                let bs = self.spec_block_size();
                match r {
                    None => forall|b: int|
                        0 <= b < offs.len() ==> lex_lt(
                            element@,
                            #[trigger] first_str(store, offs, bs, b),
                        ),
                    Some(p) => {
                        &&& (p.0 as int) < offs.len()
                        &&& lex_le(first_str(store, offs, bs, p.0 as int), element@)
                        &&& forall|b: int|
                            p.0 < b < offs.len() ==> lex_lt(
                                element@,
                                #[trigger] first_str(store, offs, bs, b),
                            )
                        &&& (p.1 <==> first_str(store, offs, bs, p.0 as int) == element@)
                    },
                }
            },
    {
        proof {
            use_type_invariant(&*self);
        }
        let ghost store = self.store();
        let ghost offs = self.offsets();
        let ghost bs = self.spec_block_size();
        let ghost n = self.spec_num_strings();
        let nb = self.sequence.len();
        let mut lo: usize = 0;
        let mut hi: usize = nb;
        while lo < hi
            invariant
                lo <= hi <= nb,
                nb == offs.len(),
                store == self.store(),
                offs == self.offsets(),
                bs == self.spec_block_size(),
                n == self.spec_num_strings(),
                self.wf() ==> forall|b: int|
                    0 <= b < lo ==> lex_le(#[trigger] first_str(store, offs, bs, b), element@),
                self.wf() ==> forall|b: int|
                    hi <= b < nb ==> lex_lt(element@, #[trigger] first_str(store, offs, bs, b)),
            decreases hi - lo,
        {
            let mid = lo + (hi - lo) / 2;
            let c = self.cmp_first(mid, element);
            proof {
                if self.wf() {
                    lemma_lex_trichotomy(first_str(store, offs, bs, mid as int), element@);
                }
            }
            if c <= 0 {
                proof {
                    if self.wf() {
                        assert forall|b: int|
                            0 <= b < mid + 1 implies lex_le(
                            #[trigger] first_str(store, offs, bs, b),
                            element@,
                        ) by {
                            if b < mid {
                                lemma_firsts_sorted(store, offs, bs, n, b, mid as int);
                                lemma_lex_le_trans(
                                    first_str(store, offs, bs, b),
                                    first_str(store, offs, bs, mid as int),
                                    element@,
                                );
                            }
                        }
                    }
                }
                lo = mid + 1;
            } else {
                proof {
                    if self.wf() {
                        assert forall|b: int|
                            mid <= b < nb implies lex_lt(
                            element@,
                            #[trigger] first_str(store, offs, bs, b),
                        ) by {
                            if b > mid {
                                lemma_firsts_sorted(store, offs, bs, n, mid as int, b);
                                lemma_lex_lt_trans(
                                    element@,
                                    first_str(store, offs, bs, mid as int),
                                    first_str(store, offs, bs, b),
                                );
                            }
                        }
                    }
                }
                hi = mid;
            }
        }
        if lo == 0 {
            return None;
        }
        let cand = lo - 1;
        let c = self.cmp_first(cand, element);
        proof {
            if self.wf() {
                lemma_lex_trichotomy(first_str(store, offs, bs, cand as int), element@);
            }
        }
        Some((cand, c == 0))
    }

    /// Scans the candidate block for `element`, driving the walk with the
    /// shared-prefix lengths: an entry sharing fewer bytes with its
    /// predecessor than the needle does ends the scan, since everything
    /// after it is larger.  Returns the local position (at least 1) of the
    /// match, or 0 where the block has none past its first string.
    fn locate_in_block(&self, block: usize, element: &[u8]) -> (r: usize)
        ensures
            self.wf() && (block as int) < self.offsets().len() ==> {
                let store = self.store();
                let off = self.offsets()[block as int] as int;
                let cnt = block_count(
                    self.spec_num_strings(),
                    self.spec_block_size(),
                    block as int,
                );
                ||| (r == 0 && forall|m: int|
                    1 <= m < cnt ==> (#[trigger] block_entry(store, off, m as nat).s) != element@)
                ||| (1 <= r < cnt && block_entry(store, off, r as nat).s == element@)
            },
    {
        proof {
            use_type_invariant(&*self);
        }
        let ghost good = self.wf() && (block as int) < self.offsets().len();
        let ghost store = self.store();
        let ghost offs = self.offsets();
        let ghost n = self.spec_num_strings();
        let ghost bs = self.spec_block_size();
        let ghost off_g: int = if (block as int) < offs.len() {
            offs[block as int] as int
        } else {
            0int
        };
        let ghost cnt_g = block_count(n, bs, block as int);
        proof {
            if good {
                lemma_block_base(n, bs, block as int);
                assert(block_entry_ok(store, off_g, (cnt_g - 1) as nat));
                lemma_block_entry_ok_monotone(store, off_g, 0, (cnt_g - 1) as nat);
                lemma_strlen_nonneg(store, off_g);
            }
        }
        if block >= self.sequence.len() {
            return 0;
        }
        if self.block_size == 0 {
            return 0;
        }
        let base = match block.checked_mul(self.block_size) {
            Some(x) => x,
            None => {
                return 0;
            },
        };
        if base >= self.num_strings {
            return 0;
        }
        let rem = self.num_strings - base;
        let cnt = if rem < self.block_size {
            rem
        } else {
            self.block_size
        };
        let off64 = self.sequence.get(block);
        let len = self.packed_data.len();
        if off64 >= len as u64 {
            return 0;
        }
        let mut pos = off64 as usize;
        let l = self.strlen(pos);
        if l >= len - pos {
            return 0;
        }
        let mut s: Vec<u8> = slice_to_vec(&self.packed_data[pos..pos + l]);
        pos = pos + l + 1;
        let mut cshared = lcp_extend(s.as_slice(), element, 0);
        let mut k: usize = 1;
        proof {
            if good {
                assert(s@ == block_entry(store, off_g, 0).s);
                assert(pos == block_entry(store, off_g, 0).end);
            }
        }
        while k < cnt
            invariant
                1 <= k <= cnt,
                pos <= len,
                len == store.len(),
                store == self.store(),
                offs == self.offsets(),
                n == self.spec_num_strings(),
                bs == self.spec_block_size(),
                good == (self.wf() && (block as int) < self.offsets().len()),
                good ==> {
                    &&& off_g == offs[block as int] as int
                    &&& cnt == cnt_g
                    &&& cnt_g == block_count(n, bs, block as int)
                    &&& block_entry_ok(store, off_g, (cnt_g - 1) as nat)
                    &&& s@ == block_entry(store, off_g, (k - 1) as nat).s
                    &&& pos == block_entry(store, off_g, (k - 1) as nat).end
                    &&& cshared == lcp_len(block_entry(store, off_g, (k - 1) as nat).s, element@)
                    &&& forall|m: int|
                        1 <= m < k ==> (#[trigger] block_entry(store, off_g, m as nat).s)
                            != element@
                },
            decreases cnt - k,
        {
            proof {
                if good {
                    lemma_block_entry_ok_monotone(store, off_g, k as nat, (cnt_g - 1) as nat);
                }
            }
            let ghost prev_s = s@;
            let (delta64, vl) = match read_vbyte(self.packed_data.as_slice(), pos) {
                Ok(p) => p,
                Err(_) => {
                    return 0;
                },
            };
            if delta64 > s.len() as u64 {
                return 0;
            }
            let delta = delta64 as usize;
            let p2 = pos + vl;
            let l2 = self.strlen(p2);
            if l2 >= len - p2 {
                return 0;
            }
            s.truncate(delta);
            s.extend_from_slice(&self.packed_data[p2..p2 + l2]);
            pos = p2 + l2 + 1;
            proof {
                if good {
                    assert(s@ == block_entry(store, off_g, k as nat).s);
                    assert(pos == block_entry(store, off_g, k as nat).end);
                }
            }
            if delta >= cshared {
                proof {
                    if good {
                        // the confirmed prefix carries over to the new entry
                        lemma_lcp_props(prev_s, element@);
                        assert forall|m: int| 0 <= m < cshared implies s@[m] == element@[m] by {
                            assert(s@[m] == prev_s.take(delta as int)[m]);
                            assert(prev_s[m] == element@[m]);
                        }
                        lemma_lcp_lower(s@, element@, cshared as int);
                    }
                }
                cshared = lcp_extend(s.as_slice(), element, cshared);
                if cshared == element.len() && cshared == s.len() {
                    proof {
                        if good {
                            lemma_lcp_full(s@, element@);
                        }
                    }
                    return k;
                }
                proof {
                    if good {
                        lemma_lcp_full(s@, element@);
                    }
                }
            } else {
                proof {
                    if good {
                        // canonical deltas and in-block order cut the scan:
                        // the needle comes before this entry and all later ones
                        lemma_block_str(store, offs, bs, n, block as int, (k - 1) as int);
                        lemma_block_str(store, offs, bs, n, block as int, k as int);
                        assert(lex_lt(prev_s, s@));
                        assert(lcp_len(prev_s, s@) == delta);
                        crate::order::lemma_scan_cut(prev_s, s@, element@);
                        assert forall|m: int|
                            k <= m < cnt_g implies (#[trigger] block_entry(
                            store,
                            off_g,
                            m as nat,
                        ).s) != element@ by {
                            lemma_block_str(store, offs, bs, n, block as int, m);
                            if m > k {
                                lemma_lex_lt_trans(
                                    element@,
                                    s@,
                                    block_entry(store, off_g, m as nat).s,
                                );
                            }
                            lemma_lex_trichotomy(element@, block_entry(store, off_g, m as nat).s);
                        }
                    }
                }
                return 0;
            }
            k = k + 1;
        }
        0
    }

    /// Maps a string to its id: a binary search over block first strings,
    /// then a prefix-aware scan inside the candidate block.  Returns 0 where
    /// the section holds no such string.
    pub fn locate(&self, element: &str) -> (r: usize)
        ensures
            self.wf() ==> r == self.spec_string_to_id(element.spec_bytes()),
    {
        proof {
            use_type_invariant(&*self);
        }
        let ghost store = self.store();
        let ghost offs = self.offsets();
        let ghost bs = self.spec_block_size();
        let ghost n = self.spec_num_strings();
        let bytes: &[u8] = element.as_bytes();
        let ghost needle = bytes@;
        match self.locate_block(bytes) {
            None => {
                proof {
                    if self.wf() {
                        lemma_none_below(store, offs, bs, n, needle);
                    }
                }
                0
            },
            Some((b, direct)) => {
                if direct {
                    proof {
                        if self.wf() {
                            lemma_block_base(n, bs, b as int);
                            lemma_block_str(store, offs, bs, n, b as int, 0);
                            lemma_str_id_of(store, offs, bs, n, (b as int) * bs);
                        }
                    }
                    match b.checked_mul(self.block_size) {
                        Some(x) => match x.checked_add(1) {
                            Some(id) => id,
                            None => 0,
                        },
                        None => 0,
                    }
                } else {
                    let k = self.locate_in_block(b, bytes);
                    if k == 0 {
                        proof {
                            if self.wf() {
                                lemma_candidate_absent(store, offs, bs, n, needle, b as int);
                            }
                        }
                        0
                    } else {
                        proof {
                            if self.wf() {
                                lemma_block_base(n, bs, b as int);
                                lemma_block_str(store, offs, bs, n, b as int, k as int);
                                lemma_str_id_of(store, offs, bs, n, (b as int) * bs + k);
                            }
                        }
                        match b.checked_mul(self.block_size) {
                            Some(x) => match x.checked_add(k) {
                                Some(y) => match y.checked_add(1) {
                                    Some(id) => id,
                                    None => 0,
                                },
                                None => 0,
                            },
                            None => 0,
                        }
                    }
                }
            },
        }
    }

    /// Maps a string to its id; 0 means the section does not hold it.
    /// Inverse of `id_to_string` on the strings the section holds.
    pub fn string_to_id(&self, element: &str) -> (r: usize)
        ensures
            self.wf() ==> r == self.spec_string_to_id(element.spec_bytes()),
    {
        self.locate(element)
    }

    /// Law: the two lookup directions are mutual inverses — resolving the
    /// string of any valid id returns exactly that id.
    pub proof fn lemma_round_trip(self, id: int)
        requires
            self.wf(),
            1 <= id <= self.spec_num_strings(),
        ensures
            self.spec_string_to_id(self.strings()[id - 1]) == id,
    {
        lemma_str_id_of(
            self.store(),
            self.offsets(),
            self.spec_block_size(),
            self.spec_num_strings(),
            id - 1,
        );
    }

    /// Law: ids order the strings — of two valid ids, the smaller one holds
    /// the lexicographically smaller string.
    pub proof fn lemma_order_preserved(self, i: int, j: int)
        requires
            self.wf(),
            1 <= i < j <= self.spec_num_strings(),
        ensures
            lex_lt(self.strings()[i - 1], self.strings()[j - 1]),
    {
        assert(self.strings()[i - 1] == sect_str(
            self.store(),
            self.offsets(),
            self.spec_block_size(),
            i - 1,
        ));
        assert(self.strings()[j - 1] == sect_str(
            self.store(),
            self.offsets(),
            self.spec_block_size(),
            j - 1,
        ));
    }

    /// Law: a string the section does not hold resolves to 0.  (Ids outside
    /// `1 ..= num_strings` decoding to the empty string is stated on
    /// `id_to_string` itself.)
    pub proof fn lemma_absent_resolves_to_zero(self, needle: Seq<u8>)
        requires
            self.wf(),
            forall|i: int| 0 <= i < self.spec_num_strings() ==> self.strings()[i] != needle,
        ensures
            self.spec_string_to_id(needle) == 0,
    {
        let store = self.store();
        let offs = self.offsets();
        let bs = self.spec_block_size();
        let n = self.spec_num_strings();
        assert(!(exists|i: int| 0 <= i < n && sect_str(store, offs, bs, i) == needle)) by {
            assert forall|i: int| 0 <= i < n implies sect_str(store, offs, bs, i) != needle by {
                assert(self.strings()[i] != needle);
            }
        }
    }

    /// Maps id `id` back to its string; inverse of `string_to_id` on valid
    /// ids.  Out-of-range ids (0 among them) yield the empty string.
    pub fn id_to_string(&self, id: usize) -> (r: String)
        ensures
            self.wf() && 1 <= id <= self.spec_num_strings() ==> encode_utf8(r@)
                == self.strings()[id - 1],
            id == 0 || id > self.spec_num_strings() ==> r@ == Seq::<char>::empty(),
    {
        self.extract(id)
    }
}

} // verus!
