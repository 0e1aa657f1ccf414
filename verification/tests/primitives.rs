//! Tests of the building blocks: the varint codec, the packed index, and
//! the byte-wise lexicographic comparison.

use hdt_pfc::DictError;
use hdt_pfc::order::{lex_cmp, lcp_extend};
use hdt_pfc::sequence::Sequence;
use hdt_pfc::vbyte::read_vbyte;

#[test]
fn vbyte_single_byte() {
    assert_eq!(read_vbyte(&[0x00], 0).unwrap(), (0, 1));
    assert_eq!(read_vbyte(&[0x05], 0).unwrap(), (5, 1));
    assert_eq!(read_vbyte(&[0x7f], 0).unwrap(), (127, 1));
}

#[test]
fn vbyte_multi_byte() {
    // 300 = 0b1_0010_1100: groups 0x2c then 0x02
    assert_eq!(read_vbyte(&[0xac, 0x02], 0).unwrap(), (300, 2));
    // decoding starts mid-buffer and reports the right length
    assert_eq!(read_vbyte(&[0xff, 0xac, 0x02, 0x07], 1).unwrap(), (300, 2));
    assert_eq!(read_vbyte(&[0x80, 0x01], 0).unwrap(), (128, 2));
}

#[test]
fn vbyte_u64_max() {
    let wire = [0xff, 0xff, 0xff, 0xff, 0xff, 0xff, 0xff, 0xff, 0xff, 0x01];
    assert_eq!(read_vbyte(&wire, 0).unwrap(), (u64::MAX, 10));
}

#[test]
fn vbyte_errors() {
    // ends before a terminating byte
    assert_eq!(read_vbyte(&[0x80, 0x80], 0).unwrap_err(), DictError::MalformedVarint);
    assert_eq!(read_vbyte(&[], 0).unwrap_err(), DictError::MalformedVarint);
    assert_eq!(read_vbyte(&[0x05], 1).unwrap_err(), DictError::MalformedVarint);
    // 2^64 does not fit
    let wire = [0xff, 0xff, 0xff, 0xff, 0xff, 0xff, 0xff, 0xff, 0xff, 0x02];
    assert_eq!(read_vbyte(&wire, 0).unwrap_err(), DictError::MalformedVarint);
    // an eleventh byte is over the length cap even when the value would fit
    let wire = [0x80, 0x80, 0x80, 0x80, 0x80, 0x80, 0x80, 0x80, 0x80, 0x80, 0x01];
    assert_eq!(read_vbyte(&wire, 0).unwrap_err(), DictError::MalformedVarint);
}

#[test]
fn sequence_build_get_round_trip() {
    // 13-bit entries straddle byte boundaries
    let values: Vec<u64> = vec![0, 1, 4097, 8191, 42, 8190, 7, 4096];
    let s = Sequence::build(&values, 13);
    assert_eq!(s.len(), values.len());
    for (i, &v) in values.iter().enumerate() {
        assert_eq!(s.get(i), v, "entry {}", i);
    }
}

#[test]
fn sequence_full_width_entries() {
    let values: Vec<u64> = vec![u64::MAX, 0, 0x8000_0000_0000_0001];
    let s = Sequence::build(&values, 64);
    for (i, &v) in values.iter().enumerate() {
        assert_eq!(s.get(i), v);
    }
}

#[test]
fn sequence_one_bit_entries() {
    let values: Vec<u64> = vec![1, 0, 1, 1, 0, 0, 1, 0, 1];
    let s = Sequence::build(&values, 1);
    for (i, &v) in values.iter().enumerate() {
        assert_eq!(s.get(i), v);
    }
}

fn crc8(data: &[u8]) -> u8 {
    let mut c = crc_any::CRCu8::crc8();
    c.digest(data);
    c.get_crc()
}

fn crc32c(data: &[u8]) -> u32 {
    let mut c = crc_any::CRCu32::crc32c();
    c.digest(data);
    c.get_crc()
}

fn encode_sequence(values: &[u64], bits: usize) -> Vec<u8> {
    let mut out = vec![bits as u8];
    out.push(values.len() as u8); // a one-byte varint for small counts
    let c = crc8(&out);
    out.push(c);
    let mut payload = vec![0u8; (bits * values.len() + 7) / 8];
    for (i, &v) in values.iter().enumerate() {
        for j in 0..bits {
            if (v >> j) & 1 == 1 {
                let k = i * bits + j;
                payload[k / 8] |= 1 << (k % 8);
            }
        }
    }
    out.extend_from_slice(&payload);
    out.extend_from_slice(&crc32c(&payload).to_le_bytes());
    out
}

#[test]
fn sequence_read_round_trip() {
    let values: Vec<u64> = vec![3, 0, 500, 1023, 512];
    let wire = encode_sequence(&values, 10);
    let (s, used) = Sequence::read(&wire, 0).expect("index should parse");
    assert_eq!(used, wire.len());
    assert_eq!(s.len(), values.len());
    for (i, &v) in values.iter().enumerate() {
        assert_eq!(s.get(i), v);
    }
}

#[test]
fn sequence_read_mid_buffer() {
    let values: Vec<u64> = vec![9, 2];
    let mut wire = vec![0xaa, 0xbb];
    wire.extend_from_slice(&encode_sequence(&values, 4));
    let (s, used) = Sequence::read(&wire, 2).expect("index should parse");
    assert_eq!(used, wire.len() - 2);
    assert_eq!(s.get(0), 9);
    assert_eq!(s.get(1), 2);
}

#[test]
fn sequence_read_errors() {
    let values: Vec<u64> = vec![3, 7];
    let wire = encode_sequence(&values, 3);
    assert!(Sequence::read(&wire[..wire.len() - 1], 0).is_err());
    assert!(Sequence::read(&[], 0).is_err());
    // a corrupted payload bit must not be silently accepted
    let mut corrupt = wire.clone();
    corrupt[3] ^= 0x01;
    assert_eq!(
        Sequence::read(&corrupt, 0).unwrap_err(),
        DictError::ChecksumMismatch(hdt_pfc::ChecksumKind::Index)
    );
    // more than 64 bits per entry is not a valid encoding
    let mut bad_bits = vec![65u8, 0u8];
    let c = crc8(&bad_bits);
    bad_bits.push(c);
    bad_bits.extend_from_slice(&crc32c(&[]).to_le_bytes());
    assert_eq!(Sequence::read(&bad_bits, 0).unwrap_err(), DictError::InvalidEncoding);
    // an entry count this machine cannot address
    let mut huge = vec![64u8];
    huge.extend_from_slice(&[0xff, 0xff, 0xff, 0xff, 0xff, 0xff, 0xff, 0xff, 0xff, 0x01]);
    let c = crc8(&huge);
    huge.push(c);
    assert_eq!(Sequence::read(&huge, 0).unwrap_err(), DictError::OutOfBounds);
}

#[test]
fn lex_cmp_orders_byte_strings() {
    assert_eq!(lex_cmp(b"", b""), 0);
    assert_eq!(lex_cmp(b"a", b"a"), 0);
    assert_eq!(lex_cmp(b"", b"a"), -1);
    assert_eq!(lex_cmp(b"a", b""), 1);
    assert_eq!(lex_cmp(b"app", b"apple"), -1);
    assert_eq!(lex_cmp(b"apple", b"app"), 1);
    assert_eq!(lex_cmp(b"apple", b"apply"), -1);
    assert_eq!(lex_cmp(b"banana", b"apple"), 1);
    assert_eq!(lex_cmp(&[0x00], &[0xff]), -1);
}

#[test]
fn lcp_extend_finds_common_prefix() {
    assert_eq!(lcp_extend(b"apple", b"apply", 0), 4);
    assert_eq!(lcp_extend(b"apple", b"apply", 3), 4);
    assert_eq!(lcp_extend(b"apple", b"apple", 0), 5);
    assert_eq!(lcp_extend(b"apple", b"banana", 0), 0);
    assert_eq!(lcp_extend(b"app", b"apple", 1), 3);
}
