//! Integrity tests: every single-bit corruption of an encoded section is
//! rejected, and each checksum names the part it guards.

use hdt_pfc::dict_sect_pfc::DictSectPFC;
use hdt_pfc::{ChecksumKind, DictError};

fn crc8(data: &[u8]) -> u8 {
    let mut c = crc_any::CRCu8::crc8();
    c.digest(data);
    c.get_crc()
}

fn crc32c(data: &[u8]) -> u32 {
    let mut c = crc_any::CRCu32::crc32c();
    c.digest(data);
    c.get_crc()
}

fn encode_vbyte(mut v: u64) -> Vec<u8> {
    let mut out = Vec::new();
    loop {
        let g = (v & 0x7f) as u8;
        v >>= 7;
        if v == 0 {
            out.push(g);
            return out;
        }
        out.push(g | 0x80);
    }
}

/// Encodes ["ab", "abc", "b"] with block_size 2 and returns the wire bytes
/// together with the extents of its parts:
/// (wire, header_len, seq_payload_start, seq_payload_len, store_start, store_len).
fn small_section() -> (Vec<u8>, usize, usize, usize, usize, usize) {
    let store: Vec<u8> = {
        let mut s = b"ab\0".to_vec();
        s.extend_from_slice(&encode_vbyte(2));
        s.extend_from_slice(b"c\0");
        s.extend_from_slice(b"b\0");
        s
    };
    let offsets: [u64; 2] = [0, store.len() as u64 - 2];
    let bits = 3usize;

    let mut header = vec![2u8];
    header.extend_from_slice(&encode_vbyte(3)); // num_strings
    header.extend_from_slice(&encode_vbyte(store.len() as u64)); // packed_length
    header.extend_from_slice(&encode_vbyte(2)); // block_size
    let hc = crc8(&header);

    let mut wire = header[1..].to_vec();
    let header_len = wire.len();
    wire.push(hc);

    let mut seq = vec![bits as u8];
    seq.extend_from_slice(&encode_vbyte(offsets.len() as u64));
    let sc = crc8(&seq);
    seq.push(sc);
    let seq_payload_start = wire.len() + seq.len();
    let mut payload = vec![0u8; (bits * offsets.len() + 7) / 8];
    for (i, &v) in offsets.iter().enumerate() {
        for j in 0..bits {
            if (v >> j) & 1 == 1 {
                let k = i * bits + j;
                payload[k / 8] |= 1 << (k % 8);
            }
        }
    }
    let seq_payload_len = payload.len();
    seq.extend_from_slice(&payload);
    seq.extend_from_slice(&crc32c(&payload).to_le_bytes());
    wire.extend_from_slice(&seq);

    let store_start = wire.len();
    let store_len = store.len();
    wire.extend_from_slice(&store);
    wire.extend_from_slice(&crc32c(&store).to_le_bytes());
    (wire, header_len, seq_payload_start, seq_payload_len, store_start, store_len)
}

#[test]
fn intact_section_reads() {
    let (wire, _, _, _, _, _) = small_section();
    let (sect, used) = DictSectPFC::read(&wire).expect("section should parse");
    assert_eq!(used, wire.len());
    assert_eq!(sect.num_strings(), 3);
    assert_eq!(sect.id_to_string(1), "ab");
    assert_eq!(sect.id_to_string(2), "abc");
    assert_eq!(sect.id_to_string(3), "b");
    assert_eq!(sect.string_to_id("abc"), 2);
}

#[test]
fn every_single_bit_flip_is_rejected() {
    let (wire, _, _, _, _, _) = small_section();
    for byte in 0..wire.len() {
        for bit in 0..8 {
            let mut corrupt = wire.clone();
            corrupt[byte] ^= 1 << bit;
            assert!(
                DictSectPFC::read(&corrupt).is_err(),
                "flip of bit {} in byte {} was accepted",
                bit,
                byte
            );
        }
    }
}

#[test]
fn header_value_flip_names_header_checksum() {
    let (wire, header_len, _, _, _, _) = small_section();
    // value bits of the three header varints (bit 7 would change the framing)
    for byte in 0..header_len {
        for bit in 0..7 {
            let mut corrupt = wire.clone();
            corrupt[byte] ^= 1 << bit;
            assert_eq!(
                DictSectPFC::read(&corrupt).unwrap_err(),
                DictError::ChecksumMismatch(ChecksumKind::Header),
                "flip of bit {} in header byte {}",
                bit,
                byte
            );
        }
    }
    // the stored CRC-8 itself
    for bit in 0..8 {
        let mut corrupt = wire.clone();
        corrupt[header_len] ^= 1 << bit;
        assert_eq!(
            DictSectPFC::read(&corrupt).unwrap_err(),
            DictError::ChecksumMismatch(ChecksumKind::Header)
        );
    }
}

#[test]
fn index_payload_flip_names_index_checksum() {
    let (wire, _, pstart, plen, _, _) = small_section();
    for byte in pstart..pstart + plen {
        for bit in 0..8 {
            let mut corrupt = wire.clone();
            corrupt[byte] ^= 1 << bit;
            assert_eq!(
                DictSectPFC::read(&corrupt).unwrap_err(),
                DictError::ChecksumMismatch(ChecksumKind::Index),
                "flip of bit {} in index payload byte {}",
                bit,
                byte
            );
        }
    }
}

#[test]
fn store_flip_names_block_store_checksum() {
    let (wire, _, _, _, sstart, slen) = small_section();
    for byte in sstart..sstart + slen {
        for bit in 0..8 {
            let mut corrupt = wire.clone();
            corrupt[byte] ^= 1 << bit;
            assert_eq!(
                DictSectPFC::read(&corrupt).unwrap_err(),
                DictError::ChecksumMismatch(ChecksumKind::BlockStore),
                "flip of bit {} in store byte {}",
                bit,
                byte
            );
        }
    }
}

#[test]
fn truncated_input_is_rejected() {
    let (wire, _, _, _, _, _) = small_section();
    for cut in 0..wire.len() {
        assert!(DictSectPFC::read(&wire[..cut]).is_err(), "prefix of {} bytes accepted", cut);
    }
    assert!(DictSectPFC::read(&[]).is_err());
    // a cut inside the trailing checksum ends a length-prefixed field early
    assert_eq!(
        DictSectPFC::read(&wire[..wire.len() - 2]).unwrap_err(),
        DictError::TruncatedInput
    );
}

#[test]
fn unterminated_varint_is_malformed() {
    let wire = [0x80u8, 0x80, 0x80];
    assert_eq!(DictSectPFC::read(&wire).unwrap_err(), DictError::MalformedVarint);
}
