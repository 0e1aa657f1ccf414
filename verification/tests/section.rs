//! End-to-end tests of the section codec: encoding a dictionary by hand,
//! reading it back, and resolving in both directions.

use hdt_pfc::dict_sect_pfc::DictSectPFC;

fn crc8(data: &[u8]) -> u8 {
    let mut c = crc_any::CRCu8::crc8();
    c.digest(data);
    c.get_crc()
}

fn crc32c(data: &[u8]) -> u32 {
    let mut c = crc_any::CRCu32::crc32c();
    c.digest(data);
    c.get_crc()
}

fn encode_vbyte(mut v: u64) -> Vec<u8> {
    let mut out = Vec::new();
    loop {
        let g = (v & 0x7f) as u8;
        v >>= 7;
        if v == 0 {
            out.push(g);
            return out;
        }
        out.push(g | 0x80);
    }
}

fn pack_bits(values: &[u64], bits: usize) -> Vec<u8> {
    let total = values.len() * bits;
    let mut data = vec![0u8; (total + 7) / 8];
    for (i, &v) in values.iter().enumerate() {
        for j in 0..bits {
            if (v >> j) & 1 == 1 {
                let k = i * bits + j;
                data[k / 8] |= 1 << (k % 8);
            }
        }
    }
    data
}

fn encode_sequence(values: &[u64], bits: usize) -> Vec<u8> {
    let mut out = vec![bits as u8];
    out.extend_from_slice(&encode_vbyte(values.len() as u64));
    let c = crc8(&out);
    out.push(c);
    let payload = pack_bits(values, bits);
    out.extend_from_slice(&payload);
    out.extend_from_slice(&crc32c(&payload).to_le_bytes());
    out
}

fn front_code(strings: &[&str], block_size: usize) -> (Vec<u8>, Vec<u64>) {
    let mut store: Vec<u8> = Vec::new();
    let mut offsets: Vec<u64> = Vec::new();
    for (i, s) in strings.iter().enumerate() {
        let b = s.as_bytes();
        if i % block_size == 0 {
            offsets.push(store.len() as u64);
            store.extend_from_slice(b);
        } else {
            let prev = strings[i - 1].as_bytes();
            let mut d = 0;
            while d < prev.len() && d < b.len() && prev[d] == b[d] {
                d += 1;
            }
            store.extend_from_slice(&encode_vbyte(d as u64));
            store.extend_from_slice(&b[d..]);
        }
        store.push(0);
    }
    (store, offsets)
}

fn bits_needed(max: u64) -> usize {
    let mut b = 0;
    let mut m = max;
    while m > 0 {
        b += 1;
        m >>= 1;
    }
    if b == 0 {
        1
    } else {
        b
    }
}

/// The wire form of a section holding `strings` (which must already be
/// sorted), positioned just after the marker byte.
fn encode_section(strings: &[&str], block_size: usize) -> Vec<u8> {
    let (store, offsets) = front_code(strings, block_size);
    let mut header = vec![2u8];
    header.extend_from_slice(&encode_vbyte(strings.len() as u64));
    header.extend_from_slice(&encode_vbyte(store.len() as u64));
    header.extend_from_slice(&encode_vbyte(block_size as u64));
    let hc = crc8(&header);
    let mut out = header[1..].to_vec();
    out.push(hc);
    let max = offsets.iter().copied().max().unwrap_or(0);
    out.extend_from_slice(&encode_sequence(&offsets, bits_needed(max)));
    out.extend_from_slice(&store);
    out.extend_from_slice(&crc32c(&store).to_le_bytes());
    out
}

fn read_section(strings: &[&str], block_size: usize) -> DictSectPFC {
    let wire = encode_section(strings, block_size);
    let (sect, used) = DictSectPFC::read(&wire).expect("section should parse");
    assert_eq!(used, wire.len());
    sect
}

#[test]
fn test_decode() {
    let s = String::from("^^<http://www.w3.org/2001/XMLSchema#integer>\"123\"");
    let d = DictSectPFC::decode(s);
    assert_eq!(d, "\"123\"^^<http://www.w3.org/2001/XMLSchema#integer>");
}

#[test]
fn decode_without_quotes_is_identity() {
    let s = String::from("http://example.org/x");
    assert_eq!(DictSectPFC::decode(s), "http://example.org/x");
}

#[test]
fn decode_single_quote_keeps_tail() {
    let s = String::from("ab\"cd");
    assert_eq!(DictSectPFC::decode(s), "cd");
}

#[test]
fn scenario_front_coded_block() {
    // block 0: "apple", (5, "t"), (4, "y"); block 1: "banana" --
    // "applet" and "apply" share exactly four leading bytes
    let strings = ["apple", "applet", "apply", "banana"];
    let (store, offsets) = front_code(&strings, 4);
    assert_eq!(offsets, vec![0]);
    let mut expected = b"apple\0".to_vec();
    expected.push(5);
    expected.extend_from_slice(b"t\0");
    expected.push(4);
    expected.extend_from_slice(b"y\0");
    assert_eq!(store[..expected.len()], expected[..]);

    let sect = read_section(&strings, 4);
    assert_eq!(sect.string_to_id("apply"), 3);
    assert_eq!(sect.string_to_id("app"), 0);
    assert_eq!(sect.id_to_string(2), "applet");
}

fn twenty_three_strings() -> Vec<String> {
    // sorted, with prefix overlap inside and across blocks
    let mut v: Vec<String> = Vec::new();
    for i in 0..23u32 {
        v.push(format!("http://example.org/resource/{:03}", i * 7));
    }
    v.sort();
    v
}

#[test]
fn round_trip_all_ids() {
    let owned = twenty_three_strings();
    let strings: Vec<&str> = owned.iter().map(|s| s.as_str()).collect();
    let sect = read_section(&strings, 8);
    assert_eq!(sect.num_strings(), 23);
    for id in 1..=23usize {
        let s = sect.id_to_string(id);
        assert_eq!(s, strings[id - 1]);
        assert_eq!(sect.string_to_id(&s), id);
    }
}

#[test]
fn order_preserved_across_ids() {
    let owned = twenty_three_strings();
    let strings: Vec<&str> = owned.iter().map(|s| s.as_str()).collect();
    let sect = read_section(&strings, 4);
    for i in 1..=23usize {
        for j in (i + 1)..=23usize {
            assert!(sect.id_to_string(i) < sect.id_to_string(j));
        }
    }
}

#[test]
fn absent_strings_and_ids() {
    let strings = ["apple", "applet", "apply", "banana"];
    let sect = read_section(&strings, 4);
    assert_eq!(sect.string_to_id("definitely-absent-string"), 0);
    assert_eq!(sect.string_to_id(""), 0);
    assert_eq!(sect.string_to_id("zzzz"), 0);
    assert_eq!(sect.string_to_id("applets"), 0);
    assert_eq!(sect.string_to_id("appl"), 0);
    assert_eq!(sect.id_to_string(0), "");
    assert_eq!(sect.id_to_string(5), "");
    assert_eq!(sect.id_to_string(usize::MAX), "");
}

#[test]
fn block_boundary_last_block_short() {
    let owned = twenty_three_strings();
    let strings: Vec<&str> = owned.iter().map(|s| s.as_str()).collect();
    let sect = read_section(&strings, 8);
    // 23 strings in blocks of 8: the last block holds 7 entries
    assert_eq!(sect.id_to_string(23), strings[22]);
    assert_eq!(sect.string_to_id(strings[22]), 23);
    assert_eq!(sect.id_to_string(24), "");
    // ids 17..=23 all live in the short last block
    for id in 17..=23usize {
        assert_eq!(sect.id_to_string(id), strings[id - 1]);
    }
}

#[test]
fn decode_block_lists_each_block() {
    let owned = twenty_three_strings();
    let strings: Vec<&str> = owned.iter().map(|s| s.as_str()).collect();
    let sect = read_section(&strings, 8);
    assert_eq!(sect.decode_block(0).unwrap(), strings[0..8]);
    assert_eq!(sect.decode_block(1).unwrap(), strings[8..16]);
    let last = sect.decode_block(2).unwrap();
    assert_eq!(last.len(), 7);
    assert_eq!(last, strings[16..23]);
    assert!(sect.decode_block(3).is_none());
}

#[test]
fn string_at_reads_the_store() {
    let strings = ["apple", "applet", "apply", "banana"];
    let sect = read_section(&strings, 4);
    // offset 0 holds the first block's first string whole
    let (s, used) = sect.string_at(0).unwrap();
    assert_eq!(s, "apple");
    assert_eq!(used, 6);
    // an offset with no terminator before the end of the store is rejected
    assert_eq!(
        sect.string_at(usize::MAX).unwrap_err(),
        hdt_pfc::DictError::OutOfBounds
    );
}

#[test]
fn block_first_strings_resolve() {
    let owned = twenty_three_strings();
    let strings: Vec<&str> = owned.iter().map(|s| s.as_str()).collect();
    for bs in [1usize, 2, 3, 8, 23, 100] {
        let sect = read_section(&strings, bs);
        for id in 1..=23usize {
            assert_eq!(sect.string_to_id(strings[id - 1]), id, "block_size {}", bs);
        }
    }
}

#[test]
fn prefix_chains_inside_a_block() {
    // each string extends the one before it, so every delta equals the full
    // predecessor length
    let strings = ["app", "apple", "applet", "applets", "b"];
    let sect = read_section(&strings, 5);
    for id in 1..=5usize {
        assert_eq!(sect.id_to_string(id), strings[id - 1]);
        assert_eq!(sect.string_to_id(strings[id - 1]), id);
    }
    assert_eq!(sect.string_to_id("appl"), 0);
    assert_eq!(sect.string_to_id("applett"), 0);
}

#[test]
fn empty_section_resolves_nothing() {
    let strings: [&str; 0] = [];
    let sect = read_section(&strings, 4);
    assert_eq!(sect.num_strings(), 0);
    assert_eq!(sect.string_to_id("anything"), 0);
    assert_eq!(sect.id_to_string(1), "");
}

#[test]
fn non_ascii_strings_round_trip() {
    let strings = ["http://lod.example.org/entry/хобби-N-0", "ХОББИ", "日本語"];
    let mut sorted: Vec<&str> = strings.to_vec();
    sorted.sort();
    let sect = read_section(&sorted, 2);
    for id in 1..=3usize {
        let s = sect.id_to_string(id);
        assert_eq!(s, sorted[id - 1]);
        assert_eq!(sect.string_to_id(&s), id);
    }
}

#[test]
fn trailing_bytes_are_left_unread() {
    let strings = ["a", "b"];
    let mut wire = encode_section(&strings, 2);
    let used_expected = wire.len();
    wire.extend_from_slice(b"further sections");
    let (sect, used) = DictSectPFC::read(&wire).expect("section should parse");
    assert_eq!(used, used_expected);
    assert_eq!(sect.num_strings(), 2);
}
