//! Containers, rights files and reports on small built files.

use eapp_tools::aggregate::{print_aggregate, render_file, render_framework, render_json, render_raw, Entry};
use eapp_tools::bytes::{align4, byte_counts, cstr_at, hex16, u32be, u32le};
use eapp_tools::eapp::{
    count_thunks_at, derive_load_base, find_thunk_runs, parse_block, parse_header, scan_blocks, Block,
    BLOCK_THUNKS_OFF, LDR_PC_PC,
};
use eapp_tools::hexdump::dump_hex;
use eapp_tools::names::{file_name, file_stem, has_extension, is_wanted, parse_name_fields, title_of};
use eapp_tools::report::{inspect, render_atom, render_block, render_header, render_report};
use eapp_tools::sinf::{parse_sinf, walk_atoms};

const EMPTY_MD5: [u8; 16] = [
    0xd4, 0x1d, 0x8c, 0xd9, 0x8f, 0x00, 0xb2, 0x04, 0xe9, 0x80, 0x09, 0x98, 0xec, 0xf8, 0x42, 0x7e,
];

fn block(name: &str, hash: [u8; 16], count: u32, next: u32, buf: &mut Vec<u8>) {
    let start = buf.len();
    buf.extend_from_slice(&[0x68, 0x19, 0x06, 0x29]);
    let mut name_buf = [0u8; 32];
    name_buf[..name.len()].copy_from_slice(name.as_bytes());
    buf.extend_from_slice(&name_buf);
    buf.extend_from_slice(&hash);
    buf.extend_from_slice(&count.to_le_bytes());
    buf.extend_from_slice(&next.to_le_bytes());
    assert_eq!(buf.len() - start, BLOCK_THUNKS_OFF);
    for i in 0..count {
        buf.extend_from_slice(&(LDR_PC_PC | (i * 4)).to_le_bytes());
    }
}

fn synth() -> Vec<u8> {
    const BASE: u32 = 0x1800_0000;
    let mut b = Vec::new();
    b.extend_from_slice(b"eapp");
    b.extend_from_slice(&0x1000_1000u32.to_le_bytes());
    b.extend_from_slice(&2u32.to_le_bytes());
    b.extend_from_slice(&0x28u32.to_le_bytes());
    for _ in 0..6 {
        b.extend_from_slice(&0u32.to_le_bytes());
    }
    b.extend_from_slice(&0xEAFF_FFFEu32.to_le_bytes());
    block("Audio", [0xAA; 16], 61, 0, &mut b);
    block("InputEvents", [0xBB; 16], 2, 0, &mut b);
    block("$$$$ terminator $$$$", EMPTY_MD5, 0, 0, &mut b);
    let name_off = 0x2c + 4;
    b[0x10..0x14].copy_from_slice(&(BASE + name_off as u32).to_le_bytes());
    b
}

#[test]
fn parses_header_and_blocks() {
    let buf = synth();
    let r = inspect("synth.bin", &buf);

    assert!(r.is_eapp);
    let h = r.header.as_ref().expect("header");
    assert_eq!(h.version, 0x1000_1000);
    assert_eq!(h.block_count, 2);
    assert_eq!(h.entry_off, 0x28);

    let found: Vec<&Block> = r.blocks.iter().filter(|b| !b.is_terminator).collect();
    assert_eq!(found.len(), 2, "should find both non-terminator blocks");
    assert_eq!(found[0].name, "Audio");
    assert_eq!(found[0].func_count, 61);
    assert_eq!(found[1].name, "InputEvents");
    assert_eq!(found[1].func_count, 2);
}

#[test]
fn thunk_count_cross_checks_declared_count() {
    let buf = synth();
    let r = inspect("synth.bin", &buf);
    for b in r.blocks.iter().filter(|b| !b.is_terminator) {
        assert_eq!(
            b.thunks_seen as u32, b.func_count,
            "{} declared {} but {} thunks follow",
            b.name, b.func_count, b.thunks_seen
        );
    }
}

#[test]
fn terminator_is_recognised_by_empty_md5() {
    let buf = synth();
    let r = inspect("synth.bin", &buf);
    assert_eq!(r.blocks.iter().filter(|b| b.is_terminator).count(), 1);
}

#[test]
fn load_base_is_derived_not_assumed() {
    let buf = synth();
    let r = inspect("synth.bin", &buf);
    assert_eq!(r.load_base, Some(0x1800_0000));
}

#[test]
fn non_eapp_input_is_classified_not_rejected() {
    let r = inspect("x.bin", b"not an eapp file at all");
    assert!(!r.is_eapp);
    assert!(r.blocks.is_empty());
}

fn synth_sinf() -> Vec<u8> {
    let mut b = Vec::new();
    let atom = |id: &str, payload: usize, buf: &mut Vec<u8>| {
        buf.extend_from_slice(&((payload + 8) as u32).to_be_bytes());
        buf.extend_from_slice(id.as_bytes());
        buf.extend(std::iter::repeat(0xAB).take(payload));
    };
    atom("frma", 8, &mut b);
    atom("schm", 12, &mut b);
    atom("key ", 16, &mut b);
    atom("name", 20, &mut b);
    b
}

#[test]
fn sinf_endianness_is_derived_and_atoms_walk_cleanly() {
    let buf = synth_sinf();
    let (blocks, endian) = parse_sinf(&buf);
    assert_eq!(endian, Some("big-endian"));
    let ids: Vec<&str> = blocks.iter().map(|b| b.id.as_str()).collect();
    assert_eq!(ids, ["frma", "schm", "key ", "name"]);
    assert!(blocks.iter().all(|b| b.known), "all atoms should be recognised");
    let key = blocks.iter().find(|b| b.id.trim() == "key").unwrap();
    assert_eq!(key.size - 8, 16);
}

#[test]
fn sinf_walk_rejects_garbage_rather_than_inventing_atoms() {
    let (blocks, endian) = parse_sinf(&[0xFF; 64]);
    assert!(blocks.is_empty());
    assert_eq!(endian, None);
}

#[test]
fn executable_filename_fields_parse() {
    let f = parse_name_fields("Pacman_1_1_2563976.bin").expect("fields");
    assert_eq!(f.name, "Pacman");
    assert_eq!(f.platform_id, "1");
    assert_eq!(f.hardware_id, "1");
    assert_eq!(f.build_id, "2563976");

    let z = parse_name_fields("Zuma_1_1_2563298.bin").expect("fields");
    assert_eq!(z.name, "Zuma");
    assert_eq!(z.build_id, "2563298");
}

// ---------------------------------------------------------------- bytes

#[test]
fn words_read_in_both_orders() {
    let b = [0x78, 0x56, 0x34, 0x12, 0xff];
    assert_eq!(u32le(&b, 0), 0x1234_5678);
    assert_eq!(u32be(&b, 0), 0x7856_3412);
    assert_eq!(u32le(&b, 1), 0xff12_3456);
    assert_eq!(align4(0), 0);
    assert_eq!(align4(1), 4);
    assert_eq!(align4(4), 4);
    assert_eq!(align4(5), 8);
}

#[test]
fn strings_end_at_a_zero_and_are_printable() {
    let mut b = b"Audio\0x\x01y\0".to_vec();
    assert_eq!(cstr_at(&b, 0).as_deref(), Some("Audio"));
    assert_eq!(cstr_at(&b, 5).as_deref(), Some(""));
    assert_eq!(cstr_at(&b, 6), None);
    assert_eq!(cstr_at(&b, 10), None);
    assert_eq!(cstr_at(&b, 11), None);
    b = vec![b'a'; 64];
    assert_eq!(cstr_at(&b, 0), None);
    b.push(0);
    assert_eq!(cstr_at(&b, 0).unwrap().len(), 64);
    b.insert(0, b'a');
    assert_eq!(cstr_at(&b, 0), None);
}

#[test]
fn hashes_show_as_hex() {
    assert_eq!(hex16(&EMPTY_MD5), "d41d8cd98f00b204e9800998ecf8427e");
}

#[test]
fn counts_give_the_entropy_of_code_and_of_noise() {
    let entropy = |buf: &[u8]| -> f64 {
        let len = buf.len() as f64;
        -byte_counts(buf)
            .iter()
            .filter(|&&c| c > 0)
            .map(|&c| {
                let p = c as f64 / len;
                p * p.log2()
            })
            .sum::<f64>()
    };
    let code = synth();
    assert_eq!(byte_counts(&code).iter().sum::<usize>(), code.len());
    assert!(entropy(&code) < 7.0);
    let uniform: Vec<u8> = (0..=255u8).cycle().take(65536).collect();
    assert_eq!(byte_counts(&uniform), vec![256; 256]);
    assert!(entropy(&uniform) > 7.9);
}

// ---------------------------------------------------------------- containers

#[test]
fn headers_hold_six_pointer_words() {
    let buf = synth();
    let h = parse_header(&buf).unwrap();
    assert_eq!(h.ptrs, vec![0x1800_0030, 0, 0, 0, 0, 0]);
    assert!(parse_header(&buf[..0x27]).is_none());
    assert_eq!(
        render_header(&h),
        "  header: version 0x10001000 · block_count 2 · entry_off 0x28\n  header ptrs @+0x10: \
         0x18000030 0x00000000 0x00000000 0x00000000 0x00000000 0x00000000\n"
    );
}

#[test]
fn blocks_are_found_in_either_byte_order() {
    let mut b = Vec::new();
    block("Audio", [1; 16], 1, 7, &mut b);
    b[..4].reverse();
    let v = scan_blocks(&b);
    assert_eq!(v.len(), 1);
    assert_eq!((v[0].file_off, v[0].next_ptr, v[0].thunks_seen), (0, 7, 1));
    assert!(parse_block(&b, 5).is_none());
    assert!(scan_blocks(&b[..BLOCK_THUNKS_OFF - 1]).is_empty());
    let mut shifted = vec![0; 2];
    shifted.extend_from_slice(&b);
    assert!(scan_blocks(&shifted).is_empty());
}

#[test]
fn a_name_may_fill_its_buffer() {
    let mut b = Vec::new();
    block(&"A".repeat(32), [0xAA; 16], 1, 0, &mut b);
    let p = parse_block(&b[..BLOCK_THUNKS_OFF], 0).unwrap();
    assert_eq!((p.name, p.hash, p.func_count), ("A".repeat(32), [0xAA; 16], 1));
    // Printable bytes behind the buffer are the hash, not more of the name.
    let mut c = Vec::new();
    block(&"A".repeat(32), *b"0123456789abcdef", 1, 0, &mut c);
    let p = parse_block(&c, 0).unwrap();
    assert_eq!((p.name, &p.hash), ("A".repeat(32), b"0123456789abcdef"));
    c[0x10] = 7;
    assert!(parse_block(&c, 0).is_none());
}

#[test]
fn thunk_runs_of_one_are_passed_over() {
    let mut b = vec![0u8; 4];
    for w in [LDR_PC_PC, 0, LDR_PC_PC | 4, LDR_PC_PC | 0xfff, LDR_PC_PC] {
        b.extend_from_slice(&w.to_le_bytes());
    }
    assert_eq!(count_thunks_at(&b, 4), 1);
    assert_eq!(count_thunks_at(&b, 12), 3);
    assert_eq!(count_thunks_at(&b, 1000), 0);
    assert_eq!(find_thunk_runs(&b), vec![(12, 3)]);
}

#[test]
fn load_bases_are_tried_in_order() {
    let mut b = vec![0u8; 0x20];
    b[0x18..0x1c].copy_from_slice(b"abc\0");
    b[0x10..0x14].copy_from_slice(&0x3450_0018u32.to_le_bytes());
    assert_eq!(derive_load_base(&b), Some(0x3450_0000));
    b[0x10..0x14].copy_from_slice(&0x1800_0018u32.to_le_bytes());
    assert_eq!(derive_load_base(&b), Some(0x1800_0000));
    b[0x10..0x14].copy_from_slice(&0x1cu32.to_le_bytes());
    assert_eq!(derive_load_base(&b), None);
    assert_eq!(derive_load_base(&b[..0x13]), None);
}

// ---------------------------------------------------------------- rights files

#[test]
fn containers_are_descended_into() {
    let mut inner = Vec::new();
    for (id, payload) in [("user", 4usize), ("iviv", 16)] {
        inner.extend_from_slice(&((payload + 8) as u32).to_be_bytes());
        inner.extend_from_slice(id.as_bytes());
        inner.extend(vec![0u8; payload]);
    }
    let mut schi = ((inner.len() + 8) as u32).to_be_bytes().to_vec();
    schi.extend_from_slice(b"schi");
    schi.extend(inner);
    let mut b = ((schi.len() + 8) as u32).to_be_bytes().to_vec();
    b.extend_from_slice(b"sinf");
    b.extend(schi);
    let (v, endian) = parse_sinf(&b);
    assert_eq!(endian, Some("big-endian"));
    let got: Vec<(&str, usize, usize)> = v.iter().map(|a| (a.id.as_str(), a.off, a.depth)).collect();
    assert_eq!(got, [("sinf", 0, 0), ("schi", 8, 1), ("user", 16, 2), ("iviv", 28, 2)]);
    assert_eq!(
        render_atom(&v[3]),
        "          iviv @0x001c  size    24  payload    16  ← 16-byte AES-128 IV\n"
    );
    assert_eq!(render_atom(&v[0]), "      sinf @0x0000  size    52  payload    44  (container)\n");
}

#[test]
fn a_deeper_walk_shifts_every_depth() {
    let mut b = 20u32.to_be_bytes().to_vec();
    b.extend_from_slice(b"sinf");
    b.extend_from_slice(&12u32.to_be_bytes());
    b.extend_from_slice(b"user\0\0\0\0");
    let at = |depth: usize| {
        let mut out = Vec::new();
        walk_atoms(&b, 0, b.len(), depth, true, &mut out);
        out.iter().map(|a| (a.id.clone(), a.off, a.size, a.depth)).collect::<Vec<_>>()
    };
    assert_eq!(at(0), [("sinf".to_string(), 0, 20, 0), ("user".to_string(), 8, 12, 1)]);
    assert_eq!(at(5), [("sinf".to_string(), 0, 20, 5), ("user".to_string(), 8, 12, 6)]);
    let mut none = Vec::new();
    walk_atoms(&b, 9, 4, 0, true, &mut none);
    assert!(none.is_empty());
}

#[test]
fn little_endian_files_are_recognised() {
    let mut b = Vec::new();
    for id in ["frma", "schm"] {
        b.extend_from_slice(&12u32.to_le_bytes());
        b.extend_from_slice(id.as_bytes());
        b.extend_from_slice(&[0; 4]);
    }
    let (v, endian) = parse_sinf(&b);
    assert_eq!(endian, Some("little-endian"));
    assert_eq!(v.len(), 2);
}

#[test]
fn a_walk_that_stops_short_of_the_end_is_no_walk() {
    let mut b = synth_sinf();
    b.extend_from_slice(&[0, 0, 0]);
    let (v, endian) = parse_sinf(&b);
    assert!(v.is_empty());
    assert_eq!(endian, None);
    let mut out = Vec::new();
    walk_atoms(&b, 0, b.len(), 0, true, &mut out);
    assert_eq!(out.len(), 4);
}

#[test]
fn one_known_atom_is_not_enough() {
    let mut b = 12u32.to_be_bytes().to_vec();
    b.extend_from_slice(b"frma\0\0\0\0");
    assert_eq!(parse_sinf(&b).1, None);
}

// ---------------------------------------------------------------- names

#[test]
fn names_are_taken_apart_from_the_right() {
    let f = parse_name_fields("My_Game_1_2_3.bin").unwrap();
    assert_eq!(f.name, "My_Game");
    assert_eq!((f.platform_id.as_str(), f.hardware_id.as_str()), ("1", "2"));
    let s = parse_name_fields("My_Game_1_2_3.bin.sinf").unwrap();
    assert_eq!(s.build_id, "3");
    assert_eq!(s.name, "My_Game");
    assert!(parse_name_fields("Game_1_2.bin").is_none());
    assert!(parse_name_fields("My_Game_1_2_3.BIN").is_none());
    assert!(parse_name_fields("").is_none());
}

#[test]
fn sidecars_are_not_wanted() {
    assert!(is_wanted("game.bin"));
    assert!(is_wanted("GAME.BIN"));
    assert!(is_wanted("game.bin.Sinf"));
    assert!(!is_wanted("._game.bin"));
    assert!(!is_wanted("._game.bin.sinf"));
    assert!(!is_wanted(".bin"));
    assert!(!is_wanted("bin"));
    assert!(!is_wanted("game.txt"));
}

#[test]
fn paths_are_taken_apart() {
    assert_eq!(file_name("/a/b.c/game.bin"), "game.bin");
    assert_eq!(file_name("game.bin"), "game.bin");
    for p in [
        "Pacman_1_1_2563976.bin/", "a/b//", "a/b/.", "a/b/./.", "a/b.", "a/..", "a/../", "..", ".", "./",
        "/", "", "//", "/.", "a/./b", "a/.b", "a/...", ".bin/.", "./.", "../a",
    ] {
        let std_name = std::path::Path::new(p).file_name().and_then(|n| n.to_str()).unwrap_or("");
        assert_eq!(file_name(p), std_name, "{p}");
    }
    assert!(inspect("Pacman_1_1_2563976.bin/", b"").fields.is_some());
    assert_eq!(file_stem("Pacman_1_1_2563976.bin"), "Pacman_1_1_2563976");
    assert_eq!(file_stem(".hidden"), ".hidden");
    assert_eq!(file_stem(".."), "..");
    assert_eq!(file_stem("a.b.c"), "a.b");
    assert!(has_extension("x.sinf", "sinf"));
    assert!(!has_extension("x.SINF", "sinf"));
    assert_eq!(title_of("Sudoku_1_1_2703081"), "Sudoku");
    assert_eq!(title_of("Sudoku"), "Sudoku");
    assert_eq!(title_of("_1_1_9"), "");
}

// ---------------------------------------------------------------- text

#[test]
fn a_report_reads_as_expected() {
    let buf = synth();
    let r = inspect("dir/synth_1_2_3.bin", &buf);
    let text = render_report(&r, "3.21", "PLAINTEXT");
    assert!(text.starts_with(
        "\n=== dir/synth_1_2_3.bin ===\n  size 476 bytes · entropy 3.21 bits/byte → PLAINTEXT\n  \
         filename fields: name=synth platform_id=1 hardware_id=2 build_id=3\n  header: version \
         0x10001000"
    ));
    assert!(text.ends_with(
        "  load base: 0x18000000 (derived)\n  framework blocks found by scan: 3\n    Audio          \
         count  61  thunks_seen  61 ✓  next 0x00000000  hash aaaaaaaaaaaaaaaaaaaaaaaaaaaaaaaa  \
         @0x2c\n    InputEvents    count   2  thunks_seen   2 ✓  next 0x00000000  hash \
         bbbbbbbbbbbbbbbbbbbbbbbbbbbbbbbb  @0x15c\n    [terminator] \"$$$$ terminator $$$$\"\n  \
         TOTAL imported functions: 63\n  independent check: 63 `ldr pc,[pc,#imm]` thunks in 2 runs \
         file-wide\n"
    ));
    let plain = inspect("x.bin", b"not an eapp file at all");
    assert_eq!(
        render_report(&plain, "3.50", "PLAINTEXT"),
        "\n=== x.bin ===\n  size 23 bytes · entropy 3.50 bits/byte → PLAINTEXT\n  no `eapp` magic — \
         not a plaintext eApp binary\n"
    );
}

#[test]
fn a_count_that_differs_is_flagged() {
    let mut buf = synth();
    buf[8] = 3;
    let at = 0x2c + 0x34;
    buf[at] = 60;
    let r = inspect("synth.bin", &buf);
    let text = render_report(&r, "3.21", "PLAINTEXT");
    assert!(text.contains(
        "  ⚠️  header says 3 blocks, scan found 2 non-terminator — layout assumption suspect\n"
    ));
    assert!(text.contains("count  60  thunks_seen  61 ⚠️  next"));
    assert!(text.contains("  TOTAL imported functions: 62\n"));
}

#[test]
fn a_rights_file_is_listed_by_atom() {
    let r = inspect("game.bin.sinf", &synth_sinf());
    let text = render_report(&r, "1.00", "PLAINTEXT");
    assert!(text.contains("  FairPlay .sinf — 4 atoms, size field is big-endian\n"));
    assert!(text.contains("      frma @0x0000  size    16  payload     8\n"));
    assert!(text.contains(
        "      key  @0x0024  size    24  payload    16  ← key reference (payload is too small to be \
         the key itself)\n"
    ));
    assert!(text.ends_with("  ← purchaser's iTunes Store username\n"));
    assert!(inspect("game.bin", &synth_sinf()).sinf.is_empty());
}

#[test]
fn terminators_show_their_name_in_quotes() {
    let buf = synth();
    let b = &scan_blocks(&buf)[2];
    assert_eq!(render_block(b, "\"t\""), "    [terminator] \"t\"\n");
}

#[test]
fn dumps_show_rows_of_sixteen() {
    let b: Vec<u8> = (0x3e..0x52).collect();
    assert_eq!(
        dump_hex(&b, 0, 96),
        "    00000000  3e 3f 40 41 42 43 44 45 46 47 48 49 4a 4b 4c 4d  |>?@ABCDEFGHIJKLM|\n    \
         00000010  4e 4f 50 51                                      |NOPQ|\n"
    );
    assert_eq!(dump_hex(&b, 18, 1), format!("    00000012  50{}  |P|\n", " ".repeat(45)));
    assert_eq!(dump_hex(&b, 20, 1), "");
    assert_eq!(dump_hex(&b, 99, 1), "");
}

#[test]
fn raw_bytes_of_the_first_two_blocks_are_shown() {
    let buf = synth();
    let r = inspect("synth.bin", &buf);
    let text = render_raw(&r, &buf);
    assert!(text.starts_with("\n  --- raw @0x2c (Audio) ---\n    0000002c  68 19 06 29 41 75 64 69 "));
    assert!(text.contains("\n  --- raw @0x15c (InputEvents) ---\n"));
    assert!(!text.contains("terminator"));
    assert_eq!(render_raw(&inspect("x.bin", b"xx"), b"xx"), "");
}

fn entry(path: &str, buf: &[u8]) -> Entry {
    Entry { report: inspect(path, buf), entropy: "1.2500".to_string() }
}

#[test]
fn json_lists_files_and_frameworks() {
    let v = [entry("a \"b\".bin", &synth()), entry("x.bin", b"zz")];
    assert_eq!(
        render_json(&v),
        "[\n  {\"file\":\"a \\\"b\\\".bin\",\"size\":476,\"entropy\":1.2500,\"is_eapp\":true,\
         \"load_base\":402653184,\"frameworks\":[{\"name\":\"Audio\",\"count\":61,\"thunks_seen\":61,\
         \"hash\":\"aaaaaaaaaaaaaaaaaaaaaaaaaaaaaaaa\"},{\"name\":\"InputEvents\",\"count\":2,\
         \"thunks_seen\":2,\"hash\":\"bbbbbbbbbbbbbbbbbbbbbbbbbbbbbbbb\"}]},\n  \
         {\"file\":\"x.bin\",\"size\":2,\"entropy\":1.2500,\"is_eapp\":false,\"load_base\":null,\
         \"frameworks\":[]}\n]\n"
    );
    assert_eq!(render_json(&[]), "[\n]\n");
    assert!(render_file(&v[1], "Q").starts_with("  {\"file\":Q,\"size\":2,"));
    assert!(render_framework(&v[0].report.blocks[0], "N").starts_with("{\"name\":N,\"count\":61,"));
}

#[test]
fn the_aggregate_gives_the_range_of_each_framework() {
    let mut other = Vec::new();
    other.extend_from_slice(b"eapp");
    block("Zip", [3; 16], 1, 0, &mut other);
    block("Audio", [3; 16], 4, 0, &mut other);
    let v = [entry("a.bin", &synth()), entry("b.bin", &other), entry("x.bin", b"zz")];
    assert_eq!(
        print_aggregate(&v),
        "\n\n=== AGGREGATE across 3 files ===\n  2 plaintext eApp · 1 not eApp (encrypted or other)\n\n  \
         framework            games   count(min..max)\n  Audio                    2   4..61\n  \
         InputEvents              1   2\n  Zip                      1   1\n\n  ⚠️  A framework whose \
         count VARIES across games means the ABI is versioned,\n      not fixed — that changes what a \
         loader has to resolve against.\n"
    );
}
