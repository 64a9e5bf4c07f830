//! Reading an image: instructions, listings, call formats and searches.

use eapp_tools::args::{has_flag, targets, value, values};
use eapp_tools::arm::{
    adr, branch_target, dest, is_bl, is_return, overwrites, pool_load, sext24, word_after, word_before,
};
use eapp_tools::callfmt::{
    call_sites, find_format, parse_targets, render_callfmt, render_found, render_found_parts,
    render_vocabulary_line, Found, SiteText,
};
use eapp_tools::image::{choose_base, fn_len, parse, parse_pair, render_bytes, Img};
use eapp_tools::listing::{
    branches_to, dump_len, label, render_dump_line, render_note, render_walk, render_wordref,
    render_xref, walk, words_equal, Symbols,
};
use eapp_tools::search::{
    check_mnemonic, find_strings, following, mask_matches, parse_mask_search, recorded_at,
    render_check, render_match, render_string, render_strings, render_verdict, RECORDED,
};

const BASE: u32 = 0x1800_0000;

fn chars(s: &str) -> Vec<char> {
    s.chars().collect()
}

fn image() -> Img {
    let mut d = Vec::new();
    for w in [
        0xEB00_0002u32, // 00 bl  10
        0xE59F_2014,    // 04 ldr r2, [pc, #0x14] -> 20
        0xEB00_0000,    // 08 bl  10
        0xE12F_FF1E,    // 0c bx  lr
        0xE1A0_F00E,    // 10 mov pc, lr
        0xEAFF_FFF9,    // 14 b   00
        0xE28F_2004,    // 18 add r2, pc, #4 -> 24
        0xEBFF_FFFB,    // 1c bl  10
        0x1800_0024,    // 20
    ] {
        d.extend_from_slice(&w.to_le_bytes());
    }
    d.extend_from_slice(b"vol %d\0\0");
    d.extend_from_slice(&[0; 8]);
    Img { d, base: BASE }
}

fn symbols() -> Symbols {
    vec![(BASE, "main".to_string()), (BASE + 0x10, "leaf".to_string())]
}

// ---------------------------------------------------------------- arguments

#[test]
fn arguments_are_told_apart() {
    let a: Vec<String> =
        ["--hex", "x.bin", "--dis=1", "--dis=2:3", "y.bin"].iter().map(|s| s.to_string()).collect();
    assert!(has_flag(&a, "--hex"));
    assert!(!has_flag(&a, "--json"));
    assert_eq!(targets(&a), vec!["x.bin", "y.bin"]);
    assert_eq!(values(&a, "--dis="), vec!["1", "2:3"]);
    assert_eq!(value(&a, "--dis=").as_deref(), Some("1"));
    assert_eq!(value(&a, "--fn="), None);
}

// ---------------------------------------------------------------- instructions

#[test]
fn branches_are_decoded() {
    assert_eq!(branch_target(0xEB00_0002, BASE), Some(BASE + 0x10));
    assert_eq!(branch_target(0xEAFF_FFF9, BASE + 0x14), Some(BASE));
    assert_eq!(branch_target(0xEAFF_FFFE, 0x100), Some(0x100));
    assert_eq!(branch_target(0xEAFF_FFFD, 0), Some(0xffff_fffc));
    assert_eq!(branch_target(0xFA00_0000, 0), None);
    assert_eq!(branch_target(0xE59F_2014, 0), None);
    assert!(is_bl(0xEB00_0002));
    assert!(is_bl(0x0B00_0002));
    assert!(!is_bl(0xEA00_0002));
    assert_eq!(sext24(0x7f_ffff), 0x7f_ffff);
    assert_eq!(sext24(0x80_0000), -0x80_0000);
    assert_eq!(sext24(0xff_ffff), -1);
    assert_eq!(word_after(0xffff_fffc, 2), 4);
    assert_eq!(word_before(4, 2), 0xffff_fffc);
}

#[test]
fn returns_are_recognised() {
    assert!(is_return(0xE12F_FF1E));
    assert!(is_return(0xE1A0_F00E));
    assert!(is_return(0xE8BD_8010));
    assert!(!is_return(0x012F_FF1E));
    assert!(!is_return(0xE8BD_4010));
    assert!(!is_return(0xEA00_0000));
}

#[test]
fn literal_addresses_are_decoded() {
    assert_eq!(pool_load(0xE59F_2014, 4), Some(0x20));
    assert_eq!(pool_load(0xE51F_2004, 0x10), Some(0x14));
    assert_eq!(pool_load(0xE3A0_0000, 0), None);
    assert_eq!(adr(0xE28F_2004, 0x18), Some(0x24));
    assert_eq!(adr(0xE28F_2F01, 0), Some(0xc));
    assert_eq!(adr(0xE28F_2102, 0), Some(0x8000_0008));
    assert_eq!(dest(0xE28F_2004), 2);
    assert!(overwrites(0xE3A0_2000, 2));
    assert!(!overwrites(0xE3A0_2000, 3));
    assert!(!overwrites(0x03A0_2000, 2));
    // The four tests and compares write no register: tst, teq, cmp and cmn.
    assert!(!overwrites(0xE310_2000, 2) && !overwrites(0xE330_2000, 2));
    assert!(!overwrites(0xE350_2000, 2) && !overwrites(0xE370_2000, 2));
    assert!(overwrites(0xE2E0_2000, 2) && overwrites(0xE380_2000, 2));
    assert!(overwrites(0xE590_2000, 2));
}

// ---------------------------------------------------------------- image

#[test]
fn an_image_answers_in_its_windows() {
    let img = image();
    assert_eq!(img.w(BASE), 0xEB00_0002);
    assert_eq!(img.w(BASE - 4), 0);
    assert!(img.has(BASE + 48));
    assert!(!img.has(BASE + 49));
    assert_eq!(img.read8(BASE + 0x24), b'v');
    assert_eq!(img.read8(BASE + 0x34), 0);
    assert_eq!(img.cstr(BASE + 0x24).as_deref(), Some("vol %d"));
    assert_eq!(img.cstr(BASE + 0x29), None);
    assert_eq!(img.cstr(BASE), None);
    assert_eq!(img.off(BASE + 8), Some(8));
    assert_eq!(img.off(0), None);
    let flat = Img { d: image().d, base: 0 };
    assert_eq!(flat.w(4), flat.w(0x1000_0004));
    assert_eq!(flat.off(0x1000_0010), Some(0x10));
    assert_eq!(flat.cstr(0x1000_0024).as_deref(), Some("vol %d"));
}

#[test]
fn numbers_are_read_in_both_notations() {
    assert_eq!(parse(&chars("0x1f")), Some(31));
    assert_eq!(parse(&chars("31")), Some(31));
    assert_eq!(parse(&chars("+31")), Some(31));
    assert_eq!(parse(&chars("0xffffffff")), Some(0xffff_ffff));
    assert_eq!(parse(&chars("4294967296")), None);
    assert_eq!(parse(&chars("0x")), None);
    assert_eq!(parse(&chars("")), None);
    assert_eq!(parse(&chars("-1")), None);
    assert_eq!(parse_pair("0x10:3", 40), Some((16, 3)));
    assert_eq!(parse_pair("0x10", 40), Some((16, 40)));
    assert_eq!(parse_pair("0x10:", 40), None);
    assert_eq!(parse_pair("zz:3", 40), None);
}

#[test]
fn the_window_is_chosen() {
    let a = |v: &[&str]| v.iter().map(|s| s.to_string()).collect::<Vec<String>>();
    assert_eq!(choose_base(&a(&["--base=0x20"]), b"eapp", Some(BASE)), 0x20);
    assert_eq!(choose_base(&a(&["--base=zz", "--base=1"]), b"eapp", Some(BASE)), BASE);
    assert_eq!(choose_base(&a(&[]), b"eapp", None), 0);
    assert_eq!(choose_base(&a(&[]), b"fwfw", Some(BASE)), 0);
}

#[test]
fn functions_end_at_their_return() {
    let img = image();
    assert_eq!(fn_len(&img, BASE), 4);
    assert_eq!(fn_len(&img, BASE + 0x10), 1);
    assert_eq!(fn_len(&img, BASE + 0x20), 600);
}

#[test]
fn bytes_show_in_rows() {
    let img = image();
    assert_eq!(
        render_bytes(&img, BASE + 0x24, 1),
        "  18000024  76 6f 6c 20 25 64 00 00 00 00 00 00 00 00 00 00  |vol %d..........|\n"
    );
    assert_eq!(render_bytes(&img, BASE, 0), "");
    assert_eq!(render_bytes(&img, BASE, 17).lines().count(), 2);
}

// ---------------------------------------------------------------- listings

#[test]
fn labels_name_the_nearest_symbol() {
    let s = symbols();
    assert_eq!(label(&s, BASE + 4), "main+0x4");
    assert_eq!(label(&s, BASE + 0x10), "leaf+0x0");
    assert_eq!(label(&s, BASE + 0x10 + 0x1fff), "leaf+0x1fff");
    assert_eq!(label(&s, BASE + 0x10 + 0x2000), "");
    assert_eq!(label(&s, 4), "");
}

#[test]
fn instructions_are_listed_with_their_notes() {
    let img = image();
    let s = symbols();
    assert_eq!(
        render_dump_line(&img, &s, BASE, "bl 0x18000010"),
        "  18000000  eb000002  bl 0x18000010   ; leaf  <main>\n"
    );
    assert_eq!(
        render_dump_line(&img, &s, BASE + 4, "ldr"),
        "  18000004  e59f2014  ldr   ; -> \"vol %d\"\n"
    );
    assert_eq!(
        render_dump_line(&img, &s, BASE + 0x20, "x"),
        "  18000020  18000024  x   ; \"vol %d\"\n"
    );
    assert_eq!(render_dump_line(&img, &s, BASE + 0xc, "bx lr"), "  1800000c  e12fff1e  bx lr\n");
    assert_eq!(dump_len(&img, BASE + 44, 40), 2);
    assert_eq!(dump_len(&img, BASE, 3), 3);
    assert_eq!(dump_len(&img, 0, 3), 0);
    let (a, b) = (Some("n".to_string()), Some("\"s\"".to_string()));
    assert_eq!(render_note(&a, &b, &None), "   ; n");
    assert_eq!(render_note(&a, &b, &b), "   ; -> \"s\"");
    assert_eq!(render_note(&None, &None, &None), "");
}

#[test]
fn call_trees_open_each_function_once() {
    let img = image();
    assert_eq!(
        render_walk(&img, &symbols(), BASE, 1),
        "\n=== call tree from 0x18000000, depth 1 ===\n  0x18000000 main\n    0x18000010 leaf\n  (2 \
         distinct functions reachable)\n"
    );
    assert_eq!(
        render_walk(&img, &Vec::new(), BASE + 0x10, 0),
        "\n=== call tree from 0x18000010, depth 0 ===\n  0x18000010 \n  (1 distinct functions \
         reachable)\n"
    );
    // A function that calls itself is named a second time and not opened again.
    let mut d = 0xEBFF_FFFEu32.to_le_bytes().to_vec();
    d.extend_from_slice(&0xE12F_FF1Eu32.to_le_bytes());
    let looped = Img { d, base: BASE };
    assert_eq!(
        render_walk(&looped, &Vec::new(), BASE, 5),
        "\n=== call tree from 0x18000000, depth 5 ===\n  0x18000000 \n    0x18000000  (seen)\n  (1 \
         distinct functions reachable)\n"
    );
}

#[test]
fn a_second_walk_adds_nothing() {
    let (img, s) = (image(), symbols());
    // The functions met before need not stand in order.
    let (mut seen, mut out) = (vec![9, 5], String::new());
    walk(&img, &s, BASE, 2, 0, &mut seen, &mut out);
    assert!([5, 9, BASE, BASE + 0x10].iter().all(|a| seen.contains(a)));
    let met = seen.clone();
    out.clear();
    walk(&img, &s, BASE, 7, 1, &mut seen, &mut out);
    assert_eq!(seen, met);
    assert_eq!(out, "    0x18000000 main (seen)\n");
    out.clear();
    walk(&img, &s, BASE, u32::MAX, 1, &mut seen, &mut out);
    assert_eq!(seen, met);
}

#[test]
fn references_are_found() {
    let img = image();
    assert_eq!(
        branches_to(&img, BASE + 0x10),
        vec![(BASE, true), (BASE + 8, true), (BASE + 0x1c, true)]
    );
    assert_eq!(
        render_xref(&img, &symbols(), BASE),
        "\n=== branches to 0x18000000 ===\n  0x18000014  b    leaf+0x4\n  1 total\n"
    );
    assert_eq!(words_equal(&img, BASE + 0x24), vec![BASE + 0x20]);
    assert_eq!(
        render_wordref(&img, &symbols(), BASE + 0x24),
        "\n=== words equal to 0x18000024 ===\n  0x18000020   in leaf+0x10\n  1 total\n"
    );
    // The last word counts among the words, and not among the branches.
    assert_eq!(words_equal(&img, 0), vec![BASE + 0x2c, BASE + 0x30]);
    let one = Img { d: 0xEAFF_FFFEu32.to_le_bytes().to_vec(), base: BASE };
    assert_eq!(words_equal(&one, 0xEAFF_FFFE), vec![BASE]);
    assert!(branches_to(&one, BASE).is_empty());
    let mut d = one.d.clone();
    d.push(0);
    assert_eq!(branches_to(&Img { d, base: BASE }, BASE), vec![(BASE, false)]);
    let short = Img { d: vec![0; 7], base: BASE };
    assert_eq!(words_equal(&short, 0), vec![BASE]);
    let many = Img { d: vec![0; 4 * 51], base: BASE };
    let text = render_wordref(&many, &Vec::new(), 0);
    assert_eq!(text.lines().count(), 2 + 40 + 1);
    assert!(text.ends_with("  51 total\n"));
}

// ---------------------------------------------------------------- call formats

#[test]
fn call_targets_name_their_register() {
    assert_eq!(parse_targets("0x20:0,0x10,zz,0x20:1"), vec![(0x10, 2), (0x20, 1)]);
    assert_eq!(parse_targets(""), vec![]);
}

#[test]
fn formats_come_from_the_last_write() {
    let img = image();
    let t = vec![(BASE + 0x10, 2)];
    let sites = call_sites(&img, &t);
    assert_eq!(sites.iter().map(|s| s.pc).collect::<Vec<_>>(), [BASE, BASE + 8, BASE + 0x1c]);
    assert!(matches!(sites[0].found, Found::Unresolved));
    let texts: Vec<String> = sites.iter().map(|s| render_found(&s.found, "")).collect();
    assert_eq!(texts, ["<not resolved within 40 instructions>", "\"vol %d\"", "\"vol %d\""]);
    // A call in the last word is a site.
    let mut d = 0xE3A0_2001u32.to_le_bytes().to_vec();
    d.extend_from_slice(&0xEB00_0000u32.to_le_bytes());
    let last = Img { d: d.clone(), base: BASE };
    assert_eq!(call_sites(&last, &vec![(BASE + 0xc, 2)])[0].pc, BASE + 4);
    let moved = Img { d, base: BASE };
    let f = find_format(&moved, BASE + 4, 2);
    assert_eq!(render_found(&f, "mov r2, #1"), "<computed at 0x18000000: mov r2, #1>");
    assert_eq!(render_found_parts(&Found::Pointer(7), "", ""), "<pointer 0x00000007, not a literal string>");
    assert_eq!(render_found_parts(&Found::Adr(8), "", ""), "<adr 0x00000008, not a string>");
    assert_eq!(render_found_parts(&Found::Literal("x".to_string()), "Q", ""), "Q");
}

#[test]
fn the_vocabulary_counts_each_format_once() {
    let v: Vec<SiteText> = [(0x30, "b"), (0x10, "a"), (0x20, "b")]
        .iter()
        .map(|&(pc, t)| SiteText { pc, text: t.to_string() })
        .collect();
    assert_eq!(
        render_callfmt(&vec![(0x2874f0, 0), (0x287664, 0x12)], &v),
        format!(
            "\n=== call sites of {{2874f0: 0, 287664: 12}} with their format strings ===\n  0x00000030  \
             b\n  0x00000010  a\n  0x00000020  b\n\n  3 call sites, 2 distinct format strings:\n    \
             {:<52} x1  0x00000010\n    {:<52} x2  0x00000030\n",
            "\"a\"", "\"b\""
        )
    );
    assert_eq!(
        render_vocabulary_line("q", 3, 16),
        format!("    {:<52} x3  0x00000010\n", "q")
    );
}

// ---------------------------------------------------------------- searches

#[test]
fn words_are_matched_under_a_mask() {
    assert_eq!(parse_mask_search("0x10:0xff:2"), Some((16, 255, 2)));
    assert_eq!(parse_mask_search("0x10"), Some((16, 0xffff_ffff, 0)));
    assert_eq!(parse_mask_search("0x10::3"), Some((16, 0xffff_ffff, 3)));
    assert_eq!(parse_mask_search(""), None);
    let mut d = vec![0u8; 0x1010];
    d[0x1004..0x1008].copy_from_slice(&0xE580_00A0u32.to_le_bytes());
    d[0x100..0x104].copy_from_slice(&0xE580_00A0u32.to_le_bytes());
    let img = Img { d, base: 0 };
    assert_eq!(mask_matches(&img, 0xE581_20A0, 0xfff0_0fff), vec![0x100, 0x1004]);
    assert_eq!(following(&img, 0x1000, 1), (0x1004, 0xE580_00A0));
    assert_eq!(mask_matches(&image(), 0x0B00_0000, 0x0f00_0000), vec![BASE, BASE + 8, BASE + 0x1c]);
    assert_eq!(mask_matches(&image(), 0, 0).len(), 13);
    let odd = Img { d: vec![0; 8], base: BASE + 1 };
    assert_eq!(mask_matches(&odd, 0, 0xffff_ffff), vec![BASE + 4]);
    let top = Img { d: vec![0; 8], base: 0xffff_fffd };
    assert!(mask_matches(&top, 0, 0).is_empty());
    assert_eq!(render_match(0x1004, 0xE580_00A0, "str"), "  00001004  e58000a0  str\n");
}

#[test]
fn strings_are_found_by_what_they_hold() {
    let d = b"ab\0abc\0\x01volume\0vol".to_vec();
    assert_eq!(find_strings(&d, "vol"), vec![(8, "volume".to_string())]);
    assert_eq!(find_strings(&d, "").len(), 2);
    assert_eq!(
        render_strings(&Img { d: d.clone(), base: 0 }, "vol"),
        "\n=== strings containing \"vol\" ===\n  0x00000008  \"volume\"\n  1 total\n"
    );
    // A string is shown with its address, not its place in the file.
    assert_eq!(
        render_strings(&Img { d, base: BASE }, "vol"),
        "\n=== strings containing \"vol\" ===\n  0x18000008  \"volume\"\n  1 total\n"
    );
    assert_eq!(render_string(255, "q"), "  0x000000ff  q\n");
}

#[test]
fn the_self_check_compares_mnemonics() {
    assert_eq!(RECORDED, 6);
    assert_eq!(recorded_at(0), (0x000c_d7c8, "stmdb"));
    assert_eq!(recorded_at(5), (0x000c_d7e0, "ldmia"));
    assert!(check_mnemonic("  stmdb sp!, {r4}", "stmdb"));
    assert!(!check_mnemonic("stm", "stmdb"));
    assert!(!check_mnemonic("", "bl"));
    assert_eq!(render_check(true, 0xcd7c8, 1, "bl"), "  ok   000cd7c8  00000001  bl\n");
    assert_eq!(render_check(false, 0xcd7c8, 1, "bl"), "  FAIL 000cd7c8  00000001  bl\n");
    let img = image();
    assert!(render_verdict(&img, true).starts_with("  [0x1081eaf4] = 0x00000000   (trace"));
    assert!(render_verdict(&img, true).ends_with("  self-check PASSED\n"));
    assert!(render_verdict(&img, false).ends_with("  self-check FAILED — do not trust anything below\n"));
}
