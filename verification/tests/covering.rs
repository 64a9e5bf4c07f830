//! Coverage: what a built binary reaches, and what the audit says of it.

use eapp_tools::audit::{add_title, drop_held, implemented, pick_framework};
use eapp_tools::audit_report::{render_audit, render_per_title, verify};
use eapp_tools::coverage::{scan, App, Framework, Title};
use eapp_tools::imports::{distinct_imports, make_import, render_imports, Import};

const BASE: u32 = 0x1800_0000;

fn app() -> App {
    let mut image = vec![0u8; 0x70];
    for (off, w) in [
        (0x00usize, 0xEB00_000Eu32), // bl 40: A#0
        (0x04, 0xEA00_000E),         // b  44: veneer of A#1
        (0x08, 0xEBFF_FFFD),         // bl 04: A#1 through its veneer
        (0x0c, 0xEA00_0013),         // b  60: veneer of B#0, called by nobody
        (0x10, BASE + 0x48),         // the slot of A#0
    ] {
        image[off..off + 4].copy_from_slice(&w.to_le_bytes());
    }
    App {
        image,
        load_base: BASE,
        frameworks: vec![
            Framework { name: "A".to_string(), thunks: vec![BASE + 0x40, BASE + 0x44] },
            Framework { name: "B".to_string(), thunks: vec![BASE + 0x60] },
        ],
    }
}

fn list(v: &[Import]) -> Vec<(&str, usize)> {
    v.iter().map(|x| (x.fw.as_str(), x.ord)).collect()
}

#[test]
fn a_scan_tells_hard_from_soft() {
    let t = scan("Game_1_1_77", &app());
    assert_eq!(t.name, "Game");
    assert_eq!(list(&t.hard), [("A", 0), ("A", 1)]);
    assert_eq!(list(&t.refs), [("A", 0), ("A", 1), ("A", 0)]);
    assert_eq!(list(&t.soft), [("B", 0)]);
    assert_eq!(list(&t.published), [("A", 2), ("B", 1)]);
}

#[test]
fn a_conditional_branch_is_a_call_and_no_veneer() {
    let mut a = app();
    a.image[0x0c..0x10].copy_from_slice(&0x0A00_0013u32.to_le_bytes());
    let t = scan("g", &a);
    assert_eq!(list(&t.hard), [("A", 0), ("A", 1), ("B", 0)]);
    assert!(t.soft.is_empty());
}

#[test]
fn a_later_declaration_replaces_an_earlier_one() {
    let mut a = app();
    a.frameworks.push(Framework { name: "A".to_string(), thunks: vec![BASE + 0x68] });
    assert_eq!(list(&scan("g", &a).published), [("B", 1), ("A", 1)]);
}

#[test]
fn veneers_chain() {
    // 14: b 0c, a veneer of a veneer; 18: bl 14 reaches B#0 through both.
    let mut a = app();
    a.image[0x14..0x18].copy_from_slice(&0xEAFF_FFFCu32.to_le_bytes());
    a.image[0x18..0x1c].copy_from_slice(&0xEBFF_FFFDu32.to_le_bytes());
    let t = scan("g", &a);
    assert_eq!(list(&t.hard), [("A", 0), ("A", 1), ("B", 0)]);
    assert!(t.soft.is_empty());
}

#[test]
fn long_chains_stay_soft() {
    // 0c: b B#0, 14: b 0c, 18: b 14, 1c: b 18, 20: b 1c, 24: b 20, and nothing else reaches B#0.
    let mut a = app();
    for off in [0x18usize, 0x1c, 0x20, 0x24] {
        a.image[off..off + 4].copy_from_slice(&0xEAFF_FFFDu32.to_le_bytes());
    }
    a.image[0x14..0x18].copy_from_slice(&0xEAFF_FFFCu32.to_le_bytes());
    let t = scan("g", &a);
    assert_eq!(list(&t.hard), [("A", 0), ("A", 1)]);
    assert_eq!(list(&t.soft), [("B", 0)]);
}

#[test]
fn five_veneers_of_one_thunk_make_it_soft() {
    // The thunk at 40; 00: b 40, and each word behind it branches to the one before.
    let mut image = vec![0u8; 0x50];
    image[..4].copy_from_slice(&0xEA00_000Eu32.to_le_bytes());
    for off in [0x04usize, 0x08, 0x0c, 0x10] {
        image[off..off + 4].copy_from_slice(&0xEAFF_FFFDu32.to_le_bytes());
    }
    let a = App {
        image,
        load_base: BASE,
        frameworks: vec![Framework { name: "F".to_string(), thunks: vec![BASE + 0x40] }],
    };
    let t = scan("g", &a);
    assert!(t.hard.is_empty() && t.refs.is_empty());
    assert_eq!(list(&t.soft), [("F", 0)]);
}

#[test]
fn a_call_at_the_end_of_a_long_chain_is_hard() {
    let mut a = app();
    for off in [0x18usize, 0x1c, 0x20, 0x24] {
        a.image[off..off + 4].copy_from_slice(&0xEAFF_FFFDu32.to_le_bytes());
    }
    a.image[0x14..0x18].copy_from_slice(&0xEAFF_FFFCu32.to_le_bytes());
    a.image[0x28..0x2c].copy_from_slice(&0xEBFF_FFFDu32.to_le_bytes());
    let t = scan("g", &a);
    assert_eq!(list(&t.refs), [("A", 0), ("A", 1), ("B", 0), ("A", 0)]);
    assert!(t.soft.is_empty());
}

#[test]
fn stubs_are_read_from_source() {
    let src = "m.set_stub(\"A\", 1, S); m.set_stub(\"A\",10,S); set_stub(\"B\" 2) set_stub(\"A\", 1) \
               set_stub(\"A\", x) set_stub(name, 3) set_stub(\"open";
    assert_eq!(list(&implemented(src)), [("A", 1), ("A", 10), ("B", 2)]);
    assert!(implemented("").is_empty());
}

#[test]
fn lists_of_imports_are_ordered() {
    let v: Vec<Import> =
        [("B", 1), ("A", 10), ("A", 2), ("B", 1)].iter().map(|&(f, o)| make_import(f, o)).collect();
    let d = distinct_imports(&v);
    assert_eq!(list(&d), [("A", 2), ("A", 10), ("B", 1)]);
    assert_eq!(render_imports(&d), "A#2 A#10 B#1");
    assert_eq!(render_imports(&Vec::new()), "");
    assert_eq!(list(&pick_framework(&d, "A")), [("A", 2), ("A", 10)]);
    assert_eq!(list(&drop_held(&d, &vec![make_import("A", 2)])), [("A", 10), ("B", 1)]);
}

#[test]
fn one_title_of_a_name_is_kept() {
    let mut v = Vec::new();
    add_title(&mut v, scan("G_1_1_1", &app()));
    add_title(&mut v, scan("G_1_1_2", &app()));
    add_title(&mut v, scan("H_1_1_2", &app()));
    assert_eq!(v.iter().map(|t| t.name.as_str()).collect::<Vec<_>>(), ["G", "H"]);
}

#[test]
fn the_audit_adds_up() {
    let mut other = app();
    other.image[0x08..0x0c].copy_from_slice(&[0; 4]);
    let v = vec![scan("G_1_1_1", &app()), scan("H_1_1_2", &other)];
    let done = implemented("set_stub(\"A\", 0) set_stub(\"A\", 9)");
    let row = |n: &str, p: i32, c: i32, i: i32, m: i32, s: i32| {
        format!("{n:<14}{p:>5}{c:>8}{i:>6}{m:>9}{s:>7}\n")
    };
    let pad = " ".repeat(14);
    let want = format!(
        "2 titles scanned\n\nframework       pub  called  impl  MISSING   soft\n{}{pad}  missing: \
         [1]\n{pad}  implemented but never called: [9]\n{}{pad}  soft:    [0]\n{}\n=== missing ordinals \
         by how many titles call them ===\n  1/2: A#1\n",
        row("A", 2, 2, 1, 1, 0),
        row("B", 1, 1, 0, 0, 1),
        row("TOTAL", 3, 3, 1, 1, 1),
    );
    assert_eq!(render_audit(&v, &done), want);
    assert_eq!(
        render_per_title(&v, &done),
        format!("\n=== per title ===\n{:<14}  1  A#1\n{:<14}  0  \n", "G", "H")
    );
}

fn counted(name: &str, counts: &[(usize, usize)]) -> Title {
    let mut refs = Vec::new();
    for &(o, n) in counts {
        for _ in 0..n {
            refs.push(make_import("OpenGLES", o));
        }
    }
    refs.push(make_import("Audio", 4));
    Title {
        name: name.to_string(),
        hard: distinct_imports(&refs),
        refs,
        soft: Vec::new(),
        published: Vec::new(),
    }
}

#[test]
fn hand_counts_are_the_control() {
    let mini = [
        (4, 9), (12, 3), (13, 4), (19, 1), (21, 1), (36, 8), (37, 4), (40, 8), (53, 24), (84, 1),
        (99, 1), (101, 1), (125, 1), (137, 8), (157, 1), (158, 1), (159, 5), (165, 2), (167, 1),
        (175, 3),
    ];
    let zuma = [
        (4, 17), (12, 2), (13, 3), (36, 10), (37, 19), (40, 32), (45, 2), (84, 2), (99, 3),
        (105, 1), (125, 17), (137, 32), (148, 16), (157, 1), (158, 1), (159, 17), (165, 26),
        (167, 3), (169, 14), (171, 5), (173, 7), (175, 7),
    ];
    let pac = [
        (4, 2), (12, 3), (13, 2), (35, 2), (36, 3), (37, 6), (38, 2), (40, 6), (99, 2), (125, 1),
        (137, 16), (157, 1), (158, 1), (159, 2), (167, 1),
    ];
    let good = vec![counted("Zuma", &zuma), counted("Minigolf", &mini), counted("Pacman", &pac)];
    let (ok, text) = verify(&good);
    assert!(ok);
    assert_eq!(
        text,
        "verify Minigolf: ok (20 ordinals)\nverify Zuma: ok (22 ordinals)\nverify Pacman: ok (15 \
         ordinals)\n"
    );
    let mut bad = pac.to_vec();
    bad[0].1 = 3;
    bad.remove(1);
    bad.push((200, 1));
    let (ok, text) = verify(&vec![counted("Minigolf", &mini), counted("Pacman", &bad)]);
    assert!(!ok);
    assert_eq!(
        text,
        "verify Minigolf: ok (20 ordinals)\nverify Zuma: NOT SCANNED\nverify Pacman: MISMATCH\n  #4: \
         §18 says Some(2), scan says Some(3)\n  #12: §18 says Some(3), scan says None\n  #200: §18 says \
         None, scan says Some(1)\n"
    );
}
