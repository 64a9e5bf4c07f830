//! Listings of an image: disassembly lines, call trees, cross references and strings.
//!
//! The text of an instruction comes from a disassembler and is handed in.

use vstd::prelude::*;

use crate::arm::{branch_target, is_bl, pool_load, word_after};
#[allow(unused_imports)]
use crate::arm::{branch_to, is_call, is_pool_load, links, pool_address, target, wrap};
use crate::bytes::word_fits;
use crate::image::{fn_len, Img, ImgView};
#[allow(unused_imports)]
use crate::image::{has_word, length_from, string_at, word};
use crate::table::{add_address, find, holds};
#[allow(unused_imports)]
use crate::table::{
    ascending, lemma_filter_map_first, lemma_numbers_first, lemma_with_address,
    lemma_with_address_holds, lookup, numbers, with_address,
};
use crate::text::{push_address, push_dec, push_hex, push_hex_wide, push_run, quoted};
#[allow(unused_imports)]
use crate::text::{address, contains, debug_form, dec, ends, hex, hex_wide, run_of, unsigned};
#[allow(unused_imports)]
use crate::text::{
    begins, law_an_address_is_read_back, law_hex_reads_back, law_parts_are_found,
    lemma_contained_further,
};

verus! {

/// Symbols: names by address, in ascending order of the addresses.
pub type Symbols = Vec<(u32, String)>;

// ---------------------------------------------------------------- symbols

/// The last entry at or below the address.
pub open spec fn nearest(s: Seq<(u32, String)>, addr: u32) -> Option<(u32, String)>
    decreases s.len(),
{
    if s.len() == 0 {
        None
    } else if s.last().0 <= addr {
        Some(s.last())
    } else {
        nearest(s.drop_last(), addr)
    }
}

/// The name of the place that the address belongs to and the distance into it; empty when no
/// symbol stands within 0x2000 bytes before it.
pub open spec fn label_text(s: Seq<(u32, String)>, addr: u32) -> Seq<char> {
    match nearest(s, addr) {
        Some((a, n)) => if addr - a < 0x2000 {
            n@ + "+0x"@ + hex((addr - a) as nat)
        } else {
            ""@
        },
        None => ""@,
    }
}

/// The name of the place that the address belongs to and the distance into it.
pub fn label(syms: &Symbols, addr: u32) -> (out: String)
    ensures
        out@ == label_text(syms@, addr),
{
    let mut i: usize = syms.len();
    assert(syms@.take(i as int) =~= syms@);
    while i > 0
        invariant
            i <= syms@.len(),
            nearest(syms@, addr) == nearest(syms@.take(i as int), addr),
        decreases i,
    {
        assert(syms@.take(i as int).last() == syms@[i - 1]);
        assert(syms@.take(i as int).drop_last() =~= syms@.take(i - 1));
        let a: u32 = syms[i - 1].0;
        if a <= addr {
            if addr - a < 0x2000 {
                let mut out = String::from_str(syms[i - 1].1.as_str());
                out.append("+0x");
                push_hex(&mut out, (addr - a) as u128);
                return out;
            }
            return String::from_str("");
        }
        i -= 1;
    }
    String::from_str("")
}

/// The symbol at the address itself; empty when there is none.
pub open spec fn name_text(s: Seq<(u32, String)>, addr: u32) -> Seq<char> {
    match lookup(s, addr) {
        Some(n) => n@,
        None => ""@,
    }
}

/// In a table that is in order the nearest entry is the one with the greatest address at or below.
pub proof fn law_label_is_nearest(s: Seq<(u32, String)>, addr: u32)
    requires
        crate::table::keys_ascend(s),
    ensures
        match nearest(s, addr) {
            Some((a, n)) => a <= addr && s.contains((a, n)) && forall|k: int|
                0 <= k < s.len() && #[trigger] s[k].0 <= addr ==> s[k].0 <= a,
            None => forall|k: int| 0 <= k < s.len() ==> #[trigger] s[k].0 > addr,
        },
    decreases s.len(),
{
    if s.len() > 0 {
        if s.last().0 <= addr {
            assert(s[s.len() - 1] == s.last());
        } else {
            let rest = s.drop_last();
            assert forall|i: int, j: int| 0 <= i < j < rest.len() implies #[trigger] rest[i].0
                < #[trigger] rest[j].0 by {
                assert(s[i].0 < s[j].0);
            }
            law_label_is_nearest(rest, addr);
            match nearest(rest, addr) {
                Some((a, n)) => {
                    let k = choose|k: int| 0 <= k < rest.len() && rest[k] == (a, n);
                    assert(s[k] == (a, n));
                    assert forall|k: int| 0 <= k < s.len() && #[trigger] s[k].0 <= addr implies s[k].0
                        <= a by {
                        if k < rest.len() {
                            assert(rest[k].0 <= a);
                        }
                    }
                },
                None => {
                    assert forall|k: int| 0 <= k < s.len() implies #[trigger] s[k].0 > addr by {
                        if k < rest.len() {
                            assert(rest[k].0 > addr);
                        }
                    }
                },
            }
        }
    }
}

// ---------------------------------------------------------------- disassembly

/// How many of `count` words from `addr` the image holds without a gap.
pub open spec fn words_held(img: ImgView, addr: u32, count: int) -> int
    decreases count,
{
    if count <= 0 {
        0
    } else {
        let n = words_held(img, addr, count - 1);
        if n == count - 1 && has_word(img, wrap(addr + 4 * n)) {
            count
        } else {
            n
        }
    }
}

/// How many of `count` words from `addr` are to be listed: the listing stops at the first address
/// outside the image.
pub fn dump_len(img: &Img, addr: u32, count: u32) -> (n: u32)
    ensures
        n == words_held(img@, addr, count as int),
        n <= count,
{
    let mut n: u32 = 0;
    while n < count && img.has(word_after(addr, n))
        invariant
            n <= count,
            words_held(img@, addr, n as int) == n,
        decreases count - n,
    {
        n += 1;
    }
    proof {
        lemma_words_held(img@, addr, n as int, count as int);
    }
    n
}

proof fn lemma_words_held(img: ImgView, addr: u32, n: int, count: int)
    requires
        0 <= n <= count,
        words_held(img, addr, n) == n,
        n < count ==> !has_word(img, wrap(addr + 4 * n)),
    ensures
        words_held(img, addr, count) == n,
    decreases count - n,
{
    if n < count {
        if n < count - 1 {
            lemma_words_held(img, addr, n, count - 1);
        }
    }
}

/// What is remarked behind an instruction. The target of a branch, when it has a name; else the
/// string at the word itself; and above both the string that a pool load fetches. The strings
/// stand in quotation marks.
pub open spec fn note_text(
    branch: Option<Seq<char>>,
    direct: Option<Seq<char>>,
    pooled: Option<Seq<char>>,
) -> Seq<char> {
    match (pooled, branch, direct) {
        (Some(s), _, _) => "   ; -> "@ + s,
        (None, Some(n), _) => "   ; "@ + n,
        (None, None, Some(s)) => "   ; "@ + s,
        (None, None, None) => ""@,
    }
}

/// The view of an optional string.
pub open spec fn opt_text(s: Option<String>) -> Option<Seq<char>> {
    match s {
        Some(s) => Some(s@),
        None => None,
    }
}

/// What is remarked behind an instruction.
pub fn render_note(branch: &Option<String>, direct: &Option<String>, pooled: &Option<String>) -> (out:
    String)
    ensures
        out@ == note_text(opt_text(*branch), opt_text(*direct), opt_text(*pooled)),
{
    if let Some(s) = pooled {
        let mut out = String::from_str("   ; -> ");
        out.append(s.as_str());
        return out;
    }
    if let Some(n) = branch {
        let mut out = String::from_str("   ; ");
        out.append(n.as_str());
        return out;
    }
    if let Some(s) = direct {
        let mut out = String::from_str("   ; ");
        out.append(s.as_str());
        return out;
    }
    String::from_str("")
}

/// The name of the place that the branch at `at` goes to.
pub open spec fn branch_name(img: ImgView, syms: Seq<(u32, String)>, at: u32) -> Option<Seq<char>> {
    match branch_to(word(img, at), at) {
        Some(t) => opt_text(lookup(syms, t)),
        None => None,
    }
}

/// The string in quotation marks, when there is one.
pub open spec fn in_quotes(s: Option<Seq<char>>) -> Option<Seq<char>> {
    match s {
        Some(s) => Some(debug_form(s)),
        None => None,
    }
}

/// The string that the pool load at `at` fetches a pointer to.
pub open spec fn pool_string(img: ImgView, at: u32) -> Option<Seq<char>> {
    let w = word(img, at);
    if is_pool_load(w) {
        string_at(img, word(img, pool_address(w, at)))
    } else {
        None
    }
}

/// The line of the instruction at `at`: address, word, text, remark and symbol.
pub open spec fn dump_line(
    img: ImgView,
    syms: Seq<(u32, String)>,
    at: u32,
    text: Seq<char>,
) -> Seq<char> {
    "  "@ + hex_wide(at as nat, 8) + "  "@ + hex_wide(word(img, at) as nat, 8) + "  "@ + text
        + note_text(
        branch_name(img, syms, at),
        in_quotes(string_at(img, word(img, at))),
        in_quotes(pool_string(img, at)),
    ) + (match lookup(syms, at) {
        Some(n) => "  <"@ + n@ + ">"@,
        None => ""@,
    }) + "\n"@
}

fn quote_option(s: Option<String>) -> (r: Option<String>)
    ensures
        opt_text(r) == in_quotes(opt_text(s)),
{
    match s {
        Some(s) => Some(quoted(s.as_str())),
        None => None,
    }
}

/// The line of the instruction at `at`; `text` is its disassembly.
pub fn render_dump_line(img: &Img, syms: &Symbols, at: u32, text: &str) -> (out: String)
    ensures
        out@ == dump_line(img@, syms@, at, text@),
{
    let w: u32 = img.w(at);
    let branch: Option<String> = match branch_target(w, at) {
        Some(t) => match find(syms, t) {
            Some(n) => Some(String::from_str(n.as_str())),
            None => None,
        },
        None => None,
    };
    let direct = quote_option(img.cstr(w));
    let pooled = match pool_load(w, at) {
        Some(p) => quote_option(img.cstr(img.w(p))),
        None => None,
    };
    let mut out = String::from_str("  ");
    push_hex_wide(&mut out, at as u128, 8);
    out.append("  ");
    push_hex_wide(&mut out, w as u128, 8);
    out.append("  ");
    out.append(text);
    out.append(render_note(&branch, &direct, &pooled).as_str());
    match find(syms, at) {
        Some(n) => {
            let mut sym = String::from_str("  <");
            sym.append(n.as_str());
            sym.append(">");
            out.append(sym.as_str());
        },
        None => out.append(""),
    }
    out.append("\n");
    out
}

// ---------------------------------------------------------------- call trees

/// The functions that the first `n` words from `addr` call, in ascending order.
pub open spec fn callees(img: ImgView, addr: u32, n: int) -> Seq<u32>
    decreases n,
{
    if n <= 0 {
        Seq::empty()
    } else {
        let pc = wrap(addr + 4 * (n - 1));
        let w = word(img, pc);
        if is_call(w) {
            with_address(callees(img, addr, n - 1), target(w, pc))
        } else {
            callees(img, addr, n - 1)
        }
    }
}

fn find_callees(img: &Img, addr: u32, n: u32) -> (kids: Vec<u32>)
    ensures
        kids@ == callees(img@, addr, n as int),
{
    let mut kids: Vec<u32> = Vec::new();
    let mut i: u32 = 0;
    while i < n
        invariant
            i <= n,
            kids@ == callees(img@, addr, i as int),
        decreases n - i,
    {
        let pc: u32 = word_after(addr, i);
        let w: u32 = img.w(pc);
        if is_bl(w) {
            if let Some(t) = branch_target(w, pc) {
                add_address(&mut kids, t);
            }
        }
        i += 1;
    }
    kids
}

/// The line of a function in a call tree.
pub open spec fn tree_line(
    syms: Seq<(u32, String)>,
    addr: u32,
    ind: int,
    seen: bool,
) -> Seq<char> {
    run_of(' ', 2 * (ind + 1)) + address(addr) + " "@ + name_text(syms, addr) + (if seen {
        " (seen)\n"@
    } else {
        "\n"@
    })
}

/// The call tree of a function, `depth` levels deep, and the functions that were met. A function
/// that was met before is named and not opened again.
pub open spec fn tree(
    img: ImgView,
    syms: Seq<(u32, String)>,
    addr: u32,
    depth: int,
    ind: int,
    seen: Seq<u32>,
) -> (Seq<char>, Seq<u32>)
    decreases depth, 0int,
{
    if seen.contains(addr) {
        (tree_line(syms, addr, ind, true), seen)
    } else if depth <= 0 {
        (tree_line(syms, addr, ind, false), with_address(seen, addr))
    } else {
        let kids = callees(img, addr, length_from(img, addr, 0));
        let below = forest(img, syms, kids, depth - 1, ind + 1, with_address(seen, addr));
        (tree_line(syms, addr, ind, false) + below.0, below.1)
    }
}

/// The call trees of several functions, one after the other.
pub open spec fn forest(
    img: ImgView,
    syms: Seq<(u32, String)>,
    kids: Seq<u32>,
    depth: int,
    ind: int,
    seen: Seq<u32>,
) -> (Seq<char>, Seq<u32>)
    decreases depth, kids.len(),
{
    if kids.len() == 0 {
        (Seq::empty(), seen)
    } else {
        let first = tree(img, syms, kids[0], depth, ind, seen);
        let rest = forest(img, syms, kids.drop_first(), depth, ind, first.1);
        (first.0 + rest.0, rest.1)
    }
}

fn render_tree_line(syms: &Symbols, addr: u32, ind: u32, seen: bool) -> (out: String)
    ensures
        out@ == tree_line(syms@, addr, ind as int, seen),
{
    let mut out = String::new();
    push_run(&mut out, ' ', ind as usize);
    push_run(&mut out, ' ', ind as usize);
    push_run(&mut out, ' ', 2);
    assert(out@ =~= run_of(' ', 2 * (ind + 1)));
    push_address(&mut out, addr);
    out.append(" ");
    match find(syms, addr) {
        Some(n) => out.append(n.as_str()),
        None => out.append(""),
    }
    if seen {
        out.append(" (seen)\n");
    } else {
        out.append("\n");
    }
    out
}

/// Appends the call tree of a function and notes the functions that were met.
pub fn walk(
    img: &Img,
    syms: &Symbols,
    addr: u32,
    depth: u32,
    ind: u32,
    seen: &mut Vec<u32>,
    out: &mut String,
)
    requires
        old(seen)@.contains(addr) || ind + depth <= u32::MAX,
    ensures
        final(out)@ == old(out)@ + tree(
            img@,
            syms@,
            addr,
            depth as int,
            ind as int,
            old(seen)@,
        ).0,
        final(seen)@ == tree(img@, syms@, addr, depth as int, ind as int, old(seen)@).1,
    decreases depth,
{
    let known = holds(seen, addr);
    out.append(render_tree_line(syms, addr, ind, known).as_str());
    if known {
        return;
    }
    add_address(seen, addr);
    if depth == 0 {
        return;
    }
    let n: u32 = fn_len(img, addr);
    let kids = find_callees(img, addr, n);
    let ghost line = out@;
    let ghost goal = forest(img@, syms@, kids@, depth - 1, ind + 1, seen@);
    let mut i: usize = 0;
    assert(kids@.skip(0) =~= kids@);
    while i < kids.len()
        invariant
            i <= kids@.len(),
            depth > 0,
            ind + depth <= u32::MAX,
            out@ + forest(img@, syms@, kids@.skip(i as int), depth - 1, ind + 1, seen@).0 == line
                + goal.0,
            forest(img@, syms@, kids@.skip(i as int), depth - 1, ind + 1, seen@).1 == goal.1,
        decreases kids@.len() - i,
    {
        let ghost rest = kids@.skip(i as int);
        let ghost first = tree(img@, syms@, rest[0], depth - 1, ind + 1, seen@);
        assert(rest.drop_first() =~= kids@.skip(i + 1));
        let ghost before_kid = out@;
        walk(img, syms, kids[i], depth - 1, ind + 1, seen, out);
        assert(out@ + forest(img@, syms@, rest.drop_first(), depth - 1, ind + 1, first.1).0
            =~= before_kid + (first.0 + forest(
            img@,
            syms@,
            rest.drop_first(),
            depth - 1,
            ind + 1,
            first.1,
        ).0));
        i += 1;
    }
    assert(out@ + Seq::<char>::empty() =~= out@);
    assert(out@ =~= old(out)@ + (tree_line(syms@, addr, ind as int, false) + goal.0));
}

/// The listing of a call tree: a heading, the tree and how many functions it reached.
pub open spec fn walk_text(
    img: ImgView,
    syms: Seq<(u32, String)>,
    addr: u32,
    depth: u32,
) -> Seq<char> {
    let t = tree(img, syms, addr, depth as int, 0, Seq::empty());
    "\n=== call tree from "@ + address(addr) + ", depth "@ + dec(depth as nat) + " ===\n"@ + t.0
        + "  ("@ + dec(t.1.len()) + " distinct functions reachable)\n"@
}

/// The listing of a call tree.
pub fn render_walk(img: &Img, syms: &Symbols, addr: u32, depth: u32) -> (out: String)
    ensures
        out@ == walk_text(img@, syms@, addr, depth),
{
    let mut out = String::from_str("\n=== call tree from ");
    push_address(&mut out, addr);
    out.append(", depth ");
    push_dec(&mut out, depth as u128);
    out.append(" ===\n");
    let mut seen: Vec<u32> = Vec::new();
    walk(img, syms, addr, depth, 0, &mut seen, &mut out);
    out.append("  (");
    push_dec(&mut out, seen.len() as u128);
    out.append(" distinct functions reachable)\n");
    out
}

proof fn lemma_callees(img: ImgView, addr: u32, n: int)
    ensures
        ascending(callees(img, addr, n)),
        forall|t: u32|
            callees(img, addr, n).contains(t) <==> exists|i: int|
                0 <= i < n && #[trigger] calls_at(img, addr, i, t),
    decreases n,
{
    if n > 0 {
        lemma_callees(img, addr, n - 1);
        let before = callees(img, addr, n - 1);
        let pc = wrap(addr + 4 * (n - 1));
        let w = word(img, pc);
        if is_call(w) {
            lemma_with_address(before, target(w, pc));
        }
        assert forall|t: u32|
            callees(img, addr, n).contains(t) <==> exists|i: int|
                0 <= i < n && #[trigger] calls_at(img, addr, i, t) by {
            if callees(img, addr, n).contains(t) {
                if before.contains(t) {
                    let i = choose|i: int| 0 <= i < n - 1 && #[trigger] calls_at(img, addr, i, t);
                    assert(calls_at(img, addr, i, t));
                } else {
                    assert(calls_at(img, addr, n - 1, t));
                }
            }
            if exists|i: int| 0 <= i < n && #[trigger] calls_at(img, addr, i, t) {
                let i = choose|i: int| 0 <= i < n && #[trigger] calls_at(img, addr, i, t);
                if i < n - 1 {
                    assert(before.contains(t));
                }
            }
        }
    }
}

/// The `i`-th word from `addr` calls the function at `t`.
pub open spec fn calls_at(img: ImgView, addr: u32, i: int, t: u32) -> bool {
    let pc = wrap(addr + 4 * i);
    is_call(word(img, pc)) && target(word(img, pc), pc) == t
}

/// The callees of a function are exactly the targets of its calls, each once, in ascending order.
pub proof fn law_callees_are_exact(img: ImgView, addr: u32, n: int)
    ensures
        ascending(callees(img, addr, n)),
        forall|t: u32|
            callees(img, addr, n).contains(t) <==> exists|i: int|
                0 <= i < n && #[trigger] calls_at(img, addr, i, t),
{
    lemma_callees(img, addr, n);
}

/// A walk forgets nothing that was met before it and has met its root; what stood in order, each
/// function once, stays so.
pub proof fn law_walk_remembers(
    img: ImgView,
    syms: Seq<(u32, String)>,
    addr: u32,
    depth: int,
    ind: int,
    seen: Seq<u32>,
)
    ensures
        ({
            let t = tree(img, syms, addr, depth, ind, seen).1;
            &&& t.contains(addr)
            &&& forall|x: u32| seen.contains(x) ==> t.contains(x)
            &&& ascending(seen) ==> ascending(t)
        }),
    decreases depth, 0int,
{
    if !seen.contains(addr) {
        let next = with_address(seen, addr);
        assert forall|x: u32| next.contains(x) == (seen.contains(x) || x == addr) by {
            lemma_with_address_holds(seen, addr, x);
        }
        if ascending(seen) {
            lemma_with_address(seen, addr);
        }
        assert(next.contains(addr));
        if depth > 0 {
            let kids = callees(img, addr, length_from(img, addr, 0));
            lemma_forest_remembers(img, syms, kids, depth - 1, ind + 1, next);
        }
    }
}

proof fn lemma_forest_remembers(
    img: ImgView,
    syms: Seq<(u32, String)>,
    kids: Seq<u32>,
    depth: int,
    ind: int,
    seen: Seq<u32>,
)
    ensures
        forall|x: u32| seen.contains(x) ==> forest(img, syms, kids, depth, ind, seen).1.contains(x),
        ascending(seen) ==> ascending(forest(img, syms, kids, depth, ind, seen).1),
    decreases depth, kids.len(),
{
    if kids.len() > 0 {
        law_walk_remembers(img, syms, kids[0], depth, ind, seen);
        let first = tree(img, syms, kids[0], depth, ind, seen);
        lemma_forest_remembers(img, syms, kids.drop_first(), depth, ind, first.1);
    }
}

/// A function that was met before is named and not opened, so a second walk from the same address,
/// at whatever depth and indent, says only that it was seen and adds nothing: cycles end.
pub proof fn law_a_second_walk_adds_nothing(
    img: ImgView,
    syms: Seq<(u32, String)>,
    addr: u32,
    depth: int,
    ind: int,
    seen: Seq<u32>,
    again: int,
    at: int,
)
    ensures
        seen.contains(addr) ==> tree(img, syms, addr, depth, ind, seen) == (
            tree_line(syms, addr, ind, true),
            seen,
        ),
        ({
            let met = tree(img, syms, addr, depth, ind, seen).1;
            tree(img, syms, addr, again, at, met) == (tree_line(syms, addr, at, true), met)
        }),
{
    law_walk_remembers(img, syms, addr, depth, ind, seen);
}

// ---------------------------------------------------------------- cross references

/// The address of the word at a file offset.
pub open spec fn place(img: ImgView, off: int) -> u32 {
    wrap(img.base + off)
}

/// The branch to `t` in the word at `off`, if it is one: where it stands and whether it links.
pub open spec fn branch_here(img: ImgView, t: u32, off: int) -> Seq<(u32, bool)> {
    let pc = place(img, off);
    let w = word(img, pc);
    if branch_to(w, pc) == Some(t) {
        seq![(pc, links(w))]
    } else {
        Seq::empty()
    }
}

/// The branches to `t` from the word at `off` on: where they stand and whether they link. The scan
/// ends four bytes before the end of the image.
pub open spec fn branches_from(img: ImgView, t: u32, off: int) -> Seq<(u32, bool)>
    decreases img.d.len() - off,
{
    if off + 4 >= img.d.len() {
        Seq::empty()
    } else {
        branch_here(img, t, off) + branches_from(img, t, off + 4)
    }
}

/// The place of the word at `off`, if it holds `v`.
pub open spec fn word_here(img: ImgView, v: u32, off: int) -> Seq<u32> {
    let pc = place(img, off);
    if word(img, pc) == v {
        seq![pc]
    } else {
        Seq::empty()
    }
}

/// The places from the word at `off` on that hold the word `v`.
pub open spec fn words_from(img: ImgView, v: u32, off: int) -> Seq<u32>
    decreases img.d.len() - off,
{
    if off + 4 > img.d.len() {
        Seq::empty()
    } else {
        word_here(img, v, off) + words_from(img, v, off + 4)
    }
}

/// The address of the word at a file offset.
pub fn place_of(img: &Img, off: usize) -> (pc: u32)
    ensures
        pc == place(img@, off as int),
{
    ((img.base as u128 + off as u128) % 0x1_0000_0000) as u32
}

/// The branches to `t`, up to four bytes before the end of the image: where they stand and whether
/// they link.
pub fn branches_to(img: &Img, t: u32) -> (hits: Vec<(u32, bool)>)
    ensures
        hits@ == branches_from(img@, t, 0),
{
    let mut hits: Vec<(u32, bool)> = Vec::new();
    let mut off: usize = 0;
    assert(hits@ + branches_from(img@, t, 0) =~= branches_from(img@, t, 0));
    assert(img.d@.len() == img.d.len());
    while img.d.len() > 4 && off < img.d.len() - 4
        invariant
            img.d@.len() <= usize::MAX,
            off <= img.d@.len(),
            hits@ + branches_from(img@, t, off as int) == branches_from(img@, t, 0),
        decreases img.d@.len() - off,
    {
        let pc: u32 = place_of(img, off);
        let w: u32 = img.w(pc);
        let ghost done = hits@;
        let hit = match branch_target(w, pc) {
            Some(x) => x == t,
            None => false,
        };
        if hit {
            hits.push((pc, is_bl(w)));
            assert(hits@ + branches_from(img@, t, off + 4) =~= done + (seq![(pc, links(w))]
                + branches_from(img@, t, off + 4)));
        } else {
            assert(hits@ + branches_from(img@, t, off + 4) =~= done + (Seq::<(u32, bool)>::empty()
                + branches_from(img@, t, off + 4)));
        }
        off += 4;
    }
    assert(hits@ + Seq::<(u32, bool)>::empty() =~= hits@);
    hits
}

/// Every place that holds the word `v`.
pub fn words_equal(img: &Img, v: u32) -> (hits: Vec<u32>)
    ensures
        hits@ == words_from(img@, v, 0),
{
    let mut hits: Vec<u32> = Vec::new();
    let mut off: usize = 0;
    assert(hits@ + words_from(img@, v, 0) =~= words_from(img@, v, 0));
    assert(img.d@.len() == img.d.len());
    while word_fits(img.d.as_slice(), off)
        invariant
            img.d@.len() <= usize::MAX,
            off <= img.d@.len(),
            hits@ + words_from(img@, v, off as int) == words_from(img@, v, 0),
        decreases img.d@.len() - off,
    {
        let pc: u32 = place_of(img, off);
        let ghost done = hits@;
        if img.w(pc) == v {
            hits.push(pc);
            assert(hits@ + words_from(img@, v, off + 4) =~= done + (seq![pc] + words_from(
                img@,
                v,
                off + 4,
            )));
        } else {
            assert(hits@ + words_from(img@, v, off + 4) =~= done + (Seq::<u32>::empty() + words_from(
                img@,
                v,
                off + 4,
            )));
        }
        off += 4;
    }
    assert(hits@ + Seq::<u32>::empty() =~= hits@);
    hits
}

proof fn lemma_branch_kept(img: ImgView, t: u32, from: int, n: nat, hit: (u32, bool))
    requires
        0 <= from,
        from + 4 * n + 4 < img.d.len(),
        branch_here(img, t, from + 4 * n).contains(hit),
    ensures
        branches_from(img, t, from).contains(hit),
    decreases n,
{
    let head = branch_here(img, t, from);
    let rest = branches_from(img, t, from + 4);
    let all = branches_from(img, t, from);
    assert(all == head + rest);
    if n == 0 {
        let k = choose|k: int| 0 <= k < head.len() && head[k] == hit;
        assert(all[k] == hit);
    } else {
        let m = (n - 1) as nat;
        assert(from + 4 + 4 * m == from + 4 * n);
        lemma_branch_kept(img, t, from + 4, m, hit);
        let k = choose|k: int| 0 <= k < rest.len() && rest[k] == hit;
        assert(all[head.len() + k] == hit);
    }
}

/// Every branch to `t` is found, wherever its word stands among those that the scan covers.
pub proof fn law_branches_are_all_found(img: ImgView, t: u32, n: nat)
    requires
        4 * n + 4 < img.d.len(),
        branch_to(word(img, place(img, 4 * n as int)), place(img, 4 * n as int)) == Some(t),
    ensures
        branches_from(img, t, 0).contains(
            (place(img, 4 * n as int), links(word(img, place(img, 4 * n as int)))),
        ),
{
    let pc = place(img, 4 * n as int);
    let hit = (pc, links(word(img, pc)));
    assert(branch_here(img, t, 4 * n as int)[0] == hit);
    lemma_branch_kept(img, t, 0, n, hit);
}

/// Whatever the scan reports branches to `t`.
pub proof fn law_branches_are_no_inventions(img: ImgView, t: u32, from: int)
    ensures
        forall|k: int|
            0 <= k < branches_from(img, t, from).len() ==> {
                let (pc, link) = #[trigger] branches_from(img, t, from)[k];
                branch_to(word(img, pc), pc) == Some(t) && link == links(word(img, pc))
            },
    decreases img.d.len() - from,
{
    if from + 4 < img.d.len() {
        law_branches_are_no_inventions(img, t, from + 4);
        let all = branches_from(img, t, from);
        let rest = branches_from(img, t, from + 4);
        let n = all.len() - rest.len();
        assert forall|k: int| 0 <= k < all.len() implies {
            let (pc, link) = #[trigger] all[k];
            branch_to(word(img, pc), pc) == Some(t) && link == links(word(img, pc))
        } by {
            if k >= n {
                assert(all[k] == rest[k - n]);
            }
        }
    }
}

proof fn lemma_word_kept(img: ImgView, v: u32, from: int, n: nat, hit: u32)
    requires
        0 <= from,
        from + 4 * n + 4 <= img.d.len(),
        word_here(img, v, from + 4 * n).contains(hit),
    ensures
        words_from(img, v, from).contains(hit),
    decreases n,
{
    let head = word_here(img, v, from);
    let rest = words_from(img, v, from + 4);
    let all = words_from(img, v, from);
    assert(all == head + rest);
    if n == 0 {
        let k = choose|k: int| 0 <= k < head.len() && head[k] == hit;
        assert(all[k] == hit);
    } else {
        let m = (n - 1) as nat;
        assert(from + 4 + 4 * m == from + 4 * n);
        lemma_word_kept(img, v, from + 4, m, hit);
        let k = choose|k: int| 0 <= k < rest.len() && rest[k] == hit;
        assert(all[head.len() + k] == hit);
    }
}

/// Every word that equals `v` is found, the last one of the image included.
pub proof fn law_words_are_all_found(img: ImgView, v: u32, n: nat)
    requires
        4 * n + 4 <= img.d.len(),
        word(img, place(img, 4 * n as int)) == v,
    ensures
        words_from(img, v, 0).contains(place(img, 4 * n as int)),
{
    let pc = place(img, 4 * n as int);
    assert(word_here(img, v, 4 * n as int)[0] == pc);
    lemma_word_kept(img, v, 0, n, pc);
}

/// Whatever the scan reports equals `v`.
pub proof fn law_words_are_no_inventions(img: ImgView, v: u32, from: int)
    ensures
        forall|k: int|
            0 <= k < words_from(img, v, from).len() ==> word(
                img,
                #[trigger] words_from(img, v, from)[k],
            ) == v,
    decreases img.d.len() - from,
{
    if from + 4 <= img.d.len() {
        law_words_are_no_inventions(img, v, from + 4);
        let head = word_here(img, v, from);
        let rest = words_from(img, v, from + 4);
        let all = words_from(img, v, from);
        assert(all == head + rest);
        assert forall|k: int| 0 <= k < all.len() implies word(img, #[trigger] all[k]) == v by {
            if k < head.len() {
                assert(all[k] == head[k]);
            } else {
                assert(all[k] == rest[k - head.len()]);
            }
        }
    }
}

/// The line of a branch.
pub open spec fn xref_line(syms: Seq<(u32, String)>, hit: (u32, bool)) -> Seq<char> {
    "  "@ + address(hit.0) + (if hit.1 {
        "  bl   "@
    } else {
        "  b    "@
    }) + label_text(syms, hit.0) + "\n"@
}

/// The lines of the first `n` branches.
pub open spec fn xref_lines(syms: Seq<(u32, String)>, hits: Seq<(u32, bool)>, n: int) -> Seq<char>
    decreases n,
{
    if n <= 0 {
        Seq::empty()
    } else {
        xref_lines(syms, hits, n - 1) + xref_line(syms, hits[n - 1])
    }
}

/// The listing of the branches to `t`.
pub open spec fn xref_text(img: ImgView, syms: Seq<(u32, String)>, t: u32) -> Seq<char> {
    let hits = branches_from(img, t, 0);
    "\n=== branches to "@ + address(t) + " ===\n"@ + xref_lines(syms, hits, hits.len() as int)
        + "  "@ + dec(hits.len()) + " total\n"@
}

/// The listing of the branches to `t`.
pub fn render_xref(img: &Img, syms: &Symbols, t: u32) -> (out: String)
    ensures
        out@ == xref_text(img@, syms@, t),
{
    let hits = branches_to(img, t);
    let mut lines = String::new();
    let mut i: usize = 0;
    while i < hits.len()
        invariant
            i <= hits@.len(),
            lines@ == xref_lines(syms@, hits@, i as int),
        decreases hits@.len() - i,
    {
        let mut line = String::from_str("  ");
        push_address(&mut line, hits[i].0);
        if hits[i].1 {
            line.append("  bl   ");
        } else {
            line.append("  b    ");
        }
        line.append(label(syms, hits[i].0).as_str());
        line.append("\n");
        lines.append(line.as_str());
        i += 1;
    }
    let mut out = String::from_str("\n=== branches to ");
    push_address(&mut out, t);
    out.append(" ===\n");
    out.append(lines.as_str());
    out.append("  ");
    push_dec(&mut out, hits.len() as u128);
    out.append(" total\n");
    out
}

/// The lines of the first `n` places.
pub open spec fn word_lines(syms: Seq<(u32, String)>, hits: Seq<u32>, n: int) -> Seq<char>
    decreases n,
{
    if n <= 0 {
        Seq::empty()
    } else {
        word_lines(syms, hits, n - 1) + ("  "@ + address(hits[n - 1]) + "   in "@ + label_text(
            syms,
            hits[n - 1],
        ) + "\n"@)
    }
}

/// The listing of the places that hold `v`: all are counted, the first forty are shown.
pub open spec fn wordref_text(img: ImgView, syms: Seq<(u32, String)>, v: u32) -> Seq<char> {
    let hits = words_from(img, v, 0);
    "\n=== words equal to "@ + address(v) + " ===\n"@ + word_lines(
        syms,
        hits,
        if hits.len() < 40 {
            hits.len() as int
        } else {
            40
        },
    ) + "  "@ + dec(hits.len()) + " total\n"@
}

/// The listing of the places that hold `v`.
pub fn render_wordref(img: &Img, syms: &Symbols, v: u32) -> (out: String)
    ensures
        out@ == wordref_text(img@, syms@, v),
{
    let hits = words_equal(img, v);
    let shown: usize = if hits.len() < 40 {
        hits.len()
    } else {
        40
    };
    let mut lines = String::new();
    let mut i: usize = 0;
    while i < shown
        invariant
            i <= shown <= hits@.len(),
            lines@ == word_lines(syms@, hits@, i as int),
        decreases shown - i,
    {
        let mut line = String::from_str("  ");
        push_address(&mut line, hits[i]);
        line.append("   in ");
        line.append(label(syms, hits[i]).as_str());
        line.append("\n");
        lines.append(line.as_str());
        i += 1;
    }
    let mut out = String::from_str("\n=== words equal to ");
    push_address(&mut out, v);
    out.append(" ===\n");
    out.append(lines.as_str());
    out.append("  ");
    push_dec(&mut out, hits.len() as u128);
    out.append(" total\n");
    out
}

/// The instructions that are listed are those that the image holds, from the first on and no more
/// than asked for.
pub proof fn law_a_listing_ends_with_the_image(img: ImgView, addr: u32, count: int)
    requires
        0 <= count,
    ensures
        ({
            let n = words_held(img, addr, count);
            &&& 0 <= n <= count
            &&& forall|k: int| 0 <= k < n ==> has_word(img, #[trigger] wrap(addr + 4 * k))
            &&& n < count ==> !has_word(img, wrap(addr + 4 * n))
        }),
    decreases count,
{
    if count > 0 {
        law_a_listing_ends_with_the_image(img, addr, count - 1);
    }
}

/// A call tree names a function once in full and marks it where it comes again, and what it has
/// met is the function and what is met below it, all of it reached by calls.
pub proof fn law_a_tree_goes_by_calls(
    img: ImgView,
    syms: Seq<(u32, String)>,
    addr: u32,
    depth: int,
    ind: int,
    seen: Seq<u32>,
    t: u32,
)
    requires
        !seen.contains(addr),
        depth > 0,
        calls_at_some(img, addr, t),
    ensures
        tree(img, syms, addr, depth, ind, seen).1.contains(t),
{
    let kids = callees(img, addr, length_from(img, addr, 0));
    law_callees_are_exact(img, addr, length_from(img, addr, 0));
    let i = choose|i: int|
        0 <= i < length_from(img, addr, 0) && #[trigger] calls_at(img, addr, i, t);
    assert(kids.contains(t));
    lemma_forest_meets(img, syms, kids, depth - 1, ind + 1, with_address(seen, addr), t);
}

/// The body of a function calls another.
pub open spec fn calls_at_some(img: ImgView, addr: u32, t: u32) -> bool {
    exists|i: int| 0 <= i < length_from(img, addr, 0) && #[trigger] calls_at(img, addr, i, t)
}

proof fn lemma_forest_meets(
    img: ImgView,
    syms: Seq<(u32, String)>,
    kids: Seq<u32>,
    depth: int,
    ind: int,
    seen: Seq<u32>,
    t: u32,
)
    requires
        kids.contains(t),
    ensures
        forest(img, syms, kids, depth, ind, seen).1.contains(t),
    decreases kids.len(),
{
    let first = tree(img, syms, kids[0], depth, ind, seen);
    law_walk_remembers(img, syms, kids[0], depth, ind, seen);
    lemma_forest_remembers(img, syms, kids.drop_first(), depth, ind, first.1);
    if kids[0] != t {
        let k = choose|k: int| 0 <= k < kids.len() && kids[k] == t;
        assert(kids.drop_first()[k - 1] == t);
        lemma_forest_meets(img, syms, kids.drop_first(), depth, ind, first.1, t);
    }
}

/// With no depth left, only the function itself is met.
pub proof fn law_a_tree_stops_at_its_depth(
    img: ImgView,
    syms: Seq<(u32, String)>,
    addr: u32,
    ind: int,
    seen: Seq<u32>,
    x: u32,
)
    ensures
        tree(img, syms, addr, 0, ind, seen).1.contains(x) <==> seen.contains(x) || x == addr,
{
    lemma_with_address_holds(seen, addr, x);
}

// ---------------------------------------------------------------- what the lines say

/// An address is labelled just where a symbol stands at it or less than eight kilobytes before it:
/// with the name of the nearest one and the distance, which reads back.
#[verifier::rlimit(60)]
pub proof fn law_labels_reach_eight_kilobytes(s: Seq<(u32, String)>, addr: u32)
    requires
        crate::table::keys_ascend(s),
    ensures
        match nearest(s, addr) {
            Some((a, n)) => if addr - a < 8192 {
                label_text(s, addr) == n@ + "+0x"@ + hex((addr - a) as nat) && unsigned(
                    label_text(s, addr).skip((n@.len() + 3) as int),
                    true,
                    8191,
                ) == Some(addr - a)
            } else {
                label_text(s, addr).len() == 0
            },
            None => label_text(s, addr).len() == 0,
        },
{
    reveal_strlit("");
    reveal_strlit("+0x");
    law_label_is_nearest(s, addr);
    match nearest(s, addr) {
        Some((a, n)) => {
            if addr - a < 8192 {
                let h = hex((addr - a) as nat);
                law_hex_reads_back((addr - a) as nat, 0, 8191);
                assert(label_text(s, addr).skip((n@.len() + 3) as int) =~= h);
            }
        },
        None => {},
    }
}

/// A line of a listing begins with its address and its word, both of which read back, and the text
/// of the instruction; a name of its address stands at its end.
#[verifier::rlimit(60)]
pub proof fn law_a_listed_line_is_read_back(
    img: ImgView,
    syms: Seq<(u32, String)>,
    at: u32,
    text: Seq<char>,
)
    ensures
        ({
            let line = dump_line(img, syms, at, text);
            &&& unsigned(line.subrange(2, 10), true, 0xffff_ffff) == Some(at as int)
            &&& unsigned(line.subrange(12, 20), true, 0xffff_ffff) == Some(word(img, at) as int)
            &&& line.subrange(22, 22 + text.len() as int) == text
            &&& line.last() == '\n'
            &&& match lookup(syms, at) {
                Some(n) => ends(line, "  <"@ + n@ + ">\n"@),
                None => true,
            }
        }),
{
    reveal_strlit("  ");
    reveal_strlit("\n");
    reveal_strlit("  <");
    reveal_strlit(">");
    reveal_strlit(">\n");
    reveal_strlit("");
    let line = dump_line(img, syms, at, text);
    let w = word(img, at);
    lemma_eight_digits(at);
    lemma_eight_digits(w);
    assert(line.subrange(2, 10) =~= hex_wide(at as nat, 8));
    assert(line.subrange(12, 20) =~= hex_wide(w as nat, 8));
    assert(line.subrange(22, 22 + text.len() as int) =~= text);
    match lookup(syms, at) {
        Some(n) => {
            let t = "  <"@ + n@ + ">\n"@;
            assert(line.skip(line.len() - t.len()) =~= t);
        },
        None => {},
    }
}

proof fn lemma_eight_digits(n: u32)
    ensures
        hex_wide(n as nat, 8).len() == 8,
        unsigned(hex_wide(n as nat, 8), true, 0xffff_ffff) == Some(n as int),
{
    law_hex_reads_back(n as nat, 8, 0xffff_ffff);
    reveal_with_fuel(hex, 9);
}

/// What is remarked is one thing: the string that a load fetches before all else, then the name
/// that a branch goes to, then the string that the word itself points at.
#[verifier::rlimit(60)]
pub proof fn law_one_thing_is_remarked(p: Seq<char>, b: Option<Seq<char>>, d: Option<Seq<char>>, n: Seq<char>)
    ensures
        ends(note_text(b, d, Some(p)), p),
        ends(note_text(Some(n), d, None), n),
        ends(note_text(None, Some(n), None), n),
        note_text(None, None, None).len() == 0,
{
    reveal_strlit("");
    reveal_strlit("   ; -> ");
    reveal_strlit("   ; ");
    let x = note_text(b, d, Some(p));
    let y = note_text(Some(n), d, None);
    let z = note_text(None, Some(n), None);
    assert(x.skip(x.len() - p.len()) =~= p);
    assert(y.skip(y.len() - n.len()) =~= n);
    assert(z.skip(z.len() - n.len()) =~= n);
}

/// A line of a call tree is set in by two blanks for each level, the first level by two, and shows
/// the address; it says where a function was met before.
#[verifier::rlimit(60)]
pub proof fn law_a_tree_line_shows_its_level(
    syms: Seq<(u32, String)>,
    addr: u32,
    ind: int,
    seen: bool,
)
    requires
        0 <= ind,
    ensures
        ({
            let line = tree_line(syms, addr, ind, seen);
            &&& forall|k: int| 0 <= k < 2 * ind + 2 ==> #[trigger] line[k] == ' '
            &&& line.subrange(2 * ind + 2, 2 * ind + 12) == address(addr)
            &&& line.last() == '\n'
            &&& seen ==> ends(line, " (seen)\n"@)
            &&& seen ==> line.len() == tree_line(syms, addr, ind, false).len() + 7
        }),
{
    reveal_strlit(" ");
    reveal_strlit("\n");
    reveal_strlit(" (seen)\n");
    reveal_strlit("(seen)\n");
    reveal_strlit("");
    let line = tree_line(syms, addr, ind, seen);
    if seen {
        assert(line.skip(line.len() - 8) =~= " (seen)\n"@);
    }
    law_an_address_is_read_back(addr);
    assert(line.subrange(2 * ind + 2, 2 * ind + 12) =~= address(addr));
}

/// A line of a cross reference shows the place of the branch, and whether it links.
pub proof fn law_a_reference_line_is_read_back(syms: Seq<(u32, String)>, hit: (u32, bool))
    ensures
        xref_line(syms, hit).subrange(2, 12) == address(hit.0),
        xref_line(syms, hit)[15] == (if hit.1 {
            'l'
        } else {
            ' '
        }),
        xref_line(syms, hit)[14] == 'b',
{
    reveal_strlit("  ");
    reveal_strlit("  bl   ");
    reveal_strlit("  b    ");
    reveal_strlit("\n");
    let line = xref_line(syms, hit);
    law_an_address_is_read_back(hit.0);
    assert(line.subrange(2, 12) =~= address(hit.0));
}

/// However many words there are, no more than forty lines are shown, the first ones, and the total
/// is that of all.
#[verifier::rlimit(60)]
pub proof fn law_forty_words_are_shown(img: ImgView, syms: Seq<(u32, String)>, v: u32)
    ensures
        ({
            let hits = words_from(img, v, 0);
            let text = wordref_text(img, syms, v);
            &&& ends(text, "  "@ + dec(hits.len()) + " total\n"@)
            &&& hits.len() <= 40 ==> contains(text, word_lines(syms, hits, hits.len() as int))
            &&& hits.len() > 40 ==> contains(text, word_lines(syms, hits, 40))
        }),
{
    let hits = words_from(img, v, 0);
    let text = wordref_text(img, syms, v);
    let t = "  "@ + dec(hits.len()) + " total\n"@;
    assert(text.skip(text.len() - t.len()) =~= t);
    let head = "\n=== words equal to "@ + address(v) + " ===\n"@;
    let n = if hits.len() < 40 {
        hits.len() as int
    } else {
        40
    };
    let l = word_lines(syms, hits, n);
    assert(text =~= head + l + t);
    law_parts_are_found(head, l, t, text);
}

/// The references of a listing of branches are counted, all of them.
pub proof fn law_branches_are_counted(img: ImgView, syms: Seq<(u32, String)>, t: u32)
    ensures
        ends(
            xref_text(img, syms, t),
            "  "@ + dec(branches_from(img, t, 0).len()) + " total\n"@,
        ),
{
    let text = xref_text(img, syms, t);
    let z = "  "@ + dec(branches_from(img, t, 0).len()) + " total\n"@;
    assert(text.skip(text.len() - z.len()) =~= z);
}

proof fn lemma_branches_exact(img: ImgView, t: u32, i: int, n: nat)
    requires
        0 <= i,
        4 * (i + n) + 4 >= img.d.len(),
        n > 0 ==> 4 * (i + n - 1) + 4 < img.d.len(),
    ensures
        branches_from(img, t, 4 * i) == numbers(i, n).filter_map(
            |k: int|
                {
                    let pc = place(img, 4 * k);
                    if branch_to(word(img, pc), pc) == Some(t) {
                        Some((pc, links(word(img, pc))))
                    } else {
                        None
                    }
                },
        ),
    decreases n,
{
    let f = |k: int|
        {
            let pc = place(img, 4 * k);
            if branch_to(word(img, pc), pc) == Some(t) {
                Some((pc, links(word(img, pc))))
            } else {
                None
            }
        };
    if n > 0 {
        lemma_branches_exact(img, t, i + 1, (n - 1) as nat);
        lemma_numbers_first(i, n);
        let rest = numbers(i + 1, (n - 1) as nat);
        lemma_filter_map_first(i, rest, f);
        let none = Seq::<(u32, bool)>::empty();
        assert(none + rest.filter_map(f) =~= rest.filter_map(f));
    } else {
        assert(numbers(i, n).filter_map(f) =~= Seq::empty());
    }
}

/// The branches to a place are those of the words of the image, but for the last, that branch there,
/// each once and in order.
pub proof fn law_branches_are_listed_in_order(img: ImgView, t: u32)
    requires
        img.d.len() > 0,
    ensures
        branches_from(img, t, 0) == numbers(0, ((img.d.len() - 1) / 4) as nat).filter_map(
            |k: int|
                {
                    let pc = place(img, 4 * k);
                    if branch_to(word(img, pc), pc) == Some(t) {
                        Some((pc, links(word(img, pc))))
                    } else {
                        None
                    }
                },
        ),
{
    lemma_branches_exact(img, t, 0, ((img.d.len() - 1) / 4) as nat);
}

proof fn lemma_words_exact(img: ImgView, v: u32, i: int, n: nat)
    requires
        0 <= i,
        4 * (i + n) + 4 > img.d.len(),
        n > 0 ==> 4 * (i + n) <= img.d.len(),
    ensures
        words_from(img, v, 4 * i) == numbers(i, n).filter_map(
            |k: int|
                {
                    let pc = place(img, 4 * k);
                    if word(img, pc) == v {
                        Some(pc)
                    } else {
                        None
                    }
                },
        ),
    decreases n,
{
    let f = |k: int|
        {
            let pc = place(img, 4 * k);
            if word(img, pc) == v {
                Some(pc)
            } else {
                None
            }
        };
    if n > 0 {
        lemma_words_exact(img, v, i + 1, (n - 1) as nat);
        lemma_numbers_first(i, n);
        let rest = numbers(i + 1, (n - 1) as nat);
        lemma_filter_map_first(i, rest, f);
        let none = Seq::<u32>::empty();
        assert(none + rest.filter_map(f) =~= rest.filter_map(f));
    } else {
        assert(numbers(i, n).filter_map(f) =~= Seq::empty());
    }
}

/// The words that are equal to a value are listed each once and in order, from the first word of the
/// image to the last.
pub proof fn law_words_are_listed_in_order(img: ImgView, v: u32)
    ensures
        words_from(img, v, 0) == numbers(0, img.d.len() / 4).filter_map(
            |k: int|
                {
                    let pc = place(img, 4 * k);
                    if word(img, pc) == v {
                        Some(pc)
                    } else {
                        None
                    }
                },
        ),
{
    lemma_words_exact(img, v, 0, img.d.len() / 4);
}

/// The place of an offset is as far above the base as the offset is into the image.
pub proof fn law_a_place_is_above_the_base(img: ImgView, off: int)
    ensures
        place(img, off) == ((img.base + off) % 0x1_0000_0000) as u32,
{
}

/// A function that is called is shown below its caller, two blanks further in.
pub proof fn law_a_callee_is_set_in(
    img: ImgView,
    syms: Seq<(u32, String)>,
    addr: u32,
    depth: int,
    ind: int,
    seen: Seq<u32>,
    t: u32,
)
    requires
        !seen.contains(addr),
        depth > 0,
        calls_at_some(img, addr, t),
    ensures
        begins(tree(img, syms, addr, depth, ind, seen).0, run_of(' ', 2 * ind + 2) + address(addr)),
        contains(
            tree(img, syms, addr, depth, ind, seen).0,
            run_of(' ', 2 * ind + 4) + address(t),
        ),
{
    let kids = callees(img, addr, length_from(img, addr, 0));
    law_callees_are_exact(img, addr, length_from(img, addr, 0));
    let i = choose|i: int|
        0 <= i < length_from(img, addr, 0) && #[trigger] calls_at(img, addr, i, t);
    assert(kids.contains(t));
    let below = forest(img, syms, kids, depth - 1, ind + 1, with_address(seen, addr));
    lemma_forest_shows(img, syms, kids, depth - 1, ind + 1, with_address(seen, addr), t);
    lemma_tree_begins(img, syms, addr, depth, ind, seen);
    let line = tree_line(syms, addr, ind, false);
    let none = Seq::<char>::empty();
    lemma_contained_further(line, below.0, none, run_of(' ', 2 * ind + 4) + address(t));
    assert(line + below.0 + none =~= tree(img, syms, addr, depth, ind, seen).0);
}

proof fn lemma_tree_begins(
    img: ImgView,
    syms: Seq<(u32, String)>,
    addr: u32,
    depth: int,
    ind: int,
    seen: Seq<u32>,
)
    ensures
        begins(
            tree(img, syms, addr, depth, ind, seen).0,
            run_of(' ', 2 * ind + 2) + address(addr),
        ),
{
    let p = run_of(' ', 2 * ind + 2) + address(addr);
    let s = tree(img, syms, addr, depth, ind, seen).0;
    let line = tree_line(syms, addr, ind, seen.contains(addr));
    assert(2 * (ind + 1) == 2 * ind + 2);
    assert(line.take(p.len() as int) =~= p);
    assert(s.take(p.len() as int) =~= line.take(p.len() as int));
}

#[verifier::rlimit(60)]
proof fn lemma_forest_shows(
    img: ImgView,
    syms: Seq<(u32, String)>,
    kids: Seq<u32>,
    depth: int,
    ind: int,
    seen: Seq<u32>,
    t: u32,
)
    requires
        kids.contains(t),
    ensures
        contains(
            forest(img, syms, kids, depth, ind, seen).0,
            run_of(' ', 2 * ind + 2) + address(t),
        ),
    decreases kids.len(),
{
    let p = run_of(' ', 2 * ind + 2) + address(t);
    let first = tree(img, syms, kids[0], depth, ind, seen);
    let rest = forest(img, syms, kids.drop_first(), depth, ind, first.1);
    let none = Seq::<char>::empty();
    if kids[0] != t {
        let k = choose|k: int| 0 <= k < kids.len() && kids[k] == t;
        assert(kids.drop_first()[k - 1] == t);
        lemma_forest_shows(img, syms, kids.drop_first(), depth, ind, first.1, t);
        lemma_contained_further(first.0, rest.0, none, p);
        assert(first.0 + rest.0 + none =~= first.0 + rest.0);
    } else {
        lemma_tree_begins(img, syms, t, depth, ind, seen);
        law_parts_are_found(none, p, first.0.skip(p.len() as int), first.0);
        assert(none + p + first.0.skip(p.len() as int) =~= first.0);
        lemma_contained_further(none, first.0, rest.0, p);
        assert(none + first.0 + rest.0 =~= first.0 + rest.0);
    }
}

/// A call tree is headed by its root and its depth, and ends with the number of functions that were
/// met.
pub proof fn law_a_walk_ends_with_its_count(
    img: ImgView,
    syms: Seq<(u32, String)>,
    addr: u32,
    depth: u32,
)
    ensures
        ({
            let t = tree(img, syms, addr, depth as int, 0, Seq::empty());
            let s = walk_text(img, syms, addr, depth);
            &&& begins(s, "\n=== call tree from "@ + address(addr) + ", depth "@ + dec(depth as nat))
            &&& contains(s, t.0)
            &&& ends(s, "  ("@ + dec(t.1.len()) + " distinct functions reachable)\n"@)
        }),
{
    let t = tree(img, syms, addr, depth as int, 0, Seq::empty());
    let s = walk_text(img, syms, addr, depth);
    let a = "\n=== call tree from "@ + address(addr) + ", depth "@ + dec(depth as nat);
    let b = " ===\n"@;
    let z = "  ("@ + dec(t.1.len()) + " distinct functions reachable)\n"@;
    assert(s =~= (a + b) + t.0 + z);
    law_parts_are_found(a + b, t.0, z, s);
    law_parts_are_found(a + b + t.0, z, Seq::empty(), s);
    assert(s.take(a.len() as int) =~= a);
}

} // verus!
