//! The journal of a run: which of its entries a report shows, in what order, and their lines.

use vstd::prelude::*;

use crate::input::wheel_byte;
#[allow(unused_imports)]
use crate::input::{on_wheel, position_byte};
use crate::stats::{push_words, rank};
#[allow(unused_imports)]
use crate::stats::{
    law_a_ranking_is_sorted, law_every_word_has_its_cell, lemma_ranked_holds, ranked, spaced_words,
    with_rank,
};
use crate::text::{
    chars_of, push_address, push_dec, push_dec_left, push_hex_wide, push_right, same_text,
    starts_with,
};
#[allow(unused_imports)]
use crate::text::lemma_one_more_cell;
#[allow(unused_imports)]
use crate::text::{
    address, begins, contains, dec, ends, hex, hex_wide, law_an_address_is_read_back,
    law_hex_reads_back, law_parts_are_found, occurs_at, pad_left, pad_right, unsigned,
};

verus! {

// ---------------------------------------------------------------- which entries

/// Where the last `most` of `len` entries begin.
pub open spec fn tail_from(len: int, most: int) -> int {
    if len > most {
        len - most
    } else {
        0
    }
}

/// Where the last `most` of `len` entries begin.
pub fn tail_start(len: usize, most: usize) -> (r: usize)
    ensures
        r == tail_from(len as int, most as int),
{
    if len > most {
        len - most
    } else {
        0
    }
}

fn line_begins(line: &str, with: &str) -> (r: bool)
    ensures
        r == begins(line@, with@),
{
    let l = chars_of(line);
    let w = chars_of(with);
    starts_with(l.as_slice(), w.as_slice())
}

/// A line of the texture journal that tells of a draw.
pub open spec fn draw_line(line: Seq<char>) -> bool {
    begins(line, "n="@)
}

/// A line of the texture journal that tells of pixels a title handed over.
pub open spec fn upload_line(line: Seq<char>) -> bool {
    begins(line, "texImage2D"@) || begins(line, "upload tex"@) || begins(line, "copyTexImage2D"@)
}

/// A line of the file journal that tells of a file; the wheel's samples share that journal.
pub open spec fn file_line(line: Seq<char>) -> bool {
    !begins(line, "input event"@)
}

pub fn is_draw(line: &str) -> (r: bool)
    ensures
        r == draw_line(line@),
{
    line_begins(line, "n=")
}

pub fn is_upload(line: &str) -> (r: bool)
    ensures
        r == upload_line(line@),
{
    line_begins(line, "texImage2D") || line_begins(line, "upload tex") || line_begins(
        line,
        "copyTexImage2D",
    )
}

pub fn is_file_op(line: &str) -> (r: bool)
    ensures
        r == file_line(line@),
{
    !line_begins(line, "input event")
}

/// A call of the audio framework that is none of those a title makes each frame to refresh its
/// volumes.
pub open spec fn rare_audio(framework: Seq<char>, index: usize) -> bool {
    framework == "Audio"@ && index != 2 && index != 13 && index != 14 && index != 15
}

pub fn is_rare_audio(framework: &str, index: usize) -> (r: bool)
    ensures
        r == rare_audio(framework@, index),
{
    same_text(framework, "Audio") && index != 2 && index != 13 && index != 14 && index != 15
}

// ---------------------------------------------------------------- in what order

/// The entries under their numbers, with the bytes that each stands for: its size as often as it
/// occurred.
pub open spec fn bytes_each(v: Seq<(u32, u64)>) -> Seq<(u64, u128)> {
    Seq::new(v.len(), |i: int| (i as u64, (v[i].0 * v[i].1) as u128))
}

/// The entries by the bytes they stand for, the most first; those of equal bytes keep their order.
pub open spec fn by_bytes(v: Seq<(u32, u64)>) -> Seq<(u32, u64)> {
    ranked(bytes_each(v), v.len() as int).map_values(|e: (u64, u128)| v[e.0 as int])
}

proof fn lemma_with_rank_numbers(v: Seq<(u64, u128)>, x: (u64, u128), m: int)
    requires
        x.0 < m,
        forall|k: int| 0 <= k < v.len() ==> (#[trigger] v[k]).0 < m,
    ensures
        forall|k: int| 0 <= k < with_rank(v, x).len() ==> (#[trigger] with_rank(v, x)[k]).0 < m,
    decreases v.len(),
{
    if v.len() > 0 && v.last().1 < x.1 {
        let rest = v.drop_last();
        assert forall|k: int| 0 <= k < rest.len() implies (#[trigger] rest[k]).0 < m by {
            assert(rest[k] == v[k]);
        }
        lemma_with_rank_numbers(rest, x, m);
        let w = with_rank(rest, x);
        assert forall|k: int| 0 <= k < w.push(v.last()).len() implies (#[trigger] w.push(
            v.last(),
        )[k]).0 < m by {
            if k < w.len() {
                assert(w[k].0 < m);
            } else {
                assert(v[v.len() - 1].0 < m);
            }
        }
    } else {
        assert forall|k: int| 0 <= k < v.push(x).len() implies (#[trigger] v.push(x)[k]).0 < m by {
            if k < v.len() {
                assert(v[k].0 < m);
            }
        }
    }
}

proof fn lemma_ranked_numbers(v: Seq<(u32, u64)>, n: int)
    requires
        0 <= n <= v.len() <= u64::MAX,
    ensures
        forall|k: int|
            0 <= k < ranked(bytes_each(v), n).len() ==> (#[trigger] ranked(bytes_each(v), n)[k]).0
                < v.len(),
    decreases n,
{
    if n > 0 {
        lemma_ranked_numbers(v, n - 1);
        lemma_with_rank_numbers(ranked(bytes_each(v), n - 1), bytes_each(v)[n - 1], v.len() as int);
    }
}

/// The entries by the bytes they stand for, the most first.
pub fn order_by_bytes(v: &Vec<(u32, u64)>) -> (r: Vec<(u32, u64)>)
    ensures
        r@ == by_bytes(v@),
{
    assert(v@.len() == v.len());
    let ghost all = bytes_each(v@);
    let mut w: Vec<(u64, u128)> = Vec::new();
    let mut i: usize = 0;
    while i < v.len()
        invariant
            i <= v@.len(),
            all == bytes_each(v@),
            w@ == all.take(i as int),
        decreases v@.len() - i,
    {
        let (size, times): (u32, u64) = v[i];
        proof {
            assert(0 <= size * times <= 0xffff_ffff * 0xffff_ffff_ffff_ffff) by (nonlinear_arith)
                requires
                    0 <= size <= 0xffff_ffff,
                    0 <= times <= 0xffff_ffff_ffff_ffff,
            ;
        }
        w.push((i as u64, size as u128 * times as u128));
        i += 1;
        assert(w@ =~= all.take(i as int));
    }
    assert(all.take(i as int) =~= all);
    let order = rank(&w);
    proof {
        lemma_ranked_numbers(v@, v@.len() as int);
    }
    let ghost goal = by_bytes(v@);
    let mut r: Vec<(u32, u64)> = Vec::new();
    let mut k: usize = 0;
    while k < order.len()
        invariant
            k <= order@.len(),
            order@ == ranked(bytes_each(v@), v@.len() as int),
            forall|j: int| 0 <= j < order@.len() ==> (#[trigger] order@[j]).0 < v@.len(),
            goal == by_bytes(v@),
            r@ == goal.take(k as int),
        decreases order@.len() - k,
    {
        assert(v@.len() == v.len());
        assert(order@[k as int].0 < v@.len());
        let at: usize = order[k].0 as usize;
        r.push(v[at]);
        assert(goal[k as int] == v@[order@[k as int].0 as int]);
        k += 1;
        assert(r@ =~= goal.take(k as int));
    }
    assert(goal.take(k as int) =~= goal);
    r
}

// ---------------------------------------------------------------- lines

/// A framework call in a report: its number, its arguments, words from the stack, and where it
/// returns to. The framework is named where calls of several stand together.
pub open spec fn trace_line(
    framework: Option<Seq<char>>,
    index: usize,
    args: Seq<u32>,
    stack: Seq<u32>,
    back: u32,
) -> Seq<char> {
    (match framework {
        Some(f) => "    "@ + pad_right(f, 12) + " #"@,
        None => "    #"@,
    }) + pad_right(dec(index as nat), 4) + " r:"@ + bare_words(args) + "  sp:"@ + bare_words(stack)
        + "  <-"@ + address(back) + "\n"@
}

/// Words in hexadecimal with a space between them.
pub open spec fn bare_words(v: Seq<u32>) -> Seq<char> {
    if v.len() == 0 {
        Seq::empty()
    } else {
        hex_wide(v[0] as nat, 8) + spaced_words(v.skip(1), v.len() - 1)
    }
}

fn push_bare_words(out: &mut String, v: &[u32])
    ensures
        final(out)@ == old(out)@ + bare_words(v@),
{
    if v.len() > 0 {
        push_hex_wide(out, v[0] as u128, 8);
        push_words(out, vstd::slice::slice_subrange(v, 1, v.len()));
        assert(v@.subrange(1, v@.len() as int) =~= v@.skip(1));
    }
    assert(out@ =~= old(out)@ + bare_words(v@));
}

fn push_dec_right(out: &mut String, n: u128, width: usize)
    ensures
        final(out)@ == old(out)@ + pad_right(dec(n as nat), width as int),
{
    let mut t = String::new();
    push_dec(&mut t, n);
    assert(t@ =~= dec(n as nat));
    push_right(out, t.as_str(), width);
}

/// A framework call in a report.
pub fn render_trace(framework: Option<&str>, index: usize, args: &[u32], stack: &[u32], back: u32) -> (out:
    String)
    ensures
        out@ == trace_line(
            match framework {
                Some(f) => Some(f@),
                None => None,
            },
            index,
            args@,
            stack@,
            back,
        ),
{
    let mut out = match framework {
        Some(f) => {
            let mut head = String::from_str("    ");
            push_right(&mut head, f, 12);
            head.append(" #");
            head
        },
        None => String::from_str("    #"),
    };
    push_dec_right(&mut out, index as u128, 4);
    out.append(" r:");
    push_bare_words(&mut out, args);
    out.append("  sp:");
    push_bare_words(&mut out, stack);
    out.append("  <-");
    push_address(&mut out, back);
    out.append("\n");
    out
}

/// An arrival at a watched address: the caller, the registers and the instruction count.
pub open spec fn arrival_line(pc: u32, caller: u32, regs: Seq<u32>, at: u64) -> Seq<char> {
    "    "@ + address(pc) + " <-"@ + address(caller) + " r0-7:"@ + bare_words(regs) + " @"@ + dec(
        at as nat,
    ) + "\n"@
}

/// An arrival at a watched address.
pub fn render_arrival(pc: u32, caller: u32, regs: &[u32], at: u64) -> (out: String)
    ensures
        out@ == arrival_line(pc, caller, regs@, at),
{
    let mut out = String::from_str("    ");
    push_address(&mut out, pc);
    out.append(" <-");
    push_address(&mut out, caller);
    out.append(" r0-7:");
    push_bare_words(&mut out, regs);
    out.append(" @");
    push_dec(&mut out, at as u128);
    out.append("\n");
    out
}

/// A change of the watched word: by whom, from what and to what.
pub open spec fn write_line(pc: u32, was: u32, now: u32) -> Seq<char> {
    "    by "@ + address(pc) + ": "@ + address(was) + " -> "@ + address(now) + "\n"@
}

/// A change of the watched word.
pub fn render_write(pc: u32, was: u32, now: u32) -> (out: String)
    ensures
        out@ == write_line(pc, was, now),
{
    let mut out = String::from_str("    by ");
    push_address(&mut out, pc);
    out.append(": ");
    push_address(&mut out, was);
    out.append(" -> ");
    push_address(&mut out, now);
    out.append("\n");
    out
}

/// A size, how often it was asked for, and the bytes that makes.
pub open spec fn census_line(size: u32, times: u64) -> Seq<char> {
    "    "@ + pad_left(dec(size as nat), 9, ' ') + " x"@ + pad_right(dec(times as nat), 7) + " = "@
        + pad_left(dec((size * times) as nat), 11, ' ') + " bytes\n"@
}

/// A size, how often it was asked for, and the bytes that makes.
pub fn render_census(size: u32, times: u64) -> (out: String)
    ensures
        out@ == census_line(size, times),
{
    proof {
        assert(0 <= size * times <= 0xffff_ffff * 0xffff_ffff_ffff_ffff) by (nonlinear_arith)
            requires
                0 <= size <= 0xffff_ffff,
                0 <= times <= 0xffff_ffff_ffff_ffff,
        ;
    }
    let mut out = String::from_str("    ");
    push_dec_left(&mut out, size as u128, 9);
    out.append(" x");
    push_dec_right(&mut out, times as u128, 7);
    out.append(" = ");
    push_dec_left(&mut out, size as u128 * times as u128, 11);
    out.append(" bytes\n");
    out
}

/// What one caller asked for with one argument.
pub open spec fn caller_line(caller: u32, arg: u32, times: u64, bytes: u128) -> Seq<char> {
    "    from "@ + address(caller) + "  r0="@ + pad_right(dec(arg as nat), 9) + " x"@ + pad_right(
        dec(times as nat),
        6,
    ) + " = "@ + pad_left(dec(bytes as nat), 11, ' ') + " bytes\n"@
}

/// What one caller asked for with one argument.
pub fn render_caller(caller: u32, arg: u32, times: u64, bytes: u128) -> (out: String)
    ensures
        out@ == caller_line(caller, arg, times, bytes),
{
    let mut out = String::from_str("    from ");
    push_address(&mut out, caller);
    out.append("  r0=");
    push_dec_right(&mut out, arg as u128, 9);
    out.append(" x");
    push_dec_right(&mut out, times as u128, 6);
    out.append(" = ");
    push_dec_left(&mut out, bytes, 11);
    out.append(" bytes\n");
    out
}

/// The registers from `from` on, `n` of them, each behind two spaces but the first.
pub open spec fn register_cells(r: Seq<u32>, from: int, n: int) -> Seq<char>
    decreases n,
{
    if n <= 0 {
        Seq::empty()
    } else {
        register_cells(r, from, n - 1) + (if n == 1 {
            "r"@
        } else {
            "  r"@
        }) + pad_right(dec((from + n - 1) as nat), 2) + "="@ + hex_wide(r[from + n - 1] as nat, 8)
    }
}

/// The first `n` rows of four registers.
pub open spec fn register_rows(r: Seq<u32>, n: int) -> Seq<char>
    decreases n,
{
    if n <= 0 {
        Seq::empty()
    } else {
        register_rows(r, n - 1) + "    "@ + register_cells(r, (n - 1) * 4, 4) + "\n"@
    }
}

fn push_cells(out: &mut String, r: &[u32; 16], from: usize)
    requires
        from <= 12,
    ensures
        final(out)@ == old(out)@ + register_cells(r@, from as int, 4),
{
    let mut n: usize = 0;
    assert(out@ =~= old(out)@ + register_cells(r@, from as int, 0));
    while n < 4
        invariant
            n <= 4,
            from <= 12,
            out@ == old(out)@ + register_cells(r@, from as int, n as int),
        decreases 4 - n,
    {
        if n == 0 {
            out.append("r");
        } else {
            out.append("  r");
        }
        push_dec_right(out, (from + n) as u128, 2);
        out.append("=");
        push_hex_wide(out, r[from + n] as u128, 8);
        n += 1;
        assert(out@ =~= old(out)@ + register_cells(r@, from as int, n as int));
    }
}

/// The sixteen registers, four to a row.
pub fn render_registers(r: &[u32; 16]) -> (out: String)
    ensures
        out@ == register_rows(r@, 4),
{
    let mut out = String::new();
    let mut n: usize = 0;
    assert(out@ =~= register_rows(r@, 0));
    while n < 4
        invariant
            n <= 4,
            out@ == register_rows(r@, n as int),
        decreases 4 - n,
    {
        out.append("    ");
        push_cells(&mut out, r, n * 4);
        out.append("\n");
        n += 1;
    }
    out
}

/// The addresses from `from` up to the `n`-th, with arrows between them.
pub open spec fn trail_text(v: Seq<u32>, from: int, n: int) -> Seq<char>
    decreases n - from,
{
    if n <= from {
        Seq::empty()
    } else if n == from + 1 {
        address(v[from])
    } else {
        trail_text(v, from, n - 1) + " -> "@ + address(v[n - 1])
    }
}

/// The last addresses executed, in order.
pub fn render_trail(recent: &Vec<u32>, most: usize) -> (out: String)
    ensures
        out@ == trail_text(
            recent@,
            tail_from(recent@.len() as int, most as int),
            recent@.len() as int,
        ),
{
    let from: usize = tail_start(recent.len(), most);
    let mut out = String::new();
    let mut n: usize = from;
    assert(out@ =~= trail_text(recent@, from as int, from as int));
    while n < recent.len()
        invariant
            from <= n <= recent@.len(),
            out@ == trail_text(recent@, from as int, n as int),
        decreases recent@.len() - n,
    {
        if n > from {
            out.append(" -> ");
        }
        push_address(&mut out, recent[n]);
        n += 1;
        assert(out@ =~= trail_text(recent@, from as int, n as int));
    }
    out
}

/// A region that nothing is mapped to: its bounds, the writes it took, and who wrote most.
pub open spec fn page_line(lo: u32, hi: u32, writes: u64, pc: u32) -> Seq<char> {
    "    "@ + address(lo) + ".."@ + address(hi) + "  "@ + dec(writes as nat) + " writes, hottest pc "@
        + address(pc) + "\n"@
}

/// A region that nothing is mapped to.
pub fn render_page(lo: u32, hi: u32, writes: u64, pc: u32) -> (out: String)
    ensures
        out@ == page_line(lo, hi, writes, pc),
{
    let mut out = String::from_str("    ");
    push_address(&mut out, lo);
    out.append("..");
    push_address(&mut out, hi);
    out.append("  ");
    push_dec(&mut out, writes as u128);
    out.append(" writes, hottest pc ");
    push_address(&mut out, pc);
    out.append("\n");
    out
}

// ---------------------------------------------------------------- what the player did

/// A button that went down.
pub open spec fn button_line(name: Seq<char>, bit: u32) -> Seq<char> {
    "button "@ + pad_right(name, 11) + " -> flags bit 0x"@ + hex_wide(bit as nat, 2) + "\n"@
}

/// A button that went down.
pub fn render_button(name: &str, bit: u32) -> (out: String)
    ensures
        out@ == button_line(name@, bit),
{
    let mut out = String::from_str("button ");
    push_right(&mut out, name, 11);
    out.append(" -> flags bit 0x");
    push_hex_wide(&mut out, bit as u128, 2);
    out.append("\n");
    out
}

/// The name of a side of the wheel.
pub open spec fn side_name(quarter: i32) -> Seq<char> {
    if quarter == 0 {
        "right"@
    } else if quarter == 1 {
        "top"@
    } else if quarter == 2 {
        "left"@
    } else {
        "bottom"@
    }
}

/// A finger that came to rest on a side of the wheel.
pub open spec fn contact_line(quarter: i32, b: u8) -> Seq<char> {
    "wheel hold "@ + side_name(quarter) + " -> byte 0x"@ + hex_wide(b as nat, 2) + "\n"@
}

/// A finger that came to rest on a side of the wheel.
pub fn render_contact(quarter: i32, b: u8) -> (out: String)
    ensures
        out@ == contact_line(quarter, b),
{
    let mut out = String::from_str("wheel hold ");
    if quarter == 0 {
        out.append("right");
    } else if quarter == 1 {
        out.append("top");
    } else if quarter == 2 {
        out.append("left");
    } else {
        out.append("bottom");
    }
    out.append(" -> byte 0x");
    push_hex_wide(&mut out, b as u128, 2);
    out.append("\n");
    out
}

/// A turn of the wheel by so many detents, and the position it left.
pub open spec fn turn_line(detents: i32, raw: int) -> Seq<char> {
    "wheel "@ + (if detents < 0 {
        "right/cw"@
    } else {
        "left/ccw"@
    }) + " "@ + pad_left(
        dec(
            (if detents < 0 {
                -detents
            } else {
                detents as int
            }) as nat,
        ),
        2,
        ' ',
    ) + " detent(s) -> raw "@ + pad_left(dec(raw as nat), 3, ' ') + ", byte 0x"@ + hex_wide(
        position_byte(raw) as nat,
        2,
    ) + "\n"@
}

/// A turn of the wheel by so many detents, and the position it left.
pub fn render_turn(detents: i32, raw: i32) -> (out: String)
    requires
        on_wheel(raw as int),
    ensures
        out@ == turn_line(detents, raw as int),
{
    let mut out = String::from_str("wheel ");
    if detents < 0 {
        out.append("right/cw");
    } else {
        out.append("left/ccw");
    }
    out.append(" ");
    let m: i64 = detents as i64;
    push_dec_left(
        &mut out,
        if m < 0 {
            (-m) as u128
        } else {
            m as u128
        },
        2,
    );
    out.append(" detent(s) -> raw ");
    push_dec_left(&mut out, raw as u128, 3);
    out.append(", byte 0x");
    push_hex_wide(&mut out, wheel_byte(raw) as u128, 2);
    out.append("\n");
    out
}

// ---------------------------------------------------------------- laws

/// The tail of a list is its end: as many entries as are asked for, or all where there are fewer.
pub proof fn law_a_tail_is_the_end(len: int, most: int)
    requires
        0 <= len,
        0 <= most,
    ensures
        0 <= tail_from(len, most) <= len,
        len <= most ==> tail_from(len, most) == 0,
        len > most ==> len - tail_from(len, most) == most,
{
}

/// Sizes are ordered by the bytes they make up, the most first: none is lost and none is added.
#[verifier::rlimit(60)]
pub proof fn law_sizes_are_ordered_by_bytes(v: Seq<(u32, u64)>, x: (u32, u64))
    requires
        v.len() <= u64::MAX,
    ensures
        by_bytes(v).len() == v.len(),
        by_bytes(v).contains(x) <==> v.contains(x),
        forall|i: int, j: int|
            0 <= i < j < v.len() ==> (#[trigger] by_bytes(v)[i]).0 * by_bytes(v)[i].1 >= (
            #[trigger] by_bytes(v)[j]).0 * by_bytes(v)[j].1,
{
    let b = bytes_each(v);
    let r = ranked(b, v.len() as int);
    law_a_ranking_is_sorted(b, v.len() as int);
    lemma_ranked_holds(b, (0u64, 0u128));
    assert forall|i: int| 0 <= i < r.len() implies (#[trigger] r[i]).0 < v.len() && r[i].1 == v[r[i].0 as int].0
        * v[r[i].0 as int].1 by {
        assert(r.contains(r[i]));
        lemma_ranked_holds(b, r[i]);
        let k = choose|k: int| 0 <= k < b.len() && b[k] == r[i];
        lemma_product_fits(v[k].0, v[k].1);
    }
    assert forall|i: int, j: int| 0 <= i < j < v.len() implies (#[trigger] by_bytes(v)[i]).0
        * by_bytes(v)[i].1 >= (#[trigger] by_bytes(v)[j]).0 * by_bytes(v)[j].1 by {
        assert(r[i].1 >= r[j].1);
    }
    if v.contains(x) {
        let k = choose|k: int| 0 <= k < v.len() && v[k] == x;
        assert(b.contains(b[k]));
        lemma_ranked_holds(b, b[k]);
        let i = choose|i: int| 0 <= i < r.len() && r[i] == b[k];
        assert(by_bytes(v)[i] == x);
    }
    if by_bytes(v).contains(x) {
        let i = choose|i: int| 0 <= i < v.len() && by_bytes(v)[i] == x;
        assert(r[i].0 < v.len());
        assert(v[r[i].0 as int] == x);
    }
}

proof fn lemma_product_fits(a: u32, b: u64)
    ensures
        0 <= a * b <= u128::MAX,
{
    assert(0 <= a * b <= 0xffff_ffff * 0xffff_ffff_ffff_ffff) by (nonlinear_arith)
        requires
            0 <= a <= 0xffff_ffff,
            0 <= b <= 0xffff_ffff_ffff_ffff,
    ;
}

/// The bytes of a size are as many as the size times its number, and the line shows them.
#[verifier::rlimit(60)]
pub proof fn law_a_census_line_shows_the_bytes(size: u32, times: u64)
    ensures
        ends(
            census_line(size, times),
            pad_left(dec((size * times) as nat), 11, ' ') + " bytes\n"@,
        ),
        begins(
            census_line(size, times),
            "    "@ + pad_left(dec(size as nat), 9, ' ') + " x"@ + dec(times as nat),
        ),
        dec(size as nat).len() <= 9 && dec(times as nat).len() <= 7 && dec(
            (size * times) as nat,
        ).len() <= 11 ==> census_line(size, times).len() == 43,
{
    reveal_strlit("    ");
    reveal_strlit(" x");
    reveal_strlit(" = ");
    reveal_strlit(" bytes\n");
    let line = census_line(size, times);
    let p = "    "@ + pad_left(dec(size as nat), 9, ' ') + " x"@ + dec(times as nat);
    assert(line.take(p.len() as int) =~= p);
    let tail = pad_left(dec((size * times) as nat), 11, ' ') + " bytes\n"@;
    assert(line.skip(line.len() - tail.len()) =~= tail);
}

#[verifier::rlimit(60)]
proof fn lemma_cells(r: Seq<u32>, from: int, n: int, k: int)
    requires
        0 <= k < n <= 4,
        from >= 0,
        from + n <= 100,
    ensures
        register_cells(r, from, n).len() == 14 * n - 2,
        register_cells(r, from, n).subrange(14 * k, 14 * k + 12) == "r"@ + pad_right(
            dec((from + k) as nat),
            2,
        ) + "="@ + hex_wide(r[from + k] as nat, 8),
    decreases n,
{
    reveal_strlit("r");
    reveal_strlit("  r");
    reveal_strlit("=");
    let d = pad_right(dec((from + n - 1) as nat), 2);
    let h = hex_wide(r[from + n - 1] as nat, 8);
    assert(d.len() == 2) by {
        reveal_with_fuel(dec, 3);
    }
    assert(h.len() == 8) by {
        reveal_with_fuel(hex, 9);
    }
    let all = register_cells(r, from, n);
    if n == 1 {
        assert(register_cells(r, from, 0) =~= Seq::empty());
        assert(all.subrange(0, 12) =~= "r"@ + d + "="@ + h);
    } else {
        lemma_cells(r, from, n - 1, 0);
        let before = register_cells(r, from, n - 1);
        if k < n - 1 {
            lemma_cells(r, from, n - 1, k);
            assert(all.subrange(14 * k, 14 * k + 12) =~= before.subrange(14 * k, 14 * k + 12));
        } else {
            assert(all.subrange(14 * k, 14 * k + 12) =~= "r"@ + d + "="@ + h);
        }
    }
}

/// Every register stands in its cell, under its own number and with its own word: four rows of four
/// cells of the same width.
pub proof fn law_every_register_has_its_cell(r: Seq<u32>, i: int)
    requires
        r.len() == 16,
        0 <= i < 16,
    ensures
        ({
            let at = 59 * (i / 4) + 4 + 14 * (i % 4);
            &&& register_rows(r, 4).len() == 236
            &&& register_rows(r, 4).subrange(at, at + 12) == "r"@ + pad_right(dec(i as nat), 2)
                + "="@ + hex_wide(r[i] as nat, 8)
        }),
{
    lemma_rows(r, 4, i / 4, i % 4);
    assert(4 * (i / 4) + i % 4 == i);
}

#[verifier::rlimit(60)]
proof fn lemma_rows(r: Seq<u32>, n: int, row: int, k: int)
    requires
        0 <= row < n <= 4,
        0 <= k < 4,
    ensures
        register_rows(r, n).len() == 59 * n,
        ({
            let at = 59 * row + 4 + 14 * k;
            register_rows(r, n).subrange(at, at + 12) == "r"@ + pad_right(
                dec((4 * row + k) as nat),
                2,
            ) + "="@ + hex_wide(r[4 * row + k] as nat, 8)
        }),
    decreases n,
{
    reveal_strlit("    ");
    reveal_strlit("\n");
    lemma_cells(r, (n - 1) * 4, 4, k);
    let own = register_cells(r, (n - 1) * 4, 4);
    let before = register_rows(r, n - 1);
    let all = register_rows(r, n);
    assert(all == before + "    "@ + own + "\n"@);
    let at = 59 * row + 4 + 14 * k;
    if n > 1 {
        lemma_rows(r, n - 1, 0, 0);
    } else {
        assert(before =~= Seq::empty());
    }
    if row < n - 1 {
        lemma_rows(r, n - 1, row, k);
        assert(all.subrange(at, at + 12) =~= before.subrange(at, at + 12));
    } else {
        assert(all.subrange(at, at + 12) =~= own.subrange(14 * k, 14 * k + 12));
    }
}

/// A turn is told by its way round and its detents.
#[verifier::rlimit(60)]
pub proof fn law_a_turn_is_told(detents: i32, raw: int)
    ensures
        detents < 0 ==> begins(
            turn_line(detents, raw),
            "wheel right/cw "@ + pad_left(dec((-detents) as nat), 2, ' '),
        ),
        detents >= 0 ==> begins(
            turn_line(detents, raw),
            "wheel left/ccw "@ + pad_left(dec(detents as nat), 2, ' '),
        ),
{
    reveal_strlit("wheel ");
    reveal_strlit("right/cw");
    reveal_strlit("left/ccw");
    reveal_strlit(" ");
    reveal_strlit("wheel right/cw ");
    reveal_strlit("wheel left/ccw ");
    let line = turn_line(detents, raw);
    if detents < 0 {
        let p = "wheel right/cw "@ + pad_left(dec((-detents) as nat), 2, ' ');
        assert(line.take(p.len() as int) =~= p);
    } else {
        let p = "wheel left/ccw "@ + pad_left(dec(detents as nat), 2, ' ');
        assert(line.take(p.len() as int) =~= p);
    }
}

// ---------------------------------------------------------------- what the lines say

/// A line of a write shows the place of the instruction, what stood there and what stands there now.
#[verifier::rlimit(60)]
pub proof fn law_a_write_line_is_read_back(pc: u32, was: u32, now: u32)
    ensures
        ({
            let line = write_line(pc, was, now);
            &&& line.subrange(7, 17) == address(pc)
            &&& line.subrange(19, 29) == address(was)
            &&& line.subrange(33, 43) == address(now)
            &&& line.len() == 44
        }),
{
    reveal_strlit("    by ");
    reveal_strlit(": ");
    reveal_strlit(" -> ");
    reveal_strlit("\n");
    law_an_address_is_read_back(pc);
    law_an_address_is_read_back(was);
    law_an_address_is_read_back(now);
    let line = write_line(pc, was, now);
    assert(line.subrange(7, 17) =~= address(pc));
    assert(line.subrange(19, 29) =~= address(was));
    assert(line.subrange(33, 43) =~= address(now));
}

/// A line of a page shows its two ends, the writes and the place of the busiest instruction.
#[verifier::rlimit(60)]
pub proof fn law_a_page_line_is_read_back(lo: u32, hi: u32, writes: u64, pc: u32)
    ensures
        ({
            let line = page_line(lo, hi, writes, pc);
            &&& line.subrange(4, 14) == address(lo)
            &&& line.subrange(16, 26) == address(hi)
            &&& line.subrange(28, 28 + dec(writes as nat).len() as int) == dec(writes as nat)
            &&& ends(line, " writes, hottest pc "@ + address(pc) + "\n"@)
        }),
{
    reveal_strlit("    ");
    reveal_strlit("..");
    reveal_strlit("  ");
    law_an_address_is_read_back(lo);
    law_an_address_is_read_back(hi);
    let line = page_line(lo, hi, writes, pc);
    assert(line.subrange(4, 14) =~= address(lo));
    assert(line.subrange(16, 26) =~= address(hi));
    assert(line.subrange(28, 28 + dec(writes as nat).len() as int) =~= dec(writes as nat));
    let t = " writes, hottest pc "@ + address(pc) + "\n"@;
    assert(line.skip(line.len() - t.len()) =~= t);
}

/// A line of an arrival shows the place, the caller and when it was; the registers stand between.
#[verifier::rlimit(60)]
pub proof fn law_an_arrival_line_is_read_back(pc: u32, caller: u32, regs: Seq<u32>, at: u64)
    ensures
        ({
            let line = arrival_line(pc, caller, regs, at);
            &&& line.subrange(4, 14) == address(pc)
            &&& line.subrange(17, 27) == address(caller)
            &&& line.subrange(33, 33 + bare_words(regs).len() as int) == bare_words(regs)
            &&& ends(line, " @"@ + dec(at as nat) + "\n"@)
        }),
{
    reveal_strlit("    ");
    reveal_strlit(" <-");
    reveal_strlit(" r0-7:");
    law_an_address_is_read_back(pc);
    law_an_address_is_read_back(caller);
    let line = arrival_line(pc, caller, regs, at);
    assert(line.subrange(4, 14) =~= address(pc));
    assert(line.subrange(17, 27) =~= address(caller));
    assert(line.subrange(33, 33 + bare_words(regs).len() as int) =~= bare_words(regs));
    let t = " @"@ + dec(at as nat) + "\n"@;
    assert(line.skip(line.len() - t.len()) =~= t);
}

/// Words in a row are shown each in eight digits, with a blank between them, and read back.
#[verifier::rlimit(60)]
pub proof fn law_words_in_a_row_are_read_back(v: Seq<u32>, k: int)
    requires
        0 <= k < v.len(),
    ensures
        bare_words(v).len() == 9 * v.len() - 1,
        unsigned(bare_words(v).subrange(9 * k, 9 * k + 8), true, 0xffff_ffff) == Some(v[k] as int),
        k > 0 ==> bare_words(v)[9 * k - 1] == ' ',
{
    law_hex_reads_back(v[0] as nat, 8, 0xffff_ffff);
    assert(hex_wide(v[0] as nat, 8).len() == 8) by {
        reveal_with_fuel(hex, 9);
    }
    let t = v.skip(1);
    let s = spaced_words(t, v.len() - 1);
    let all = bare_words(v);
    if v.len() > 1 {
        law_every_word_has_its_cell(t, v.len() - 1, 0);
    } else {
        assert(s =~= Seq::empty());
    }
    if k == 0 {
        assert(all.subrange(0, 8) =~= hex_wide(v[0] as nat, 8));
    } else {
        law_every_word_has_its_cell(t, v.len() - 1, k - 1);
        assert(t[k - 1] == v[k]);
        let h = hex_wide(v[0] as nat, 8);
        lemma_behind(h, s, 9 * (k - 1) + 1, 8);
        lemma_behind(h, s, 9 * (k - 1), 1);
        assert(s.subrange(9 * (k - 1), 9 * (k - 1) + 1)[0] == s[9 * (k - 1)]);
        assert(all.subrange(9 * k - 1, 9 * k)[0] == all[9 * k - 1]);
    }
}

proof fn lemma_behind(a: Seq<char>, s: Seq<char>, i: int, w: int)
    requires
        0 <= i,
        0 <= w,
        i + w <= s.len(),
    ensures
        (a + s).subrange(a.len() + i, a.len() + i + w) == s.subrange(i, i + w),
{
    assert((a + s).subrange(a.len() + i, a.len() + i + w) =~= s.subrange(i, i + w));
}

/// A line of a trace shows its framework where it has one, its ordinal, the registers, the stack and
/// the place it returns to.
#[verifier::rlimit(60)]
pub proof fn law_a_trace_line_is_read_back(
    f: Seq<char>,
    index: usize,
    args: Seq<u32>,
    stack: Seq<u32>,
    back: u32,
)
    ensures
        ({
            let tail = pad_right(dec(index as nat), 4) + " r:"@ + bare_words(args) + "  sp:"@
                + bare_words(stack) + "  <-"@ + address(back) + "\n"@;
            &&& trace_line(Some(f), index, args, stack, back) == "    "@ + pad_right(f, 12) + " #"@
                + tail
            &&& trace_line(None, index, args, stack, back) == "    #"@ + tail
            &&& ends(trace_line(None, index, args, stack, back), address(back) + "\n"@)
        }),
{
    let tail = pad_right(dec(index as nat), 4) + " r:"@ + bare_words(args) + "  sp:"@ + bare_words(
        stack,
    ) + "  <-"@ + address(back) + "\n"@;
    assert(trace_line(Some(f), index, args, stack, back) =~= "    "@ + pad_right(f, 12) + " #"@
        + tail);
    let line = trace_line(None, index, args, stack, back);
    assert(line =~= "    #"@ + tail);
    let t = address(back) + "\n"@;
    assert(line.skip(line.len() - t.len()) =~= t);
}

/// A line of a caller shows who called, the argument, how often it came and the bytes it makes up.
#[verifier::rlimit(60)]
pub proof fn law_a_caller_line_is_read_back(caller: u32, arg: u32, times: u64, bytes: u128)
    ensures
        ({
            let line = caller_line(caller, arg, times, bytes);
            &&& line.subrange(9, 19) == address(caller)
            &&& begins(line.skip(24), dec(arg as nat))
            &&& contains(line, " x"@ + pad_right(dec(times as nat), 6) + " = "@)
            &&& ends(line, pad_left(dec(bytes as nat), 11, ' ') + " bytes\n"@)
        }),
{
    reveal_strlit("    from ");
    reveal_strlit("  r0=");
    law_an_address_is_read_back(caller);
    let line = caller_line(caller, arg, times, bytes);
    assert(line.subrange(9, 19) =~= address(caller));
    let d = dec(arg as nat);
    assert(line.skip(24).take(d.len() as int) =~= d);
    let t = pad_left(dec(bytes as nat), 11, ' ') + " bytes\n"@;
    assert(line.skip(line.len() - t.len()) =~= t);
    let p = " x"@ + pad_right(dec(times as nat), 6) + " = "@;
    let i = 24 + pad_right(d, 9).len() as int;
    assert(line.subrange(i, i + p.len()) =~= p);
    assert(occurs_at(line, p, i));
}

/// The trail shows the places from the first that is asked for to the last, each once, in order.
#[verifier::rlimit(60)]
pub proof fn law_a_trail_shows_every_place(v: Seq<u32>, from: int, n: int, k: int)
    requires
        0 <= from <= k < n <= v.len(),
    ensures
        trail_text(v, from, n).len() == 14 * (n - from) - 4,
        trail_text(v, from, n).subrange(14 * (k - from), 14 * (k - from) + 10) == address(v[k]),
    decreases n - from,
{
    reveal_strlit(" -> ");
    law_an_address_is_read_back(v[n - 1]);
    let all = trail_text(v, from, n);
    if n == from + 1 {
        assert(all.subrange(0, 10) =~= address(v[k]));
    } else {
        law_a_trail_shows_every_place(v, from, n - 1, from);
        let before = trail_text(v, from, n - 1);
        let i = 14 * (k - from);
        lemma_one_more_cell(before, " -> "@, address(v[n - 1]), i, 10);
        if k < n - 1 {
            law_a_trail_shows_every_place(v, from, n - 1, k);
        } else {
            assert(i == before.len() + 4);
        }
    }
}

/// A line of a button shows its name and its bit, one of a contact its side and its byte.
#[verifier::rlimit(60)]
pub proof fn law_input_lines_show_their_bits(name: Seq<char>, bit: u32, quarter: i32, b: u8)
    ensures
        begins(button_line(name, bit), "button "@ + name),
        ends(button_line(name, bit), " -> flags bit 0x"@ + hex_wide(bit as nat, 2) + "\n"@),
        begins(contact_line(quarter, b), "wheel hold "@ + side_name(quarter) + " -> byte 0x"@),
        ends(contact_line(quarter, b), "0x"@ + hex_wide(b as nat, 2) + "\n"@),
        side_name(0) == "right"@,
        side_name(1) == "top"@,
        side_name(2) == "left"@,
        side_name(3) == "bottom"@,
{
    reveal_strlit("button ");
    reveal_strlit(" -> flags bit 0x");
    reveal_strlit(" -> byte 0x");
    reveal_strlit("wheel hold ");
    reveal_strlit("0x");
    reveal_strlit("\n");
    let x = button_line(name, bit);
    let p = "button "@ + name;
    assert(x.take(p.len() as int) =~= p);
    let t = " -> flags bit 0x"@ + hex_wide(bit as nat, 2) + "\n"@;
    assert(x.skip(x.len() - t.len()) =~= t);
    let y = contact_line(quarter, b);
    let q = "wheel hold "@ + side_name(quarter) + " -> byte 0x"@;
    assert(y.take(q.len() as int) =~= q);
    let u = "0x"@ + hex_wide(b as nat, 2) + "\n"@;
    assert(y.skip(y.len() - u.len()) =~= u);
}

/// What goes into which journal is told by how a line begins: draws, uploads, and everything but
/// input events among the file operations.
#[verifier::rlimit(60)]
pub proof fn law_lines_are_told_by_their_beginning(rest: Seq<char>)
    ensures
        draw_line("n="@ + rest),
        upload_line("texImage2D"@ + rest),
        upload_line("upload tex"@ + rest),
        upload_line("copyTexImage2D"@ + rest),
        !file_line("input event"@ + rest),
        !draw_line("texImage2D"@ + rest),
        !upload_line("n="@ + rest),
        file_line("open"@ + rest),
{
    reveal_strlit("n=");
    reveal_strlit("texImage2D");
    reveal_strlit("upload tex");
    reveal_strlit("copyTexImage2D");
    reveal_strlit("input event");
    reveal_strlit("open");
    let none = Seq::<char>::empty();
    law_parts_are_found(none, "n="@, rest, none);
    law_parts_are_found(none, "texImage2D"@, rest, none);
    law_parts_are_found(none, "upload tex"@, rest, none);
    law_parts_are_found(none, "copyTexImage2D"@, rest, none);
    law_parts_are_found(none, "input event"@, rest, none);
    let t = "texImage2D"@ + rest;
    let n = "n="@ + rest;
    let o = "open"@ + rest;
    assert(t[0] == 't' && n[0] == 'n' && o[0] == 'o');
    if begins(t, "n="@) {
        assert(t.take(2)[0] == t[0]);
    }
    if begins(n, "texImage2D"@) {
        assert(n.take(10)[0] == n[0]);
    }
    if begins(n, "upload tex"@) {
        assert(n.take(10)[0] == n[0]);
    }
    if begins(n, "copyTexImage2D"@) {
        assert(n.take(14)[0] == n[0]);
    }
    if begins(o, "input event"@) {
        assert(o.take(11)[0] == o[0]);
    }
}

/// Of the audio calls those that come all the time are left out, and no other call is rare audio.
pub proof fn law_what_is_rare_audio(framework: Seq<char>, index: usize)
    ensures
        framework != "Audio"@ ==> !rare_audio(framework, index),
        rare_audio("Audio"@, index) <==> !seq![2usize, 13, 14, 15].contains(index),
{
    let v = seq![2usize, 13, 14, 15];
    assert(v[0] == 2 && v[1] == 13 && v[2] == 14 && v[3] == 15);
}

} // verus!
