//! Rows of bytes in hexadecimal beside their printable characters.

use vstd::prelude::*;

use crate::text::{push_hex_wide, push_right, show_byte};
#[allow(unused_imports)]
use crate::bytes::lemma_two_digits;
#[allow(unused_imports)]
use crate::text::lemma_one_more_cell;
#[allow(unused_imports)]
use crate::text::{hex, hex_wide, law_hex_reads_back, law_padding_keeps_the_text, pad_right, shown};
#[allow(unused_imports)]
use crate::text::unsigned;

verus! {

/// Two digits for each byte, with a space between each two bytes.
pub open spec fn spaced_hex(b: Seq<u8>) -> Seq<char>
    decreases b.len(),
{
    if b.len() == 0 {
        Seq::empty()
    } else if b.len() == 1 {
        hex_wide(b[0] as nat, 2)
    } else {
        spaced_hex(b.drop_last()) + " "@ + hex_wide(b.last() as nat, 2)
    }
}

/// The characters of the bytes, with a dot for each that is not printable.
pub open spec fn shown_bytes(b: Seq<u8>) -> Seq<char> {
    b.map_values(|x: u8| shown(x))
}

/// One row: its offset, its bytes and its characters.
pub open spec fn dump_row(row: int, b: Seq<u8>) -> Seq<char> {
    "    "@ + hex_wide(row as nat, 8) + "  "@ + pad_right(spaced_hex(b), 47) + "  |"@ + shown_bytes(
        b,
    ) + "|\n"@
}

/// The end of the row that begins at `row`.
pub open spec fn row_end(row: int, end: int) -> int {
    if row + 16 < end {
        row + 16
    } else {
        end
    }
}

/// The rows of sixteen bytes from `row` up to `end`; the last may be shorter.
pub open spec fn dump_rows(buf: Seq<u8>, row: int, end: int) -> Seq<char>
    decreases end - row,
{
    if row >= end {
        Seq::empty()
    } else {
        dump_row(row, buf.subrange(row, row_end(row, end))) + dump_rows(
            buf,
            row_end(row, end),
            end,
        )
    }
}

/// Where a dump of `len` bytes from `off` ends: at the end of the buffer at the latest.
pub open spec fn dump_end(buf: Seq<u8>, off: int, len: int) -> int {
    if off + len < buf.len() {
        off + len
    } else {
        buf.len() as int
    }
}

/// The characters of the bytes from `a` up to `b`.
pub fn push_shown(out: &mut String, buf: &[u8], a: usize, b: usize)
    requires
        a <= b <= buf@.len(),
    ensures
        final(out)@ == old(out)@ + shown_bytes(buf@.subrange(a as int, b as int)),
{
    let mut i: usize = a;
    assert(out@ =~= old(out)@ + shown_bytes(buf@.subrange(a as int, a as int)));
    while i < b
        invariant
            a <= i <= b <= buf@.len(),
            out@ == old(out)@ + shown_bytes(buf@.subrange(a as int, i as int)),
        decreases b - i,
    {
        out.push(show_byte(buf[i]));
        i += 1;
        assert(out@ =~= old(out)@ + shown_bytes(buf@.subrange(a as int, i as int)));
    }
}

fn render_hex(buf: &[u8], a: usize, b: usize) -> (out: String)
    requires
        a <= b <= buf@.len(),
    ensures
        out@ == spaced_hex(buf@.subrange(a as int, b as int)),
{
    let mut out = String::new();
    let mut i: usize = a;
    assert(out@ =~= spaced_hex(buf@.subrange(a as int, a as int)));
    while i < b
        invariant
            a <= i <= b <= buf@.len(),
            out@ == spaced_hex(buf@.subrange(a as int, i as int)),
        decreases b - i,
    {
        assert(buf@.subrange(a as int, i + 1).drop_last() =~= buf@.subrange(a as int, i as int));
        if i > a {
            out.append(" ");
        }
        push_hex_wide(&mut out, buf[i] as u128, 2);
        assert(i == a ==> out@ =~= hex_wide(buf@[i as int] as nat, 2));
        i += 1;
    }
    out
}

/// The rows of at most `len` bytes from `off`.
pub fn dump_hex(buf: &[u8], off: usize, len: usize) -> (out: String)
    ensures
        out@ == dump_rows(buf@, off as int, dump_end(buf@, off as int, len as int)),
{
    let mut out = String::new();
    if off >= buf.len() {
        return out;
    }
    let end: usize = if len < buf.len() - off {
        off + len
    } else {
        buf.len()
    };
    let mut row: usize = off;
    let ghost all = dump_rows(buf@, off as int, end as int);
    assert(out@ + all =~= all);
    while row < end
        invariant
            row <= end <= buf@.len(),
            out@ + dump_rows(buf@, row as int, end as int) == all,
        decreases end - row,
    {
        let stop: usize = if end - row > 16 {
            row + 16
        } else {
            end
        };
        let mut line = String::from_str("    ");
        push_hex_wide(&mut line, row as u128, 8);
        line.append("  ");
        push_right(&mut line, render_hex(buf, row, stop).as_str(), 47);
        line.append("  |");
        push_shown(&mut line, buf, row, stop);
        line.append("|\n");
        let ghost done = out@;
        out.append(line.as_str());
        assert(out@ + dump_rows(buf@, stop as int, end as int) =~= done + (line@ + dump_rows(
            buf@,
            stop as int,
            end as int,
        )));
        row = stop;
    }
    assert(out@ + Seq::<char>::empty() =~= out@);
    out
}

// ---------------------------------------------------------------- laws

#[verifier::rlimit(60)]
proof fn lemma_spaced_hex(b: Seq<u8>, k: int)
    requires
        0 <= k < b.len(),
    ensures
        spaced_hex(b).len() == 3 * b.len() - 1,
        spaced_hex(b).subrange(3 * k, 3 * k + 2) == hex_wide(b[k] as nat, 2),
        k + 1 < b.len() ==> spaced_hex(b)[3 * k + 2] == ' ',
    decreases b.len(),
{
    reveal_strlit(" ");
    lemma_two_digits(b.last());
    let own = hex_wide(b.last() as nat, 2);
    if b.len() == 1 {
        assert(spaced_hex(b).subrange(0, 2) =~= own);
    } else {
        let u = b.drop_last();
        lemma_spaced_hex(u, 0);
        let s = spaced_hex(b);
        let t = spaced_hex(u);
        assert(s == t + " "@ + own);
        lemma_one_more_cell(t, " "@, own, 3 * k, 2);
        lemma_one_more_cell(t, " "@, own, 3 * k + 2, 0);
        if k < u.len() {
            lemma_spaced_hex(u, k);
        } else {
            assert(3 * k == t.len() + 1);
        }
    }
}

/// A row can be read back: behind four blanks its offset, behind two more each byte in two digits
/// with a blank behind it, and between bars each byte as a character, a dot for one that is not
/// printable. Every row is as long as the others, but for the characters that a shorter one lacks.
#[verifier::rlimit(60)]
pub proof fn law_a_dumped_row_is_read_back(row: int, b: Seq<u8>, k: int)
    requires
        0 <= row <= 0xffff_ffff,
        0 <= k < b.len() <= 16,
    ensures
        ({
            let line = dump_row(row, b);
            &&& line.len() == 66 + b.len()
            &&& unsigned(line.subrange(4, 12), true, 0xffff_ffff) == Some(row)
            &&& unsigned(line.subrange(14 + 3 * k, 16 + 3 * k), true, 255) == Some(b[k] as int)
            &&& line[16 + 3 * k] == ' '
            &&& line[63] == '|'
            &&& line[64 + k] == (if 0x20 <= b[k] < 0x7f {
                b[k] as char
            } else {
                '.'
            })
            &&& line[64 + b.len() as int] == '|'
            &&& line.last() == '\n'
        }),
{
    reveal_strlit("    ");
    reveal_strlit("  ");
    reveal_strlit("  |");
    reveal_strlit("|\n");
    let line = dump_row(row, b);
    let h = hex_wide(row as nat, 8);
    law_hex_reads_back(row as nat, 8, 0xffff_ffff);
    lemma_eight_digits(row as nat);
    lemma_spaced_hex(b, k);
    lemma_two_digits(b[k]);
    law_padding_keeps_the_text(spaced_hex(b), 47, ' ');
    let p = pad_right(spaced_hex(b), 47);
    assert(p.len() == 47);
    assert(line.subrange(4, 12) =~= h);
    assert(line.subrange(14 + 3 * k, 16 + 3 * k) =~= hex_wide(b[k] as nat, 2)) by {
        let s = spaced_hex(b);
        assert(s.subrange(3 * k, 3 * k + 2) =~= hex_wide(b[k] as nat, 2));
        assert(p.take(s.len() as int) =~= s);
        let t = s.subrange(3 * k, 3 * k + 2);
        assert(p.take(s.len() as int)[3 * k] == p[3 * k]);
        assert(p.take(s.len() as int)[3 * k + 1] == p[3 * k + 1]);
        assert(line[14 + 3 * k] == p[3 * k]);
        assert(line[15 + 3 * k] == p[3 * k + 1]);
        assert(t[0] == s[3 * k] && t[1] == s[3 * k + 1]);
    }
    assert(line[16 + 3 * k] == ' ') by {
        let s = spaced_hex(b);
        if k + 1 < b.len() {
            assert(p.take(s.len() as int)[3 * k + 2] == p[3 * k + 2]);
            assert(line[16 + 3 * k] == p[3 * k + 2]);
        } else if 3 * k + 2 < 47 {
            assert(line[16 + 3 * k] == p[3 * k + 2]);
        } else {
            assert(line[61] == "  |"@[0]);
        }
    }
    assert(line[63] == "  |"@[2]);
    assert(line[64 + k] == shown_bytes(b)[k]);
    assert(line[64 + b.len() as int] == "|\n"@[0]);
    assert(line.last() == "|\n"@[1]);
}

proof fn lemma_eight_digits(n: nat)
    requires
        n <= 0xffff_ffff,
    ensures
        hex_wide(n, 8).len() == 8,
{
    reveal_with_fuel(hex, 9);
}

/// A dump has a row for every sixteen bytes, each with the bytes of its place and all of them full
/// but the last; nothing beyond the end is shown.
pub proof fn law_a_dump_shows_every_byte(buf: Seq<u8>, row: int, end: int)
    requires
        0 <= row <= end <= buf.len(),
    ensures
        row == end ==> dump_rows(buf, row, end).len() == 0,
        row < end <= row + 16 ==> dump_rows(buf, row, end) == dump_row(
            row,
            buf.subrange(row, end),
        ),
        row + 16 <= end ==> dump_rows(buf, row, end) == dump_row(
            row,
            buf.subrange(row, row + 16),
        ) + dump_rows(buf, row + 16, end),
{
    if row < end {
        let e = row_end(row, end);
        if e == end {
            assert(dump_rows(buf, end, end) =~= Seq::empty());
            let one = dump_row(row, buf.subrange(row, end));
            assert(one + Seq::empty() =~= one);
        }
    }
}

/// A dump ends where it was asked to, or with the file where that is shorter.
pub proof fn law_a_dump_stays_in_the_file(buf: Seq<u8>, off: int, len: int)
    ensures
        dump_end(buf, off, len) <= buf.len(),
        dump_end(buf, off, len) <= off + len,
        dump_end(buf, off, len) == buf.len() || dump_end(buf, off, len) == off + len,
{
}

} // verus!
