//! A flat image read by address, with the symbols that name places in it.
//!
//! With a base of zero the image answers at two windows: at 0 and, mirrored, at 0x10000000. Any
//! other base moves it to that one address.

use vstd::prelude::*;

use crate::args::value;
#[allow(unused_imports)]
use crate::args::{law_no_argument_gives_no_value, law_the_first_value_counts, value_of};
use crate::arm::{is_return, word_after};
#[allow(unused_imports)]
use crate::arm::{returns_always, wrap};
use crate::bytes::{find_nul, is_text, text_between, u32le, word_fits};
#[allow(unused_imports)]
use crate::bytes::{all_printable, chars_between, le32, lemma_nul_from_is, lemma_two_digits, nul_from};
use crate::eapp::is_eapp;
#[allow(unused_imports)]
use crate::eapp::eapp_magic;
use crate::text::{chars_of, parse_unsigned, push_hex_wide, show_byte, split_once, strip_front};
#[allow(unused_imports)]
use crate::text::lemma_one_more_cell;
#[allow(unused_imports)]
use crate::text::{begins, behind, dec, halves, hex, hex_wide, printable, shown, texts, unsigned};
#[allow(unused_imports)]
use crate::text::{law_a_text_is_cut_at_the_first, law_decimal_reads_back, law_hex_reads_back};

verus! {

/// The image and the address it was loaded at.
pub struct Img {
    pub d: Vec<u8>,
    pub base: u32,
}

/// The contents of an image.
pub struct ImgView {
    pub d: Seq<u8>,
    pub base: u32,
}

impl View for Img {
    type V = ImgView;

    open spec fn view(&self) -> ImgView {
        ImgView { d: self.d@, base: self.base }
    }
}

/// The file offset of an address, in whichever window the image was loaded into.
pub open spec fn offset_of(img: ImgView, addr: u32) -> Option<int> {
    if img.base != 0 {
        if addr >= img.base {
            Some(addr - img.base)
        } else {
            None
        }
    } else if addr >= 0x1000_0000 {
        Some(addr - 0x1000_0000)
    } else {
        Some(addr as int)
    }
}

/// A whole word stands at the address.
pub open spec fn has_word(img: ImgView, addr: u32) -> bool {
    match offset_of(img, addr) {
        Some(o) => o + 4 <= img.d.len(),
        None => false,
    }
}

/// The word at the address; zero outside the image.
pub open spec fn word(img: ImgView, addr: u32) -> u32 {
    if has_word(img, addr) {
        le32(img.d, offset_of(img, addr)->0)
    } else {
        0
    }
}

/// The byte at the address; zero outside the image.
pub open spec fn byte(img: ImgView, addr: u32) -> u8 {
    match offset_of(img, addr) {
        Some(o) => if o < img.d.len() {
            img.d[o]
        } else {
            0
        },
        None => 0,
    }
}

/// The string at the address: from 2 to 255 printable characters that a zero byte ends.
pub open spec fn string_at(img: ImgView, addr: u32) -> Option<Seq<char>> {
    match offset_of(img, addr) {
        None => None,
        Some(o) => {
            let end = nul_from(img.d, o);
            if o < img.d.len() && end < img.d.len() && 2 <= end - o <= 255 && all_printable(
                img.d,
                o,
                end,
            ) {
                Some(chars_between(img.d, o, end))
            } else {
                None
            }
        },
    }
}

impl Img {
    /// The file offset of an address.
    pub fn off(&self, addr: u32) -> (r: Option<usize>)
        ensures
            match r {
                Some(o) => offset_of(self@, addr) == Some(o as int),
                None => offset_of(self@, addr) is None,
            },
    {
        if self.base != 0 {
            if addr >= self.base {
                Some((addr - self.base) as usize)
            } else {
                None
            }
        } else if addr >= 0x1000_0000 {
            Some((addr - 0x1000_0000) as usize)
        } else {
            Some(addr as usize)
        }
    }

    /// Whether a whole word stands at the address.
    pub fn has(&self, addr: u32) -> (r: bool)
        ensures
            r == has_word(self@, addr),
    {
        match self.off(addr) {
            Some(o) => word_fits(self.d.as_slice(), o),
            None => false,
        }
    }

    /// The word at the address; zero outside the image.
    pub fn w(&self, addr: u32) -> (r: u32)
        ensures
            r == word(self@, addr),
    {
        match self.off(addr) {
            Some(o) => if word_fits(self.d.as_slice(), o) {
                u32le(self.d.as_slice(), o)
            } else {
                0
            },
            None => 0,
        }
    }

    /// The byte at the address; zero outside the image.
    pub fn read8(&self, addr: u32) -> (r: u8)
        ensures
            r == byte(self@, addr),
    {
        match self.off(addr) {
            Some(o) => if o < self.d.len() {
                self.d[o]
            } else {
                0
            },
            None => 0,
        }
    }

    /// The string at the address, if the bytes there look like one.
    pub fn cstr(&self, addr: u32) -> (r: Option<String>)
        ensures
            match r {
                Some(s) => string_at(self@, addr) == Some(s@),
                None => string_at(self@, addr) is None,
            },
    {
        let o: usize = match self.off(addr) {
            Some(o) => o,
            None => return None,
        };
        if o >= self.d.len() {
            return None;
        }
        let end: usize = find_nul(self.d.as_slice(), o);
        if end == self.d.len() || end - o < 2 || end - o > 255 {
            return None;
        }
        if !is_text(self.d.as_slice(), o, end) {
            return None;
        }
        Some(text_between(self.d.as_slice(), o, end))
    }
}

// ---------------------------------------------------------------- numbers on the command line

/// The number that a text writes: hexadecimal behind `0x`, decimal otherwise.
pub open spec fn number_of(t: Seq<char>) -> Option<int> {
    match behind(t, "0x"@) {
        Some(h) => match unsigned(h, true, 0xffff_ffff) {
            Some(n) => Some(n),
            None => unsigned(t, false, 0xffff_ffff),
        },
        None => unsigned(t, false, 0xffff_ffff),
    }
}

/// Parses a number, hexadecimal behind `0x`.
pub fn parse(t: &[char]) -> (r: Option<u32>)
    ensures
        match r {
            Some(n) => number_of(t@) == Some(n as int),
            None => number_of(t@) is None,
        },
{
    if let Some(h) = strip_front(t, "0x") {
        if let Some(n) = parse_unsigned(h, true, 0xffff_ffff) {
            return Some(n as u32);
        }
    }
    match parse_unsigned(t, false, 0xffff_ffff) {
        Some(n) => Some(n as u32),
        None => None,
    }
}

/// An address and a number behind a colon; the number may be left out.
pub open spec fn pair_of(spec_text: Seq<char>, default: int) -> Option<(int, int)> {
    match halves(spec_text, ':') {
        Some((a, n)) => match (number_of(a), number_of(n)) {
            (Some(x), Some(y)) => Some((x, y)),
            _ => None,
        },
        None => match number_of(spec_text) {
            Some(x) => Some((x, default)),
            None => None,
        },
    }
}

/// Parses `ADDR` or `ADDR:NUMBER`; a part that is no number spoils the whole.
pub fn parse_pair(text: &str, default: u32) -> (r: Option<(u32, u32)>)
    ensures
        match r {
            Some(p) => pair_of(text@, default as int) == Some((p.0 as int, p.1 as int)),
            None => pair_of(text@, default as int) is None,
        },
{
    let t = chars_of(text);
    match split_once(t.as_slice(), ':') {
        Some((a, n)) => match (parse(a), parse(n)) {
            (Some(x), Some(y)) => Some((x, y)),
            _ => None,
        },
        None => match parse(t.as_slice()) {
            Some(x) => Some((x, default)),
            None => None,
        },
    }
}

// ---------------------------------------------------------------- the window

/// Where an image is read as if it were loaded: where the command line says, else at the load base
/// that a game binary gives, else in the firmware's own windows.
pub open spec fn base_for(args: Seq<Seq<char>>, d: Seq<u8>, load_base: Option<u32>) -> int {
    let asked = match value_of(args, "--base="@) {
        Some(v) => number_of(v),
        None => None,
    };
    match (asked, load_base) {
        (Some(b), _) => b,
        (None, Some(b)) if eapp_magic(d) => b as int,
        _ => 0,
    }
}

/// Where an image is read as if it were loaded. `load_base` is what its loader says, if it is a
/// game binary that loads.
pub fn choose_base(args: &[String], d: &[u8], load_base: Option<u32>) -> (r: u32)
    ensures
        r == base_for(texts(args@), d@, load_base),
{
    if let Some(v) = value(args, "--base=") {
        let c = chars_of(v.as_str());
        if let Some(b) = parse(c.as_slice()) {
            return b;
        }
    }
    match load_base {
        Some(b) => if is_eapp(d) {
            b
        } else {
            0
        },
        None => 0,
    }
}

// ---------------------------------------------------------------- functions

/// How many words a function has, counted from its `i`-th: up to its first return, at most 600.
pub open spec fn length_from(img: ImgView, addr: u32, i: int) -> int
    decreases 600 - i,
{
    if i >= 600 {
        600
    } else if returns_always(word(img, wrap(addr + 4 * i))) {
        i + 1
    } else {
        length_from(img, addr, i + 1)
    }
}

/// How many words the function at `addr` has.
pub fn fn_len(img: &Img, addr: u32) -> (n: u32)
    ensures
        n == length_from(img@, addr, 0),
        1 <= n <= 600,
{
    let mut i: u32 = 0;
    while i < 600
        invariant
            i <= 600,
            length_from(img@, addr, 0) == length_from(img@, addr, i as int),
        decreases 600 - i,
    {
        if is_return(img.w(word_after(addr, i))) {
            return i + 1;
        }
        i += 1;
    }
    600
}

// ---------------------------------------------------------------- bytes

/// The two digits and the space of each of the first `n` bytes from `at`.
pub open spec fn row_hex(img: ImgView, at: u32, n: int) -> Seq<char>
    decreases n,
{
    if n <= 0 {
        Seq::empty()
    } else {
        row_hex(img, at, n - 1) + hex_wide(byte(img, wrap(at + n - 1)) as nat, 2) + " "@
    }
}

/// The characters of the first `n` bytes from `at`.
pub open spec fn row_chars(img: ImgView, at: u32, n: int) -> Seq<char> {
    Seq::new(n as nat, |i: int| shown(byte(img, wrap(at + i))))
}

/// One row of sixteen bytes.
pub open spec fn byte_row(img: ImgView, at: u32) -> Seq<char> {
    "  "@ + hex_wide(at as nat, 8) + "  "@ + row_hex(img, at, 16) + " |"@ + row_chars(img, at, 16)
        + "|\n"@
}

/// One row of sixteen bytes from `at`.
pub fn render_byte_row(img: &Img, at: u32) -> (out: String)
    ensures
        out@ == byte_row(img@, at),
{
    let mut hexs = String::new();
    let mut chars = String::new();
    let mut i: u32 = 0;
    assert(chars@ =~= row_chars(img@, at, 0));
    while i < 16
        invariant
            i <= 16,
            hexs@ == row_hex(img@, at, i as int),
            chars@ == row_chars(img@, at, i as int),
        decreases 16 - i,
    {
        let a: u32 = ((at as u64 + i as u64) % 0x1_0000_0000) as u32;
        let b: u8 = img.read8(a);
        push_hex_wide(&mut hexs, b as u128, 2);
        hexs.append(" ");
        chars.push(show_byte(b));
        i += 1;
        assert(chars@ =~= row_chars(img@, at, i as int));
    }
    let mut out = String::from_str("  ");
    push_hex_wide(&mut out, at as u128, 8);
    out.append("  ");
    out.append(hexs.as_str());
    out.append(" |");
    out.append(chars.as_str());
    out.append("|\n");
    out
}

/// The first `n` rows from `addr`.
pub open spec fn byte_rows(img: ImgView, addr: u32, n: int) -> Seq<char>
    decreases n,
{
    if n <= 0 {
        Seq::empty()
    } else {
        byte_rows(img, addr, n - 1) + byte_row(img, wrap(addr + 16 * (n - 1)))
    }
}

/// How many rows `count` bytes fill.
pub open spec fn rows_for(count: u32) -> int {
    (count + 15) / 16
}

/// The rows that hold `count` bytes from `addr`.
pub fn render_bytes(img: &Img, addr: u32, count: u32) -> (out: String)
    ensures
        out@ == byte_rows(img@, addr, rows_for(count)),
{
    let rows: u64 = (count as u64 + 15) / 16;
    let mut out = String::new();
    let mut i: u64 = 0;
    while i < rows
        invariant
            i <= rows,
            rows == rows_for(count),
            rows <= 0x1000_0000,
            out@ == byte_rows(img@, addr, i as int),
        decreases rows - i,
    {
        let at: u32 = ((addr as u64 + 16 * i) % 0x1_0000_0000) as u32;
        out.append(render_byte_row(img, at).as_str());
        i += 1;
    }
    out
}

// ---------------------------------------------------------------- laws

/// An image at base zero reads the same in both of its windows.
pub proof fn law_windows_mirror(img: ImgView, addr: u32)
    requires
        img.base == 0,
        addr < 0x1000_0000,
    ensures
        ({
            let high = (addr + 0x1000_0000) as u32;
            &&& word(img, high) == word(img, addr)
            &&& byte(img, high) == byte(img, addr)
            &&& has_word(img, high) == has_word(img, addr)
            &&& string_at(img, high) == string_at(img, addr)
        }),
{
}

/// A file reads the same at whatever base it is loaded: only the distance to the base counts.
pub proof fn law_base_moves_the_window(d: Seq<u8>, b1: u32, b2: u32, o: u32)
    requires
        b1 != 0,
        b2 != 0,
        b1 + o <= 0xffff_ffff,
        b2 + o <= 0xffff_ffff,
    ensures
        ({
            let i1 = ImgView { d, base: b1 };
            let i2 = ImgView { d, base: b2 };
            let a1 = (b1 + o) as u32;
            let a2 = (b2 + o) as u32;
            &&& word(i1, a1) == word(i2, a2)
            &&& byte(i1, a1) == byte(i2, a2)
            &&& string_at(i1, a1) == string_at(i2, a2)
        }),
{
}

/// The four bytes at an address make up the word there.
pub proof fn law_word_is_its_bytes(img: ImgView, addr: u32)
    requires
        has_word(img, addr),
        addr <= 0xffff_fffc,
        img.base != 0 || addr <= 0x0fff_fffc || addr >= 0x1000_0000,
    ensures
        word(img, addr) == byte(img, addr) + 0x100 * byte(img, (addr + 1) as u32) + 0x1_0000 * byte(
            img,
            (addr + 2) as u32,
        ) + 0x100_0000 * byte(img, (addr + 3) as u32),
{
}

proof fn lemma_no_mark(n: nat, c: char)
    requires
        !('0' <= c <= '9'),
        !('a' <= c <= 'f'),
    ensures
        !dec(n).contains(c),
        !hex(n).contains(c),
{
    law_decimal_reads_back(n, 0, n as int);
    law_hex_reads_back(n, 0, n as int);
    assert(hex_wide(n, 0) =~= hex(n));
}

/// A number that is written with `0x` in hexadecimal, or in decimal without, is read back; neither
/// way of writing it holds a colon.
#[verifier::rlimit(60)]
pub proof fn law_numbers_are_read_back(n: u32)
    ensures
        number_of("0x"@ + hex(n as nat)) == Some(n as int),
        number_of("0x"@ + hex_wide(n as nat, 8)) == Some(n as int),
        number_of(dec(n as nat)) == Some(n as int),
        !("0x"@ + hex(n as nat)).contains(':'),
        !dec(n as nat).contains(':'),
{
    reveal_strlit("0x");
    law_hex_reads_back(n as nat, 8, 0xffff_ffff);
    law_decimal_reads_back(n as nat, 0, 0xffff_ffff);
    let h = "0x"@ + hex(n as nat);
    let w = "0x"@ + hex_wide(n as nat, 8);
    assert(h.take(2) =~= "0x"@);
    assert(h.skip(2) =~= hex(n as nat));
    assert(w.take(2) =~= "0x"@);
    assert(w.skip(2) =~= hex_wide(n as nat, 8));
    let d = dec(n as nat);
    if begins(d, "0x"@) {
        assert(d.take(2)[1] == d[1]);
    }
    lemma_no_mark(n as nat, ':');
    assert forall|k: int| 0 <= k < h.len() implies h[k] != ':' by {
        if k >= 2 {
            assert(h[k] == hex(n as nat)[k - 2]);
            assert(hex(n as nat).contains(hex(n as nat)[k - 2]));
        }
    }
}

/// A pair that is written `address:count` is read back, in either base; without a count it has the
/// usual one.
pub proof fn law_pairs_are_read_back(a: u32, n: u32, default: int)
    ensures
        pair_of("0x"@ + hex(a as nat) + ":"@ + dec(n as nat), default) == Some(
            (a as int, n as int),
        ),
        pair_of("0x"@ + hex(a as nat), default) == Some((a as int, default)),
        pair_of(dec(a as nat), default) == Some((a as int, default)),
{
    law_numbers_are_read_back(a);
    law_numbers_are_read_back(n);
    reveal_strlit(":");
    let h = "0x"@ + hex(a as nat);
    assert(h + ":"@ + dec(n as nat) =~= h + seq![':'] + dec(n as nat));
    law_a_text_is_cut_at_the_first(h, ':', dec(n as nat));
    law_a_text_is_cut_at_the_first(dec(a as nat), ':', dec(n as nat));
}

/// A text of two to two hundred and fifty-five printable characters with its final nought is read
/// as that text, wherever it stands in the image; and what is shorter, longer, not printable or
/// not ended is read as none.
#[verifier::rlimit(60)]
pub proof fn law_a_text_in_the_image_is_read(img: ImgView, addr: u32, o: int, len: int)
    requires
        offset_of(img, addr) == Some(o),
        0 <= o,
        0 <= len,
        o + len < img.d.len(),
        forall|k: int| o <= k < o + len ==> #[trigger] img.d[k] != 0,
        img.d[o + len] == 0,
    ensures
        ({
            let plain = forall|k: int| o <= k < o + len ==> 0x20 <= #[trigger] img.d[k] < 0x7f;
            match string_at(img, addr) {
                Some(s) => plain && 2 <= len <= 255 && s == Seq::new(
                    len as nat,
                    |k: int| img.d[o + k] as char,
                ),
                None => !(plain && 2 <= len <= 255),
            }
        }),
{
    lemma_nul_from_is(img.d, o, o + len);
    assert(all_printable(img.d, o, o + len) <==> (forall|k: int|
        o <= k < o + len ==> 0x20 <= #[trigger] img.d[k] < 0x7f)) by {
        if all_printable(img.d, o, o + len) {
            assert forall|k: int| o <= k < o + len implies 0x20 <= #[trigger] img.d[k] < 0x7f by {
                assert(printable(img.d[k]));
            }
        }
    }
    assert(chars_between(img.d, o, o + len) =~= Seq::new(
        len as nat,
        |k: int| img.d[o + k] as char,
    ));
}

/// The instruction `k` behind the one at `addr`.
pub open spec fn word_onward(img: ImgView, addr: u32, k: int) -> u32 {
    word(img, wrap(addr + 4 * k))
}

proof fn lemma_length(img: ImgView, addr: u32, i: int)
    requires
        0 <= i <= 600,
    ensures
        ({
            let n = length_from(img, addr, i);
            &&& i <= n <= 600
            &&& forall|k: int|
                i <= k < n - 1 ==> !returns_always(#[trigger] word_onward(img, addr, k))
            &&& n < 600 ==> n > i && returns_always(word(img, wrap(addr + 4 * (n - 1))))
        }),
    decreases 600 - i,
{
    if i < 600 && !returns_always(word(img, wrap(addr + 4 * i))) {
        lemma_length(img, addr, i + 1);
    }
}

/// A function ends with its first return: the instruction before the end returns and none before
/// that does, unless six hundred instructions go by without one.
pub proof fn law_a_function_ends_with_its_first_return(img: ImgView, addr: u32)
    ensures
        ({
            let n = length_from(img, addr, 0);
            &&& 1 <= n <= 600
            &&& n < 600 ==> returns_always(word(img, wrap(addr + 4 * (n - 1))))
            &&& forall|k: int|
                0 <= k < n - 1 ==> !returns_always(#[trigger] word_onward(img, addr, k))
        }),
{
    lemma_length(img, addr, 0);
}

/// As many rows of sixteen are shown as it takes to hold all bytes, and no more.
pub proof fn law_rows_hold_the_bytes(count: u32)
    ensures
        16 * rows_for(count) >= count,
        16 * rows_for(count) < count + 16,
{
}

/// With a base the byte at an address is the one as far into the image as the address is above the
/// base; a word is the four from there on, low byte first; and below the base, or beyond the end,
/// everything reads as nought.
pub proof fn law_the_image_stands_at_its_base(d: Seq<u8>, base: u32, addr: u32)
    requires
        base != 0,
    ensures
        ({
            let img = ImgView { d, base };
            let o = addr - base;
            &&& byte(img, addr) == (if 0 <= o < d.len() {
                d[o]
            } else {
                0
            })
            &&& has_word(img, addr) <==> 0 <= o && o + 4 <= d.len()
            &&& has_word(img, addr) ==> word(img, addr) == d[o] + 0x100 * d[o + 1] + 0x1_0000 * d[o
                + 2] + 0x100_0000 * d[o + 3]
            &&& !has_word(img, addr) ==> word(img, addr) == 0
            &&& addr < base ==> string_at(img, addr) is None
        }),
{
}

/// Without a base the image stands at nought and, over again, from the second window on.
pub proof fn law_the_image_stands_twice(d: Seq<u8>, addr: u32)
    ensures
        ({
            let img = ImgView { d, base: 0 };
            let o = if addr < 0x1000_0000 {
                addr as int
            } else {
                addr - 0x1000_0000
            };
            &&& byte(img, addr) == (if o < d.len() {
                d[o]
            } else {
                0
            })
            &&& has_word(img, addr) <==> o + 4 <= d.len()
            &&& has_word(img, addr) ==> word(img, addr) == d[o] + 0x100 * d[o + 1] + 0x1_0000 * d[o
                + 2] + 0x100_0000 * d[o + 3]
            &&& !has_word(img, addr) ==> word(img, addr) == 0
        }),
{
}

/// A base that is asked for counts before the derived one; that counts for a binary alone; and
/// everything else stands at nought.
pub proof fn law_which_base_counts(
    args: Seq<Seq<char>>,
    k: int,
    n: u32,
    d: Seq<u8>,
    load_base: Option<u32>,
)
    requires
        0 <= k < args.len(),
        args[k] == "--base="@ + ("0x"@ + hex(n as nat)),
        forall|j: int| 0 <= j < k ==> !begins(#[trigger] args[j], "--base="@),
    ensures
        base_for(args, d, load_base) == n,
        base_for(Seq::empty(), d, load_base) == (if load_base is Some && eapp_magic(d) {
            load_base->0 as int
        } else {
            0
        }),
{
    law_the_first_value_counts(args, "--base="@, k, "0x"@ + hex(n as nat));
    law_numbers_are_read_back(n);
    law_no_argument_gives_no_value("--base="@);
}

#[verifier::rlimit(60)]
proof fn lemma_row_hex(img: ImgView, at: u32, n: int, k: int)
    requires
        0 <= k < n,
    ensures
        row_hex(img, at, n).len() == 3 * n,
        row_hex(img, at, n).subrange(3 * k, 3 * k + 2) == hex_wide(
            byte(img, wrap(at + k)) as nat,
            2,
        ),
        row_hex(img, at, n)[3 * k + 2] == ' ',
    decreases n,
{
    reveal_strlit(" ");
    let own = hex_wide(byte(img, wrap(at + n - 1)) as nat, 2);
    lemma_two_digits(byte(img, wrap(at + n - 1)));
    let all = row_hex(img, at, n);
    if n > 1 {
        lemma_row_hex(img, at, n - 1, 0);
    }
    let before = row_hex(img, at, n - 1);
    assert(all == before + own + " "@);
    let none = Seq::<char>::empty();
    assert(before + own =~= before + none + own);
    lemma_one_more_cell(before, none, own, 3 * k, 2);
    lemma_one_more_cell(before, own, " "@, 3 * k, 2);
    lemma_one_more_cell(before, own, " "@, 3 * k + 2, 0);
    if k < n - 1 {
        lemma_row_hex(img, at, n - 1, k);
    } else {
        assert(before.len() == 3 * k);
        lemma_one_more_cell(before + own, none, " "@, 3 * k, 2);
        assert(before + own + none + " "@ =~= all);
        assert(all[3 * k + 2] == ' ');
    }
}

/// A row of bytes can be read back: its address, each byte in two digits, and each as a character.
#[verifier::rlimit(60)]
pub proof fn law_a_row_of_bytes_is_read_back(img: ImgView, at: u32, k: int)
    requires
        0 <= k < 16,
    ensures
        ({
            let line = byte_row(img, at);
            let b = byte(img, wrap(at + k));
            &&& line.len() == 80
            &&& unsigned(line.subrange(2, 10), true, 0xffff_ffff) == Some(at as int)
            &&& unsigned(line.subrange(12 + 3 * k, 14 + 3 * k), true, 255) == Some(b as int)
            &&& line[62 + k] == (if 0x20 <= b < 0x7f {
                b as char
            } else {
                '.'
            })
        }),
{
    reveal_strlit("  ");
    reveal_strlit(" |");
    reveal_strlit("|\n");
    let line = byte_row(img, at);
    law_hex_reads_back(at as nat, 8, 0xffff_ffff);
    assert(hex_wide(at as nat, 8).len() == 8) by {
        reveal_with_fuel(hex, 9);
    }
    lemma_row_hex(img, at, 16, k);
    lemma_two_digits(byte(img, wrap(at + k)));
    let h = row_hex(img, at, 16);
    assert(line.subrange(2, 10) =~= hex_wide(at as nat, 8));
    assert(line.subrange(12 + 3 * k, 14 + 3 * k) =~= h.subrange(3 * k, 3 * k + 2));
    assert(line[62 + k] == row_chars(img, at, 16)[k]);
}

/// Rows follow one another: the k-th begins sixteen bytes behind the one before it.
#[verifier::rlimit(60)]
pub proof fn law_rows_follow_one_another(img: ImgView, addr: u32, n: int, k: int)
    requires
        0 <= k < n,
    ensures
        byte_rows(img, addr, n).len() == 80 * n,
        byte_rows(img, addr, n).subrange(80 * k, 80 * k + 80) == byte_row(
            img,
            wrap(addr + 16 * k),
        ),
    decreases n,
{
    let own = byte_row(img, wrap(addr + 16 * (n - 1)));
    lemma_row_len(img, wrap(addr + 16 * (n - 1)));
    if n > 1 {
        law_rows_follow_one_another(img, addr, n - 1, 0);
    }
    let before = byte_rows(img, addr, n - 1);
    let all = byte_rows(img, addr, n);
    let none = Seq::<char>::empty();
    assert(all =~= before + none + own);
    lemma_one_more_cell(before, none, own, 80 * k, 80);
    if k < n - 1 {
        law_rows_follow_one_another(img, addr, n - 1, k);
    } else {
        assert(before.len() == 80 * k);
    }
}

proof fn lemma_row_len(img: ImgView, at: u32)
    ensures
        byte_row(img, at).len() == 80,
{
    law_a_row_of_bytes_is_read_back(img, at, 0);
}

} // verus!
