//! Reading words and strings out of a flat byte image.

use vstd::prelude::*;

use crate::text::{is_printable, push_hex_wide};
#[allow(unused_imports)]
use crate::text::{hex, hex_wide, law_hex_reads_back, printable, unsigned};

verus! {

/// The little-endian word at `i`.
pub open spec fn le32(buf: Seq<u8>, i: int) -> u32 {
    (buf[i] + 0x100 * buf[i + 1] + 0x1_0000 * buf[i + 2] + 0x100_0000 * buf[i + 3]) as u32
}

/// The big-endian word at `i`.
pub open spec fn be32(buf: Seq<u8>, i: int) -> u32 {
    (buf[i + 3] + 0x100 * buf[i + 2] + 0x1_0000 * buf[i + 1] + 0x100_0000 * buf[i]) as u32
}

/// The four bytes of a word, lowest first.
pub open spec fn le_bytes(w: u32) -> Seq<u8> {
    seq![
        (w % 0x100) as u8,
        (w / 0x100 % 0x100) as u8,
        (w / 0x1_0000 % 0x100) as u8,
        (w / 0x100_0000) as u8,
    ]
}

/// The four bytes of a word, highest first.
pub open spec fn be_bytes(w: u32) -> Seq<u8> {
    seq![
        (w / 0x100_0000) as u8,
        (w / 0x1_0000 % 0x100) as u8,
        (w / 0x100 % 0x100) as u8,
        (w % 0x100) as u8,
    ]
}

/// A word whose bytes stand at `i` is read back whole, in either byte order.
pub proof fn lemma_word_round_trip(buf: Seq<u8>, i: int, w: u32)
    requires
        0 <= i,
        i + 4 <= buf.len(),
    ensures
        buf.subrange(i, i + 4) == le_bytes(w) ==> le32(buf, i) == w,
        buf.subrange(i, i + 4) == be_bytes(w) ==> be32(buf, i) == w,
{
    let s = buf.subrange(i, i + 4);
    assert(s[0] == buf[i] && s[1] == buf[i + 1] && s[2] == buf[i + 2] && s[3] == buf[i + 3]);
}

/// The little-endian word at `o`.
pub fn u32le(b: &[u8], o: usize) -> (w: u32)
    requires
        o + 4 <= b@.len(),
    ensures
        w == le32(b@, o as int),
{
    b[o] as u32 + 0x100 * (b[o + 1] as u32) + 0x1_0000 * (b[o + 2] as u32) + 0x100_0000 * (b[o
        + 3] as u32)
}

/// The big-endian word at `o`.
pub fn u32be(b: &[u8], o: usize) -> (w: u32)
    requires
        o + 4 <= b@.len(),
    ensures
        w == be32(b@, o as int),
{
    assert(b@.len() == b.len());
    b[o + 3] as u32 + 0x100 * (b[o + 2] as u32) + 0x1_0000 * (b[o + 1] as u32) + 0x100_0000 * (
    b[o] as u32)
}

/// Whether a whole word stands at `o`.
pub fn word_fits(b: &[u8], o: usize) -> (r: bool)
    ensures
        r == (o + 4 <= b@.len()),
        b@.len() <= usize::MAX,
{
    b.len() >= 4 && o <= b.len() - 4
}

/// `n` rounded up to a multiple of four.
pub fn align4(n: usize) -> (r: usize)
    requires
        n <= usize::MAX - 3,
    ensures
        r % 4 == 0,
        n <= r < n + 4,
{
    (n + 3) / 4 * 4
}

/// Where the first zero byte stands at or after `i`; the length when there is none.
pub open spec fn nul_from(buf: Seq<u8>, i: int) -> int
    decreases buf.len() - i,
{
    if i >= buf.len() {
        buf.len() as int
    } else if buf[i] == 0 {
        i
    } else {
        nul_from(buf, i + 1)
    }
}

/// Every byte from `a` up to `b` is printable.
pub open spec fn all_printable(buf: Seq<u8>, a: int, b: int) -> bool {
    forall|k: int| a <= k < b ==> printable(#[trigger] buf[k])
}

/// The characters of the bytes from `a` up to `b`.
pub open spec fn chars_between(buf: Seq<u8>, a: int, b: int) -> Seq<char> {
    Seq::new((b - a) as nat, |k: int| buf[a + k] as char)
}

/// The string at `off`: at most 64 printable characters that a zero byte ends.
pub open spec fn cstr(buf: Seq<u8>, off: int) -> Option<Seq<char>> {
    let end = nul_from(buf, off);
    if 0 <= off <= end < buf.len() && end - off <= 64 && all_printable(buf, off, end) {
        Some(chars_between(buf, off, end))
    } else {
        None
    }
}

/// `nul_from` finds a zero byte with none between `i` and it.
pub proof fn lemma_nul_from(buf: Seq<u8>, i: int)
    requires
        0 <= i <= buf.len(),
    ensures
        i <= nul_from(buf, i) <= buf.len(),
        nul_from(buf, i) < buf.len() ==> buf[nul_from(buf, i)] == 0,
        forall|k: int| i <= k < nul_from(buf, i) ==> buf[k] != 0,
    decreases buf.len() - i,
{
    if i < buf.len() && buf[i] != 0 {
        lemma_nul_from(buf, i + 1);
    }
}

/// Where the first zero byte stands is what `nul_from` gives.
pub proof fn lemma_nul_from_is(buf: Seq<u8>, i: int, end: int)
    requires
        0 <= i <= end < buf.len(),
        buf[end] == 0,
        forall|k: int| i <= k < end ==> buf[k] != 0,
    ensures
        nul_from(buf, i) == end,
    decreases end - i,
{
    if i < end {
        lemma_nul_from_is(buf, i + 1, end);
    }
}

/// The index of the first zero byte at or after `from`, or the length.
pub fn find_nul(buf: &[u8], from: usize) -> (i: usize)
    requires
        from <= buf@.len(),
    ensures
        i == nul_from(buf@, from as int),
        from <= i <= buf@.len(),
{
    let mut i: usize = from;
    while i < buf.len() && buf[i] != 0
        invariant
            from <= i <= buf@.len(),
            nul_from(buf@, from as int) == nul_from(buf@, i as int),
        decreases buf@.len() - i,
    {
        i += 1;
    }
    i
}

/// Whether every byte from `a` up to `b` is printable.
pub fn is_text(buf: &[u8], a: usize, b: usize) -> (r: bool)
    requires
        a <= b <= buf@.len(),
    ensures
        r == all_printable(buf@, a as int, b as int),
{
    let mut i: usize = a;
    while i < b
        invariant
            a <= i <= b <= buf@.len(),
            all_printable(buf@, a as int, i as int),
        decreases b - i,
    {
        if !is_printable(buf[i]) {
            assert(!printable(buf@[i as int]));
            return false;
        }
        i += 1;
    }
    true
}

/// The text of a run of printable bytes.
pub fn text_between(buf: &[u8], a: usize, b: usize) -> (s: String)
    requires
        a <= b <= buf@.len(),
        all_printable(buf@, a as int, b as int),
    ensures
        s@ == chars_between(buf@, a as int, b as int),
{
    let mut s = String::new();
    let mut i: usize = a;
    while i < b
        invariant
            a <= i <= b <= buf@.len(),
            s@ == chars_between(buf@, a as int, i as int),
        decreases b - i,
    {
        s.push(buf[i] as char);
        i += 1;
        assert(s@ =~= chars_between(buf@, a as int, i as int));
    }
    s
}

/// The string at `off`, if the bytes there are one.
pub fn cstr_at(buf: &[u8], off: usize) -> (r: Option<String>)
    ensures
        match r {
            Some(s) => cstr(buf@, off as int) == Some(s@),
            None => cstr(buf@, off as int) is None,
        },
{
    if off > buf.len() {
        return None;
    }
    let end: usize = find_nul(buf, off);
    if end == buf.len() || end - off > 64 {
        return None;
    }
    if !is_text(buf, off, end) {
        return None;
    }
    Some(text_between(buf, off, end))
}

/// How often `b` occurs.
pub open spec fn occurrences(buf: Seq<u8>, b: u8) -> int
    decreases buf.len(),
{
    if buf.len() == 0 {
        0
    } else {
        occurrences(buf.drop_last(), b) + (if buf.last() == b {
            1int
        } else {
            0
        })
    }
}

/// How often each byte value occurs, from 0 to 255: what the entropy of a file is computed from.
pub fn byte_counts(buf: &[u8]) -> (v: Vec<usize>)
    ensures
        v@.len() == 256,
        forall|b: u8| v@[b as int] == occurrences(buf@, b),
{
    let mut v: Vec<usize> = Vec::new();
    let mut k: usize = 0;
    while k < 256
        invariant
            k <= 256,
            v@ == Seq::new(k as nat, |j: int| 0usize),
        decreases 256 - k,
    {
        v.push(0);
        k += 1;
        assert(v@ =~= Seq::new(k as nat, |j: int| 0usize));
    }
    assert(buf@.len() == buf.len());
    let mut i: usize = 0;
    while i < buf.len()
        invariant
            i <= buf@.len(),
            buf@.len() <= usize::MAX,
            v@.len() == 256,
            forall|b: u8| v@[b as int] == occurrences(buf@.take(i as int), b),
            forall|j: int| 0 <= j < 256 ==> v@[j] <= i,
        decreases buf@.len() - i,
    {
        let b: usize = buf[i] as usize;
        assert(buf@.take(i + 1).drop_last() =~= buf@.take(i as int));
        let n: usize = v[b];
        v.set(b, n + 1);
        i += 1;
    }
    assert(buf@.take(i as int) =~= buf@);
    v
}

/// The sum of the first `n` counts.
pub open spec fn count_sum(buf: Seq<u8>, n: int) -> int
    decreases n,
{
    if n <= 0 {
        0
    } else {
        count_sum(buf, n - 1) + occurrences(buf, (n - 1) as u8)
    }
}

proof fn lemma_count_sum(buf: Seq<u8>, n: int)
    requires
        buf.len() > 0,
        0 <= n <= 256,
    ensures
        count_sum(buf, n) == count_sum(buf.drop_last(), n) + (if buf.last() < n {
            1int
        } else {
            0
        }),
    decreases n,
{
    if n > 0 {
        lemma_count_sum(buf, n - 1);
    }
}

proof fn lemma_count_sum_empty(buf: Seq<u8>, n: int)
    requires
        buf.len() == 0,
    ensures
        count_sum(buf, n) == 0,
    decreases n,
{
    if n > 0 {
        lemma_count_sum_empty(buf, n - 1);
    }
}

/// The counts of all byte values add up to the length of the file.
pub proof fn law_counts_cover_the_file(buf: Seq<u8>)
    ensures
        count_sum(buf, 256) == buf.len(),
    decreases buf.len(),
{
    if buf.len() == 0 {
        lemma_count_sum_empty(buf, 256);
    } else {
        law_counts_cover_the_file(buf.drop_last());
        lemma_count_sum(buf, 256);
    }
}

/// Two hexadecimal digits for each byte.
pub open spec fn hex_bytes(b: Seq<u8>) -> Seq<char>
    decreases b.len(),
{
    if b.len() == 0 {
        Seq::empty()
    } else {
        hex_bytes(b.drop_last()) + hex_wide(b.last() as nat, 2)
    }
}

/// A hash as thirty-two hexadecimal digits.
pub fn hex16(h: &[u8; 16]) -> (s: String)
    ensures
        s@ == hex_bytes(h@),
{
    let mut s = String::new();
    let mut i: usize = 0;
    while i < 16
        invariant
            i <= 16,
            s@ == hex_bytes(h@.take(i as int)),
        decreases 16 - i,
    {
        push_hex_wide(&mut s, h[i] as u128, 2);
        i += 1;
        assert(h@.take(i as int).drop_last() =~= h@.take(i - 1));
    }
    assert(h@.take(16) =~= h@);
    s
}

/// Each byte is written with exactly two digits.
pub proof fn lemma_hex_bytes_len(b: Seq<u8>)
    ensures
        hex_bytes(b).len() == 2 * b.len(),
    decreases b.len(),
{
    if b.len() > 0 {
        lemma_hex_bytes_len(b.drop_last());
        let n = b.last() as nat;
        reveal_with_fuel(hex, 2);
        assert(hex(n).len() == (if n < 16 {
            1int
        } else {
            2
        }));
    }
}

/// A word of four bytes is the sum of its bytes, the first the lowest in one order and the highest
/// in the other; the bytes of a word, reversed, are its bytes in the other order.
#[verifier::rlimit(60)]
pub proof fn law_the_orders_mirror(buf: Seq<u8>, i: int, w: u32)
    requires
        0 <= i,
        i + 4 <= buf.len(),
    ensures
        le32(buf, i) == be32(buf.subrange(i, i + 4).reverse(), 0),
        le_bytes(w).reverse() == be_bytes(w),
        le32(le_bytes(w), 0) == w,
        be32(be_bytes(w), 0) == w,
        le32(buf, i) % 0x100 == buf[i],
        be32(buf, i) % 0x100 == buf[i + 3],
{
    let r = buf.subrange(i, i + 4).reverse();
    assert(r[0] == buf[i + 3] && r[1] == buf[i + 2] && r[2] == buf[i + 1] && r[3] == buf[i]);
    assert(le_bytes(w).reverse() =~= be_bytes(w));
    assert(le_bytes(w).subrange(0, 4) =~= le_bytes(w));
    assert(be_bytes(w).subrange(0, 4) =~= be_bytes(w));
    lemma_word_round_trip(le_bytes(w), 0, w);
    lemma_word_round_trip(be_bytes(w), 0, w);
}

/// A text of at most sixty-four printable characters with its final nought is read as that text,
/// wherever it stands; and what is longer, not printable or not ended is read as none.
pub proof fn law_a_text_is_read(buf: Seq<u8>, off: int, len: int)
    requires
        0 <= off,
        0 <= len,
        off + len <= buf.len(),
        forall|k: int| off <= k < off + len ==> #[trigger] buf[k] != 0,
        off + len < buf.len() ==> buf[off + len] == 0,
    ensures
        ({
            let plain = forall|k: int| off <= k < off + len ==> 0x20 <= #[trigger] buf[k] < 0x7f;
            match cstr(buf, off) {
                Some(s) => off + len < buf.len() && len <= 64 && plain && s == Seq::new(
                    len as nat,
                    |k: int| buf[off + k] as char,
                ),
                None => !(off + len < buf.len() && len <= 64 && plain),
            }
        }),
{
    if off + len < buf.len() {
        lemma_nul_from_is(buf, off, off + len);
        if all_printable(buf, off, off + len) {
            assert forall|k: int| off <= k < off + len implies 0x20 <= #[trigger] buf[k] < 0x7f by {
                assert(printable(buf[k]));
            }
        }
        assert(chars_between(buf, off, off + len) =~= Seq::new(
            len as nat,
            |k: int| buf[off + k] as char,
        ));
    } else {
        lemma_nul_from(buf, off);
    }
}

/// Each byte of a hash is two digits that read back as that byte, in order.
pub proof fn law_hex_bytes_are_read_back(b: Seq<u8>, k: int)
    requires
        0 <= k < b.len(),
    ensures
        hex_bytes(b).len() == 2 * b.len(),
        unsigned(hex_bytes(b).subrange(2 * k, 2 * k + 2), true, 255) == Some(b[k] as int),
    decreases b.len(),
{
    let u = b.drop_last();
    lemma_hex_bytes_len(u);
    lemma_two_digits(b.last());
    let own = hex_wide(b.last() as nat, 2);
    if k < b.len() - 1 {
        law_hex_bytes_are_read_back(u, k);
        assert(hex_bytes(b).subrange(2 * k, 2 * k + 2) =~= hex_bytes(u).subrange(
            2 * k,
            2 * k + 2,
        ));
    } else {
        assert(hex_bytes(b).subrange(2 * k, 2 * k + 2) =~= own);
    }
}

pub proof fn lemma_two_digits(b: u8)
    ensures
        hex_wide(b as nat, 2).len() == 2,
        unsigned(hex_wide(b as nat, 2), true, 255) == Some(b as int),
{
    law_hex_reads_back(b as nat, 2, 255);
    reveal_with_fuel(hex, 3);
}

/// The occurrences of a byte are those of the parts together, and one byte occurs once in itself.
#[verifier::rlimit(60)]
pub proof fn law_occurrences_add_up(a: Seq<u8>, c: Seq<u8>, b: u8)
    ensures
        occurrences(a + c, b) == occurrences(a, b) + occurrences(c, b),
        occurrences(seq![b], b) == 1,
        forall|o: u8| o != b ==> #[trigger] occurrences(seq![b], o) == 0,
        occurrences(Seq::empty(), b) == 0,
    decreases c.len(),
{
    reveal_with_fuel(occurrences, 2);
    assert(seq![b].drop_last() =~= Seq::<u8>::empty());
    if c.len() > 0 {
        law_occurrences_add_up(a, c.drop_last(), b);
        assert((a + c).drop_last() =~= a + c.drop_last());
        assert((a + c).last() == c.last());
    } else {
        assert(a + c =~= a);
    }
}

} // verus!
