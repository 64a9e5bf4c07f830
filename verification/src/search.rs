//! Searches through an image: words under a mask, strings, and the control that the reader itself
//! is sound.

use vstd::prelude::*;
use vstd::slice::slice_subrange;

use crate::arm::word_after;
#[allow(unused_imports)]
use crate::arm::wrap;
use crate::bytes::text_between;
#[allow(unused_imports)]
use crate::bytes::{all_printable, chars_between};
use crate::image::{parse, Img, ImgView};
#[allow(unused_imports)]
use crate::image::{has_word, law_numbers_are_read_back, number_of, word};
use crate::listing::place_of;
#[allow(unused_imports)]
use crate::listing::place;
use crate::text::{
    chars_of, has_text, is_printable, next_word, push_address, push_dec, push_hex_wide, quoted,
    same_chars, split,
};
#[allow(unused_imports)]
use crate::text::{begins, law_parts_are_found, lemma_contained_further};
#[allow(unused_imports)]
use crate::text::{address, contains, debug_form, dec, hex, hex_wide, law_joined_parts_come_apart};
#[allow(unused_imports)]
use crate::text::{
    ends, is_space, law_a_word_is_a_whole_run, law_hex_reads_back, occurs_at, pieces, printable,
    rejoined, unsigned, views, word_at,
};

verus! {

// ---------------------------------------------------------------- words under a mask

/// The word, the mask and the number of following instructions of a search. The mask is all ones
/// and nothing follows when they are left out or are no numbers.
pub open spec fn mask_search(t: Seq<char>) -> Option<(int, int, int)> {
    let p = pieces(t, ':');
    match number_of(p[0]) {
        None => None,
        Some(want) => Some(
            (
                want,
                number_or(p, 1, 0xffff_ffff),
                number_or(p, 2, 0),
            ),
        ),
    }
}

/// The number in the `k`-th piece, or `default`.
pub open spec fn number_or(p: Seq<Seq<char>>, k: int, default: int) -> int {
    if k < p.len() {
        match number_of(p[k]) {
            Some(n) => n,
            None => default,
        }
    } else {
        default
    }
}

fn piece_or(parts: &Vec<Vec<char>>, k: usize, default: u32) -> (n: u32)
    ensures
        n == number_or(views(parts@), k as int, default as int),
{
    assert(views(parts@).len() == parts@.len());
    if k < parts.len() {
        assert(views(parts@)[k as int] == parts@[k as int]@);
        match parse(parts[k].as_slice()) {
            Some(n) => n,
            None => default,
        }
    } else {
        default
    }
}

/// Parses `WORD[:MASK[:FOLLOW]]`.
pub fn parse_mask_search(text: &str) -> (r: Option<(u32, u32, u32)>)
    ensures
        match r {
            Some(s) => mask_search(text@) == Some((s.0 as int, s.1 as int, s.2 as int)),
            None => mask_search(text@) is None,
        },
{
    let t = chars_of(text);
    let parts = split(t.as_slice(), ':');
    assert(views(parts@).len() == parts@.len());
    if parts.len() == 0 {
        assert(pieces(t@, ':').len() > 0);
        return None;
    }
    assert(views(parts@)[0] == parts@[0]@);
    match parse(parts[0].as_slice()) {
        None => None,
        Some(want) => Some((want, piece_or(&parts, 1, 0xffff_ffff), piece_or(&parts, 2, 0))),
    }
}

/// The addresses from `a` on whose words match under the mask, up to the first address outside the
/// image.
pub open spec fn matches_from(img: ImgView, want: u32, mask: u32, a: int) -> Seq<u32>
    decreases 0x1_0000_0004 - a,
{
    if a < 0 || a > 0xffff_ffff || !has_word(img, a as u32) {
        Seq::empty()
    } else {
        (if word(img, a as u32) & mask == want & mask {
            seq![a as u32]
        } else {
            Seq::empty()
        }) + matches_from(img, want, mask, a + 4)
    }
}

/// The first word-aligned address of an image.
pub open spec fn first_address(img: ImgView) -> int {
    (img.base + 3) / 4 * 4
}

/// Every word-aligned address whose word matches under the mask.
pub fn mask_matches(img: &Img, want: u32, mask: u32) -> (hits: Vec<u32>)
    ensures
        hits@ == matches_from(img@, want, mask, first_address(img@)),
{
    let mut hits: Vec<u32> = Vec::new();
    let mut a: u64 = (img.base as u64 + 3) / 4 * 4;
    let ghost all = matches_from(img@, want, mask, first_address(img@));
    assert(hits@ + all =~= all);
    while a <= 0xffff_ffff && img.has(a as u32)
        invariant
            a <= 0x1_0000_0003,
            hits@ + matches_from(img@, want, mask, a as int) == all,
        decreases 0x1_0000_0003 - a,
    {
        let at: u32 = a as u32;
        let ghost done = hits@;
        let ghost rest = matches_from(img@, want, mask, a + 4);
        if img.w(at) & mask == want & mask {
            hits.push(at);
            assert(hits@ + rest =~= done + (seq![at] + rest));
        } else {
            assert(hits@ + rest =~= done + (Seq::<u32>::empty() + rest));
        }
        a += 4;
    }
    assert(hits@ + Seq::<u32>::empty() =~= hits@);
    hits
}

/// The line of an instruction; `text` is its disassembly.
pub open spec fn match_line(at: u32, w: u32, text: Seq<char>) -> Seq<char> {
    "  "@ + hex_wide(at as nat, 8) + "  "@ + hex_wide(w as nat, 8) + "  "@ + text + "\n"@
}

/// The line of an instruction; `text` is its disassembly.
pub fn render_match(at: u32, w: u32, text: &str) -> (out: String)
    ensures
        out@ == match_line(at, w, text@),
{
    let mut out = String::from_str("  ");
    push_hex_wide(&mut out, at as u128, 8);
    out.append("  ");
    push_hex_wide(&mut out, w as u128, 8);
    out.append("  ");
    out.append(text);
    out.append("\n");
    out
}

/// The `k`-th instruction behind a match: its address and its word.
pub fn following(img: &Img, a: u32, k: u32) -> (r: (u32, u32))
    ensures
        r.0 == wrap(a + 4 * k),
        r.1 == word(img@, r.0),
{
    let at: u32 = word_after(a, k);
    (at, img.w(at))
}

/// The search finds exactly the words that match: a word-aligned address of the image is found if
/// and only if its word matches under the mask. Of the firmware's two windows the lower one is
/// searched.
pub proof fn law_mask_matches_are_exact(img: ImgView, want: u32, mask: u32, a: u32)
    requires
        a % 4 == 0,
        has_word(img, a),
        img.base == 0 ==> a < 0x1000_0000,
    ensures
        matches_from(img, want, mask, first_address(img)).contains(a) <==> word(img, a) & mask
            == want & mask,
{
    lemma_matches(img, want, mask, first_address(img), a);
}

proof fn lemma_matches(img: ImgView, want: u32, mask: u32, from: int, a: u32)
    requires
        0 <= from <= a,
        a % 4 == from % 4,
        forall|k: int|
            from <= k <= a && k % 4 == from % 4 ==> #[trigger] has_word(img, k as u32),
    ensures
        matches_from(img, want, mask, from).contains(a) <==> word(img, a) & mask == want & mask,
    decreases a - from,
{
    let all = matches_from(img, want, mask, from);
    assert(has_word(img, from as u32));
    let rest = matches_from(img, want, mask, from + 4);
    let n = all.len() - rest.len();
    if from == a {
        if word(img, a) & mask == want & mask {
            assert(all[0] == a);
        } else {
            lemma_matches_above(img, want, mask, from + 4);
            assert(all =~= rest);
        }
    } else {
        lemma_matches(img, want, mask, from + 4, a);
        if rest.contains(a) {
            let k = choose|k: int| 0 <= k < rest.len() && rest[k] == a;
            assert(all[n + k] == a);
        }
        if all.contains(a) {
            let k = choose|k: int| 0 <= k < all.len() && all[k] == a;
            if k >= n {
                assert(rest[k - n] == a);
            }
        }
    }
}

proof fn lemma_matches_above(img: ImgView, want: u32, mask: u32, from: int)
    ensures
        forall|k: int|
            0 <= k < matches_from(img, want, mask, from).len() ==> #[trigger] matches_from(
                img,
                want,
                mask,
                from,
            )[k] >= from,
    decreases 0x1_0000_0004 - from,
{
    if 0 <= from <= 0xffff_ffff && has_word(img, from as u32) {
        lemma_matches_above(img, want, mask, from + 4);
        let all = matches_from(img, want, mask, from);
        let rest = matches_from(img, want, mask, from + 4);
        let n = all.len() - rest.len();
        assert forall|k: int| 0 <= k < all.len() implies #[trigger] all[k] >= from by {
            if k >= n {
                assert(all[k] == rest[k - n]);
            }
        }
    }
}

// ---------------------------------------------------------------- strings

/// The end of the run of printable bytes that begins at `i`.
pub open spec fn run_end(d: Seq<u8>, i: int) -> int
    decreases d.len() - i,
{
    if 0 <= i < d.len() && printable(d[i]) {
        run_end(d, i + 1)
    } else {
        i
    }
}

/// A string stands from `i` up to `e`: at least three characters that a zero byte ends.
pub open spec fn string_between(d: Seq<u8>, i: int, e: int) -> bool {
    e < d.len() && d[e] == 0 && e - i >= 3
}

/// A run of printable bytes lies inside the bytes, and holds printable bytes alone.
pub proof fn lemma_run_end(d: Seq<u8>, i: int)
    requires
        0 <= i <= d.len(),
    ensures
        i <= run_end(d, i) <= d.len(),
        all_printable(d, i, run_end(d, i)),
    decreases d.len() - i,
{
    if i < d.len() && printable(d[i]) {
        lemma_run_end(d, i + 1);
        assert forall|k: int| i <= k < run_end(d, i) implies printable(#[trigger] d[k]) by {}
    }
}

/// The strings from `i` on that hold the text, each with its offset.
pub open spec fn strings_from(d: Seq<u8>, needle: Seq<char>, i: int) -> Seq<(int, Seq<char>)>
    decreases d.len() + 1 - i,
{
    if i < 0 || i >= d.len() {
        Seq::empty()
    } else if !printable(d[i]) {
        strings_from(d, needle, i + 1)
    } else {
        proof {
            lemma_run_end(d, i);
        }
        let e = run_end(d, i);
        let rest = strings_from(d, needle, e + 1);
        if string_between(d, i, e) && contains(chars_between(d, i, e), needle) {
            seq![(i, chars_between(d, i, e))] + rest
        } else {
            rest
        }
    }
}

/// The contents of a list of strings with their offsets.
pub open spec fn string_views(v: Seq<(usize, String)>) -> Seq<(int, Seq<char>)> {
    v.map_values(|x: (usize, String)| (x.0 as int, x.1@))
}

/// Every string that a zero byte ends and that holds the text, with its offset.
pub fn find_strings(d: &[u8], needle: &str) -> (v: Vec<(usize, String)>)
    ensures
        string_views(v@) == strings_from(d@, needle@, 0),
{
    let n = chars_of(needle);
    let mut v: Vec<(usize, String)> = Vec::new();
    let mut i: usize = 0;
    let ghost all = strings_from(d@, needle@, 0);
    assert(string_views(v@) + all =~= all);
    assert(d@.len() == d.len());
    while i < d.len()
        invariant
            n@ == needle@,
            d@.len() <= usize::MAX,
            all == strings_from(d@, needle@, 0),
            string_views(v@) + strings_from(d@, needle@, i as int) == all,
        decreases d@.len() - i,
    {
        if !is_printable(d[i]) {
            i += 1;
        } else {
            let start: usize = i;
            let mut e: usize = i;
            while e < d.len() && is_printable(d[e])
                invariant
                    start <= e <= d@.len(),
                    run_end(d@, start as int) == run_end(d@, e as int),
                decreases d@.len() - e,
            {
                e += 1;
            }
            proof {
                lemma_run_end(d@, start as int);
            }
            let ghost rest = strings_from(d@, needle@, e + 1);
            let ghost done = string_views(v@);
            assert(e > start);
            if e < d.len() && d[e] == 0 && e - start >= 3 {
                let s = text_between(d, start, e);
                let cs = chars_of(s.as_str());
                if has_text(cs.as_slice(), n.as_slice()) {
                    let ghost one = (start as int, s@);
                    v.push((start, s));
                    assert(string_views(v@) =~= done.push(one));
                    assert(string_views(v@) + rest =~= done + (seq![one] + rest));
                }
            }
            if e == d.len() {
                assert(rest =~= Seq::empty());
                assert(string_views(v@) + rest =~= string_views(v@));
                return v;
            }
            i = e + 1;
        }
    }
    assert(string_views(v@) + Seq::<(int, Seq<char>)>::empty() =~= string_views(v@));
    v
}

/// The line of a string: its address and the string in quotation marks.
pub open spec fn string_line(at: u32, quoted: Seq<char>) -> Seq<char> {
    "  "@ + address(at) + "  "@ + quoted + "\n"@
}

/// The lines of the first `n` strings of an image.
pub open spec fn string_lines(img: ImgView, v: Seq<(int, Seq<char>)>, n: int) -> Seq<char>
    decreases n,
{
    if n <= 0 {
        Seq::empty()
    } else {
        string_lines(img, v, n - 1) + string_line(place(img, v[n - 1].0), debug_form(v[n - 1].1))
    }
}

/// The listing of the strings that hold the text: all are counted, the first two hundred are
/// shown.
pub open spec fn strings_text(img: ImgView, needle: Seq<char>) -> Seq<char> {
    let v = strings_from(img.d, needle, 0);
    "\n=== strings containing "@ + debug_form(needle) + " ===\n"@ + string_lines(
        img,
        v,
        if v.len() < 200 {
            v.len() as int
        } else {
            200
        },
    ) + "  "@ + dec(v.len()) + " total\n"@
}

/// The line of a string; `quoted` is the string in quotation marks.
pub fn render_string(at: u32, quoted: &str) -> (out: String)
    ensures
        out@ == string_line(at, quoted@),
{
    let mut out = String::from_str("  ");
    push_address(&mut out, at);
    out.append("  ");
    out.append(quoted);
    out.append("\n");
    out
}

/// The listing of the strings that hold the text.
pub fn render_strings(img: &Img, needle: &str) -> (out: String)
    ensures
        out@ == strings_text(img@, needle@),
{
    let v = find_strings(img.d.as_slice(), needle);
    let shown: usize = if v.len() < 200 {
        v.len()
    } else {
        200
    };
    let mut lines = String::new();
    let mut i: usize = 0;
    while i < shown
        invariant
            i <= shown <= v@.len(),
            lines@ == string_lines(img@, string_views(v@), i as int),
        decreases shown - i,
    {
        assert(string_views(v@)[i as int] == (v@[i as int].0 as int, v@[i as int].1@));
        let at: u32 = place_of(img, v[i].0);
        lines.append(render_string(at, quoted(v[i].1.as_str()).as_str()).as_str());
        i += 1;
    }
    let mut out = String::from_str("\n=== strings containing ");
    out.append(quoted(needle).as_str());
    out.append(" ===\n");
    out.append(lines.as_str());
    out.append("  ");
    push_dec(&mut out, v.len() as u128);
    out.append(" total\n");
    out
}

// ---------------------------------------------------------------- self-check

/// The instructions that a live run recorded: addresses and mnemonics.
pub open spec fn recorded() -> Seq<(u32, Seq<char>)> {
    seq![
        (0x000c_d7c8u32, "stmdb"@),
        (0x000c_d7cc, "ldr"@),
        (0x000c_d7d0, "bl"@),
        (0x000c_d7d4, "bl"@),
        (0x000c_d7dc, "bl"@),
        (0x000c_d7e0, "ldmia"@),
    ]
}

/// How many instructions were recorded.
pub const RECORDED: usize = 6;

/// The `k`-th instruction that was recorded.
pub fn recorded_at(k: usize) -> (r: (u32, &'static str))
    requires
        k < RECORDED,
    ensures
        (r.0, r.1@) == recorded()[k as int],
{
    assert(recorded()[0] == (0x000c_d7c8u32, "stmdb"@));
    assert(recorded()[1] == (0x000c_d7ccu32, "ldr"@));
    assert(recorded()[2] == (0x000c_d7d0u32, "bl"@));
    assert(recorded()[3] == (0x000c_d7d4u32, "bl"@));
    assert(recorded()[4] == (0x000c_d7dcu32, "bl"@));
    assert(recorded()[5] == (0x000c_d7e0u32, "ldmia"@));
    if k == 0 {
        (0x000c_d7c8, "stmdb")
    } else if k == 1 {
        (0x000c_d7cc, "ldr")
    } else if k == 2 {
        (0x000c_d7d0, "bl")
    } else if k == 3 {
        (0x000c_d7d4, "bl")
    } else if k == 4 {
        (0x000c_d7dc, "bl")
    } else {
        (0x000c_d7e0, "ldmia")
    }
}

/// The disassembly begins with the mnemonic.
pub open spec fn mnemonic_holds(text: Seq<char>, want: Seq<char>) -> bool {
    word_at(text, 0) == want
}

/// Whether the disassembly begins with the mnemonic.
pub fn check_mnemonic(text: &str, want: &str) -> (r: bool)
    ensures
        r == mnemonic_holds(text@, want@),
{
    let t = chars_of(text);
    let w = chars_of(want);
    let (a, b) = next_word(t.as_slice(), 0);
    same_chars(slice_subrange(t.as_slice(), a, b), w.as_slice())
}

/// The line of one check.
pub open spec fn check_line(hit: bool, at: u32, w: u32, text: Seq<char>) -> Seq<char> {
    (if hit {
        "  ok   "@
    } else {
        "  FAIL "@
    }) + hex_wide(at as nat, 8) + "  "@ + hex_wide(w as nat, 8) + "  "@ + text + "\n"@
}

/// The line of one check.
pub fn render_check(hit: bool, at: u32, w: u32, text: &str) -> (out: String)
    ensures
        out@ == check_line(hit, at, w, text@),
{
    let mut out = if hit {
        String::from_str("  ok   ")
    } else {
        String::from_str("  FAIL ")
    };
    push_hex_wide(&mut out, at as u128, 8);
    out.append("  ");
    push_hex_wide(&mut out, w as u128, 8);
    out.append("  ");
    out.append(text);
    out.append("\n");
    out
}

/// The end of the self-check: the word of the object pointer and the verdict.
pub open spec fn verdict_text(img: ImgView, ok: bool) -> Seq<char> {
    "  [0x1081eaf4] = "@ + address(word(img, 0x1081_eaf4))
        + "   (trace: 0x13ef29a0 at runtime; image holds the initialiser)\n  self-check "@ + (if ok {
        "PASSED\n"@
    } else {
        "FAILED — do not trust anything below\n"@
    })
}

/// The end of the self-check.
pub fn render_verdict(img: &Img, ok: bool) -> (out: String)
    ensures
        out@ == verdict_text(img@, ok),
{
    let mut out = String::from_str("  [0x1081eaf4] = ");
    push_address(&mut out, img.w(0x1081_eaf4));
    out.append("   (trace: 0x13ef29a0 at runtime; image holds the initialiser)\n  self-check ");
    if ok {
        out.append("PASSED\n");
    } else {
        out.append("FAILED — do not trust anything below\n");
    }
    out
}

// ---------------------------------------------------------------- every string

/// A string stands in the bytes: at least three printable bytes, none printable before them, and a
/// nought behind them.
pub open spec fn whole_string(d: Seq<u8>, i: int, e: int) -> bool {
    &&& 0 <= i
    &&& i + 3 <= e < d.len()
    &&& forall|k: int| i <= k < e ==> 0x20 <= #[trigger] d[k] < 0x7f
    &&& d[e] == 0
    &&& i > 0 ==> !(0x20 <= d[i - 1] < 0x7f)
}

proof fn lemma_run_end_is(d: Seq<u8>, i: int, e: int)
    requires
        0 <= i <= e <= d.len(),
        forall|k: int| i <= k < e ==> printable(#[trigger] d[k]),
        e < d.len() ==> !printable(d[e]),
    ensures
        run_end(d, i) == e,
    decreases e - i,
{
    if i < e {
        lemma_run_end_is(d, i + 1, e);
    }
}

proof fn lemma_run_stops(d: Seq<u8>, i: int)
    requires
        0 <= i <= d.len(),
    ensures
        run_end(d, i) < d.len() ==> !printable(d[run_end(d, i)]),
        i < d.len() && printable(d[i]) ==> run_end(d, i) > i,
    decreases d.len() - i,
{
    if i < d.len() && printable(d[i]) {
        lemma_run_stops(d, i + 1);
        lemma_run_end(d, i + 1);
    }
}

proof fn lemma_string_found(d: Seq<u8>, needle: Seq<char>, from: int, i: int, e: int)
    requires
        0 <= from <= i,
        from > 0 ==> from > d.len() || !printable(d[from - 1]),
        whole_string(d, i, e),
        contains(chars_between(d, i, e), needle),
    ensures
        strings_from(d, needle, from).contains((i, chars_between(d, i, e))),
    decreases d.len() + 1 - from,
{
    let hit = (i, chars_between(d, i, e));
    let all = strings_from(d, needle, from);
    assert forall|k: int| i <= k < e implies printable(#[trigger] d[k]) by {}
    if !printable(d[from]) {
        assert(from != i);
        lemma_string_found(d, needle, from + 1, i, e);
    } else {
        lemma_run_end(d, from);
        lemma_run_stops(d, from);
        let r = run_end(d, from);
        if from == i {
            lemma_run_end_is(d, i, e);
            assert(all[0] == hit);
        } else {
            assert(r < i) by {
                if r >= i {
                    assert(printable(d[i - 1]));
                }
            }
            lemma_string_found(d, needle, r + 1, i, e);
            let rest = strings_from(d, needle, r + 1);
            let k = choose|k: int| 0 <= k < rest.len() && rest[k] == hit;
            if string_between(d, from, r) && contains(chars_between(d, from, r), needle) {
                assert(all[k + 1] == hit);
            } else {
                assert(all[k] == hit);
            }
        }
    }
}

proof fn lemma_string_stands(d: Seq<u8>, needle: Seq<char>, from: int, hit: (int, Seq<char>)) -> (e: int)
    requires
        0 <= from,
        from > 0 ==> from > d.len() || !printable(d[from - 1]),
        strings_from(d, needle, from).contains(hit),
    ensures
        from <= hit.0,
        whole_string(d, hit.0, e),
        hit.1 == chars_between(d, hit.0, e),
        contains(hit.1, needle),
    decreases d.len() + 1 - from,
{
    let all = strings_from(d, needle, from);
    let k = choose|k: int| 0 <= k < all.len() && all[k] == hit;
    if !printable(d[from]) {
        lemma_string_stands(d, needle, from + 1, hit)
    } else {
        lemma_run_end(d, from);
        lemma_run_stops(d, from);
        let r = run_end(d, from);
        let rest = strings_from(d, needle, r + 1);
        if string_between(d, from, r) && contains(chars_between(d, from, r), needle) {
            if k == 0 {
                assert forall|j: int| from <= j < r implies 0x20 <= #[trigger] d[j] < 0x7f by {
                    assert(printable(d[j]));
                }
                r
            } else {
                assert(rest[k - 1] == hit);
                lemma_string_stands(d, needle, r + 1, hit)
            }
        } else {
            assert(rest[k] == hit);
            lemma_string_stands(d, needle, r + 1, hit)
        }
    }
}

/// Every string that holds the text is found, at its place and as a whole.
pub proof fn law_every_string_is_found(d: Seq<u8>, needle: Seq<char>, i: int, e: int)
    requires
        whole_string(d, i, e),
        contains(Seq::new((e - i) as nat, |k: int| d[i + k] as char), needle),
    ensures
        strings_from(d, needle, 0).contains(
            (i, Seq::new((e - i) as nat, |k: int| d[i + k] as char)),
        ),
{
    assert(chars_between(d, i, e) =~= Seq::new((e - i) as nat, |k: int| d[i + k] as char));
    lemma_string_found(d, needle, 0, i, e);
}

/// Nothing is found but a whole string that holds the text.
pub proof fn law_no_string_is_invented(d: Seq<u8>, needle: Seq<char>, hit: (int, Seq<char>))
    requires
        strings_from(d, needle, 0).contains(hit),
    ensures
        exists|e: int|
            #[trigger] whole_string(d, hit.0, e) && hit.1 == Seq::new(
                (e - hit.0) as nat,
                |k: int| d[hit.0 + k] as char,
            ),
        contains(hit.1, needle),
{
    let e = lemma_string_stands(d, needle, 0, hit);
    assert(chars_between(d, hit.0, e) =~= Seq::new(
        (e - hit.0) as nat,
        |k: int| d[hit.0 + k] as char,
    ));
    assert(whole_string(d, hit.0, e));
}

/// A search that is written `word:mask:count` is read back; without a mask every bit counts, and
/// without a count nothing follows.
#[verifier::rlimit(60)]
pub proof fn law_a_search_is_read_back(want: u32, mask: u32, more: u32)
    ensures
        mask_search(
            "0x"@ + hex(want as nat) + seq![':'] + ("0x"@ + hex(mask as nat)) + seq![':'] + dec(
                more as nat,
            ),
        ) == Some((want as int, mask as int, more as int)),
        mask_search("0x"@ + hex(want as nat) + seq![':'] + ("0x"@ + hex(mask as nat))) == Some(
            (want as int, mask as int, 0int),
        ),
        mask_search("0x"@ + hex(want as nat)) == Some((want as int, 0xffff_ffffint, 0int)),
{
    law_numbers_are_read_back(want);
    law_numbers_are_read_back(mask);
    law_numbers_are_read_back(more);
    let w = "0x"@ + hex(want as nat);
    let m = "0x"@ + hex(mask as nat);
    let n = dec(more as nat);
    lemma_search_parts(w, m, n, want as int, mask as int, more as int);
}

#[verifier::rlimit(60)]
proof fn lemma_search_parts(w: Seq<char>, m: Seq<char>, n: Seq<char>, a: int, b: int, c: int)
    requires
        !w.contains(':'),
        !m.contains(':'),
        !n.contains(':'),
        number_of(w) == Some(a),
        number_of(m) == Some(b),
        number_of(n) == Some(c),
    ensures
        mask_search(w + seq![':'] + m + seq![':'] + n) == Some((a, b, c)),
        mask_search(w + seq![':'] + m) == Some((a, b, 0int)),
        mask_search(w) == Some((a, 0xffff_ffffint, 0int)),
{
    lemma_three_parts(w, m, n, ':');
}

#[verifier::rlimit(60)]
proof fn lemma_three_parts(w: Seq<char>, m: Seq<char>, n: Seq<char>, c: char)
    requires
        !w.contains(c),
        !m.contains(c),
        !n.contains(c),
    ensures
        pieces(w + seq![c] + m + seq![c] + n, c) == seq![w, m, n],
        pieces(w + seq![c] + m, c) == seq![w, m],
        pieces(w, c) == seq![w],
{
    let three = seq![w, m, n];
    let two = seq![w, m];
    let back = seq![m, n];
    assert(three.drop_first() =~= back);
    assert(back.drop_first() =~= seq![n]);
    assert(two.drop_first() =~= seq![m]);
    assert(rejoined(seq![n], c) == n);
    assert(rejoined(seq![m], c) == m);
    assert(rejoined(back, c) == m + seq![c] + n);
    assert(rejoined(two, c) == w + seq![c] + m);
    assert(rejoined(three, c) == w + seq![c] + (m + seq![c] + n));
    assert(w + seq![c] + (m + seq![c] + n) =~= w + seq![c] + m + seq![c] + n);
    assert(rejoined(seq![w], c) == w);
    law_joined_parts_come_apart(three, c);
    law_joined_parts_come_apart(two, c);
    law_joined_parts_come_apart(seq![w], c);
}

/// Matches come in order of their addresses, each once.
pub proof fn law_matches_come_in_order(img: ImgView, want: u32, mask: u32, from: int, i: int, j: int)
    requires
        0 <= i < j < matches_from(img, want, mask, from).len(),
    ensures
        from <= matches_from(img, want, mask, from)[i],
        matches_from(img, want, mask, from)[i] < matches_from(img, want, mask, from)[j],
    decreases 0x1_0000_0004 - from,
{
    let all = matches_from(img, want, mask, from);
    let rest = matches_from(img, want, mask, from + 4);
    if word(img, from as u32) & mask == want & mask {
        lemma_matches_above(img, want, mask, from + 4);
        assert(all[j] == rest[j - 1]);
        if i > 0 {
            law_matches_come_in_order(img, want, mask, from + 4, i - 1, j - 1);
            assert(all[i] == rest[i - 1]);
        } else {
            assert(all[0] == from as u32);
        }
    } else {
        law_matches_come_in_order(img, want, mask, from + 4, i, j);
        assert(all =~= rest);
    }
}

/// Only words that are there and match under the mask are found.
pub proof fn law_no_match_is_invented(img: ImgView, want: u32, mask: u32, from: int, j: int)
    requires
        0 <= j < matches_from(img, want, mask, from).len(),
    ensures
        ({
            let a = matches_from(img, want, mask, from)[j];
            has_word(img, a) && word(img, a) & mask == want & mask && (a - from) % 4 == 0
        }),
    decreases 0x1_0000_0004 - from,
{
    let all = matches_from(img, want, mask, from);
    let rest = matches_from(img, want, mask, from + 4);
    if word(img, from as u32) & mask == want & mask {
        if j > 0 {
            law_no_match_is_invented(img, want, mask, from + 4, j - 1);
            assert(all[j] == rest[j - 1]);
        }
    } else {
        assert(all =~= rest);
        law_no_match_is_invented(img, want, mask, from + 4, j);
    }
}

/// The search begins with the first address on a word boundary that is not below the base.
pub proof fn law_where_a_search_begins(img: ImgView)
    ensures
        first_address(img) % 4 == 0,
        img.base <= first_address(img) < img.base + 4,
{
}

/// Strings come in order of their places, each once.
pub proof fn law_strings_come_in_order(d: Seq<u8>, needle: Seq<char>, from: int, i: int, j: int)
    requires
        0 <= from,
        0 <= i < j < strings_from(d, needle, from).len(),
    ensures
        from <= strings_from(d, needle, from)[i].0 < strings_from(d, needle, from)[j].0,
    decreases d.len() + 1 - from,
{
    let all = strings_from(d, needle, from);
    if !printable(d[from]) {
        law_strings_come_in_order(d, needle, from + 1, i, j);
    } else {
        lemma_run_end(d, from);
        let r = run_end(d, from);
        let rest = strings_from(d, needle, r + 1);
        if string_between(d, from, r) && contains(chars_between(d, from, r), needle) {
            lemma_string_above(d, needle, r + 1, j - 1);
            assert(all[j] == rest[j - 1]);
            if i > 0 {
                law_strings_come_in_order(d, needle, r + 1, i - 1, j - 1);
                assert(all[i] == rest[i - 1]);
            }
        } else {
            law_strings_come_in_order(d, needle, r + 1, i, j);
        }
    }
}

proof fn lemma_string_above(d: Seq<u8>, needle: Seq<char>, from: int, j: int)
    requires
        0 <= from,
        0 <= j < strings_from(d, needle, from).len(),
    ensures
        from <= strings_from(d, needle, from)[j].0,
    decreases d.len() + 1 - from,
{
    let all = strings_from(d, needle, from);
    if !printable(d[from]) {
        lemma_string_above(d, needle, from + 1, j);
    } else {
        lemma_run_end(d, from);
        let r = run_end(d, from);
        let rest = strings_from(d, needle, r + 1);
        if string_between(d, from, r) && contains(chars_between(d, from, r), needle) {
            if j > 0 {
                lemma_string_above(d, needle, r + 1, j - 1);
                assert(all[j] == rest[j - 1]);
            }
        } else {
            lemma_string_above(d, needle, r + 1, j);
        }
    }
}

/// A mnemonic holds just where it is the first word of the text.
pub proof fn law_a_mnemonic_is_the_first_word(a: Seq<char>, w: Seq<char>, b: Seq<char>)
    requires
        forall|k: int| 0 <= k < a.len() ==> is_space(#[trigger] a[k]),
        w.len() > 0,
        forall|k: int| 0 <= k < w.len() ==> !is_space(#[trigger] w[k]),
        b.len() > 0 ==> is_space(b[0]),
    ensures
        mnemonic_holds(a + w + b, w),
        forall|x: Seq<char>| x != w ==> !#[trigger] mnemonic_holds(a + w + b, x),
{
    law_a_word_is_a_whole_run(a, w, b);
}

/// A line of the check says whether it holds and shows the place, the word and the text.
#[verifier::rlimit(60)]
pub proof fn law_a_check_line_is_read_back(hit: bool, at: u32, w: u32, text: Seq<char>)
    ensures
        ({
            let line = check_line(hit, at, w, text);
            &&& line.take(7) == (if hit {
                "  ok   "@
            } else {
                "  FAIL "@
            })
            &&& unsigned(line.subrange(7, 15), true, 0xffff_ffff) == Some(at as int)
            &&& unsigned(line.subrange(17, 25), true, 0xffff_ffff) == Some(w as int)
            &&& ends(line, "  "@ + text + "\n"@)
        }),
        ({
            let line = match_line(at, w, text);
            &&& unsigned(line.subrange(2, 10), true, 0xffff_ffff) == Some(at as int)
            &&& unsigned(line.subrange(12, 20), true, 0xffff_ffff) == Some(w as int)
            &&& ends(line, "  "@ + text + "\n"@)
        }),
{
    reveal_strlit("  ok   ");
    reveal_strlit("  FAIL ");
    reveal_strlit("  ");
    reveal_strlit("\n");
    law_hex_reads_back(at as nat, 8, 0xffff_ffff);
    law_hex_reads_back(w as nat, 8, 0xffff_ffff);
    assert(hex_wide(at as nat, 8).len() == 8) by {
        reveal_with_fuel(hex, 9);
    }
    assert(hex_wide(w as nat, 8).len() == 8) by {
        reveal_with_fuel(hex, 9);
    }
    let t = "  "@ + text + "\n"@;
    let line = check_line(hit, at, w, text);
    assert(line.take(7) =~= (if hit {
        "  ok   "@
    } else {
        "  FAIL "@
    }));
    assert(line.subrange(7, 15) =~= hex_wide(at as nat, 8));
    assert(line.subrange(17, 25) =~= hex_wide(w as nat, 8));
    assert(line.skip(line.len() - t.len()) =~= t);
    let other = match_line(at, w, text);
    assert(other.subrange(2, 10) =~= hex_wide(at as nat, 8));
    assert(other.subrange(12, 20) =~= hex_wide(w as nat, 8));
    assert(other.skip(other.len() - t.len()) =~= t);
}

/// The verdict says whether the check passed and shows the word that the trace names.
#[verifier::rlimit(60)]
pub proof fn law_the_verdict_is_told(img: ImgView)
    ensures
        ends(verdict_text(img, true), "self-check PASSED\n"@),
        contains(verdict_text(img, false), "self-check FAILED"@),
        contains(verdict_text(img, true), address(word(img, 0x1081_eaf4))),
{
    reveal_strlit("  [0x1081eaf4] = ");
    reveal_strlit(
        "   (trace: 0x13ef29a0 at runtime; image holds the initialiser)\n  self-check ",
    );
    reveal_strlit("PASSED\n");
    reveal_strlit("FAILED — do not trust anything below\n");
    reveal_strlit("self-check PASSED\n");
    reveal_strlit("self-check FAILED");
    let y = verdict_text(img, true);
    let n = verdict_text(img, false);
    assert(y.skip(y.len() - 18) =~= "self-check PASSED\n"@);
    let i = n.len() - "FAILED — do not trust anything below\n"@.len() - 11;
    assert(n.subrange(i, i + 17) =~= "self-check FAILED"@);
    assert(occurs_at(n, "self-check FAILED"@, i));
    let a = address(word(img, 0x1081_eaf4));
    assert(y.subrange(17, 17 + a.len() as int) =~= a);
    assert(occurs_at(y, a, 17));
}

/// No more than two hundred strings are shown, the first ones, each with its place; and the total is
/// that of all.
pub proof fn law_two_hundred_strings_are_shown(img: ImgView, needle: Seq<char>)
    ensures
        ({
            let v = strings_from(img.d, needle, 0);
            let s = strings_text(img, needle);
            &&& begins(s, "\n=== strings containing "@ + debug_form(needle) + " ===\n"@)
            &&& v.len() <= 200 ==> contains(s, string_lines(img, v, v.len() as int))
            &&& v.len() > 200 ==> contains(s, string_lines(img, v, 200))
            &&& ends(s, "  "@ + dec(v.len()) + " total\n"@)
        }),
{
    let v = strings_from(img.d, needle, 0);
    let s = strings_text(img, needle);
    let n: int = if v.len() < 200 {
        v.len() as int
    } else {
        200
    };
    let h = "\n=== strings containing "@ + debug_form(needle) + " ===\n"@;
    let l = string_lines(img, v, n);
    let z = "  "@ + dec(v.len()) + " total\n"@;
    assert(s =~= h + l + z);
    law_parts_are_found(h, l, z, s);
    law_parts_are_found(h + l, z, Seq::empty(), s);
    assert(s.take(h.len() as int) =~= h);
}

/// Every string that is shown has its line, with the address of its place.
pub proof fn law_every_string_has_its_line(
    img: ImgView,
    v: Seq<(int, Seq<char>)>,
    n: int,
    k: int,
)
    requires
        0 <= k < n <= v.len(),
    ensures
        contains(
            string_lines(img, v, n),
            "  "@ + address(((img.base + v[k].0) % 0x1_0000_0000) as u32) + "  "@ + debug_form(
                v[k].1,
            ) + "\n"@,
        ),
    decreases n,
{
    let own = string_line(place(img, v[n - 1].0), debug_form(v[n - 1].1));
    let before = string_lines(img, v, n - 1);
    let none = Seq::<char>::empty();
    if k < n - 1 {
        law_every_string_has_its_line(img, v, n - 1, k);
        lemma_contained_further(
            none,
            before,
            own,
            string_line(place(img, v[k].0), debug_form(v[k].1)),
        );
        assert(none + before + own =~= before + own);
    } else {
        law_parts_are_found(before, own, none, none);
        assert(before + own + none =~= before + own);
    }
}

} // verus!
