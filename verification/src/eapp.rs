//! The eApp container: header, framework-import blocks and their thunks.
//!
//! Offsets inside a block, relative to its start:
//!
//! ```text
//! +0x00  magic
//! +0x04  name, a 32-byte buffer padded with zeros
//! +0x24  16-byte interface hash
//! +0x34  function count
//! +0x38  pointer
//! +0x3C  the thunks
//! ```

use vstd::prelude::*;
use vstd::slice::slice_subrange;

use crate::bytes::{cstr_at, find_nul, is_text, text_between, u32le, word_fits};
#[allow(unused_imports)]
use crate::bytes::{all_printable, chars_between, cstr, le32, le_bytes};
#[allow(unused_imports)]
use crate::bytes::{lemma_nul_from, lemma_nul_from_is, lemma_word_round_trip, nul_from};
#[allow(unused_imports)]
use crate::text::printable;

verus! {

/// The word that opens a framework block.
pub const BLOCK_MAGIC: u32 = 0x2906_1968;

/// The same word with its bytes reversed.
pub const BLOCK_MAGIC_REVERSED: u32 = 0x6819_0629;

/// `ldr pc, [pc, #imm12]`, the thunk that the loader patches.
pub const LDR_PC_PC: u32 = 0xE59F_F000;

/// The bits of a thunk that are not its offset.
pub const LDR_PC_PC_MASK: u32 = 0xFFFF_F000;

pub const BLOCK_NAME_OFF: usize = 0x04;

pub const BLOCK_HASH_OFF: usize = 0x24;

pub const BLOCK_COUNT_OFF: usize = 0x34;

pub const BLOCK_PTR_OFF: usize = 0x38;

pub const BLOCK_THUNKS_OFF: usize = 0x3C;

/// The MD5 of the empty string, which marks the terminator block.
pub open spec fn empty_md5() -> Seq<u8> {
    seq![
        0xd4u8,
        0x1d,
        0x8c,
        0xd9,
        0x8f,
        0x00,
        0xb2,
        0x04,
        0xe9,
        0x80,
        0x09,
        0x98,
        0xec,
        0xf8,
        0x42,
        0x7e,
    ]
}

/// The fixed fields of an eApp file and the pointer words behind them.
pub struct Header {
    pub version: u32,
    pub block_count: u32,
    pub entry_off: u32,
    /// The raw pointer words from +0x10 up to +0x28.
    pub ptrs: Vec<u32>,
}

/// The contents of a header.
pub struct HeaderView {
    pub version: u32,
    pub block_count: u32,
    pub entry_off: u32,
    pub ptrs: Seq<u32>,
}

impl View for Header {
    type V = HeaderView;

    open spec fn view(&self) -> HeaderView {
        HeaderView {
            version: self.version,
            block_count: self.block_count,
            entry_off: self.entry_off,
            ptrs: self.ptrs@,
        }
    }
}

/// One framework-import block.
pub struct Block {
    pub file_off: usize,
    pub name: String,
    pub hash: [u8; 16],
    pub func_count: u32,
    pub next_ptr: u32,
    /// Thunks that stand directly behind the block header.
    pub thunks_seen: usize,
    pub is_terminator: bool,
}

/// The contents of a block.
pub struct BlockView {
    pub file_off: int,
    pub name: Seq<char>,
    pub hash: Seq<u8>,
    pub func_count: u32,
    pub next_ptr: u32,
    pub thunks_seen: int,
    pub is_terminator: bool,
}

impl View for Block {
    type V = BlockView;

    open spec fn view(&self) -> BlockView {
        BlockView {
            file_off: self.file_off as int,
            name: self.name@,
            hash: self.hash@,
            func_count: self.func_count,
            next_ptr: self.next_ptr,
            thunks_seen: self.thunks_seen as int,
            is_terminator: self.is_terminator,
        }
    }
}

/// The contents of a list of blocks.
pub open spec fn block_views(v: Seq<Block>) -> Seq<BlockView> {
    v.map_values(|b: Block| b@)
}

// ---------------------------------------------------------------- what a file holds

/// The file begins with `eapp`.
pub open spec fn eapp_magic(buf: Seq<u8>) -> bool {
    buf.len() >= 4 && buf.take(4) == seq![0x65u8, 0x61, 0x70, 0x70]
}

/// The word is a thunk.
pub open spec fn is_thunk(w: u32) -> bool {
    w & LDR_PC_PC_MASK == LDR_PC_PC
}

/// A thunk stands at `off`.
pub open spec fn thunk_at(buf: Seq<u8>, off: int) -> bool {
    0 <= off && off + 4 <= buf.len() && is_thunk(le32(buf, off))
}

/// How many thunks stand one behind the other from `off`.
pub open spec fn thunks_at(buf: Seq<u8>, off: int) -> int
    decreases buf.len() - off,
{
    if thunk_at(buf, off) {
        1 + thunks_at(buf, off + 4)
    } else {
        0
    }
}

/// The run that `thunks_at` counts: thunks throughout, inside the file, and none behind the last.
pub proof fn lemma_thunks_at(buf: Seq<u8>, off: int)
    ensures
        thunks_at(buf, off) >= 0,
        thunks_at(buf, off) > 0 ==> off >= 0 && off + 4 * thunks_at(buf, off) <= buf.len(),
        forall|k: int| 0 <= k < thunks_at(buf, off) ==> thunk_at(buf, #[trigger] (off + 4 * k)),
        !thunk_at(buf, off + 4 * thunks_at(buf, off)),
    decreases buf.len() - off,
{
    if thunk_at(buf, off) {
        lemma_thunks_at(buf, off + 4);
        assert forall|k: int| 0 <= k < thunks_at(buf, off) implies thunk_at(
            buf,
            #[trigger] (off + 4 * k),
        ) by {
            if k > 0 {
                assert(thunk_at(buf, (off + 4) + 4 * (k - 1)));
            }
        }
    }
}

/// A block magic, in either byte order, stands at `i`.
pub open spec fn block_magic_at(buf: Seq<u8>, i: int) -> bool {
    0 <= i && i + 4 <= buf.len() && (le32(buf, i) == BLOCK_MAGIC || le32(buf, i)
        == BLOCK_MAGIC_REVERSED)
}

/// The name in the 32-byte buffer at `off`: what stands before its first zero, or the whole buffer
/// when it holds none, if that is printable. What follows the buffer plays no part.
pub open spec fn name_at(buf: Seq<u8>, off: int) -> Option<Seq<char>> {
    let end = nul_from(buf.subrange(off, off + 32), 0);
    if all_printable(buf, off, off + end) {
        Some(chars_between(buf, off, off + end))
    } else {
        None
    }
}

/// The block whose header stands at `off`, when the header fits and its name is printable.
pub open spec fn block_at(buf: Seq<u8>, off: int) -> Option<BlockView> {
    if off + BLOCK_THUNKS_OFF > buf.len() {
        None
    } else {
        match name_at(buf, off + BLOCK_NAME_OFF) {
            None => None,
            Some(name) => Some(
                BlockView {
                    file_off: off,
                    name,
                    hash: buf.subrange(off + BLOCK_HASH_OFF, off + BLOCK_HASH_OFF + 16),
                    func_count: le32(buf, off + BLOCK_COUNT_OFF),
                    next_ptr: le32(buf, off + BLOCK_PTR_OFF),
                    thunks_seen: thunks_at(buf, off + BLOCK_THUNKS_OFF),
                    is_terminator: buf.subrange(off + BLOCK_HASH_OFF, off + BLOCK_HASH_OFF + 16)
                        == empty_md5(),
                },
            ),
        }
    }
}

/// The blocks whose magic stands at `i` or a whole number of words behind it, in file order.
pub open spec fn blocks_from(buf: Seq<u8>, i: int) -> Seq<BlockView>
    decreases buf.len() - i,
{
    if i + 4 > buf.len() {
        Seq::empty()
    } else if block_magic_at(buf, i) && block_at(buf, i) is Some {
        seq![block_at(buf, i)->0] + blocks_from(buf, i + 4)
    } else {
        blocks_from(buf, i + 4)
    }
}

/// The runs of two or more thunks from `i` on, each with its offset and its length.
pub open spec fn runs_from(buf: Seq<u8>, i: int) -> Seq<(int, int)>
    decreases buf.len() - i,
{
    if i + 4 > buf.len() {
        Seq::empty()
    } else if !thunk_at(buf, i) {
        runs_from(buf, i + 4)
    } else {
        let n = thunks_at(buf, i);
        if n >= 2 {
            proof {
                lemma_thunks_at(buf, i);
            }
            seq![(i, n)] + runs_from(buf, i + 4 * n)
        } else {
            runs_from(buf, i + 4)
        }
    }
}

/// With this base the pointer lands on a string that is not empty.
pub open spec fn lands(buf: Seq<u8>, ptr: u32, base: u32) -> bool {
    let off = if ptr >= base {
        ptr - base
    } else {
        0x1_0000_0000 + ptr - base
    };
    off < buf.len() && match cstr(buf, off) {
        Some(s) => s.len() > 0,
        None => false,
    }
}

/// The bases that are tried for a pointer, in order.
pub open spec fn base_candidates(ptr: u32) -> Seq<u32> {
    seq![0x1800_0000u32, ptr & 0xFF00_0000, ptr & 0xFFF0_0000, ptr & 0xFFFF_0000, 0]
}

/// The first candidate from the `k`-th on with which the pointer lands.
pub open spec fn first_base(buf: Seq<u8>, ptr: u32, k: int) -> Option<u32>
    decreases base_candidates(ptr).len() - k,
{
    if k < 0 || k >= base_candidates(ptr).len() {
        None
    } else if lands(buf, ptr, base_candidates(ptr)[k]) {
        Some(base_candidates(ptr)[k])
    } else {
        first_base(buf, ptr, k + 1)
    }
}

/// The load base: the first candidate with which the word at +0x10 points at a string.
pub open spec fn load_base(buf: Seq<u8>) -> Option<u32> {
    if buf.len() < 0x14 {
        None
    } else {
        first_base(buf, le32(buf, 0x10), 0)
    }
}

/// The header of a file that is long enough to hold one.
pub open spec fn header_of(buf: Seq<u8>) -> Option<HeaderView> {
    if buf.len() < 0x28 {
        None
    } else {
        Some(
            HeaderView {
                version: le32(buf, 0x04),
                block_count: le32(buf, 0x08),
                entry_off: le32(buf, 0x0c),
                ptrs: Seq::new(6, |k: int| le32(buf, 0x10 + 4 * k)),
            },
        )
    }
}

// ---------------------------------------------------------------- reading it

/// Whether the file begins with `eapp`.
pub fn is_eapp(buf: &[u8]) -> (r: bool)
    ensures
        r == eapp_magic(buf@),
{
    if buf.len() < 4 {
        return false;
    }
    let r = buf[0] == 0x65 && buf[1] == 0x61 && buf[2] == 0x70 && buf[3] == 0x70;
    proof {
        let m = seq![0x65u8, 0x61, 0x70, 0x70];
        if r {
            assert(buf@.take(4) =~= m);
        } else {
            assert(m[0] == 0x65 && m[1] == 0x61 && m[2] == 0x70 && m[3] == 0x70);
            assert(buf@.take(4)[0] == buf@[0] && buf@.take(4)[1] == buf@[1] && buf@.take(4)[2]
                == buf@[2] && buf@.take(4)[3] == buf@[3]);
        }
    }
    r
}

/// How many thunks stand one behind the other from `off`.
pub fn count_thunks_at(buf: &[u8], off: usize) -> (n: usize)
    ensures
        n == thunks_at(buf@, off as int),
        off + 4 * n <= buf@.len() || n == 0,
{
    let mut n: usize = 0;
    let mut at: usize = off;
    while word_fits(buf, at) && u32le(buf, at) & LDR_PC_PC_MASK == LDR_PC_PC
        invariant
            at == off + 4 * n,
            at <= buf@.len() || n == 0,
            thunks_at(buf@, off as int) == n + thunks_at(buf@, at as int),
        decreases buf@.len() - at,
    {
        n += 1;
        at += 4;
    }
    n
}

fn is_empty_md5(h: &[u8; 16]) -> (r: bool)
    ensures
        r == (h@ == empty_md5()),
{
    let r = h[0] == 0xd4 && h[1] == 0x1d && h[2] == 0x8c && h[3] == 0xd9 && h[4] == 0x8f && h[5]
        == 0x00 && h[6] == 0xb2 && h[7] == 0x04 && h[8] == 0xe9 && h[9] == 0x80 && h[10] == 0x09
        && h[11] == 0x98 && h[12] == 0xec && h[13] == 0xf8 && h[14] == 0x42 && h[15] == 0x7e;
    proof {
        if r {
            assert(h@ =~= empty_md5());
        } else if h@ == empty_md5() {
            let e = empty_md5();
            assert(e[0] == 0xd4 && e[1] == 0x1d && e[2] == 0x8c && e[3] == 0xd9 && e[4] == 0x8f
                && e[5] == 0x00 && e[6] == 0xb2 && e[7] == 0x04 && e[8] == 0xe9 && e[9] == 0x80
                && e[10] == 0x09 && e[11] == 0x98 && e[12] == 0xec && e[13] == 0xf8 && e[14]
                == 0x42 && e[15] == 0x7e);
        }
    }
    r
}

fn read_name(buf: &[u8], off: usize) -> (r: Option<String>)
    requires
        off + 32 <= buf@.len(),
    ensures
        match r {
            Some(s) => name_at(buf@, off as int) == Some(s@),
            None => name_at(buf@, off as int) is None,
        },
{
    assert(buf@.len() == buf.len());
    let end: usize = find_nul(slice_subrange(buf, off, off + 32), 0);
    if is_text(buf, off, off + end) {
        Some(text_between(buf, off, off + end))
    } else {
        None
    }
}

/// Parses the block whose header stands at `off`.
pub fn parse_block(buf: &[u8], off: usize) -> (r: Option<Block>)
    ensures
        match r {
            Some(b) => block_at(buf@, off as int) == Some(b@),
            None => block_at(buf@, off as int) is None,
        },
{
    if buf.len() < BLOCK_THUNKS_OFF || off > buf.len() - BLOCK_THUNKS_OFF {
        return None;
    }
    let name = match read_name(buf, off + BLOCK_NAME_OFF) {
        Some(s) => s,
        None => return None,
    };
    let h: usize = off + BLOCK_HASH_OFF;
    let hash: [u8; 16] = [
        buf[h],
        buf[h + 1],
        buf[h + 2],
        buf[h + 3],
        buf[h + 4],
        buf[h + 5],
        buf[h + 6],
        buf[h + 7],
        buf[h + 8],
        buf[h + 9],
        buf[h + 10],
        buf[h + 11],
        buf[h + 12],
        buf[h + 13],
        buf[h + 14],
        buf[h + 15],
    ];
    assert(hash@ =~= buf@.subrange(h as int, h + 16));
    let is_terminator = is_empty_md5(&hash);
    Some(
        Block {
            file_off: off,
            name,
            hash,
            func_count: u32le(buf, off + BLOCK_COUNT_OFF),
            next_ptr: u32le(buf, off + BLOCK_PTR_OFF),
            thunks_seen: count_thunks_at(buf, off + BLOCK_THUNKS_OFF),
            is_terminator,
        },
    )
}

/// Finds every framework block by its magic, whatever the pointers between blocks say.
pub fn scan_blocks(buf: &[u8]) -> (out: Vec<Block>)
    ensures
        block_views(out@) == blocks_from(buf@, 0),
{
    let mut out: Vec<Block> = Vec::new();
    let mut i: usize = 0;
    assert(block_views(out@) + blocks_from(buf@, 0) =~= blocks_from(buf@, 0));
    while word_fits(buf, i)
        invariant
            i <= buf@.len(),
            block_views(out@) + blocks_from(buf@, i as int) == blocks_from(buf@, 0),
        decreases buf@.len() - i,
    {
        let w: u32 = u32le(buf, i);
        let ghost done = out@;
        if w == BLOCK_MAGIC || w == BLOCK_MAGIC_REVERSED {
            if let Some(b) = parse_block(buf, i) {
                out.push(b);
                assert(block_views(out@) =~= block_views(done).push(b@));
                assert(block_views(out@) + blocks_from(buf@, i + 4) =~= block_views(done) + (seq![
                    b@,
                ] + blocks_from(buf@, i + 4)));
            }
        }
        i += 4;
    }
    assert(block_views(out@) + Seq::<BlockView>::empty() =~= block_views(out@));
    out
}

/// The contents of a list of thunk runs.
pub open spec fn run_views(v: Seq<(usize, usize)>) -> Seq<(int, int)> {
    v.map_values(|r: (usize, usize)| (r.0 as int, r.1 as int))
}

/// Every run of two or more consecutive thunks in the file, as offset and count.
pub fn find_thunk_runs(buf: &[u8]) -> (runs: Vec<(usize, usize)>)
    ensures
        run_views(runs@) == runs_from(buf@, 0),
{
    let mut runs: Vec<(usize, usize)> = Vec::new();
    let mut i: usize = 0;
    assert(run_views(runs@) + runs_from(buf@, 0) =~= runs_from(buf@, 0));
    while word_fits(buf, i)
        invariant
            i <= buf@.len(),
            run_views(runs@) + runs_from(buf@, i as int) == runs_from(buf@, 0),
        decreases buf@.len() - i,
    {
        let n: usize = count_thunks_at(buf, i);
        if n > 0 {
            let ghost done = runs@;
            proof {
                lemma_thunks_at(buf@, i as int);
            }
            assert(thunk_at(buf@, i as int));
            if n >= 2 {
                runs.push((i, n));
                assert(run_views(runs@) =~= run_views(done).push((i as int, n as int)));
                assert(run_views(runs@) + runs_from(buf@, i + 4 * n) =~= run_views(done) + (seq![
                    (i as int, n as int),
                ] + runs_from(buf@, i + 4 * n)));
            }
            i += n * 4;
        } else {
            i += 4;
        }
    }
    assert(run_views(runs@) + Seq::<(int, int)>::empty() =~= run_views(runs@));
    runs
}

fn base_fits(buf: &[u8], ptr: u32, base: u32) -> (r: bool)
    ensures
        r == lands(buf@, ptr, base),
{
    let off: usize = ptr.wrapping_sub(base) as usize;
    if off >= buf.len() {
        return false;
    }
    match cstr_at(buf, off) {
        Some(s) => !s.as_str().is_empty(),
        None => false,
    }
}

/// Derives the load base: whatever base makes the pointer at +0x10 land on a string.
pub fn derive_load_base(buf: &[u8]) -> (r: Option<u32>)
    ensures
        r == load_base(buf@),
{
    if buf.len() < 0x14 {
        return None;
    }
    let ptr: u32 = u32le(buf, 0x10);
    reveal_with_fuel(first_base, 6);
    if base_fits(buf, ptr, 0x1800_0000) {
        return Some(0x1800_0000);
    }
    if base_fits(buf, ptr, ptr & 0xFF00_0000) {
        return Some(ptr & 0xFF00_0000);
    }
    if base_fits(buf, ptr, ptr & 0xFFF0_0000) {
        return Some(ptr & 0xFFF0_0000);
    }
    if base_fits(buf, ptr, ptr & 0xFFFF_0000) {
        return Some(ptr & 0xFFFF_0000);
    }
    if base_fits(buf, ptr, 0) {
        return Some(0);
    }
    None
}

/// Reads the header of a file that is long enough to hold one.
pub fn parse_header(buf: &[u8]) -> (r: Option<Header>)
    ensures
        match r {
            Some(h) => header_of(buf@) == Some(h@),
            None => header_of(buf@) is None,
        },
{
    if buf.len() < 0x28 {
        return None;
    }
    let mut ptrs: Vec<u32> = Vec::new();
    let mut k: usize = 0;
    while k < 6
        invariant
            k <= 6,
            buf@.len() >= 0x28,
            ptrs@ == Seq::new(k as nat, |j: int| le32(buf@, 0x10 + 4 * j)),
        decreases 6 - k,
    {
        ptrs.push(u32le(buf, 0x10 + 4 * k));
        k += 1;
        assert(ptrs@ =~= Seq::new(k as nat, |j: int| le32(buf@, 0x10 + 4 * j)));
    }
    Some(
        Header {
            version: u32le(buf, 0x04),
            block_count: u32le(buf, 0x08),
            entry_off: u32le(buf, 0x0c),
            ptrs,
        },
    )
}

// ---------------------------------------------------------------- laws

/// The scan misses nothing: wherever a magic stands on a word boundary in front of a block that
/// parses, the block is in the result, whatever the blocks around it hold.
pub proof fn law_scan_finds_every_block(buf: Seq<u8>, i: int)
    requires
        0 <= i,
        i % 4 == 0,
        block_magic_at(buf, i),
        block_at(buf, i) is Some,
    ensures
        blocks_from(buf, 0).contains(block_at(buf, i)->0),
{
    lemma_blocks_from_contains(buf, 0, i);
}

proof fn lemma_blocks_from_contains(buf: Seq<u8>, from: int, i: int)
    requires
        0 <= from <= i,
        from % 4 == 0,
        i % 4 == 0,
        block_magic_at(buf, i),
        block_at(buf, i) is Some,
    ensures
        blocks_from(buf, from).contains(block_at(buf, i)->0),
    decreases i - from,
{
    let b = block_at(buf, i)->0;
    if from == i {
        assert(blocks_from(buf, from)[0] == b);
    } else {
        lemma_blocks_from_contains(buf, from + 4, i);
        let rest = blocks_from(buf, from + 4);
        let k = choose|k: int| 0 <= k < rest.len() && rest[k] == b;
        if block_magic_at(buf, from) && block_at(buf, from) is Some {
            assert(blocks_from(buf, from)[k + 1] == b);
        } else {
            assert(blocks_from(buf, from)[k] == b);
        }
    }
}

/// The scan invents nothing: every block it returns parses at its own word-aligned offset behind a
/// magic, and the blocks come in file order without repetition.
pub proof fn law_scan_invents_no_block(buf: Seq<u8>)
    ensures
        forall|k: int|
            0 <= k < blocks_from(buf, 0).len() ==> {
                let b = #[trigger] blocks_from(buf, 0)[k];
                &&& b.file_off % 4 == 0
                &&& block_magic_at(buf, b.file_off)
                &&& block_at(buf, b.file_off) == Some(b)
            },
        forall|j: int, k: int|
            0 <= j < k < blocks_from(buf, 0).len() ==> (#[trigger] blocks_from(buf, 0)[j]).file_off
                < (#[trigger] blocks_from(buf, 0)[k]).file_off,
{
    lemma_blocks_from_sound(buf, 0);
}

proof fn lemma_blocks_from_sound(buf: Seq<u8>, from: int)
    requires
        0 <= from,
        from % 4 == 0,
    ensures
        forall|k: int|
            0 <= k < blocks_from(buf, from).len() ==> {
                let b = #[trigger] blocks_from(buf, from)[k];
                &&& from <= b.file_off
                &&& b.file_off % 4 == 0
                &&& block_magic_at(buf, b.file_off)
                &&& block_at(buf, b.file_off) == Some(b)
            },
        forall|j: int, k: int|
            0 <= j < k < blocks_from(buf, from).len() ==> (#[trigger] blocks_from(
                buf,
                from,
            )[j]).file_off < (#[trigger] blocks_from(buf, from)[k]).file_off,
    decreases buf.len() - from,
{
    if from + 4 <= buf.len() {
        lemma_blocks_from_sound(buf, from + 4);
        let rest = blocks_from(buf, from + 4);
        if block_magic_at(buf, from) && block_at(buf, from) is Some {
            let all = blocks_from(buf, from);
            assert(all =~= seq![block_at(buf, from)->0] + rest);
            assert forall|k: int| 0 <= k < all.len() implies {
                let b = #[trigger] all[k];
                &&& from <= b.file_off
                &&& b.file_off % 4 == 0
                &&& block_magic_at(buf, b.file_off)
                &&& block_at(buf, b.file_off) == Some(b)
            } by {
                if k > 0 {
                    assert(all[k] == rest[k - 1]);
                }
            }
            assert forall|j: int, k: int| 0 <= j < k < all.len() implies (#[trigger] all[j]).file_off
                < (#[trigger] all[k]).file_off by {
                assert(all[k] == rest[k - 1]);
                if j > 0 {
                    assert(all[j] == rest[j - 1]);
                }
            }
        }
    }
}

/// `count` thunks and no more behind a block header are counted as exactly `count`: the declared
/// function count can be checked against what stands in the file.
pub proof fn law_thunk_count_is_exact(buf: Seq<u8>, off: int, count: int)
    requires
        0 <= off,
        0 <= count,
        forall|k: int| 0 <= k < count ==> thunk_at(buf, #[trigger] (off + 4 * k)),
        !thunk_at(buf, off + 4 * count),
    ensures
        thunks_at(buf, off) == count,
    decreases count,
{
    if count > 0 {
        assert(thunk_at(buf, off + 4 * 0));
        assert forall|k: int| 0 <= k < count - 1 implies thunk_at(
            buf,
            #[trigger] ((off + 4) + 4 * k),
        ) by {
            assert(thunk_at(buf, off + 4 * (k + 1)));
        }
        law_thunk_count_is_exact(buf, off + 4, count - 1);
    }
}

/// A run of thunks is whole: it is word-aligned, holds two thunks or more and nothing else, and
/// neither the word before it nor the word behind it is a thunk.
pub open spec fn whole_run(buf: Seq<u8>, off: int, n: int) -> bool {
    &&& 0 <= off
    &&& off % 4 == 0
    &&& n >= 2
    &&& off + 4 * n <= buf.len()
    &&& forall|k: int| 0 <= k < n ==> thunk_at(buf, #[trigger] (off + 4 * k))
    &&& !thunk_at(buf, off + 4 * n)
    &&& off >= 4 ==> !thunk_at(buf, off - 4)
}

/// Every run that is found is whole.
pub proof fn law_thunk_runs_are_whole(buf: Seq<u8>)
    ensures
        forall|j: int|
            0 <= j < runs_from(buf, 0).len() ==> whole_run(
                buf,
                (#[trigger] runs_from(buf, 0)[j]).0,
                runs_from(buf, 0)[j].1,
            ),
{
    lemma_runs_whole(buf, 0);
}

proof fn lemma_runs_whole(buf: Seq<u8>, i: int)
    requires
        0 <= i,
        i % 4 == 0,
        i >= 4 ==> !thunk_at(buf, i - 4),
    ensures
        forall|j: int|
            0 <= j < runs_from(buf, i).len() ==> whole_run(
                buf,
                (#[trigger] runs_from(buf, i)[j]).0,
                runs_from(buf, i)[j].1,
            ),
    decreases buf.len() - i,
{
    if i + 4 > buf.len() {
        assert(runs_from(buf, i) =~= Seq::empty());
    } else {
        lemma_thunks_at(buf, i);
        if !thunk_at(buf, i) {
            lemma_runs_whole(buf, i + 4);
            assert(runs_from(buf, i) == runs_from(buf, i + 4));
        } else {
            let n = thunks_at(buf, i);
            let next = i + 4 * n;
            if next + 4 <= buf.len() {
                assert(!thunk_at(buf, next));
                lemma_runs_whole(buf, next + 4);
                assert(runs_from(buf, next) == runs_from(buf, next + 4));
            } else {
                assert(runs_from(buf, next) =~= Seq::empty());
            }
            if n >= 2 {
                let all = runs_from(buf, i);
                let rest = runs_from(buf, next);
                assert(all =~= seq![(i, n)] + rest);
                assert(whole_run(buf, i, n));
                assert forall|j: int| 0 <= j < all.len() implies whole_run(
                    buf,
                    (#[trigger] all[j]).0,
                    all[j].1,
                ) by {
                    if j > 0 {
                        assert(all[j] == rest[j - 1]);
                    }
                }
            } else {
                assert(n == 1);
                assert(next == i + 4);
                assert(runs_from(buf, i) == runs_from(buf, next));
            }
        }
    }
}

/// Every whole run is found.
pub proof fn law_thunk_runs_are_all_found(buf: Seq<u8>, off: int, n: int)
    requires
        whole_run(buf, off, n),
    ensures
        runs_from(buf, 0).contains((off, n)),
{
    lemma_runs_contain(buf, 0, off, n);
}

proof fn lemma_runs_contain(buf: Seq<u8>, i: int, off: int, n: int)
    requires
        0 <= i <= off,
        i % 4 == 0,
        whole_run(buf, off, n),
    ensures
        runs_from(buf, i).contains((off, n)),
    decreases off - i,
{
    lemma_thunks_at(buf, i);
    if i == off {
        law_thunk_count_is_exact(buf, off, n);
        assert(thunk_at(buf, off + 4 * 0));
        assert(runs_from(buf, i)[0] == (off, n));
    } else if !thunk_at(buf, i) {
        lemma_runs_contain(buf, i + 4, off, n);
    } else {
        let m = thunks_at(buf, i);
        // The run from `i` ends before `off`, whose predecessor is no thunk.
        if i + 4 * m > off {
            let k = (off - 4 - i) / 4;
            assert(off - 4 == i + 4 * k);
            assert(thunk_at(buf, i + 4 * k));
        }
        lemma_runs_contain(buf, i + 4 * m, off, n);
        if m >= 2 {
            let rest = runs_from(buf, i + 4 * m);
            let k = choose|k: int| 0 <= k < rest.len() && rest[k] == (off, n);
            assert(runs_from(buf, i)[k + 1] == (off, n));
        }
    }
}

/// The bytes of a block header: magic, name padded with zeros to 32 bytes, hash, count, pointer.
pub open spec fn block_bytes(name: Seq<u8>, hash: Seq<u8>, count: u32, ptr: u32) -> Seq<u8> {
    le_bytes(BLOCK_MAGIC) + name + Seq::new((32 - name.len()) as nat, |k: int| 0u8) + hash
        + le_bytes(count) + le_bytes(ptr)
}

/// What is written as a block is read back as that block: for every printable name that its buffer
/// holds, every hash, count and pointer, at every word-aligned place in any file.
#[verifier::rlimit(60)]
pub proof fn law_block_round_trip(
    buf: Seq<u8>,
    i: int,
    name: Seq<u8>,
    hash: Seq<u8>,
    count: u32,
    ptr: u32,
)
    requires
        0 <= i,
        i % 4 == 0,
        i + BLOCK_THUNKS_OFF <= buf.len(),
        name.len() <= 32,
        all_printable(name, 0, name.len() as int),
        hash.len() == 16,
        buf.subrange(i, i + BLOCK_THUNKS_OFF) == block_bytes(name, hash, count, ptr),
    ensures
        block_at(buf, i) == Some(
            BlockView {
                file_off: i,
                name: chars_between(name, 0, name.len() as int),
                hash,
                func_count: count,
                next_ptr: ptr,
                thunks_seen: thunks_at(buf, i + BLOCK_THUNKS_OFF),
                is_terminator: hash == empty_md5(),
            },
        ),
        blocks_from(buf, 0).contains(block_at(buf, i)->0),
{
    let b = block_bytes(name, hash, count, ptr);
    let s = buf.subrange(i, i + BLOCK_THUNKS_OFF);
    assert forall|k: int| 0 <= k < BLOCK_THUNKS_OFF implies buf[i + k] == #[trigger] b[k] by {
        assert(s[k] == buf[i + k]);
    }
    assert forall|k: int| 0 <= k < 4 implies b[k] == #[trigger] le_bytes(BLOCK_MAGIC)[k] by {}
    assert(buf.subrange(i, i + 4) =~= le_bytes(BLOCK_MAGIC));
    lemma_word_round_trip(buf, i, BLOCK_MAGIC);
    let n = name.len() as int;
    assert forall|k: int| 0 <= k < n implies buf[i + 4 + k] == #[trigger] name[k] by {
        assert(b[4 + k] == name[k]);
    }
    let field = buf.subrange(i + 4, i + 4 + 32);
    assert forall|k: int| i + 4 <= k < i + 4 + n implies buf[k] != 0 && printable(
        #[trigger] buf[k],
    ) by {
        assert(buf[i + 4 + (k - i - 4)] == name[k - i - 4]);
        assert(printable(name[k - i - 4]));
    }
    assert forall|k: int| 0 <= k < n implies #[trigger] field[k] != 0 by {
        assert(field[k] == buf[i + 4 + k]);
    }
    if n < 32 {
        assert(b[4 + n] == 0);
        assert(field[n] == buf[i + (4 + n)]);
        lemma_nul_from_is(field, 0, n);
    } else {
        lemma_nul_from(field, 0);
    }
    assert(chars_between(buf, i + 4, i + 4 + n) =~= chars_between(name, 0, n));
    assert forall|k: int| 0 <= k < 16 implies buf[i + 0x24 + k] == #[trigger] hash[k] by {
        assert(b[0x24 + k] == hash[k]);
    }
    assert(buf.subrange(i + 0x24, i + 0x24 + 16) =~= hash);
    assert forall|k: int| 0 <= k < 4 implies buf[i + 0x34 + k] == #[trigger] le_bytes(count)[k] by {
        assert(b[0x34 + k] == le_bytes(count)[k]);
    }
    assert(buf.subrange(i + 0x34, i + 0x34 + 4) =~= le_bytes(count));
    lemma_word_round_trip(buf, i + 0x34, count);
    assert forall|k: int| 0 <= k < 4 implies buf[i + 0x38 + k] == #[trigger] le_bytes(ptr)[k] by {
        assert(b[0x38 + k] == le_bytes(ptr)[k]);
    }
    assert(buf.subrange(i + 0x38, i + 0x38 + 4) =~= le_bytes(ptr));
    lemma_word_round_trip(buf, i + 0x38, ptr);
    law_scan_finds_every_block(buf, i);
}

/// The load base is derived, not assumed: it is one of the candidates, the pointer lands with it,
/// and it lands with none of the candidates before it; when there is no base, no candidate fits.
pub proof fn law_load_base_is_derived(buf: Seq<u8>)
    requires
        buf.len() >= 0x14,
    ensures
        ({
            let ptr = le32(buf, 0x10);
            let c = base_candidates(ptr);
            match load_base(buf) {
                Some(base) => exists|k: int|
                    0 <= k < c.len() && #[trigger] c[k] == base && lands(buf, ptr, base) && forall|
                        j: int,
                    |
                        0 <= j < k ==> !lands(buf, ptr, #[trigger] c[j]),
                None => forall|k: int| 0 <= k < c.len() ==> !lands(buf, ptr, #[trigger] c[k]),
            }
        }),
{
    let ptr = le32(buf, 0x10);
    lemma_first_base(buf, ptr, 0);
}

proof fn lemma_first_base(buf: Seq<u8>, ptr: u32, from: int)
    requires
        0 <= from <= base_candidates(ptr).len(),
    ensures
        ({
            let c = base_candidates(ptr);
            match first_base(buf, ptr, from) {
                Some(base) => exists|k: int|
                    from <= k < c.len() && #[trigger] c[k] == base && lands(buf, ptr, base)
                        && forall|j: int| from <= j < k ==> !lands(buf, ptr, #[trigger] c[j]),
                None => forall|k: int| from <= k < c.len() ==> !lands(buf, ptr, #[trigger] c[k]),
            }
        }),
    decreases base_candidates(ptr).len() - from,
{
    let c = base_candidates(ptr);
    if from < c.len() {
        if lands(buf, ptr, c[from]) {
            assert(c[from] == c[from]);
        } else {
            lemma_first_base(buf, ptr, from + 1);
        }
    }
}

/// The bytes of words, one behind the other.
pub open spec fn le_words(v: Seq<u32>) -> Seq<u8>
    decreases v.len(),
{
    if v.len() == 0 {
        Seq::empty()
    } else {
        le_words(v.drop_last()) + le_bytes(v.last())
    }
}

proof fn lemma_le_words(v: Seq<u32>, k: int)
    requires
        0 <= k < v.len(),
    ensures
        le_words(v).len() == 4 * v.len(),
        le_words(v).subrange(4 * k, 4 * k + 4) == le_bytes(v[k]),
    decreases v.len(),
{
    let before = le_words(v.drop_last());
    lemma_le_words_len(v.drop_last());
    if k < v.len() - 1 {
        lemma_le_words(v.drop_last(), k);
        assert(le_words(v).subrange(4 * k, 4 * k + 4) =~= before.subrange(4 * k, 4 * k + 4));
    } else {
        assert(le_words(v).subrange(4 * k, 4 * k + 4) =~= le_bytes(v[k]));
    }
}

proof fn lemma_le_words_len(v: Seq<u32>)
    ensures
        le_words(v).len() == 4 * v.len(),
    decreases v.len(),
{
    if v.len() > 0 {
        lemma_le_words_len(v.drop_last());
    }
}

/// Words that are written one behind the other are read back, each at its place.
pub proof fn law_words_round_trip(front: Seq<u8>, v: Seq<u32>, rest: Seq<u8>, k: int)
    requires
        0 <= k < v.len(),
    ensures
        le32(front + le_words(v) + rest, front.len() + 4 * k) == v[k],
{
    lemma_le_words(v, k);
    let buf = front + le_words(v) + rest;
    let i = front.len() + 4 * k;
    assert(buf.subrange(i, i + 4) =~= le_words(v).subrange(4 * k, 4 * k + 4));
    lemma_word_round_trip(buf, i, v[k]);
}

/// A header that is written is read back: behind `eapp` the version, the number of blocks, the
/// entry and the six pointers in their order, whatever follows in the file.
#[verifier::rlimit(60)]
pub proof fn law_header_round_trip(
    version: u32,
    blocks: u32,
    entry: u32,
    ptrs: Seq<u32>,
    rest: Seq<u8>,
)
    requires
        ptrs.len() == 6,
    ensures
        ({
            let buf = seq![0x65u8, 0x61, 0x70, 0x70] + le_words(
                seq![version, blocks, entry] + ptrs,
            ) + rest;
            &&& eapp_magic(buf)
            &&& header_of(buf) == Some(
                HeaderView { version, block_count: blocks, entry_off: entry, ptrs },
            )
        }),
{
    let m = seq![0x65u8, 0x61, 0x70, 0x70];
    let v = seq![version, blocks, entry] + ptrs;
    let buf = m + le_words(v) + rest;
    lemma_le_words_len(v);
    assert(buf.take(4) =~= m);
    law_words_round_trip(m, v, rest, 0);
    law_words_round_trip(m, v, rest, 1);
    law_words_round_trip(m, v, rest, 2);
    let h = header_of(buf)->0;
    assert forall|k: int| 0 <= k < 6 implies #[trigger] h.ptrs[k] == ptrs[k] by {
        law_words_round_trip(m, v, rest, 3 + k);
        assert(v[3 + k] == ptrs[k]);
        assert(4 + 4 * (3 + k) == 0x10 + 4 * k);
    }
    assert(h.ptrs =~= ptrs);
}

/// A file too short for a header has none, and every longer one has.
pub proof fn law_a_header_takes_forty_bytes(buf: Seq<u8>)
    ensures
        header_of(buf) is Some <==> buf.len() >= 40,
{
}

/// A base at which the first pointer lands on a text is found: where a printable text of one to
/// sixty-four characters and its final nought stand at `off`, and the first pointer is the usual
/// base plus `off`, the base is the usual one. So it is for any other candidate that is tried
/// before all those that land.
pub proof fn law_a_pointer_to_text_gives_the_base(buf: Seq<u8>, off: int, len: int)
    requires
        buf.len() >= 0x14,
        0 <= off,
        1 <= len <= 64,
        off + len < buf.len(),
        forall|k: int| off <= k < off + len ==> 0x20 <= #[trigger] buf[k] < 0x7f,
        buf[off + len] == 0,
        le32(buf, 0x10) == 0x1800_0000 + off,
    ensures
        load_base(buf) == Some(0x1800_0000u32),
{
    let ptr = le32(buf, 0x10);
    lemma_nul_from_is(buf, off, off + len);
    assert forall|k: int| off <= k < off + len implies printable(#[trigger] buf[k]) by {}
    assert(lands(buf, ptr, 0x1800_0000));
    assert(base_candidates(ptr)[0] == 0x1800_0000u32);
}

/// A thunk is the load of the program counter from the words behind it, at whatever distance
/// onward, and nothing else.
pub proof fn law_what_is_a_thunk(w: u32, distance: int)
    requires
        0 <= distance < 0x1000,
    ensures
        is_thunk((0xe59f_f000 + distance) as u32),
        is_thunk(w) <==> w / 0x1000 == 0xe59ff,
{
    assert((w & 0xFFFF_F000 == 0xE59F_F000) == (w / 0x1000 == 0xe59ff)) by (bit_vector);
    let x = (0xe59f_f000 + distance) as u32;
    assert((x & 0xFFFF_F000 == 0xE59F_F000) == (x / 0x1000 == 0xe59ff)) by (bit_vector);
}

/// A block is looked for where its four bytes of magic stand, in either order.
#[verifier::rlimit(60)]
pub proof fn law_what_marks_a_block(buf: Seq<u8>, i: int)
    ensures
        block_magic_at(buf, i) <==> 0 <= i && i + 4 <= buf.len() && (buf.subrange(i, i + 4) == seq![
            0x68u8,
            0x19,
            0x06,
            0x29,
        ] || buf.subrange(i, i + 4) == seq![0x29u8, 0x06, 0x19, 0x68]),
{
    if 0 <= i && i + 4 <= buf.len() {
        let s = buf.subrange(i, i + 4);
        assert(s[0] == buf[i] && s[1] == buf[i + 1] && s[2] == buf[i + 2] && s[3] == buf[i + 3]);
        if block_magic_at(buf, i) {
            assert(s =~= seq![0x68u8, 0x19, 0x06, 0x29] || s =~= seq![0x29u8, 0x06, 0x19, 0x68]);
        }
    }
}

/// The pointer lands on a text with a base: as far into the file as it is above the base, round the
/// address space, stand one to sixty-four printable characters and a nought.
pub open spec fn points_at_text(buf: Seq<u8>, ptr: u32, base: int) -> bool {
    let off = (ptr - base) % 0x1_0000_0000;
    exists|len: int|
        1 <= len <= 64 && off + len < buf.len() && #[trigger] buf[off + len] == 0 && forall|k: int|
            off <= k < off + len ==> 0x20 <= #[trigger] buf[k] < 0x7f
}

#[verifier::rlimit(60)]
proof fn lemma_lands(buf: Seq<u8>, ptr: u32, base: u32)
    ensures
        lands(buf, ptr, base) <==> points_at_text(buf, ptr, base as int),
{
    let off = (ptr - base) % 0x1_0000_0000;
    assert(off == (if ptr >= base {
        ptr - base
    } else {
        0x1_0000_0000 + ptr - base
    }));
    if lands(buf, ptr, base) {
        lemma_nul_from(buf, off);
        let len = nul_from(buf, off) - off;
        assert(buf[off + len] == 0);
        assert forall|k: int| off <= k < off + len implies 0x20 <= #[trigger] buf[k] < 0x7f by {
            assert(printable(buf[k]));
        }
    }
    if points_at_text(buf, ptr, base as int) {
        let len = choose|len: int|
            1 <= len <= 64 && off + len < buf.len() && #[trigger] buf[off + len] == 0 && forall|
                k: int,
            |
                off <= k < off + len ==> 0x20 <= #[trigger] buf[k] < 0x7f;
        lemma_nul_from_is(buf, off, off + len);
        assert forall|k: int| off <= k < off + len implies printable(#[trigger] buf[k]) by {}
    }
}

/// The base is the first of five with which the first pointer lands on a text: the usual one, the
/// pointer without its lowest twenty-four bits, without its lowest twenty, without its lowest
/// sixteen, and nought. Where none does there is no base.
#[verifier::rlimit(60)]
pub proof fn law_the_base_is_the_first_that_lands(buf: Seq<u8>)
    requires
        buf.len() >= 0x14,
    ensures
        ({
            let ptr = le32(buf, 0x10);
            let a: int = 0x1800_0000;
            let b = ptr - ptr % 0x100_0000;
            let c = ptr - ptr % 0x10_0000;
            let d = ptr - ptr % 0x1_0000;
            let base = load_base(buf);
            if points_at_text(buf, ptr, a) {
                base == Some(a as u32)
            } else if points_at_text(buf, ptr, b) {
                base == Some(b as u32)
            } else if points_at_text(buf, ptr, c) {
                base == Some(c as u32)
            } else if points_at_text(buf, ptr, d) {
                base == Some(d as u32)
            } else if points_at_text(buf, ptr, 0) {
                base == Some(0u32)
            } else {
                base is None
            }
        }),
{
    let ptr = le32(buf, 0x10);
    assert(ptr & 0xFF00_0000 == ptr - ptr % 0x100_0000) by (bit_vector);
    assert(ptr & 0xFFF0_0000 == ptr - ptr % 0x10_0000) by (bit_vector);
    assert(ptr & 0xFFFF_0000 == ptr - ptr % 0x1_0000) by (bit_vector);
    lemma_lands(buf, ptr, 0x1800_0000);
    lemma_lands(buf, ptr, ptr & 0xFF00_0000);
    lemma_lands(buf, ptr, ptr & 0xFFF0_0000);
    lemma_lands(buf, ptr, ptr & 0xFFFF_0000);
    lemma_lands(buf, ptr, 0);
    let v = base_candidates(ptr);
    assert(v.len() == 5);
    assert(v[0] == 0x1800_0000u32 && v[1] == ptr & 0xFF00_0000 && v[2] == ptr & 0xFFF0_0000 && v[3]
        == ptr & 0xFFFF_0000 && v[4] == 0u32);
    reveal_with_fuel(first_base, 6);
}

/// A file too short for its first pointer has no base.
pub proof fn law_a_short_file_has_no_base(buf: Seq<u8>)
    requires
        buf.len() < 0x14,
    ensures
        load_base(buf) is None,
{
}

/// Runs of thunks come in order of their places, each once.
pub proof fn law_runs_come_in_order(buf: Seq<u8>, from: int, i: int, j: int)
    requires
        0 <= i < j < runs_from(buf, from).len(),
    ensures
        from <= runs_from(buf, from)[i].0 < runs_from(buf, from)[j].0,
    decreases buf.len() - from,
{
    let all = runs_from(buf, from);
    if !thunk_at(buf, from) {
        law_runs_come_in_order(buf, from + 4, i, j);
    } else {
        lemma_thunks_at(buf, from);
        let n = thunks_at(buf, from);
        if n >= 2 {
            let rest = runs_from(buf, from + 4 * n);
            lemma_run_above(buf, from + 4 * n, j - 1);
            assert(all[j] == rest[j - 1]);
            if i > 0 {
                law_runs_come_in_order(buf, from + 4 * n, i - 1, j - 1);
                assert(all[i] == rest[i - 1]);
            }
        } else {
            law_runs_come_in_order(buf, from + 4, i, j);
        }
    }
}

proof fn lemma_run_above(buf: Seq<u8>, from: int, j: int)
    requires
        0 <= j < runs_from(buf, from).len(),
    ensures
        from <= runs_from(buf, from)[j].0,
    decreases buf.len() - from,
{
    let all = runs_from(buf, from);
    if !thunk_at(buf, from) {
        lemma_run_above(buf, from + 4, j);
    } else {
        lemma_thunks_at(buf, from);
        let n = thunks_at(buf, from);
        if n >= 2 {
            if j > 0 {
                lemma_run_above(buf, from + 4 * n, j - 1);
                assert(all[j] == runs_from(buf, from + 4 * n)[j - 1]);
            }
        } else {
            lemma_run_above(buf, from + 4, j);
        }
    }
}

/// A block is read wherever sixty bytes are left for it and its name, up to the first nought of its
/// thirty-two bytes, is printable; elsewhere there is none.
pub proof fn law_when_there_is_a_block(buf: Seq<u8>, off: int, n: int)
    requires
        0 <= off,
        off + 60 <= buf.len(),
        0 <= n <= 32,
        forall|k: int| off + 4 <= k < off + 4 + n ==> #[trigger] buf[k] != 0,
        n < 32 ==> buf[off + 4 + n] == 0,
    ensures
        block_at(buf, off) is Some <==> forall|k: int|
            off + 4 <= k < off + 4 + n ==> 0x20 <= #[trigger] buf[k] < 0x7f,
        block_at(buf, off) is Some ==> (block_at(buf, off)->0).name == Seq::new(
            n as nat,
            |k: int| buf[off + 4 + k] as char,
        ),
{
    let field = buf.subrange(off + 4, off + 36);
    assert forall|k: int| 0 <= k < n implies field[k] != 0 by {
        assert(field[k] == buf[off + 4 + k]);
    }
    if n < 32 {
        assert(field[n] == buf[off + 4 + n]);
        lemma_nul_from_is(field, 0, n);
    } else {
        lemma_nul_from(field, 0);
    }
    if all_printable(buf, off + 4, off + 4 + n) {
        assert forall|k: int| off + 4 <= k < off + 4 + n implies 0x20 <= #[trigger] buf[k] < 0x7f by {
            assert(printable(buf[k]));
        }
    }
    assert(chars_between(buf, off + 4, off + 4 + n) =~= Seq::new(
        n as nat,
        |k: int| buf[off + 4 + k] as char,
    ));
}

/// A block that is cut short is none.
pub proof fn law_a_cut_block_is_none(buf: Seq<u8>, off: int)
    requires
        off + 60 > buf.len(),
    ensures
        block_at(buf, off) is None,
{
}

} // verus!
