//! The few ARM encodings that static reading needs: branches, returns and literal loads.

use vstd::prelude::*;

verus! {

/// A number taken modulo the size of the address space.
pub open spec fn wrap(x: int) -> u32 {
    (x % 0x1_0000_0000) as u32
}

/// The condition field.
pub open spec fn condition(w: u32) -> int {
    (w / 0x1000_0000) as int
}

/// The destination register field.
pub open spec fn rd(w: u32) -> int {
    (w / 0x1000 % 16) as int
}

/// The word is a branch, with link or without.
pub open spec fn is_branch(w: u32) -> bool {
    w / 0x200_0000 % 8 == 5 && condition(w) != 15
}

/// The branch stores the return address.
pub open spec fn links(w: u32) -> bool {
    w / 0x100_0000 % 2 == 1
}

/// The low twenty-four bits as a signed number; a value whose bit 23 is clear is taken as a whole.
pub open spec fn signed24(v: u32) -> int {
    if v / 0x80_0000 % 2 == 1 {
        v % 0x100_0000 - 0x100_0000
    } else if v < 0x8000_0000 {
        v as int
    } else {
        v - 0x1_0000_0000
    }
}

/// Where a branch at `pc` goes: two words ahead of itself, and the signed offset in words.
pub open spec fn target(w: u32, pc: u32) -> u32 {
    wrap(pc + 8 + 4 * signed24(w % 0x100_0000))
}

/// The target of a branch at `pc`.
pub open spec fn branch_to(w: u32, pc: u32) -> Option<u32> {
    if is_branch(w) {
        Some(target(w, pc))
    } else {
        None
    }
}

/// The word is a branch with link.
pub open spec fn is_call(w: u32) -> bool {
    is_branch(w) && links(w)
}

/// The word returns whatever its flags say: a load of several registers with pc among them,
/// `bx lr` or `mov pc, lr`.
pub open spec fn returns_always(w: u32) -> bool {
    condition(w) == 14 && ({
        ||| w & 0x0e10_0000 == 0x0810_0000 && w & 0x8000 != 0
        ||| w % 0x1000_0000 == 0x012f_ff1e
        ||| w % 0x1000_0000 == 0x01a0_f00e
    })
}

/// `ldr rD, [pc, #imm]`, the offset added or taken away.
pub open spec fn is_pool_load(w: u32) -> bool {
    w & 0x0f7f_0000 == 0x051f_0000
}

/// Where the word that a pool load at `at` reads stands.
pub open spec fn pool_address(w: u32, at: u32) -> u32 {
    if w / 0x80_0000 % 2 == 1 {
        wrap(at + 8 + w % 0x1000)
    } else {
        wrap(at + 8 - w % 0x1000)
    }
}

/// `add rD, pc, #imm`.
pub open spec fn is_adr(w: u32) -> bool {
    w & 0x0fff_0000 == 0x028f_0000
}

/// `v` rotated right by `n` places.
pub open spec fn rotated(v: u32, n: u32) -> u32 {
    if n == 0 {
        v
    } else {
        (v >> n) | (v << ((32 - n) as u32))
    }
}

/// Where the address that an `add rD, pc, #imm` at `at` forms stands: the eight-bit immediate is
/// rotated right by twice the rotate field.
pub open spec fn adr_address(w: u32, at: u32) -> u32 {
    wrap(at + 8 + rotated(w % 0x100, (2 * (w / 0x100 % 16)) as u32))
}

/// The word writes the register: a data-processing instruction other than a test or compare, or a
/// word load.
pub open spec fn writes(w: u32, reg: u32) -> bool {
    rd(w) == reg && ({
        ||| w & 0x0c00_0000 == 0 && !(8 <= w / 0x20_0000 % 16 <= 11)
        ||| w & 0x0c50_0000 == 0x0410_0000
    })
}

/// The low twenty-four bits as a signed number.
pub fn sext24(v: u32) -> (r: i32)
    ensures
        r == signed24(v),
{
    if v / 0x80_0000 % 2 == 1 {
        (v % 0x100_0000) as i32 - 0x100_0000
    } else if v < 0x8000_0000 {
        v as i32
    } else {
        (v as i64 - 0x1_0000_0000) as i32
    }
}

fn wrapped(x: i64) -> (r: u32)
    requires
        -0x1_0000_0000 <= x < 0x4_0000_0000,
    ensures
        r == wrap(x as int),
{
    ((x + 0x1_0000_0000) % 0x1_0000_0000) as u32
}

/// The address `n` words behind `a`, around the end of the address space.
pub fn word_after(a: u32, n: u32) -> (r: u32)
    ensures
        r == wrap(a + 4 * n),
{
    ((a as u64 + 4 * (n as u64)) % 0x1_0000_0000) as u32
}

/// The address `n` words before `a`, around the start of the address space.
pub fn word_before(a: u32, n: u32) -> (r: u32)
    requires
        n < 0x1000_0000,
    ensures
        r == wrap(a - 4 * n),
{
    wrapped(a as i64 - 4 * (n as i64))
}

/// The target of a branch at `pc`, or nothing if the word is none.
pub fn branch_target(w: u32, pc: u32) -> (r: Option<u32>)
    ensures
        r == branch_to(w, pc),
{
    if w / 0x200_0000 % 8 != 5 || w / 0x1000_0000 == 15 {
        return None;
    }
    let off: i32 = sext24(w % 0x100_0000);
    Some(wrapped(pc as i64 + 8 + 4 * (off as i64)))
}

/// Whether the word is a branch with link.
pub fn is_bl(w: u32) -> (r: bool)
    ensures
        r == is_call(w),
{
    w / 0x200_0000 % 8 == 5 && w / 0x1000_0000 != 15 && w / 0x100_0000 % 2 == 1
}

/// Whether the word returns whatever its flags say. A tail branch is none: it is ordinary control
/// flow inside a body as well.
pub fn is_return(w: u32) -> (r: bool)
    ensures
        r == returns_always(w),
{
    if w / 0x1000_0000 != 14 {
        return false;
    }
    if w & 0x0e10_0000 == 0x0810_0000 && w & 0x8000 != 0 {
        return true;
    }
    let body: u32 = w % 0x1000_0000;
    body == 0x012f_ff1e || body == 0x01a0_f00e
}

/// Where a pool load at `at` reads, if the word is one.
pub fn pool_load(w: u32, at: u32) -> (r: Option<u32>)
    ensures
        r == (if is_pool_load(w) {
            Some(pool_address(w, at))
        } else {
            None
        }),
{
    if w & 0x0f7f_0000 != 0x051f_0000 {
        return None;
    }
    let off: i64 = (w % 0x1000) as i64;
    if w / 0x80_0000 % 2 == 1 {
        Some(wrapped(at as i64 + 8 + off))
    } else {
        Some(wrapped(at as i64 + 8 - off))
    }
}

/// The address that an `add rD, pc, #imm` at `at` forms, if the word is one.
pub fn adr(w: u32, at: u32) -> (r: Option<u32>)
    ensures
        r == (if is_adr(w) {
            Some(adr_address(w, at))
        } else {
            None
        }),
{
    if w & 0x0fff_0000 != 0x028f_0000 {
        return None;
    }
    let v: u32 = w % 0x100;
    let n: u32 = 2 * (w / 0x100 % 16);
    let imm: u32 = if n == 0 {
        v
    } else {
        (v >> n) | (v << (32 - n))
    };
    Some(wrapped(at as i64 + 8 + imm as i64))
}

/// The destination register field.
pub fn dest(w: u32) -> (r: u32)
    ensures
        r == rd(w),
{
    w / 0x1000 % 16
}

/// Whether the word writes the register whatever its flags say.
pub fn overwrites(w: u32, reg: u32) -> (r: bool)
    ensures
        r == (condition(w) == 14 && writes(w, reg)),
{
    let op: u32 = w / 0x20_0000 % 16;
    w / 0x1000_0000 == 14 && w / 0x1000 % 16 == reg && ((w & 0x0c00_0000 == 0 && !(8 <= op && op
        <= 11)) || w & 0x0c50_0000 == 0x0410_0000)
}

// ---------------------------------------------------------------- laws

/// A branch can be laid to any word-aligned distance within thirty-two megabytes, and its target
/// is then where it was laid to.
#[verifier::rlimit(60)]
pub proof fn law_branch_reaches(pc: u32, words: int, head: u32)
    requires
        -0x80_0000 <= words < 0x80_0000,
        head % 0x100_0000 == 0,
        is_branch(head),
    ensures
        ({
            let w = (head + words % 0x100_0000) as u32;
            branch_to(w, pc) == Some(wrap(pc + 8 + 4 * words)) && links(w) == links(head)
        }),
{
    let f = words % 0x100_0000;
    let w = (head + f) as u32;
    assert(w % 0x100_0000 == f);
    assert(w / 0x100_0000 == head / 0x100_0000);
    assert(f / 0x80_0000 % 2 == 1 <==> words < 0);
}

/// The offset of a branch is the same number whether the twenty-four bits are moved to the top of
/// a word and shifted back with their sign, or extended by their top bit and then scaled.
pub proof fn law_offset_forms_agree(w: u32)
    ensures
        ((((w & 0x00ff_ffff) << 8) as i32) >> 6) as int == 4 * signed24(w % 0x100_0000),
{
    let v = w % 0x100_0000;
    assert(w & 0x00ff_ffff == v) by (bit_vector)
        requires
            v == w % 0x100_0000,
    ;
    assert(v < 0x100_0000);
    if v / 0x80_0000 % 2 == 1 {
        assert(((v << 8) as i32) >> 6 == 4 * (v - 0x100_0000)) by (bit_vector)
            requires
                v < 0x100_0000,
                v / 0x80_0000 % 2 == 1,
        ;
    } else {
        assert(((v << 8) as i32) >> 6 == 4 * v) by (bit_vector)
            requires
                v < 0x100_0000,
                v / 0x80_0000 % 2 != 1,
        ;
    }
}

// ---------------------------------------------------------------- encodings

/// A branch on a condition, with or without a link, over a distance in words from the instruction
/// two behind it.
pub open spec fn branch_word(cond: int, link: bool, words: int) -> u32 {
    (cond * 0x1000_0000 + 0x0a00_0000 + (if link {
        0x100_0000int
    } else {
        0
    }) + words % 0x100_0000) as u32
}

/// A branch that is encoded is read back: its condition, whether it links, and where it goes, on
/// every condition but the one that is none.
#[verifier::rlimit(60)]
pub proof fn law_a_branch_is_read_back(cond: int, link: bool, words: int, pc: u32)
    requires
        0 <= cond <= 14,
        -0x80_0000 <= words < 0x80_0000,
    ensures
        ({
            let w = branch_word(cond, link, words);
            &&& branch_to(w, pc) == Some(((pc + 8 + 4 * words) % 0x1_0000_0000) as u32)
            &&& links(w) == link
            &&& is_call(w) == link
            &&& condition(w) == cond
        }),
{
    let head = (cond * 0x1000_0000 + 0x0a00_0000 + (if link {
        0x100_0000int
    } else {
        0
    })) as u32;
    assert(condition(head) == cond);
    assert(head / 0x200_0000 % 8 == 5);
    law_branch_reaches(pc, words, head);
    let f = words % 0x100_0000;
    assert(branch_word(cond, link, words) == (head + f) as u32);
    assert((head + f) as u32 / 0x1000_0000 == head / 0x1000_0000);
}

/// A word is a branch just where the three bits under its condition are 101 and the condition is
/// not all ones.
pub proof fn law_what_is_a_branch(w: u32, pc: u32)
    ensures
        branch_to(w, pc) is Some <==> (w & 0x0e00_0000 == 0x0a00_0000 && w < 0xf000_0000),
        is_call(w) <==> (w & 0x0f00_0000 == 0x0b00_0000 && w < 0xf000_0000),
{
    assert((w & 0x0e00_0000 == 0x0a00_0000) == (w / 0x200_0000 % 8 == 5)) by (bit_vector);
    assert((w & 0x0f00_0000 == 0x0b00_0000) == (w / 0x200_0000 % 8 == 5 && w / 0x100_0000 % 2
        == 1)) by (bit_vector);
}

/// A load from the literal pool on a condition: the register, and the distance from the instruction
/// two behind it, onward or back.
pub open spec fn pool_load_word(cond: int, up: bool, reg: int, distance: int) -> u32 {
    (cond * 0x1000_0000 + 0x051f_0000 + (if up {
        0x80_0000int
    } else {
        0
    }) + reg * 0x1000 + distance) as u32
}

/// A pool load that is encoded is read back: its register and the place it loads from.
#[verifier::rlimit(60)]
pub proof fn law_a_pool_load_is_read_back(cond: int, up: bool, reg: int, distance: int, at: u32)
    requires
        0 <= cond <= 15,
        0 <= reg <= 15,
        0 <= distance < 0x1000,
    ensures
        ({
            let w = pool_load_word(cond, up, reg, distance);
            &&& is_pool_load(w)
            &&& rd(w) == reg
            &&& pool_address(w, at) == ((at + 8 + (if up {
                distance
            } else {
                -distance
            })) % 0x1_0000_0000) as u32
        }),
{
    let w = pool_load_word(cond, up, reg, distance);
    law_what_is_a_pool_load(w);
    lemma_pool_load_fields(cond, up, reg, distance);
}

#[verifier::rlimit(60)]
proof fn lemma_pool_load_fields(cond: int, up: bool, reg: int, distance: int)
    requires
        0 <= cond <= 15,
        0 <= reg <= 15,
        0 <= distance < 0x1000,
    ensures
        ({
            let w = pool_load_word(cond, up, reg, distance);
            &&& w % 0x1000 == distance
            &&& w / 0x1000 % 16 == reg
            &&& w / 0x1_0000 % 0x1000 == (if up {
                0x59fint
            } else {
                0x51f
            })
            &&& w / 0x80_0000 % 2 == (if up {
                1int
            } else {
                0
            })
        }),
{
    let top = cond * 0x1000 + (if up {
        0x59fint
    } else {
        0x51f
    });
    let x = top * 0x1_0000 + reg * 0x1000 + distance;
    assert(0 <= x < 0x1_0000_0000);
    assert(pool_load_word(cond, up, reg, distance) == x);
    let z = top * 0x10 + reg;
    assert(x / 0x1000 == z);
    assert(x / 0x1_0000 == top);
    assert(x / 0x80_0000 == top / 0x80) by {
        assert(top / 0x80 == cond * 0x20 + (if up {
            11int
        } else {
            10
        }));
    }
}

/// A word is a pool load just where the twelve bits under its condition say: load a word, by an
/// immediate distance onward or back, from the program counter.
pub proof fn law_what_is_a_pool_load(w: u32)
    ensures
        is_pool_load(w) <==> (w / 0x1_0000 % 0x1000 == 0x59f || w / 0x1_0000 % 0x1000 == 0x51f),
{
    assert((w & 0x0f7f_0000 == 0x051f_0000) == (w / 0x1_0000 % 0x1000 == 0x59f || w / 0x1_0000
        % 0x1000 == 0x51f)) by (bit_vector);
}

/// An address that is computed from the program counter: the register and the immediate, a byte
/// turned right by twice the turn.
pub open spec fn adr_word(cond: int, reg: int, turn: int, value: int) -> u32 {
    (cond * 0x1000_0000 + 0x028f_0000 + reg * 0x1000 + turn * 0x100 + value) as u32
}

/// An address computation that is encoded is read back: its register and, for an immediate that is
/// not turned, the address.
#[verifier::rlimit(60)]
pub proof fn law_an_adr_is_read_back(cond: int, reg: int, turn: int, value: int, at: u32)
    requires
        0 <= cond <= 15,
        0 <= reg <= 15,
        0 <= turn <= 15,
        0 <= value < 0x100,
    ensures
        ({
            let w = adr_word(cond, reg, turn, value);
            &&& is_adr(w)
            &&& rd(w) == reg
            &&& turn == 0 ==> adr_address(w, at) == ((at + 8 + value) % 0x1_0000_0000) as u32
            &&& adr_address(w, at) == ((at + 8 + rotated(value as u32, (2 * turn) as u32))
                % 0x1_0000_0000) as u32
        }),
{
    let w = adr_word(cond, reg, turn, value);
    law_what_is_an_adr(w);
    lemma_adr_fields(cond, reg, turn, value);
}

#[verifier::rlimit(60)]
proof fn lemma_adr_fields(cond: int, reg: int, turn: int, value: int)
    requires
        0 <= cond <= 15,
        0 <= reg <= 15,
        0 <= turn <= 15,
        0 <= value < 0x100,
    ensures
        ({
            let w = adr_word(cond, reg, turn, value);
            &&& w % 0x100 == value
            &&& w / 0x100 % 16 == turn
            &&& w / 0x1000 % 16 == reg
            &&& w / 0x1_0000 % 0x1000 == 0x28f
        }),
{
    let top = cond * 0x1000 + 0x28f;
    let x = top * 0x1_0000 + reg * 0x1000 + turn * 0x100 + value;
    assert(0 <= x < 0x1_0000_0000);
    let y = top * 0x100 + reg * 0x10 + turn;
    assert(x / 0x100 == y);
    let z = top * 0x10 + reg;
    assert(y / 0x10 == z);
    assert(x / 0x1000 == z);
    assert(x / 0x1_0000 == top);
}

/// A word computes an address just where the twelve bits under its condition say: add an immediate
/// to the program counter, and set no flags.
pub proof fn law_what_is_an_adr(w: u32)
    ensures
        is_adr(w) <==> w / 0x1_0000 % 0x1000 == 0x28f,
{
    assert((w & 0x0fff_0000 == 0x028f_0000) == (w / 0x1_0000 % 0x1000 == 0x28f)) by (bit_vector);
}

/// A turn by some bits and one by the rest of the thirty-two give the value back, and a turn of a
/// byte by twenty-four bits moves it up by eight.
pub proof fn law_a_rotation_is_undone(v: u32, n: u32)
    requires
        n < 32,
    ensures
        rotated(rotated(v, n), ((32 - n) % 32) as u32) == v,
        v < 0x100 ==> rotated(v, 24) == 0x100 * v,
        v < 0x100 ==> rotated(v, 8) == 0x100_0000 * v,
{
    if n > 0 {
        let m: u32 = (32 - n) as u32;
        let r: u32 = (v >> n) | (v << m);
        assert((r >> m) | (r << n) == v) by (bit_vector)
            requires
                0 < n < 32,
                m == 32 - n,
                r == (v >> n) | (v << m),
        ;
        assert(((32 - m) as u32) == n);
    }
    if v < 0x100 {
        assert((v >> 24u32) | (v << 8u32) == 0x100 * v) by (bit_vector)
            requires
                v < 0x100,
        ;
        assert((v >> 8u32) | (v << 24u32) == 0x100_0000 * v) by (bit_vector)
            requires
                v < 0x100,
        ;
    }
}

/// A register is written by a data-processing instruction that is no comparison, and by a load of a
/// word, each of which names it as its destination; and by nothing else that is looked for.
pub proof fn law_what_writes_a_register(w: u32, reg: u32)
    ensures
        writes(w, reg) <==> {
            let class = w / 0x400_0000 % 4;
            let op = w / 0x20_0000 % 16;
            &&& w / 0x1000 % 16 == reg
            &&& ({
                ||| class == 0 && (op < 8 || op > 11)
                ||| class == 1 && w / 0x10_0000 % 2 == 1 && w / 0x40_0000 % 2 == 0
            })
        },
{
    assert((w & 0x0c00_0000 == 0) == (w / 0x400_0000 % 4 == 0)) by (bit_vector);
    assert((w & 0x0c50_0000 == 0x0410_0000) == (w / 0x400_0000 % 4 == 1 && w / 0x10_0000 % 2 == 1
        && w / 0x40_0000 % 2 == 0)) by (bit_vector);
}

/// A word always returns just where it is executed always and either loads the program counter
/// among other registers, or branches to the link register, or moves it to the program counter.
pub proof fn law_what_always_returns(w: u32)
    ensures
        returns_always(w) <==> ({
            ||| w / 0x200_0000 == 0x74 && w / 0x10_0000 % 2 == 1 && w / 0x8000 % 2 == 1
            ||| w == 0xe12f_ff1e
            ||| w == 0xe1a0_f00e
        }),
{
    assert((w & 0x0e10_0000 == 0x0810_0000 && w & 0x8000 != 0) == (w / 0x200_0000 % 8 == 4 && w
        / 0x10_0000 % 2 == 1 && w / 0x8000 % 2 == 1)) by (bit_vector);
    assert(w / 0x200_0000 == 0x74 <==> w / 0x1000_0000 == 14 && w / 0x200_0000 % 8 == 4);
    assert(w == 0x1000_0000 * (w / 0x1000_0000) + w % 0x1000_0000);
}

/// A number that fits is its own address, and a whole turn round the address space changes nothing.
pub proof fn law_addresses_go_round(x: int)
    ensures
        0 <= x < 0x1_0000_0000 ==> wrap(x) == x,
        wrap(x + 0x1_0000_0000) == wrap(x),
        wrap(x - 0x1_0000_0000) == wrap(x),
{
}

/// The offset of a branch keeps its twenty-four bits and takes its sign from the highest of them.
pub proof fn law_an_offset_keeps_its_bits(v: u32)
    ensures
        signed24(v) % 0x100_0000 == v % 0x100_0000,
        v < 0x80_0000 ==> signed24(v) == v,
        0x80_0000 <= v < 0x100_0000 ==> signed24(v) == v - 0x100_0000,
        v / 0x80_0000 % 2 == 1 ==> -0x80_0000 <= signed24(v) < 0,
        v / 0x80_0000 % 2 == 0 ==> (signed24(v) - v) % 0x1_0000_0000 == 0,
        -0x8000_0000 <= signed24(v) < 0x8000_0000,
{
}

} // verus!
