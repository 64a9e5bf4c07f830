//! FairPlay `.sinf` files: a tree of atoms, each a size word, a four-character identifier and a
//! payload.
//!
//! `sinf` is the root container that spans the whole file and `schi` holds the children of
//! interest, so the walk descends into both.

use vstd::prelude::*;

use crate::bytes::{u32be, u32le};
#[allow(unused_imports)]
use crate::bytes::{be32, be_bytes, le32, le_bytes, lemma_word_round_trip};
use crate::text::{same_text, show_byte};
#[allow(unused_imports)]
use crate::text::{printable, shown};

verus! {

/// One atom of a `.sinf` file.
pub struct SinfBlock {
    pub off: usize,
    pub size: u32,
    pub id: String,
    pub known: bool,
    pub depth: usize,
}

/// The contents of an atom.
pub struct AtomView {
    pub off: int,
    pub size: int,
    pub id: Seq<char>,
    pub known: bool,
    pub depth: int,
}

impl View for SinfBlock {
    type V = AtomView;

    open spec fn view(&self) -> AtomView {
        AtomView {
            off: self.off as int,
            size: self.size as int,
            id: self.id@,
            known: self.known,
            depth: self.depth as int,
        }
    }
}

/// The contents of a list of atoms.
pub open spec fn atom_views(v: Seq<SinfBlock>) -> Seq<AtomView> {
    v.map_values(|b: SinfBlock| b@)
}

/// The identifiers that are documented.
pub open spec fn known_id(id: Seq<char>) -> bool {
    ||| id == "sinf"@
    ||| id == "frma"@
    ||| id == "schm"@
    ||| id == "schi"@
    ||| id == "user"@
    ||| id == "key "@
    ||| id == "iviv"@
    ||| id == "righ"@
    ||| id == "tran"@
    ||| id == "name"@
    ||| id == "priv"@
    ||| id == "sign"@
}

/// The identifiers of atoms whose payload is more atoms.
pub open spec fn container_id(id: Seq<char>) -> bool {
    id == "sinf"@ || id == "schi"@
}

/// The size field at `i` in the given byte order.
pub open spec fn size_at(buf: Seq<u8>, i: int, be: bool) -> int {
    if be {
        be32(buf, i) as int
    } else {
        le32(buf, i) as int
    }
}

/// The identifier of the atom at `i`; a dot stands for a byte that is not printable.
pub open spec fn id_at(buf: Seq<u8>, i: int) -> Seq<char> {
    Seq::new(4, |k: int| shown(buf[i + 4 + k]))
}

/// The atom at `i`.
pub open spec fn atom_at(buf: Seq<u8>, i: int, depth: int, be: bool) -> AtomView {
    AtomView {
        off: i,
        size: size_at(buf, i, be),
        id: id_at(buf, i),
        known: known_id(id_at(buf, i)),
        depth,
    }
}

/// An atom fits at `i`: it holds at least its own header and does not run past its parent.
pub open spec fn atom_fits(buf: Seq<u8>, i: int, end: int, be: bool) -> bool {
    i + 8 <= end && size_at(buf, i, be) >= 8 && i + size_at(buf, i, be) <= end
}

/// The atoms from `start` up to `end`, each in front of its children; the first that does not fit
/// ends its level.
pub open spec fn atoms(buf: Seq<u8>, start: int, end: int, depth: int, be: bool) -> Seq<AtomView>
    decreases end - start,
{
    if !atom_fits(buf, start, end, be) {
        Seq::empty()
    } else {
        let next = start + size_at(buf, start, be);
        seq![atom_at(buf, start, depth, be)] + (if container_id(id_at(buf, start)) {
            atoms(buf, start + 8, next, depth + 1, be)
        } else {
            Seq::empty()
        }) + atoms(buf, next, end, depth, be)
    }
}

/// How many of the atoms are documented.
pub open spec fn known_count(v: Seq<AtomView>) -> nat
    decreases v.len(),
{
    if v.len() == 0 {
        0
    } else {
        known_count(v.drop_last()) + (if v.last().known {
            1nat
        } else {
            0
        })
    }
}

/// The walk of a whole file in one byte order.
pub open spec fn file_atoms(buf: Seq<u8>, be: bool) -> Seq<AtomView> {
    atoms(buf, 0, buf.len() as int, 0, be)
}

/// Whether the identifier is documented.
pub fn is_known(id: &str) -> (r: bool)
    ensures
        r == known_id(id@),
{
    same_text(id, "sinf") || same_text(id, "frma") || same_text(id, "schm") || same_text(id, "schi")
        || same_text(id, "user") || same_text(id, "key ") || same_text(id, "iviv") || same_text(
        id,
        "righ",
    ) || same_text(id, "tran") || same_text(id, "name") || same_text(id, "priv") || same_text(
        id,
        "sign",
    )
}

/// Whether the payload of such an atom is more atoms.
pub fn is_container(id: &str) -> (r: bool)
    ensures
        r == container_id(id@),
{
    same_text(id, "sinf") || same_text(id, "schi")
}

fn read_id(buf: &[u8], off: usize) -> (id: String)
    requires
        off + 8 <= buf@.len(),
    ensures
        id@ == id_at(buf@, off as int),
{
    assert(buf@.len() == buf.len());
    let mut id = String::new();
    id.push(show_byte(buf[off + 4]));
    id.push(show_byte(buf[off + 5]));
    id.push(show_byte(buf[off + 6]));
    id.push(show_byte(buf[off + 7]));
    assert(id@ =~= id_at(buf@, off as int));
    id
}

/// Walks one level of the atom tree, descending into containers, and appends what it meets.
pub fn walk_atoms(
    buf: &[u8],
    start: usize,
    end: usize,
    depth: usize,
    be: bool,
    out: &mut Vec<SinfBlock>,
)
    requires
        end <= buf@.len(),
        depth + (end - start) / 8 <= usize::MAX,
    ensures
        atom_views(final(out)@) == atom_views(old(out)@) + atoms(
            buf@,
            start as int,
            end as int,
            depth as int,
            be,
        ),
    decreases end - start,
{
    let ghost all = atoms(buf@, start as int, end as int, depth as int, be);
    if start > end {
        assert(atom_views(out@) + all =~= atom_views(out@));
        return;
    }
    let mut off: usize = start;
    assert(atom_views(out@) + all =~= atom_views(old(out)@) + all);
    while end - off >= 8
        invariant
            start <= off <= end <= buf@.len(),
            depth + (end - start) / 8 <= usize::MAX,
            all == atoms(buf@, start as int, end as int, depth as int, be),
            atom_views(out@) + atoms(buf@, off as int, end as int, depth as int, be) == atom_views(
                old(out)@,
            ) + all,
        decreases end - off,
    {
        let size: u32 = if be {
            u32be(buf, off)
        } else {
            u32le(buf, off)
        };
        let id = read_id(buf, off);
        if size < 8 || size as usize > end - off {
            assert(atom_views(out@) + Seq::<AtomView>::empty() =~= atom_views(out@));
            return;
        }
        let known = is_known(id.as_str());
        let container = is_container(id.as_str());
        let next: usize = off + size as usize;
        let ghost done = out@;
        let ghost atom = atom_at(buf@, off as int, depth as int, be);
        let ghost inner = if container {
            atoms(buf@, off + 8, next as int, depth + 1, be)
        } else {
            Seq::empty()
        };
        let ghost rest = atoms(buf@, next as int, end as int, depth as int, be);
        let b = SinfBlock { off, size, id, known, depth };
        assert(b@ == atom);
        out.push(b);
        assert(atom_views(out@) =~= atom_views(done).push(atom));
        if container {
            walk_atoms(buf, off + 8, next, depth + 1, be, out);
        }
        assert(atom_views(out@) =~= atom_views(done) + (seq![atom] + inner));
        assert(atom_views(out@) + rest =~= atom_views(done) + (seq![atom] + inner + rest));
        off = next;
    }
    assert(atom_views(out@) + Seq::<AtomView>::empty() =~= atom_views(out@));
}

fn count_known(v: &Vec<SinfBlock>) -> (n: usize)
    ensures
        n == known_count(atom_views(v@)),
{
    let mut n: usize = 0;
    let mut i: usize = 0;
    while i < v.len()
        invariant
            i <= v@.len(),
            n <= i,
            n == known_count(atom_views(v@).take(i as int)),
        decreases v@.len() - i,
    {
        assert(atom_views(v@).take(i + 1).drop_last() =~= atom_views(v@).take(i as int));
        assert(atom_views(v@).take(i + 1).last() == v@[i as int]@);
        if v[i].known {
            n += 1;
        }
        i += 1;
    }
    assert(atom_views(v@).take(i as int) =~= atom_views(v@));
    n
}

/// Where a walk of one level from `start` stops: behind the last atom that fits.
pub open spec fn level_end(buf: Seq<u8>, start: int, end: int, be: bool) -> int
    decreases end - start,
{
    if !atom_fits(buf, start, end, be) {
        start
    } else {
        level_end(buf, start + size_at(buf, start, be), end, be)
    }
}

/// The byte order is that of the file: its walk lands exactly on the end of the file and meets at
/// least two documented identifiers. A wrong order overshoots or stalls.
pub open spec fn order_holds(buf: Seq<u8>, be: bool) -> bool {
    level_end(buf, 0, buf.len() as int, be) == buf.len() && known_count(file_atoms(buf, be)) >= 2
}

fn lands_on_end(buf: &[u8], be: bool) -> (r: bool)
    ensures
        r == (level_end(buf@, 0, buf@.len() as int, be) == buf@.len()),
{
    let mut off: usize = 0;
    while buf.len() - off >= 8
        invariant
            off <= buf@.len(),
            level_end(buf@, off as int, buf@.len() as int, be) == level_end(
                buf@,
                0,
                buf@.len() as int,
                be,
            ),
        decreases buf@.len() - off,
    {
        let size: u32 = if be {
            u32be(buf, off)
        } else {
            u32le(buf, off)
        };
        if size < 8 || size as usize > buf.len() - off {
            return off == buf.len();
        }
        off += size as usize;
    }
    off == buf.len()
}

/// Walks the atoms of a file. The byte order is derived: the first, of big-endian and
/// little-endian, whose walk lands exactly on the end of the file and meets at least two
/// documented identifiers.
pub fn parse_sinf(buf: &[u8]) -> (r: (Vec<SinfBlock>, Option<&'static str>))
    ensures
        if order_holds(buf@, true) {
            atom_views(r.0@) == file_atoms(buf@, true) && r.1 is Some && (r.1->0)@ == "big-endian"@
        } else if order_holds(buf@, false) {
            atom_views(r.0@) == file_atoms(buf@, false) && r.1 is Some && (r.1->0)@
                == "little-endian"@
        } else {
            r.0@.len() == 0 && r.1 is None
        },
{
    let mut big: Vec<SinfBlock> = Vec::new();
    walk_atoms(buf, 0, buf.len(), 0, true, &mut big);
    assert(atom_views(big@) =~= file_atoms(buf@, true));
    if lands_on_end(buf, true) && count_known(&big) >= 2 {
        return (big, Some("big-endian"));
    }
    let mut little: Vec<SinfBlock> = Vec::new();
    walk_atoms(buf, 0, buf.len(), 0, false, &mut little);
    assert(atom_views(little@) =~= file_atoms(buf@, false));
    if lands_on_end(buf, false) && count_known(&little) >= 2 {
        return (little, Some("little-endian"));
    }
    (Vec::new(), None)
}

// ---------------------------------------------------------------- laws

/// Every atom lies inside the range that was walked, holds at least its header, and stands behind
/// every atom before it.
pub proof fn law_atoms_stay_inside(buf: Seq<u8>, start: int, end: int, depth: int, be: bool)
    requires
        0 <= start <= end <= buf.len(),
    ensures
        forall|k: int|
            0 <= k < atoms(buf, start, end, depth, be).len() ==> {
                let a = #[trigger] atoms(buf, start, end, depth, be)[k];
                start <= a.off && a.size >= 8 && a.off + a.size <= end && a.depth >= depth
            },
        forall|j: int, k: int|
            0 <= j < k < atoms(buf, start, end, depth, be).len() ==> (#[trigger] atoms(
                buf,
                start,
                end,
                depth,
                be,
            )[j]).off < (#[trigger] atoms(buf, start, end, depth, be)[k]).off,
    decreases end - start,
{
    if atom_fits(buf, start, end, be) {
        let next = start + size_at(buf, start, be);
        let inner = if container_id(id_at(buf, start)) {
            law_atoms_stay_inside(buf, start + 8, next, depth + 1, be);
            atoms(buf, start + 8, next, depth + 1, be)
        } else {
            Seq::empty()
        };
        law_atoms_stay_inside(buf, next, end, depth, be);
        let rest = atoms(buf, next, end, depth, be);
        let all = atoms(buf, start, end, depth, be);
        assert(all =~= seq![atom_at(buf, start, depth, be)] + inner + rest);
        let n = inner.len();
        assert forall|k: int| 0 <= k < all.len() implies {
            let a = #[trigger] all[k];
            start <= a.off && a.size >= 8 && a.off + a.size <= end && a.depth >= depth
        } by {
            if 0 < k <= n {
                assert(all[k] == inner[k - 1]);
            } else if k > n {
                assert(all[k] == rest[k - n - 1]);
            }
        }
        assert forall|j: int, k: int| 0 <= j < k < all.len() implies (#[trigger] all[j]).off < (
        #[trigger] all[k]).off by {
            if k <= n {
                assert(all[k] == inner[k - 1]);
                if j > 0 {
                    assert(all[j] == inner[j - 1]);
                }
            } else {
                assert(all[k] == rest[k - n - 1]);
                if j > n {
                    assert(all[j] == rest[j - n - 1]);
                } else if j > 0 {
                    assert(all[j] == inner[j - 1]);
                }
            }
        }
    }
}

/// The atoms with `k` added to each depth.
pub open spec fn deeper(v: Seq<AtomView>, k: int) -> Seq<AtomView> {
    v.map_values(|a: AtomView| AtomView { depth: a.depth + k, ..a })
}

/// A walk that starts deeper meets the same atoms, each deeper by as much, and nothing else changes.
pub proof fn law_depths_shift_alike(
    buf: Seq<u8>,
    start: int,
    end: int,
    depth: int,
    be: bool,
    k: int,
)
    ensures
        atoms(buf, start, end, depth + k, be) == deeper(atoms(buf, start, end, depth, be), k),
    decreases end - start,
{
    if atom_fits(buf, start, end, be) {
        let next = start + size_at(buf, start, be);
        let inner = if container_id(id_at(buf, start)) {
            law_depths_shift_alike(buf, start + 8, next, depth + 1, be, k);
            atoms(buf, start + 8, next, depth + 1, be)
        } else {
            Seq::empty()
        };
        let inner_deeper = if container_id(id_at(buf, start)) {
            atoms(buf, start + 8, next, depth + k + 1, be)
        } else {
            Seq::empty()
        };
        assert(depth + 1 + k == depth + k + 1);
        assert(inner_deeper =~= deeper(inner, k));
        law_depths_shift_alike(buf, next, end, depth, be, k);
        let rest = atoms(buf, next, end, depth, be);
        let atom = atom_at(buf, start, depth, be);
        assert(deeper(seq![atom] + inner + rest, k) =~= seq![atom_at(buf, start, depth + k, be)]
            + deeper(inner, k) + deeper(rest, k));
    } else {
        assert(atoms(buf, start, end, depth + k, be) =~= deeper(Seq::empty(), k));
    }
}

/// An atom to be written: a four-character identifier and a payload, or more atoms inside it.
pub enum Piece {
    Leaf { id: Seq<u8>, payload: Seq<u8> },
    Nest { id: Seq<u8>, inside: Seq<Piece> },
}

/// The identifier of a piece.
pub open spec fn piece_id(p: Piece) -> Seq<u8> {
    match p {
        Piece::Leaf { id, .. } => id,
        Piece::Nest { id, .. } => id,
    }
}

/// The four bytes of a size field.
pub open spec fn size_bytes(n: u32, be: bool) -> Seq<u8> {
    if be {
        be_bytes(n)
    } else {
        le_bytes(n)
    }
}

/// The bytes of pieces one behind the other: of each its size, its identifier and its payload.
pub open spec fn file_bytes(v: Seq<Piece>, be: bool) -> Seq<u8>
    decreases v,
{
    if v.len() == 0 {
        Seq::empty()
    } else {
        proof {
            lemma_pieces_shrink(v);
        }
        let body = match v[0] {
            Piece::Leaf { payload, .. } => payload,
            Piece::Nest { inside, .. } => file_bytes(inside, be),
        };
        size_bytes((body.len() + 8) as u32, be) + piece_id(v[0]) + body + file_bytes(
            v.drop_first(),
            be,
        )
    }
}

/// The bytes behind the header of a piece.
pub open spec fn body_bytes(p: Piece, be: bool) -> Seq<u8> {
    match p {
        Piece::Leaf { payload, .. } => payload,
        Piece::Nest { inside, .. } => file_bytes(inside, be),
    }
}

/// What is left of a list of pieces, and what the first of them holds, are smaller than the list.
pub proof fn lemma_pieces_shrink(v: Seq<Piece>)
    requires
        v.len() > 0,
    ensures
        decreases_to!(v => v.drop_first()),
        v[0] matches Piece::Nest { inside, .. } ==> decreases_to!(v => inside),
{
    assert(decreases_to!(v => v.subrange(1, v.len() as int)));
    assert(v.drop_first() == v.subrange(1, v.len() as int));
    assert(decreases_to!(v => v[0]));
    if let Piece::Nest { inside, .. } = v[0] {
        assert(decreases_to!(v[0] => v[0]->inside));
    }
}

/// Each identifier is four printable bytes, a container's where pieces stand inside and no
/// container's elsewhere, and each size fits its field.
pub open spec fn pieces_ok(v: Seq<Piece>, be: bool) -> bool
    decreases v,
{
    if v.len() == 0 {
        true
    } else {
        proof {
            lemma_pieces_shrink(v);
        }
        let id = piece_id(v[0]);
        &&& id.len() == 4
        &&& forall|k: int| 0 <= k < 4 ==> printable(#[trigger] id[k])
        &&& body_bytes(v[0], be).len() + 8 <= 0xffff_ffff
        &&& match v[0] {
            Piece::Leaf { .. } => !container_id(id.map_values(|b: u8| b as char)),
            Piece::Nest { inside, .. } => container_id(id.map_values(|b: u8| b as char))
                && pieces_ok(inside, be),
        }
        &&& pieces_ok(v.drop_first(), be)
    }
}

/// What a walk is to give for pieces that begin at `off`.
pub open spec fn expected(v: Seq<Piece>, off: int, depth: int, be: bool) -> Seq<AtomView>
    decreases v,
{
    if v.len() == 0 {
        Seq::empty()
    } else {
        proof {
            lemma_pieces_shrink(v);
        }
        let id = piece_id(v[0]).map_values(|b: u8| b as char);
        let size = body_bytes(v[0], be).len() + 8;
        seq![AtomView { off, size: size as int, id, known: known_id(id), depth }] + (match v[0] {
            Piece::Leaf { .. } => Seq::empty(),
            Piece::Nest { inside, .. } => expected(inside, off + 8, depth + 1, be),
        }) + expected(v.drop_first(), off + size, depth, be)
    }
}

/// Atoms walk cleanly: whatever tree of atoms a file is written from, in either byte order, the
/// walk in that order gives back exactly those, each in front of what it holds, with their offsets,
/// sizes, identifiers and depths, and lands on the end. With two documented identifiers among them
/// the order holds.
pub proof fn law_atoms_round_trip(v: Seq<Piece>, be: bool)
    requires
        pieces_ok(v, be),
    ensures
        file_atoms(file_bytes(v, be), be) == expected(v, 0, 0, be),
        known_count(expected(v, 0, 0, be)) >= 2 ==> order_holds(file_bytes(v, be), be),
{
    let buf = file_bytes(v, be);
    assert(buf.subrange(0, buf.len() as int) =~= buf);
    lemma_atoms_written(buf, 0, buf.len() as int, 0, v, be);
}

proof fn lemma_atoms_written(buf: Seq<u8>, off: int, end: int, depth: int, v: Seq<Piece>, be: bool)
    requires
        0 <= off <= end <= buf.len(),
        buf.subrange(off, end) == file_bytes(v, be),
        pieces_ok(v, be),
    ensures
        atoms(buf, off, end, depth, be) == expected(v, off, depth, be),
        level_end(buf, off, end, be) == end,
    decreases v,
{
    let all = buf.subrange(off, end);
    if v.len() == 0 {
        assert(all.len() == 0);
        assert(atoms(buf, off, end, depth, be) =~= expected(v, off, depth, be));
    } else {
        lemma_pieces_shrink(v);
        let p = v[0];
        let body = body_bytes(p, be);
        let size = (body.len() + 8) as u32;
        let field = size_bytes(size, be);
        let rest = file_bytes(v.drop_first(), be);
        assert(all == field + piece_id(p) + body + rest);
        assert(field.len() == 4 && piece_id(p).len() == 4);
        assert(all.len() == size + rest.len());
        assert forall|k: int| 0 <= k < all.len() implies buf[off + k] == #[trigger] all[k] by {}
        assert(buf.subrange(off, off + 4) =~= field) by {
            assert forall|k: int| 0 <= k < 4 implies buf.subrange(off, off + 4)[k] == field[k] by {
                assert(all[k] == field[k]);
            }
        }
        lemma_word_round_trip(buf, off, size);
        assert(size_at(buf, off, be) == size);
        let id = piece_id(p).map_values(|b: u8| b as char);
        assert forall|k: int| 0 <= k < 4 implies id_at(buf, off)[k] == id[k] by {
            assert(all[4 + k] == piece_id(p)[k]);
            assert(printable(piece_id(p)[k]));
        }
        assert(id_at(buf, off) =~= id);
        let next = off + size;
        assert(buf.subrange(off + 8, next) =~= body) by {
            assert forall|k: int| 0 <= k < body.len() implies buf.subrange(off + 8, next)[k]
                == body[k] by {
                assert(all[8 + k] == body[k]);
            }
        }
        assert(buf.subrange(next, end) =~= rest) by {
            assert forall|k: int| 0 <= k < rest.len() implies buf.subrange(next, end)[k] == rest[k] by {
                assert(all[size + k] == rest[k]);
            }
        }
        lemma_atoms_written(buf, next, end, depth, v.drop_first(), be);
        if let Piece::Nest { inside, .. } = p {
            lemma_atoms_written(buf, off + 8, next, depth + 1, inside, be);
        }
        assert(atoms(buf, off, end, depth, be) =~= expected(v, off, depth, be));
    }
}

/// A file whose first size field fits in neither byte order gives nothing: no atom is invented.
pub proof fn law_garbage_gives_no_atoms(buf: Seq<u8>)
    requires
        !atom_fits(buf, 0, buf.len() as int, true),
        !atom_fits(buf, 0, buf.len() as int, false),
    ensures
        file_atoms(buf, true).len() == 0,
        file_atoms(buf, false).len() == 0,
        !order_holds(buf, true),
        !order_holds(buf, false),
{
}

/// The atoms that are known by name are twelve, and two of them hold others.
#[verifier::rlimit(60)]
pub proof fn law_twelve_atoms_are_known(id: Seq<char>)
    ensures
        known_id(id) <==> seq![
            "sinf"@, "frma"@, "schm"@, "schi"@, "user"@, "key "@, "iviv"@, "righ"@, "tran"@, "name"@,
            "priv"@, "sign"@,
        ].contains(id),
        container_id(id) <==> seq!["sinf"@, "schi"@].contains(id),
        container_id(id) ==> known_id(id),
{
    let v = seq![
        "sinf"@, "frma"@, "schm"@, "schi"@, "user"@, "key "@, "iviv"@, "righ"@, "tran"@, "name"@,
        "priv"@, "sign"@,
    ];
    let c = seq!["sinf"@, "schi"@];
    assert(v[0] == "sinf"@ && v[1] == "frma"@ && v[2] == "schm"@ && v[3] == "schi"@ && v[4]
        == "user"@ && v[5] == "key "@ && v[6] == "iviv"@ && v[7] == "righ"@ && v[8] == "tran"@
        && v[9] == "name"@ && v[10] == "priv"@ && v[11] == "sign"@);
    assert(c[0] == "sinf"@ && c[1] == "schi"@);
}

/// An order of bytes is taken for a file's only where the atoms of the outermost level fill the file
/// to its last byte and at least two of all atoms are known; and it is taken wherever they do.
pub proof fn law_when_an_order_is_taken(buf: Seq<u8>, be: bool)
    ensures
        order_holds(buf, be) <==> level_end(buf, 0, buf.len() as int, be) == buf.len()
            && file_atoms(buf, be).filter(|a: AtomView| a.known).len() >= 2,
{
    lemma_known_is_filter(file_atoms(buf, be));
}

proof fn lemma_known_is_filter(v: Seq<AtomView>)
    ensures
        known_count(v) == v.filter(|a: AtomView| a.known).len(),
    decreases v.len(),
{
    reveal(Seq::filter);
    if v.len() > 0 {
        lemma_known_is_filter(v.drop_last());
    }
}

/// An atom that is cut short, or whose size leaves no room for its head, ends its level: nothing
/// of it is read.
pub proof fn law_a_bad_size_ends_the_level(buf: Seq<u8>, start: int, end: int, depth: int, be: bool)
    requires
        0 <= start,
        end <= buf.len(),
        start + 8 > end || size_at(buf, start, be) < 8 || start + size_at(buf, start, be) > end,
    ensures
        atoms(buf, start, end, depth, be).len() == 0,
        level_end(buf, start, end, be) == start,
{
}

} // verus!
