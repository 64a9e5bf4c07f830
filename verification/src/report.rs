//! Inspection of one file, and the text and JSON that show it.
//!
//! The entropy of a file is a floating-point number; it reaches the renderers as text.

use vstd::prelude::*;

use crate::bytes::hex16;
#[allow(unused_imports)]
use crate::bytes::hex_bytes;
use crate::eapp::{
    derive_load_base, find_thunk_runs, is_eapp, parse_header, scan_blocks, Block, BlockView, Header,
    HeaderView,
};
#[allow(unused_imports)]
use crate::eapp::{
    block_at, block_magic_at, block_views, blocks_from, eapp_magic, header_of,
    law_header_round_trip, law_scan_finds_every_block, le_words, load_base, run_views, runs_from,
};
use crate::names::{file_name, has_extension, parse_name_fields, FieldsView, NameFields};
#[allow(unused_imports)]
use crate::names::{base_name, extension, fields_of};
use crate::sinf::{is_container, parse_sinf, AtomView, SinfBlock};
#[allow(unused_imports)]
use crate::sinf::{
    atom_views, container_id, expected, file_atoms, file_bytes, known_count, law_atoms_round_trip,
    order_holds, pieces_ok, Piece,
};
use crate::text::{
    chars_of, push_address, push_dec, push_dec_left, push_hex, push_hex_wide, push_left,
    push_right, push_run, quoted, same_text, text_of, trim,
};
#[allow(unused_imports)]
use crate::text::lemma_one_more_cell;
#[allow(unused_imports)]
use crate::text::{
    address, begins, contains, debug_form, dec, ends, hex, hex_wide, law_an_address_is_read_back,
    law_padding_keeps_the_text, law_parts_are_found, lemma_contained_further, occurs_at, pad_left,
    pad_right, run_of, trimmed,
};

verus! {

/// What was found in one file.
pub struct Report {
    pub path: String,
    pub len: usize,
    pub is_eapp: bool,
    pub sinf: Vec<SinfBlock>,
    pub sinf_endian: Option<&'static str>,
    pub fields: Option<NameFields>,
    pub header: Option<Header>,
    pub load_base: Option<u32>,
    pub blocks: Vec<Block>,
    /// Every run of thunks anywhere in the file, as an independent check on the blocks' counts.
    pub thunk_runs: Vec<(usize, usize)>,
}

/// The contents of a report.
pub struct ReportView {
    pub path: Seq<char>,
    pub len: int,
    pub is_eapp: bool,
    pub sinf: Seq<AtomView>,
    pub sinf_endian: Option<Seq<char>>,
    pub fields: Option<FieldsView>,
    pub header: Option<HeaderView>,
    pub load_base: Option<u32>,
    pub blocks: Seq<BlockView>,
    pub thunk_runs: Seq<(int, int)>,
}

impl View for Report {
    type V = ReportView;

    open spec fn view(&self) -> ReportView {
        ReportView {
            path: self.path@,
            len: self.len as int,
            is_eapp: self.is_eapp,
            sinf: atom_views(self.sinf@),
            sinf_endian: match self.sinf_endian {
                Some(e) => Some(e@),
                None => None,
            },
            fields: match self.fields {
                Some(f) => Some(f@),
                None => None,
            },
            header: match self.header {
                Some(h) => Some(h@),
                None => None,
            },
            load_base: self.load_base,
            blocks: block_views(self.blocks@),
            thunk_runs: run_views(self.thunk_runs@),
        }
    }
}

/// The atoms of a file and the byte order they were read in; nothing unless it is a rights file.
pub open spec fn sinf_of(path: Seq<char>, buf: Seq<u8>) -> (Seq<AtomView>, Option<Seq<char>>) {
    if extension(base_name(path)) != Some("sinf"@) {
        (Seq::empty(), None)
    } else if order_holds(buf, true) {
        (file_atoms(buf, true), Some("big-endian"@))
    } else if order_holds(buf, false) {
        (file_atoms(buf, false), Some("little-endian"@))
    } else {
        (Seq::empty(), None)
    }
}

/// What an inspection of a file finds. A file that is no eApp is classified, not rejected.
pub open spec fn report_of(path: Seq<char>, buf: Seq<u8>) -> ReportView {
    let app = eapp_magic(buf);
    ReportView {
        path,
        len: buf.len() as int,
        is_eapp: app,
        sinf: sinf_of(path, buf).0,
        sinf_endian: sinf_of(path, buf).1,
        fields: fields_of(base_name(path)),
        header: if app {
            header_of(buf)
        } else {
            None
        },
        load_base: if app {
            load_base(buf)
        } else {
            None
        },
        blocks: if app {
            blocks_from(buf, 0)
        } else {
            Seq::empty()
        },
        thunk_runs: runs_from(buf, 0),
    }
}

/// Inspects a file by its path and its contents.
pub fn inspect(path: &str, buf: &[u8]) -> (r: Report)
    ensures
        r@ == report_of(path@, buf@),
{
    let app = is_eapp(buf);
    let name = file_name(path);
    let load_base = if app {
        derive_load_base(buf)
    } else {
        None
    };
    let header = if app {
        parse_header(buf)
    } else {
        None
    };
    let blocks = if app {
        scan_blocks(buf)
    } else {
        let none: Vec<Block> = Vec::new();
        assert(block_views(none@) =~= Seq::<BlockView>::empty());
        none
    };
    let (sinf, sinf_endian) = if has_extension(name.as_str(), "sinf") {
        parse_sinf(buf)
    } else {
        (Vec::new(), None)
    };
    assert(sinf@.len() == 0 ==> atom_views(sinf@) =~= Seq::<AtomView>::empty());
    Report {
        path: text_of(chars_of(path).as_slice()),
        len: buf.len(),
        is_eapp: app,
        sinf,
        sinf_endian,
        fields: parse_name_fields(name.as_str()),
        header,
        load_base,
        blocks,
        thunk_runs: find_thunk_runs(buf),
    }
}

// ---------------------------------------------------------------- text

/// What is remarked on an atom: by its identifier, then on a container, then on an atom that is
/// not documented.
pub open spec fn atom_note(a: AtomView) -> Seq<char> {
    let id = trimmed(a.id);
    if id == "iviv"@ && a.size == 24 {
        "  ← 16-byte AES-128 IV"@
    } else if id == "key"@ {
        "  ← key reference (payload is too small to be the key itself)"@
    } else if id == "priv"@ {
        "  ← private blob — likely the wrapped key material"@
    } else if id == "name"@ {
        "  ← purchaser's iTunes Store username"@
    } else if container_id(a.id) {
        "  (container)"@
    } else if !a.known {
        "  ← UNDOCUMENTED atom"@
    } else {
        ""@
    }
}

fn note_on(b: &SinfBlock) -> (r: &'static str)
    ensures
        r@ == atom_note(b@),
{
    let id = text_of(trim(chars_of(b.id.as_str()).as_slice()));
    let id = id.as_str();
    if same_text(id, "iviv") && b.size == 24 {
        "  ← 16-byte AES-128 IV"
    } else if same_text(id, "key") {
        "  ← key reference (payload is too small to be the key itself)"
    } else if same_text(id, "priv") {
        "  ← private blob — likely the wrapped key material"
    } else if same_text(id, "name") {
        "  ← purchaser's iTunes Store username"
    } else if is_container(b.id.as_str()) {
        "  (container)"
    } else if !b.known {
        "  ← UNDOCUMENTED atom"
    } else {
        ""
    }
}

/// The payload of an atom: its size without the header.
pub open spec fn payload(a: AtomView) -> nat {
    if a.size < 8 {
        0
    } else {
        (a.size - 8) as nat
    }
}

/// The line of one atom, indented by its depth.
pub open spec fn atom_line(a: AtomView) -> Seq<char> {
    "    "@ + run_of(' ', 2 * a.depth) + pad_left(a.id, 6, ' ') + " @0x"@ + hex_wide(
        a.off as nat,
        4,
    ) + "  size "@ + pad_left(dec(a.size as nat), 5, ' ') + "  payload "@ + pad_left(
        dec(payload(a)),
        5,
        ' ',
    ) + atom_note(a) + "\n"@
}

/// The line of one atom.
pub fn render_atom(b: &SinfBlock) -> (out: String)
    ensures
        out@ == atom_line(b@),
{
    let mut out = String::from_str("    ");
    push_run(&mut out, ' ', b.depth);
    push_run(&mut out, ' ', b.depth);
    assert(out@ =~= "    "@ + run_of(' ', 2 * b@.depth));
    push_left(&mut out, b.id.as_str(), 6, ' ');
    out.append(" @0x");
    push_hex_wide(&mut out, b.off as u128, 4);
    out.append("  size ");
    push_dec_left(&mut out, b.size as u128, 5);
    out.append("  payload ");
    push_dec_left(&mut out, b.size.saturating_sub(8) as u128, 5);
    out.append(note_on(b));
    out.append("\n");
    out
}

/// The lines of a list of atoms.
pub open spec fn atom_lines(v: Seq<AtomView>) -> Seq<char>
    decreases v.len(),
{
    if v.len() == 0 {
        Seq::empty()
    } else {
        atom_lines(v.drop_last()) + atom_line(v.last())
    }
}

fn render_atoms(v: &Vec<SinfBlock>) -> (out: String)
    ensures
        out@ == atom_lines(atom_views(v@)),
{
    let mut out = String::new();
    let mut i: usize = 0;
    assert(out@ =~= atom_lines(atom_views(v@).take(0)));
    while i < v.len()
        invariant
            i <= v@.len(),
            out@ == atom_lines(atom_views(v@).take(i as int)),
        decreases v@.len() - i,
    {
        assert(atom_views(v@).take(i + 1).drop_last() =~= atom_views(v@).take(i as int));
        out.append(render_atom(&v[i]).as_str());
        i += 1;
    }
    assert(atom_views(v@).take(i as int) =~= atom_views(v@));
    out
}

/// Addresses with a space between each two.
pub open spec fn addresses(v: Seq<u32>) -> Seq<char>
    decreases v.len(),
{
    if v.len() == 0 {
        Seq::empty()
    } else if v.len() == 1 {
        address(v[0])
    } else {
        addresses(v.drop_last()) + " "@ + address(v.last())
    }
}

fn render_addresses(v: &Vec<u32>) -> (out: String)
    ensures
        out@ == addresses(v@),
{
    let mut out = String::new();
    let mut i: usize = 0;
    assert(out@ =~= addresses(v@.take(0)));
    while i < v.len()
        invariant
            i <= v@.len(),
            out@ == addresses(v@.take(i as int)),
        decreases v@.len() - i,
    {
        assert(v@.take(i + 1).drop_last() =~= v@.take(i as int));
        if i > 0 {
            out.append(" ");
        }
        push_address(&mut out, v[i]);
        assert(i == 0 ==> out@ =~= address(v@[0]));
        i += 1;
    }
    assert(v@.take(i as int) =~= v@);
    out
}

/// The two lines of a header.
pub open spec fn header_lines(h: HeaderView) -> Seq<char> {
    "  header: version "@ + address(h.version) + " · block_count "@ + dec(h.block_count as nat)
        + " · entry_off 0x"@ + hex(h.entry_off as nat) + "\n  header ptrs @+0x10: "@ + addresses(
        h.ptrs,
    ) + "\n"@
}

/// The two lines of a header.
pub fn render_header(h: &Header) -> (out: String)
    ensures
        out@ == header_lines(h@),
{
    let mut out = String::from_str("  header: version ");
    push_address(&mut out, h.version);
    out.append(" · block_count ");
    push_dec(&mut out, h.block_count as u128);
    out.append(" · entry_off 0x");
    push_hex(&mut out, h.entry_off as u128);
    out.append("\n  header ptrs @+0x10: ");
    out.append(render_addresses(&h.ptrs).as_str());
    out.append("\n");
    out
}

/// As many thunks stand behind the block as it declares functions.
pub open spec fn counts_agree(b: BlockView) -> bool {
    b.thunks_seen % 0x1_0000_0000 == b.func_count
}

/// The line of one block; `quoted` is its name in quotation marks.
pub open spec fn block_line(b: BlockView, quoted: Seq<char>) -> Seq<char> {
    if b.is_terminator {
        "    [terminator] "@ + quoted + "\n"@
    } else {
        "    "@ + pad_right(b.name, 14) + " count "@ + pad_left(dec(b.func_count as nat), 3, ' ')
            + "  thunks_seen "@ + pad_left(dec(b.thunks_seen as nat), 3, ' ') + " "@ + (
        if counts_agree(b) {
            "✓"@
        } else {
            "⚠️"@
        }) + "  next "@ + address(b.next_ptr) + "  hash "@ + hex_bytes(b.hash) + "  @0x"@ + hex(
            b.file_off as nat,
        ) + "\n"@
    }
}

/// The line of one block; `quoted` is its name in quotation marks.
pub fn render_block(b: &Block, quoted: &str) -> (out: String)
    ensures
        out@ == block_line(b@, quoted@),
{
    if b.is_terminator {
        let mut out = String::from_str("    [terminator] ");
        out.append(quoted);
        out.append("\n");
        out
    } else {
        let mut out = String::from_str("    ");
        push_right(&mut out, b.name.as_str(), 14);
        out.append(" count ");
        push_dec_left(&mut out, b.func_count as u128, 3);
        out.append("  thunks_seen ");
        push_dec_left(&mut out, b.thunks_seen as u128, 3);
        out.append(" ");
        if b.thunks_seen as u64 % 0x1_0000_0000 == b.func_count as u64 {
            out.append("✓");
        } else {
            out.append("⚠️");
        }
        out.append("  next ");
        push_address(&mut out, b.next_ptr);
        out.append("  hash ");
        out.append(hex16(&b.hash).as_str());
        out.append("  @0x");
        push_hex(&mut out, b.file_off as u128);
        out.append("\n");
        out
    }
}

/// The lines of a list of blocks.
pub open spec fn block_lines(v: Seq<BlockView>) -> Seq<char>
    decreases v.len(),
{
    if v.len() == 0 {
        Seq::empty()
    } else {
        block_lines(v.drop_last()) + block_line(v.last(), debug_form(v.last().name))
    }
}

/// The number of functions that the blocks import.
pub open spec fn imported(v: Seq<BlockView>) -> nat
    decreases v.len(),
{
    if v.len() == 0 {
        0
    } else if v.last().is_terminator {
        imported(v.drop_last())
    } else {
        imported(v.drop_last()) + v.last().func_count as nat
    }
}

/// The blocks that are no terminators.
pub open spec fn real_blocks(v: Seq<BlockView>) -> Seq<BlockView>
    decreases v.len(),
{
    if v.len() == 0 {
        Seq::empty()
    } else if v.last().is_terminator {
        real_blocks(v.drop_last())
    } else {
        real_blocks(v.drop_last()).push(v.last())
    }
}

fn render_blocks(v: &Vec<Block>) -> (r: (String, u128, usize))
    ensures
        r.0@ == block_lines(block_views(v@)),
        r.1 == imported(block_views(v@)),
        r.2 == real_blocks(block_views(v@)).len(),
{
    let mut out = String::new();
    let mut total: u128 = 0;
    let mut found: usize = 0;
    let mut i: usize = 0;
    assert(out@ =~= block_lines(block_views(v@).take(0)));
    while i < v.len()
        invariant
            i <= v@.len(),
            out@ == block_lines(block_views(v@).take(i as int)),
            total == imported(block_views(v@).take(i as int)),
            found == real_blocks(block_views(v@).take(i as int)).len(),
            found <= i,
            total <= i * 0xffff_ffff,
        decreases v@.len() - i,
    {
        assert(block_views(v@).take(i + 1).drop_last() =~= block_views(v@).take(i as int));
        let b = &v[i];
        out.append(render_block(b, quoted(b.name.as_str()).as_str()).as_str());
        if !b.is_terminator {
            total += b.func_count as u128;
            found += 1;
        }
        i += 1;
    }
    assert(block_views(v@).take(i as int) =~= block_views(v@));
    (out, total, found)
}

/// The number of thunks in a list of runs.
pub open spec fn thunk_total(v: Seq<(int, int)>) -> int
    decreases v.len(),
{
    if v.len() == 0 {
        0
    } else {
        thunk_total(v.drop_last()) + v.last().1
    }
}

fn count_thunks(v: &Vec<(usize, usize)>) -> (n: u128)
    ensures
        n == thunk_total(run_views(v@)),
{
    let mut n: u128 = 0;
    let mut i: usize = 0;
    while i < v.len()
        invariant
            i <= v@.len(),
            n == thunk_total(run_views(v@).take(i as int)),
            n <= i * usize::MAX,
        decreases v@.len() - i,
    {
        assert(run_views(v@).take(i + 1).drop_last() =~= run_views(v@).take(i as int));
        proof {
            let m = usize::MAX as int;
            assert(i * m + m <= m * m) by (nonlinear_arith)
                requires
                    0 <= i < m,
            ;
            assert(m * m < 0x1_0000_0000_0000_0000 * 0x1_0000_0000_0000_0000) by (nonlinear_arith)
                requires
                    0 <= m < 0x1_0000_0000_0000_0000,
            ;
            assert((i + 1) * m == i * m + m) by (nonlinear_arith);
        }
        n += v[i].1 as u128;
        i += 1;
    }
    assert(run_views(v@).take(i as int) =~= run_views(v@));
    n
}

/// The head of a report: path, size, entropy and class, and the fields of the name.
pub open spec fn head_lines(r: ReportView, entropy: Seq<char>, class: Seq<char>) -> Seq<char> {
    "\n=== "@ + r.path + " ===\n  size "@ + dec(r.len as nat) + " bytes · entropy "@ + entropy
        + " bits/byte → "@ + class + "\n"@ + (match r.fields {
        Some(f) => "  filename fields: name="@ + f.name + " platform_id="@ + f.platform_id
            + " hardware_id="@ + f.hardware_id + " build_id="@ + f.build_id + "\n"@,
        None => ""@,
    })
}

/// The part of a report on a rights file.
pub open spec fn sinf_lines(r: ReportView) -> Seq<char> {
    "  FairPlay .sinf — "@ + dec(r.sinf.len()) + " atoms, size field is "@ + (
    match r.sinf_endian {
        Some(e) => e,
        None => "?"@,
    }) + "\n"@ + atom_lines(r.sinf)
}

/// The line of the load base.
pub open spec fn base_line(base: Option<u32>) -> Seq<char> {
    match base {
        Some(b) => "  load base: "@ + address(b) + " (derived)\n"@,
        None => "  load base: UNRESOLVED — pointers will not map to file offsets\n"@,
    }
}

/// The warning that the header's count differs from what the scan found.
pub open spec fn count_warning(h: Option<HeaderView>, found: nat) -> Seq<char> {
    match h {
        Some(h) => if h.block_count != found {
            "  ⚠️  header says "@ + dec(h.block_count as nat) + " blocks, scan found "@ + dec(found)
                + " non-terminator — layout assumption suspect\n"@
        } else {
            ""@
        },
        None => ""@,
    }
}

/// The part of a report on an eApp.
pub open spec fn app_lines(r: ReportView) -> Seq<char> {
    (match r.header {
        Some(h) => header_lines(h),
        None => ""@,
    }) + base_line(r.load_base) + "  framework blocks found by scan: "@ + dec(r.blocks.len())
        + "\n"@ + count_warning(r.header, real_blocks(r.blocks).len()) + block_lines(r.blocks)
        + "  TOTAL imported functions: "@ + dec(imported(r.blocks)) + "\n  independent check: "@
        + dec(thunk_total(r.thunk_runs) as nat) + " `ldr pc,[pc,#imm]` thunks in "@ + dec(
        r.thunk_runs.len(),
    ) + " runs file-wide\n"@
}

/// The text of a report: the head, then the atoms of a rights file, or that the file is no eApp,
/// or what the eApp holds.
pub open spec fn report_text(r: ReportView, entropy: Seq<char>, class: Seq<char>) -> Seq<char> {
    head_lines(r, entropy, class) + (if r.sinf.len() > 0 {
        sinf_lines(r)
    } else if !r.is_eapp {
        "  no `eapp` magic — not a plaintext eApp binary\n"@
    } else {
        app_lines(r)
    })
}

fn render_fields(f: &NameFields) -> (out: String)
    ensures
        out@ == "  filename fields: name="@ + f@.name + " platform_id="@ + f@.platform_id
            + " hardware_id="@ + f@.hardware_id + " build_id="@ + f@.build_id + "\n"@,
{
    let mut out = String::from_str("  filename fields: name=");
    out.append(f.name.as_str());
    out.append(" platform_id=");
    out.append(f.platform_id.as_str());
    out.append(" hardware_id=");
    out.append(f.hardware_id.as_str());
    out.append(" build_id=");
    out.append(f.build_id.as_str());
    out.append("\n");
    out
}

fn render_head(r: &Report, entropy: &str, class: &str) -> (out: String)
    ensures
        out@ == head_lines(r@, entropy@, class@),
{
    let mut out = String::from_str("\n=== ");
    out.append(r.path.as_str());
    out.append(" ===\n  size ");
    push_dec(&mut out, r.len as u128);
    out.append(" bytes · entropy ");
    out.append(entropy);
    out.append(" bits/byte → ");
    out.append(class);
    out.append("\n");
    match &r.fields {
        Some(f) => out.append(render_fields(f).as_str()),
        None => out.append(""),
    }
    out
}

fn render_sinf(r: &Report) -> (out: String)
    ensures
        out@ == sinf_lines(r@),
{
    let mut out = String::from_str("  FairPlay .sinf — ");
    push_dec(&mut out, r.sinf.len() as u128);
    out.append(" atoms, size field is ");
    match r.sinf_endian {
        Some(e) => out.append(e),
        None => out.append("?"),
    }
    out.append("\n");
    out.append(render_atoms(&r.sinf).as_str());
    out
}

fn render_warning(h: &Option<Header>, found: usize) -> (out: String)
    ensures
        out@ == count_warning(
            match h {
                Some(h) => Some(h@),
                None => None,
            },
            found as nat,
        ),
{
    match h {
        Some(h) => if h.block_count as u128 != found as u128 {
            let mut out = String::from_str("  ⚠️  header says ");
            push_dec(&mut out, h.block_count as u128);
            out.append(" blocks, scan found ");
            push_dec(&mut out, found as u128);
            out.append(" non-terminator — layout assumption suspect\n");
            out
        } else {
            String::from_str("")
        },
        None => String::from_str(""),
    }
}

fn render_base(base: Option<u32>) -> (out: String)
    ensures
        out@ == base_line(base),
{
    match base {
        Some(b) => {
            let mut out = String::from_str("  load base: ");
            push_address(&mut out, b);
            out.append(" (derived)\n");
            out
        },
        None => String::from_str(
            "  load base: UNRESOLVED — pointers will not map to file offsets\n",
        ),
    }
}

fn render_app(r: &Report) -> (out: String)
    ensures
        out@ == app_lines(r@),
{
    let (lines, total, found) = render_blocks(&r.blocks);
    let mut out = match &r.header {
        Some(h) => render_header(h),
        None => String::from_str(""),
    };
    out.append(render_base(r.load_base).as_str());
    out.append("  framework blocks found by scan: ");
    push_dec(&mut out, r.blocks.len() as u128);
    out.append("\n");
    out.append(render_warning(&r.header, found).as_str());
    out.append(lines.as_str());
    out.append("  TOTAL imported functions: ");
    push_dec(&mut out, total);
    out.append("\n  independent check: ");
    push_dec(&mut out, count_thunks(&r.thunk_runs));
    out.append(" `ldr pc,[pc,#imm]` thunks in ");
    push_dec(&mut out, r.thunk_runs.len() as u128);
    out.append(" runs file-wide\n");
    out
}

/// The text of a report. `entropy` is the entropy of the file with two decimals and `class` what
/// it says of the file.
pub fn render_report(r: &Report, entropy: &str, class: &str) -> (out: String)
    ensures
        out@ == report_text(r@, entropy@, class@),
{
    let mut out = render_head(r, entropy, class);
    if r.sinf.len() > 0 {
        out.append(render_sinf(r).as_str());
    } else if !r.is_eapp {
        out.append("  no `eapp` magic — not a plaintext eApp binary\n");
    } else {
        out.append(render_app(r).as_str());
    }
    out
}

// ---------------------------------------------------------------- laws

/// The blocks that import something are those that end no list, in their order.
pub proof fn law_terminators_are_left_out(v: Seq<BlockView>)
    ensures
        real_blocks(v) == v.filter(|b: BlockView| !b.is_terminator),
    decreases v.len(),
{
    reveal(Seq::filter);
    if v.len() > 0 {
        law_terminators_are_left_out(v.drop_last());
    }
}

/// The imported functions are those of all blocks together: those of two lists add up, a block
/// counts with its own number, and one that ends a list not at all.
#[verifier::rlimit(60)]
pub proof fn law_imports_add_up(a: Seq<BlockView>, b: Seq<BlockView>, x: BlockView)
    ensures
        imported(a + b) == imported(a) + imported(b),
        imported(seq![x]) == (if x.is_terminator {
            0
        } else {
            x.func_count as nat
        }),
        imported(Seq::empty()) == 0,
    decreases b.len(),
{
    reveal_with_fuel(imported, 2);
    assert(seq![x].drop_last() =~= Seq::<BlockView>::empty());
    if b.len() > 0 {
        law_imports_add_up(a, b.drop_last(), x);
        assert((a + b).drop_last() =~= a + b.drop_last());
        assert((a + b).last() == b.last());
    } else {
        assert(a + b =~= a);
    }
}

/// The thunks of all runs add up, and a run counts with its length.
#[verifier::rlimit(60)]
pub proof fn law_thunks_add_up(a: Seq<(int, int)>, b: Seq<(int, int)>, x: (int, int))
    ensures
        thunk_total(a + b) == thunk_total(a) + thunk_total(b),
        thunk_total(seq![x]) == x.1,
        thunk_total(Seq::empty()) == 0,
    decreases b.len(),
{
    reveal_with_fuel(thunk_total, 2);
    assert(seq![x].drop_last() =~= Seq::<(int, int)>::empty());
    if b.len() > 0 {
        law_thunks_add_up(a, b.drop_last(), x);
        assert((a + b).drop_last() =~= a + b.drop_last());
        assert((a + b).last() == b.last());
    } else {
        assert(a + b =~= a);
    }
}

/// The two counts of a block agree just where they are equal, as far as a word can tell.
pub proof fn law_counts_agree_where_they_are_equal(b: BlockView)
    requires
        0 <= b.thunks_seen < 0x1_0000_0000,
    ensures
        counts_agree(b) <==> b.thunks_seen == b.func_count,
{
}

/// There is a warning just where the header and the scan disagree, and it shows both numbers.
#[verifier::rlimit(60)]
pub proof fn law_a_wrong_count_is_warned_of(h: HeaderView, found: nat)
    ensures
        count_warning(Some(h), found).len() == 0 <==> h.block_count == found,
        h.block_count != found ==> contains(
            count_warning(Some(h), found),
            "says "@ + dec(h.block_count as nat) + " blocks"@,
        ),
        h.block_count != found ==> contains(
            count_warning(Some(h), found),
            "found "@ + dec(found) + " non-terminator"@,
        ),
        count_warning(None, found).len() == 0,
{
    reveal_strlit("");
    if h.block_count != found {
        reveal_strlit("  ⚠️  header says ");
        reveal_strlit(" blocks, scan found ");
        reveal_strlit(" non-terminator — layout assumption suspect\n");
        reveal_strlit("says ");
        reveal_strlit(" blocks");
        reveal_strlit("found ");
        reveal_strlit(" non-terminator");
        let a = "  ⚠️  header says "@;
        let m = " blocks, scan found "@;
        let z = " non-terminator — layout assumption suspect\n"@;
        let d = dec(h.block_count as nat);
        let e = dec(found);
        let s = count_warning(Some(h), found);
        assert(s == a + d + m + e + z);
        let p = "says "@ + d + " blocks"@;
        let i = a.len() - 5;
        assert(s.subrange(i, i + p.len()) =~= p);
        assert(occurs_at(s, p, i));
        let q = "found "@ + e + " non-terminator"@;
        let j = a.len() + d.len() + m.len() - 6;
        assert(s.subrange(j, j + q.len()) =~= q);
        assert(occurs_at(s, q, j));
    }
}

/// A derived base is shown, and a missing one is said to be missing.
pub proof fn law_the_base_is_shown(b: u32)
    ensures
        contains(base_line(Some(b)), address(b)),
        contains(base_line(None), "UNRESOLVED"@),
{
    reveal_strlit("  load base: ");
    reveal_strlit(" (derived)\n");
    reveal_strlit("  load base: UNRESOLVED — pointers will not map to file offsets\n");
    reveal_strlit("UNRESOLVED");
    let s = base_line(Some(b));
    let i = "  load base: "@.len() as int;
    assert(s.subrange(i, i + address(b).len()) =~= address(b));
    assert(occurs_at(s, address(b), i));
    let t = base_line(None);
    assert(t.subrange(13, 23) =~= "UNRESOLVED"@);
    assert(occurs_at(t, "UNRESOLVED"@, 13));
}

/// A binary that is written is reported as it was written: its header, its length and its path; and
/// what does not begin as a binary has no header, no base and no blocks.
#[verifier::rlimit(60)]
pub proof fn law_a_written_binary_is_reported(
    path: Seq<char>,
    version: u32,
    blocks: u32,
    entry: u32,
    ptrs: Seq<u32>,
    rest: Seq<u8>,
    other: Seq<u8>,
)
    requires
        ptrs.len() == 6,
        other.len() < 4 || other[0] != 0x65 || other[1] != 0x61 || other[2] != 0x70 || other[3]
            != 0x70,
    ensures
        ({
            let buf = seq![0x65u8, 0x61, 0x70, 0x70] + le_words(
                seq![version, blocks, entry] + ptrs,
            ) + rest;
            let r = report_of(path, buf);
            &&& r.path == path
            &&& r.len == buf.len()
            &&& r.is_eapp
            &&& r.header == Some(
                HeaderView { version, block_count: blocks, entry_off: entry, ptrs },
            )
            &&& forall|i: int|
                #![trigger block_at(buf, i)]
                0 <= i && i % 4 == 0 && i + 4 <= buf.len() && block_magic_at(buf, i) && block_at(
                    buf,
                    i,
                ) is Some ==> r.blocks.contains(block_at(buf, i)->0)
        }),
        ({
            let r = report_of(path, other);
            &&& !r.is_eapp
            &&& r.header is None
            &&& r.load_base is None
            &&& r.blocks.len() == 0
        }),
{
    law_header_round_trip(version, blocks, entry, ptrs, rest);
    let buf = seq![0x65u8, 0x61, 0x70, 0x70] + le_words(seq![version, blocks, entry] + ptrs) + rest;
    assert forall|i: int|
        #![trigger block_at(buf, i)]
        0 <= i && i % 4 == 0 && i + 4 <= buf.len() && block_magic_at(buf, i) && block_at(
            buf,
            i,
        ) is Some implies report_of(path, buf).blocks.contains(block_at(buf, i)->0) by {
        law_scan_finds_every_block(buf, i);
    }
    if eapp_magic(other) {
        let t = other.take(4);
        assert(t[0] == other[0] && t[1] == other[1] && t[2] == other[2] && t[3] == other[3]);
    }
}

/// Sidecar atoms that are written, with the size in either order, are reported as they were
/// written, for a file with the extension of a sidecar and for no other.
pub proof fn law_a_written_sidecar_is_reported(path: Seq<char>, v: Seq<Piece>, be: bool)
    requires
        pieces_ok(v, be),
        known_count(expected(v, 0, 0, be)) >= 2,
        !be ==> !order_holds(file_bytes(v, be), true),
    ensures
        ({
            let r = report_of(path, file_bytes(v, be));
            if extension(base_name(path)) == Some("sinf"@) {
                r.sinf == expected(v, 0, 0, be) && r.sinf_endian == Some(
                    if be {
                        "big-endian"@
                    } else {
                        "little-endian"@
                    },
                )
            } else {
                r.sinf.len() == 0 && r.sinf_endian is None
            }
        }),
{
    law_atoms_round_trip(v, be);
}

/// The payload of an atom is what its size leaves behind its head of eight bytes.
pub proof fn law_a_payload_follows_the_head(a: AtomView)
    requires
        a.size >= 8,
    ensures
        payload(a) + 8 == a.size,
{
}

// ---------------------------------------------------------------- what the lines say

/// A line of a block that imports something shows its name, its two counts with a mark for whether
/// they agree, the next pointer, the hash and its place; a line of one that ends a list says so and
/// shows its quoted name.
#[verifier::rlimit(60)]
pub proof fn law_a_block_line_shows_the_block(b: BlockView, quoted: Seq<char>)
    ensures
        b.is_terminator ==> block_line(b, quoted) == "    [terminator] "@ + quoted + "\n"@,
        !b.is_terminator ==> {
            let line = block_line(b, quoted);
            let count = pad_left(dec(b.func_count as nat), 3, ' ');
            let seen = pad_left(dec(b.thunks_seen as nat), 3, ' ');
            &&& begins(line, "    "@ + b.name)
            &&& contains(line, " count "@ + count + "  thunks_seen "@)
            &&& b.thunks_seen % 0x1_0000_0000 == b.func_count ==> contains(
                line,
                "  thunks_seen "@ + seen + " ✓  next "@,
            )
            &&& b.thunks_seen % 0x1_0000_0000 != b.func_count ==> contains(
                line,
                "  thunks_seen "@ + seen + " ⚠️  next "@,
            )
            &&& contains(line, "  next "@ + address(b.next_ptr) + "  hash "@)
            &&& contains(line, "  hash "@ + hex_bytes(b.hash) + "  @0x"@)
            &&& ends(line, "  @0x"@ + hex(b.file_off as nat) + "\n"@)
        },
{
    if !b.is_terminator {
        let line = block_line(b, quoted);
        let a = "    "@;
        let n = pad_right(b.name, 14);
        let k1 = " count "@;
        let d1 = pad_left(dec(b.func_count as nat), 3, ' ');
        let k2 = "  thunks_seen "@;
        let d2 = pad_left(dec(b.thunks_seen as nat), 3, ' ');
        let m = if counts_agree(b) {
            "✓"@
        } else {
            "⚠️"@
        };
        let k3 = "  next "@;
        let d3 = address(b.next_ptr);
        let k4 = "  hash "@;
        let d4 = hex_bytes(b.hash);
        let k5 = "  @0x"@;
        let d5 = hex(b.file_off as nat);
        let z = "\n"@;
        lemma_block_parts(a, n, k1, d1, k2, d2, " "@, m, k3, d3, k4, d4, k5, d5, z);
        reveal_strlit(" ");
        reveal_strlit("✓");
        reveal_strlit("⚠️");
        reveal_strlit("  next ");
        reveal_strlit(" ✓  next ");
        reveal_strlit(" ⚠️  next ");
        assert(" "@ + "✓"@ + "  next "@ =~= " ✓  next "@);
        assert(" "@ + "⚠️"@ + "  next "@ =~= " ⚠️  next "@);
        assert(k2 + d2 + (" "@ + m + k3) == k2 + d2 + (if counts_agree(b) {
            " ✓  next "@
        } else {
            " ⚠️  next "@
        }));
        law_padding_keeps_the_text(b.name, 14, ' ');
        assert(n =~= b.name + n.skip(b.name.len() as int)) by {
            assert(n.take(b.name.len() as int) =~= b.name);
        }
        let p = a + b.name;
        assert(line.take(p.len() as int) =~= p) by {
            assert(line.take((a + n).len() as int) =~= a + n);
        }
    }
}

#[verifier::rlimit(60)]
proof fn lemma_block_parts(
    a: Seq<char>,
    n: Seq<char>,
    k1: Seq<char>,
    d1: Seq<char>,
    k2: Seq<char>,
    d2: Seq<char>,
    s: Seq<char>,
    m: Seq<char>,
    k3: Seq<char>,
    d3: Seq<char>,
    k4: Seq<char>,
    d4: Seq<char>,
    k5: Seq<char>,
    d5: Seq<char>,
    z: Seq<char>,
)
    ensures
        ({
            let line = a + n + k1 + d1 + k2 + d2 + s + m + k3 + d3 + k4 + d4 + k5 + d5 + z;
            &&& line.take((a + n).len() as int) == a + n
            &&& contains(line, k1 + d1 + k2)
            &&& contains(line, k2 + d2 + (s + m + k3))
            &&& contains(line, k3 + d3 + k4)
            &&& contains(line, k4 + d4 + k5)
            &&& ends(line, k5 + d5 + z)
        }),
{
    let line = a + n + k1 + d1 + k2 + d2 + s + m + k3 + d3 + k4 + d4 + k5 + d5 + z;
    assert(line.take((a + n).len() as int) =~= a + n);
    let i1 = (a + n).len() as int;
    let p1 = k1 + d1 + k2;
    assert(line.subrange(i1, i1 + p1.len()) =~= p1);
    assert(occurs_at(line, p1, i1));
    let i2 = i1 + k1.len() + d1.len();
    let p2 = k2 + d2 + (s + m + k3);
    assert(line.subrange(i2, i2 + p2.len()) =~= p2);
    assert(occurs_at(line, p2, i2));
    let i3 = i2 + k2.len() + d2.len() + s.len() + m.len();
    let p3 = k3 + d3 + k4;
    assert(line.subrange(i3, i3 + p3.len()) =~= p3);
    assert(occurs_at(line, p3, i3));
    let i4 = i3 + k3.len() + d3.len();
    let p4 = k4 + d4 + k5;
    assert(line.subrange(i4, i4 + p4.len()) =~= p4);
    assert(occurs_at(line, p4, i4));
    let p5 = k5 + d5 + z;
    assert(line.skip(line.len() - p5.len()) =~= p5);
}

/// Every block and every atom has its line.
pub proof fn law_everything_has_its_line(v: Seq<BlockView>, w: Seq<AtomView>, k: int, j: int)
    ensures
        0 <= k < v.len() ==> contains(block_lines(v), block_line(v[k], debug_form(v[k].name))),
        0 <= j < w.len() ==> contains(atom_lines(w), atom_line(w[j])),
{
    if 0 <= k < v.len() {
        lemma_block_has_its_line(v, k);
    }
    if 0 <= j < w.len() {
        lemma_atom_has_its_line(w, j);
    }
}

proof fn lemma_block_has_its_line(v: Seq<BlockView>, k: int)
    requires
        0 <= k < v.len(),
    ensures
        contains(block_lines(v), block_line(v[k], debug_form(v[k].name))),
    decreases v.len(),
{
    let own = block_line(v.last(), debug_form(v.last().name));
    let before = block_lines(v.drop_last());
    let none = Seq::<char>::empty();
    if k < v.len() - 1 {
        lemma_block_has_its_line(v.drop_last(), k);
        lemma_contained_further(none, before, own, block_line(v[k], debug_form(v[k].name)));
        assert(none + before + own =~= before + own);
    } else {
        law_parts_are_found(before, own, none, none);
        assert(before + own + none =~= before + own);
    }
}

proof fn lemma_atom_has_its_line(v: Seq<AtomView>, k: int)
    requires
        0 <= k < v.len(),
    ensures
        contains(atom_lines(v), atom_line(v[k])),
    decreases v.len(),
{
    let own = atom_line(v.last());
    let before = atom_lines(v.drop_last());
    let none = Seq::<char>::empty();
    if k < v.len() - 1 {
        lemma_atom_has_its_line(v.drop_last(), k);
        lemma_contained_further(none, before, own, atom_line(v[k]));
        assert(none + before + own =~= before + own);
    } else {
        law_parts_are_found(before, own, none, none);
        assert(before + own + none =~= before + own);
    }
}

/// A line of an atom is set in by two blanks for each level below the outermost, and shows the id,
/// the place, the size and the payload.
#[verifier::rlimit(60)]
pub proof fn law_an_atom_line_shows_the_atom(a: AtomView)
    requires
        a.size >= 8,
        a.depth >= 0,
    ensures
        ({
            let line = atom_line(a);
            let d = 4 + 2 * a.depth;
            let id = pad_left(a.id, 6, ' ');
            &&& forall|k: int| 0 <= k < d ==> #[trigger] line[k] == ' '
            &&& line.subrange(d, d + id.len()) == id
            &&& contains(line, " @0x"@ + hex_wide(a.off as nat, 4) + "  size "@)
            &&& contains(line, "  size "@ + pad_left(dec(a.size as nat), 5, ' ') + "  payload "@)
            &&& contains(line, "  payload "@ + pad_left(dec((a.size - 8) as nat), 5, ' '))
            &&& ends(line, atom_note(a) + "\n"@)
        }),
{
    reveal_strlit("    ");
    let line = atom_line(a);
    let r = run_of(' ', 2 * a.depth);
    let id = pad_left(a.id, 6, ' ');
    lemma_atom_parts(
        "    "@,
        r,
        id,
        " @0x"@,
        hex_wide(a.off as nat, 4),
        "  size "@,
        pad_left(dec(a.size as nat), 5, ' '),
        "  payload "@,
        pad_left(dec(payload(a)), 5, ' '),
        atom_note(a),
        "\n"@,
    );
    assert forall|k: int| 0 <= k < 4 + 2 * a.depth implies #[trigger] line[k] == ' ' by {
        assert(line.take(("    "@ + r).len() as int)[k] == line[k]);
    }
}

#[verifier::rlimit(60)]
proof fn lemma_atom_parts(
    a: Seq<char>,
    r: Seq<char>,
    id: Seq<char>,
    k1: Seq<char>,
    d1: Seq<char>,
    k2: Seq<char>,
    d2: Seq<char>,
    k3: Seq<char>,
    d3: Seq<char>,
    n: Seq<char>,
    z: Seq<char>,
)
    ensures
        ({
            let line = a + r + id + k1 + d1 + k2 + d2 + k3 + d3 + n + z;
            let d = (a + r).len() as int;
            &&& line.take(d) == a + r
            &&& line.subrange(d, d + id.len()) == id
            &&& contains(line, k1 + d1 + k2)
            &&& contains(line, k2 + d2 + k3)
            &&& contains(line, k3 + d3)
            &&& ends(line, n + z)
        }),
{
    let line = a + r + id + k1 + d1 + k2 + d2 + k3 + d3 + n + z;
    let d = (a + r).len() as int;
    assert(line.take(d) =~= a + r);
    assert(line.subrange(d, d + id.len()) =~= id);
    let i1 = d + id.len();
    let p1 = k1 + d1 + k2;
    assert(line.subrange(i1, i1 + p1.len()) =~= p1);
    assert(occurs_at(line, p1, i1));
    let i2 = i1 + k1.len() + d1.len();
    let p2 = k2 + d2 + k3;
    assert(line.subrange(i2, i2 + p2.len()) =~= p2);
    assert(occurs_at(line, p2, i2));
    let i3 = i2 + k2.len() + d2.len();
    let p3 = k3 + d3;
    assert(line.subrange(i3, i3 + p3.len()) =~= p3);
    assert(occurs_at(line, p3, i3));
    let p4 = n + z;
    assert(line.skip(line.len() - p4.len()) =~= p4);
}

/// The six pointers of a header are shown in their order, each in its cell of eleven characters.
#[verifier::rlimit(60)]
pub proof fn law_pointers_are_shown_in_order(v: Seq<u32>, k: int)
    requires
        0 <= k < v.len(),
    ensures
        addresses(v).len() == 11 * v.len() - 1,
        addresses(v).subrange(11 * k, 11 * k + 10) == address(v[k]),
    decreases v.len(),
{
    reveal_strlit(" ");
    law_an_address_is_read_back(v.last());
    if v.len() == 1 {
        assert(addresses(v).subrange(0, 10) =~= address(v[0]));
    } else {
        let u = v.drop_last();
        law_pointers_are_shown_in_order(u, 0);
        let all = addresses(v);
        assert(all == addresses(u) + " "@ + address(v.last()));
        lemma_one_more_cell(addresses(u), " "@, address(v.last()), 11 * k, 10);
        if k < u.len() {
            law_pointers_are_shown_in_order(u, k);
        } else {
            assert(11 * k == addresses(u).len() + 1);
        }
    }
}

/// The header shows the version, the number of blocks, the entry and the pointers.
#[verifier::rlimit(60)]
pub proof fn law_a_header_is_shown(h: HeaderView)
    ensures
        contains(header_lines(h), "version "@ + address(h.version)),
        contains(header_lines(h), " · block_count "@ + dec(h.block_count as nat) + " · entry_off 0x"@),
        contains(header_lines(h), " · entry_off 0x"@ + hex(h.entry_off as nat) + "\n"@),
        ends(header_lines(h), "ptrs @+0x10: "@ + addresses(h.ptrs) + "\n"@),
{
    reveal_strlit("  header: version ");
    reveal_strlit("version ");
    reveal_strlit("\n  header ptrs @+0x10: ");
    reveal_strlit("ptrs @+0x10: ");
    reveal_strlit("\n");
    lemma_header_parts(
        "  header: "@,
        "version "@,
        address(h.version),
        " · block_count "@,
        dec(h.block_count as nat),
        " · entry_off 0x"@,
        hex(h.entry_off as nat),
        "\n"@,
        "  header "@,
        "ptrs @+0x10: "@,
        addresses(h.ptrs),
        "\n"@,
    );
    reveal_strlit("  header: ");
    reveal_strlit("  header ");
    assert("  header: version "@ =~= "  header: "@ + "version "@);
    assert("\n  header ptrs @+0x10: "@ =~= "\n"@ + "  header "@ + "ptrs @+0x10: "@);
    assert(header_lines(h) =~= "  header: "@ + "version "@ + address(h.version) + " · block_count "@
        + dec(h.block_count as nat) + " · entry_off 0x"@ + hex(h.entry_off as nat) + "\n"@
        + "  header "@ + "ptrs @+0x10: "@ + addresses(h.ptrs) + "\n"@);
}

#[verifier::rlimit(60)]
proof fn lemma_header_parts(
    a: Seq<char>,
    k1: Seq<char>,
    d1: Seq<char>,
    k2: Seq<char>,
    d2: Seq<char>,
    k3: Seq<char>,
    d3: Seq<char>,
    z: Seq<char>,
    b: Seq<char>,
    k4: Seq<char>,
    d4: Seq<char>,
    y: Seq<char>,
)
    ensures
        ({
            let line = a + k1 + d1 + k2 + d2 + k3 + d3 + z + b + k4 + d4 + y;
            &&& contains(line, k1 + d1)
            &&& contains(line, k2 + d2 + k3)
            &&& contains(line, k3 + d3 + z)
            &&& ends(line, k4 + d4 + y)
        }),
{
    let line = a + k1 + d1 + k2 + d2 + k3 + d3 + z + b + k4 + d4 + y;
    let i1 = a.len() as int;
    let p1 = k1 + d1;
    assert(line.subrange(i1, i1 + p1.len()) =~= p1);
    assert(occurs_at(line, p1, i1));
    let i2 = i1 + k1.len() + d1.len();
    let p2 = k2 + d2 + k3;
    assert(line.subrange(i2, i2 + p2.len()) =~= p2);
    assert(occurs_at(line, p2, i2));
    let i3 = i2 + k2.len() + d2.len();
    let p3 = k3 + d3 + z;
    assert(line.subrange(i3, i3 + p3.len()) =~= p3);
    assert(occurs_at(line, p3, i3));
    let p4 = k4 + d4 + y;
    assert(line.skip(line.len() - p4.len()) =~= p4);
}

/// What is remarked of an atom goes by its id: an initialisation vector only at its one size, the
/// key, the private blob and the name always, and of the rest that it holds others or is unknown.
#[verifier::rlimit(60)]
pub proof fn law_remarks_go_by_the_id(a: AtomView)
    ensures
        trimmed(a.id) == "iviv"@ && a.size == 24 ==> contains(atom_note(a), "AES-128 IV"@),
        trimmed(a.id) == "iviv"@ && a.size != 24 && a.known && !container_id(a.id) ==> atom_note(
            a,
        ).len() == 0,
        trimmed(a.id) != "iviv"@ && trimmed(a.id) != "key"@ && trimmed(a.id) != "priv"@ && trimmed(
            a.id,
        ) != "name"@ && !container_id(a.id) ==> (atom_note(a).len() > 0 <==> !a.known),
{
    reveal_strlit("");
    reveal_strlit("  ← 16-byte AES-128 IV");
    reveal_strlit("AES-128 IV");
    reveal_strlit("  ← UNDOCUMENTED atom");
    reveal_strlit("iviv");
    reveal_strlit("key");
    reveal_strlit("priv");
    reveal_strlit("name");
    let s = "  ← 16-byte AES-128 IV"@;
    assert(s.subrange(12, 22) =~= "AES-128 IV"@);
    assert(occurs_at(s, "AES-128 IV"@, 12));
    assert("iviv"@[0] == 'i' && "key"@[0] == 'k' && "priv"@[0] == 'p' && "name"@[0] == 'n');
}

/// The report of a binary ends with its totals: all imported functions, and all thunks in all runs.
#[verifier::rlimit(60)]
pub proof fn law_a_report_ends_with_its_totals(
    r: ReportView,
    entropy: Seq<char>,
    class: Seq<char>,
)
    requires
        r.sinf.len() == 0,
        r.is_eapp,
    ensures
        ends(
            report_text(r, entropy, class),
            "  TOTAL imported functions: "@ + dec(imported(r.blocks)) + "\n  independent check: "@
                + dec(thunk_total(r.thunk_runs) as nat) + " `ldr pc,[pc,#imm]` thunks in "@ + dec(
                r.thunk_runs.len(),
            ) + " runs file-wide\n"@,
        ),
        contains(report_text(r, entropy, class), block_lines(r.blocks)),
{
    let head = head_lines(r, entropy, class);
    let h = match r.header {
        Some(h) => header_lines(h),
        None => ""@,
    };
    let a = head + (h + base_line(r.load_base) + "  framework blocks found by scan: "@ + dec(
        r.blocks.len(),
    ) + "\n"@ + count_warning(r.header, real_blocks(r.blocks).len()));
    let b = block_lines(r.blocks);
    let t = "  TOTAL imported functions: "@ + dec(imported(r.blocks)) + "\n  independent check: "@
        + dec(thunk_total(r.thunk_runs) as nat) + " `ldr pc,[pc,#imm]` thunks in "@ + dec(
        r.thunk_runs.len(),
    ) + " runs file-wide\n"@;
    let s = report_text(r, entropy, class);
    assert(s =~= a + b + t);
    law_parts_are_found(a, b, t, s);
    law_parts_are_found(a + b, t, Seq::empty(), s);
}

/// A file that is no binary and holds no atoms is said to be none.
#[verifier::rlimit(60)]
pub proof fn law_other_files_are_said_to_be_none(
    r: ReportView,
    entropy: Seq<char>,
    class: Seq<char>,
)
    requires
        r.sinf.len() == 0,
        !r.is_eapp,
    ensures
        ends(
            report_text(r, entropy, class),
            "  no `eapp` magic — not a plaintext eApp binary\n"@,
        ),
        begins(report_text(r, entropy, class), "\n=== "@ + r.path + " ===\n"@),
{
    let s = report_text(r, entropy, class);
    let head = head_lines(r, entropy, class);
    let t = "  no `eapp` magic — not a plaintext eApp binary\n"@;
    law_parts_are_found(head, t, Seq::empty(), s);
    reveal_strlit(" ===\n  size ");
    reveal_strlit(" ===\n");
    let p = "\n=== "@ + r.path + " ===\n"@;
    assert(s.take(p.len() as int) =~= p);
}

} // verus!
