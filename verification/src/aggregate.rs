//! What a set of inspected files has in common: the frameworks they import, as a table and as
//! JSON.

use vstd::prelude::*;

use crate::bytes::hex16;
#[allow(unused_imports)]
use crate::bytes::hex_bytes;
use crate::eapp::{Block, BlockView};
#[allow(unused_imports)]
use crate::eapp::block_views;
use crate::hexdump::dump_hex;
#[allow(unused_imports)]
use crate::hexdump::{dump_end, dump_rows};
use crate::report::{Report, ReportView};
#[allow(unused_imports)]
use crate::report::real_blocks;
use crate::text::{
    chars_of, comes_before, push_dec, push_dec_left, push_hex, push_right, quoted, same_text,
    text_of,
};
#[allow(unused_imports)]
use crate::text::{
    begins, contains, debug_form, dec, ends, hex, law_padding_keeps_the_text, law_parts_are_found,
    lemma_contained_further, lemma_inside, lemma_text_less_total, lemma_text_less_transitive,
    occurs_at, pad_left, pad_right, text_less,
};

verus! {

/// A report together with the entropy of its file, as text with four decimals.
pub struct Entry {
    pub report: Report,
    pub entropy: String,
}

/// The contents of an entry.
pub struct EntryView {
    pub report: ReportView,
    pub entropy: Seq<char>,
}

impl View for Entry {
    type V = EntryView;

    open spec fn view(&self) -> EntryView {
        EntryView { report: self.report@, entropy: self.entropy@ }
    }
}

/// The contents of a list of entries.
pub open spec fn entry_views(v: Seq<Entry>) -> Seq<EntryView> {
    v.map_values(|e: Entry| e@)
}

// ---------------------------------------------------------------- frameworks

/// How often a framework was seen, and the least and the greatest count it was seen with.
pub struct FrameworkRow {
    pub name: String,
    pub seen: u128,
    pub lo: u32,
    pub hi: u32,
}

/// The contents of a row.
pub struct RowView {
    pub name: Seq<char>,
    pub seen: int,
    pub lo: u32,
    pub hi: u32,
}

impl View for FrameworkRow {
    type V = RowView;

    open spec fn view(&self) -> RowView {
        RowView { name: self.name@, seen: self.seen as int, lo: self.lo, hi: self.hi }
    }
}

/// The contents of a list of rows.
pub open spec fn row_views(v: Seq<FrameworkRow>) -> Seq<RowView> {
    v.map_values(|r: FrameworkRow| r@)
}

/// The row of a framework that is seen for the first time.
pub open spec fn first_row(name: Seq<char>, count: u32) -> RowView {
    RowView { name, seen: 1, lo: count, hi: count }
}

/// The row of a framework that is seen once more.
pub open spec fn widened(r: RowView, count: u32) -> RowView {
    RowView {
        name: r.name,
        seen: r.seen + 1,
        lo: if count < r.lo {
            count
        } else {
            r.lo
        },
        hi: if count > r.hi {
            count
        } else {
            r.hi
        },
    }
}

/// The rows with one more sighting, in order of the names.
pub open spec fn with_seen(rows: Seq<RowView>, name: Seq<char>, count: u32) -> Seq<RowView>
    decreases rows.len(),
{
    if rows.len() == 0 {
        seq![first_row(name, count)]
    } else if rows[0].name == name {
        seq![widened(rows[0], count)] + rows.drop_first()
    } else if text_less(name, rows[0].name) {
        seq![first_row(name, count)] + rows
    } else {
        seq![rows[0]] + with_seen(rows.drop_first(), name, count)
    }
}

/// The table of the blocks that are no terminators.
pub open spec fn table(v: Seq<BlockView>) -> Seq<RowView>
    decreases v.len(),
{
    if v.len() == 0 {
        Seq::empty()
    } else if v.last().is_terminator {
        table(v.drop_last())
    } else {
        with_seen(table(v.drop_last()), v.last().name, v.last().func_count)
    }
}

/// The blocks of all files, in order.
pub open spec fn all_blocks(v: Seq<EntryView>) -> Seq<BlockView>
    decreases v.len(),
{
    if v.len() == 0 {
        Seq::empty()
    } else {
        all_blocks(v.drop_last()) + v.last().report.blocks
    }
}

/// The rows stand in order of their names, and no name occurs twice.
pub open spec fn in_order(rows: Seq<RowView>) -> bool {
    forall|i: int, j: int|
        0 <= i < j < rows.len() ==> text_less(#[trigger] rows[i].name, #[trigger] rows[j].name)
}

proof fn lemma_with_seen_at(rows: Seq<RowView>, name: Seq<char>, count: u32, p: int)
    requires
        0 <= p <= rows.len(),
        forall|k: int| 0 <= k < p ==> text_less(#[trigger] rows[k].name, name),
    ensures
        with_seen(rows, name, count) == rows.take(p) + with_seen(rows.skip(p), name, count),
    decreases p,
{
    if p == 0 {
        assert(rows.skip(0) =~= rows);
        assert(rows.take(0) + with_seen(rows, name, count) =~= with_seen(rows, name, count));
    } else {
        lemma_text_less_total(rows[0].name, name);
        let rest = rows.drop_first();
        assert forall|k: int| 0 <= k < p - 1 implies text_less(#[trigger] rest[k].name, name) by {
            assert(rest[k] == rows[k + 1]);
        }
        lemma_with_seen_at(rest, name, count, p - 1);
        assert(rest.skip(p - 1) =~= rows.skip(p));
        assert(seq![rows[0]] + (rest.take(p - 1) + with_seen(rows.skip(p), name, count))
            =~= rows.take(p) + with_seen(rows.skip(p), name, count));
    }
}

/// Notes one more sighting of a framework.
pub fn note_framework(rows: &mut Vec<FrameworkRow>, name: &str, count: u32)
    requires
        forall|k: int| 0 <= k < old(rows)@.len() ==> (#[trigger] old(rows)@[k]).seen < u128::MAX,
    ensures
        row_views(final(rows)@) == with_seen(row_views(old(rows)@), name@, count),
{
    let mut p: usize = 0;
    while p < rows.len() && comes_before(rows[p].name.as_str(), name)
        invariant
            p <= rows@.len(),
            rows@ == old(rows)@,
            forall|k: int|
                0 <= k < p ==> text_less(#[trigger] row_views(old(rows)@)[k].name, name@),
        decreases rows@.len() - p,
    {
        p += 1;
    }
    let ghost was = row_views(old(rows)@);
    proof {
        lemma_with_seen_at(was, name@, count, p as int);
    }
    let own = text_of(chars_of(name).as_slice());
    if p < rows.len() && same_text(rows[p].name.as_str(), name) {
        assert(was[p as int] == rows@[p as int]@);
        assert(was.skip(p as int)[0] == was[p as int]);
        let seen: u128 = rows[p].seen + 1;
        let lo: u32 = if count < rows[p].lo {
            count
        } else {
            rows[p].lo
        };
        let hi: u32 = if count > rows[p].hi {
            count
        } else {
            rows[p].hi
        };
        rows.set(p, FrameworkRow { name: own, seen, lo, hi });
        assert(row_views(rows@) =~= was.take(p as int) + (seq![
            widened(was[p as int], count),
        ] + was.skip(p as int).drop_first()));
    } else {
        proof {
            if p < was.len() {
                assert(was.skip(p as int)[0] == was[p as int]);
                lemma_text_less_total(was[p as int].name, name@);
            }
        }
        rows.insert(p, FrameworkRow { name: own, seen: 1, lo: count, hi: count });
        proof {
            if p < was.len() {
                assert(row_views(rows@) =~= was.take(p as int) + (seq![first_row(name@, count)]
                    + was.skip(p as int)));
            } else {
                assert(was.skip(p as int) =~= Seq::empty());
                assert(row_views(rows@) =~= was.take(p as int) + seq![first_row(name@, count)]);
            }
        }
    }
}

proof fn lemma_seen_grows(rows: Seq<RowView>, name: Seq<char>, count: u32, most: int)
    requires
        most >= 0,
        forall|k: int| 0 <= k < rows.len() ==> (#[trigger] rows[k]).seen <= most,
    ensures
        forall|k: int|
            0 <= k < with_seen(rows, name, count).len() ==> (#[trigger] with_seen(
                rows,
                name,
                count,
            )[k]).seen <= most + 1,
    decreases rows.len(),
{
    let new = with_seen(rows, name, count);
    if rows.len() > 0 {
        let rest = rows.drop_first();
        assert forall|k: int| 0 <= k < rest.len() implies (#[trigger] rest[k]).seen <= most by {
            assert(rest[k] == rows[k + 1]);
        }
        lemma_seen_grows(rest, name, count, most);
        assert forall|k: int| 0 <= k < new.len() implies (#[trigger] new[k]).seen <= most + 1 by {
            if rows[0].name == name {
                if k > 0 {
                    assert(new[k] == rows[k]);
                }
            } else if text_less(name, rows[0].name) {
                if k > 0 {
                    assert(new[k] == rows[k - 1]);
                }
            } else if k > 0 {
                assert(new[k] == with_seen(rest, name, count)[k - 1]);
            }
        }
    }
}

/// Builds the table of a list of entries.
fn build_table(v: &[Entry]) -> (rows: Vec<FrameworkRow>)
    ensures
        row_views(rows@) == table(all_blocks(entry_views(v@))),
{
    let mut rows: Vec<FrameworkRow> = Vec::new();
    let ghost m = usize::MAX as int;
    proof {
        assert(m * m <= 0xffff_ffff_ffff_ffff * 0xffff_ffff_ffff_ffff) by (nonlinear_arith)
            requires
                0 <= m <= 0xffff_ffff_ffff_ffff,
        ;
    }
    assert(v@.len() == v.len());
    let mut i: usize = 0;
    assert(row_views(rows@) =~= table(all_blocks(entry_views(v@).take(0))));
    while i < v.len()
        invariant
            i <= v@.len() <= m,
            m == usize::MAX,
            m * m < u128::MAX,
            row_views(rows@) == table(all_blocks(entry_views(v@).take(i as int))),
            forall|k: int| 0 <= k < rows@.len() ==> (#[trigger] row_views(rows@)[k]).seen <= i * m,
        decreases v@.len() - i,
    {
        let ghost before = all_blocks(entry_views(v@).take(i as int));
        let ghost own = block_views(v@[i as int].report.blocks@);
        assert(entry_views(v@).take(i + 1).drop_last() =~= entry_views(v@).take(i as int));
        assert(entry_views(v@).take(i + 1).last() == v@[i as int]@);
        let blocks = &v[i].report.blocks;
        assert(blocks@.len() == blocks.len());
        let mut j: usize = 0;
        assert(before + own.take(0) =~= before);
        while j < blocks.len()
            invariant
                i < v@.len() <= m,
                m == usize::MAX,
                m * m < u128::MAX,
                j <= blocks@.len() <= m,
                own == block_views(blocks@),
                row_views(rows@) == table(before + own.take(j as int)),
                forall|k: int|
                    0 <= k < rows@.len() ==> (#[trigger] row_views(rows@)[k]).seen <= i * m + j,
            decreases blocks@.len() - j,
        {
            let b = &blocks[j];
            proof {
                let next = before + own.take(j + 1);
                assert(next.drop_last() =~= before + own.take(j as int));
                assert(next.last() == b@);
                assert(i * m + m <= m * m) by (nonlinear_arith)
                    requires
                        0 <= i < m,
                ;
                lemma_seen_grows(row_views(rows@), b@.name, b@.func_count, i * m + j);
                assert forall|k: int| 0 <= k < rows@.len() implies (#[trigger] rows@[k]).seen
                    < u128::MAX by {
                    assert(row_views(rows@)[k].seen <= i * m + j);
                }
            }
            if !b.is_terminator {
                note_framework(&mut rows, b.name.as_str(), b.func_count);
            }
            j += 1;
        }
        assert(own.take(j as int) =~= own);
        assert(i * m + j <= (i + 1) * m) by (nonlinear_arith)
            requires
                0 <= j <= m,
        ;
        i += 1;
    }
    assert(entry_views(v@).take(i as int) =~= entry_views(v@));
    rows
}

// ---------------------------------------------------------------- text

/// The counts of a row: one number, or the least and the greatest.
pub open spec fn range_text(r: RowView) -> Seq<char> {
    if r.lo == r.hi {
        dec(r.lo as nat)
    } else {
        dec(r.lo as nat) + ".."@ + dec(r.hi as nat)
    }
}

/// The line of a row.
pub open spec fn row_line(r: RowView) -> Seq<char> {
    "  "@ + pad_right(r.name, 20) + " "@ + pad_left(dec(r.seen as nat), 5, ' ') + "   "@
        + range_text(r) + "\n"@
}

/// The lines of a list of rows.
pub open spec fn row_lines(v: Seq<RowView>) -> Seq<char>
    decreases v.len(),
{
    if v.len() == 0 {
        Seq::empty()
    } else {
        row_lines(v.drop_last()) + row_line(v.last())
    }
}

/// How many of the files are eApps.
pub open spec fn eapp_count(v: Seq<EntryView>) -> nat
    decreases v.len(),
{
    if v.len() == 0 {
        0
    } else {
        eapp_count(v.drop_last()) + (if v.last().report.is_eapp {
            1nat
        } else {
            0
        })
    }
}

/// The text of the aggregate.
pub open spec fn aggregate_text(v: Seq<EntryView>) -> Seq<char> {
    "\n\n=== AGGREGATE across "@ + dec(v.len()) + " files ===\n  "@ + dec(eapp_count(v))
        + " plaintext eApp · "@ + dec((v.len() - eapp_count(v)) as nat)
        + " not eApp (encrypted or other)\n\n  framework            games   count(min..max)\n"@
        + row_lines(table(all_blocks(v)))
        + "\n  ⚠️  A framework whose count VARIES across games means the ABI is versioned,\n      not fixed — that changes what a loader has to resolve against.\n"@
}

/// The line of a row.
pub fn render_row(r: &FrameworkRow) -> (out: String)
    ensures
        out@ == row_line(r@),
{
    let mut range = String::from_str("");
    push_dec(&mut range, r.lo as u128);
    proof {
        reveal_strlit("");
    }
    assert(range@ =~= dec(r.lo as nat));
    if r.lo != r.hi {
        range.append("..");
        push_dec(&mut range, r.hi as u128);
    }
    let mut out = String::from_str("  ");
    push_right(&mut out, r.name.as_str(), 20);
    out.append(" ");
    push_dec_left(&mut out, r.seen, 5);
    out.append("   ");
    out.append(range.as_str());
    out.append("\n");
    out
}

fn render_rows(v: &Vec<FrameworkRow>) -> (out: String)
    ensures
        out@ == row_lines(row_views(v@)),
{
    let mut out = String::new();
    let mut i: usize = 0;
    assert(out@ =~= row_lines(row_views(v@).take(0)));
    while i < v.len()
        invariant
            i <= v@.len(),
            out@ == row_lines(row_views(v@).take(i as int)),
        decreases v@.len() - i,
    {
        assert(row_views(v@).take(i + 1).drop_last() =~= row_views(v@).take(i as int));
        out.append(render_row(&v[i]).as_str());
        i += 1;
    }
    assert(row_views(v@).take(i as int) =~= row_views(v@));
    out
}

fn count_eapps(v: &[Entry]) -> (n: usize)
    ensures
        n == eapp_count(entry_views(v@)),
        n <= v@.len(),
{
    let mut n: usize = 0;
    let mut i: usize = 0;
    while i < v.len()
        invariant
            i <= v@.len(),
            n <= i,
            n == eapp_count(entry_views(v@).take(i as int)),
        decreases v@.len() - i,
    {
        assert(entry_views(v@).take(i + 1).drop_last() =~= entry_views(v@).take(i as int));
        assert(entry_views(v@).take(i + 1).last() == v@[i as int]@);
        if v[i].report.is_eapp {
            n += 1;
        }
        i += 1;
    }
    assert(entry_views(v@).take(i as int) =~= entry_views(v@));
    n
}

/// What a set of files has in common: how many are eApps, and the frameworks they import.
pub fn print_aggregate(v: &[Entry]) -> (out: String)
    ensures
        out@ == aggregate_text(entry_views(v@)),
{
    let eapps: usize = count_eapps(v);
    let mut out = String::from_str("\n\n=== AGGREGATE across ");
    push_dec(&mut out, v.len() as u128);
    out.append(" files ===\n  ");
    push_dec(&mut out, eapps as u128);
    out.append(" plaintext eApp · ");
    push_dec(&mut out, (v.len() - eapps) as u128);
    out.append(" not eApp (encrypted or other)\n\n  framework            games   count(min..max)\n");
    out.append(render_rows(&build_table(v)).as_str());
    out.append(
        "\n  ⚠️  A framework whose count VARIES across games means the ABI is versioned,\n      not fixed — that changes what a loader has to resolve against.\n",
    );
    out
}

/// The raw bytes of the first two blocks, for an eApp whose blocks are shown.
pub open spec fn raw_text(r: ReportView, raw: Seq<u8>) -> Seq<char> {
    if r.sinf.len() > 0 || !r.is_eapp {
        ""@
    } else {
        raw_blocks(r.blocks, raw, if r.blocks.len() < 2 {
            r.blocks.len() as int
        } else {
            2
        })
    }
}

/// The raw bytes of the first `n` blocks.
pub open spec fn raw_blocks(v: Seq<BlockView>, raw: Seq<u8>, n: int) -> Seq<char>
    decreases n,
{
    if n <= 0 {
        ""@
    } else {
        let b = v[n - 1];
        raw_blocks(v, raw, n - 1) + "\n  --- raw @0x"@ + hex(b.file_off as nat) + " ("@ + b.name
            + ") ---\n"@ + dump_rows(raw, b.file_off, dump_end(raw, b.file_off, 96))
    }
}

/// The raw bytes of the first two blocks of an eApp; `raw` is the file.
pub fn render_raw(r: &Report, raw: &[u8]) -> (out: String)
    ensures
        out@ == raw_text(r@, raw@),
{
    let mut out = String::from_str("");
    if r.sinf.len() > 0 || !r.is_eapp {
        return out;
    }
    let n: usize = if r.blocks.len() < 2 {
        r.blocks.len()
    } else {
        2
    };
    let mut i: usize = 0;
    while i < n
        invariant
            i <= n <= r.blocks@.len(),
            out@ == raw_blocks(block_views(r.blocks@), raw@, i as int),
        decreases n - i,
    {
        let b = &r.blocks[i];
        assert(block_views(r.blocks@)[i as int] == b@);
        out.append("\n  --- raw @0x");
        push_hex(&mut out, b.file_off as u128);
        out.append(" (");
        out.append(b.name.as_str());
        out.append(") ---\n");
        out.append(dump_hex(raw, b.file_off, 96).as_str());
        i += 1;
    }
    out
}

// ---------------------------------------------------------------- JSON

/// The object of one framework; `quoted` is its name in quotation marks.
pub open spec fn json_framework(b: BlockView, quoted: Seq<char>) -> Seq<char> {
    "{\"name\":"@ + quoted + ",\"count\":"@ + dec(b.func_count as nat) + ",\"thunks_seen\":"@ + dec(
        b.thunks_seen as nat,
    ) + ",\"hash\":\""@ + hex_bytes(b.hash) + "\"}"@
}

/// The objects of the frameworks, with a comma between each two.
pub open spec fn json_frameworks(v: Seq<BlockView>) -> Seq<char>
    decreases v.len(),
{
    if v.len() == 0 {
        ""@
    } else {
        json_frameworks(v.drop_last()) + (if v.len() > 1 {
            ","@
        } else {
            ""@
        }) + json_framework(v.last(), debug_form(v.last().name))
    }
}

/// The fields of a file in front of its frameworks; `quoted` is its path in quotation marks.
pub open spec fn json_head(e: EntryView, quoted: Seq<char>) -> Seq<char> {
    "  {\"file\":"@ + quoted + ",\"size\":"@ + dec(e.report.len as nat) + ",\"entropy\":"@
        + e.entropy + ",\"is_eapp\":"@ + (if e.report.is_eapp {
        "true"@
    } else {
        "false"@
    }) + ",\"load_base\":"@ + (match e.report.load_base {
        Some(b) => dec(b as nat),
        None => "null"@,
    }) + ",\"frameworks\":["@
}

/// The objects of the files, one on a line.
pub open spec fn json_files(v: Seq<EntryView>) -> Seq<char>
    decreases v.len(),
{
    if v.len() == 0 {
        "[\n"@
    } else {
        let e = v.last();
        json_files(v.drop_last()) + (if v.len() > 1 {
            ",\n"@
        } else {
            ""@
        }) + json_head(e, debug_form(e.report.path)) + json_frameworks(
            real_blocks(e.report.blocks),
        ) + "]}"@
    }
}

/// The JSON of a list of files.
pub open spec fn json_text(v: Seq<EntryView>) -> Seq<char> {
    json_files(v) + (if v.len() > 0 {
        "\n"@
    } else {
        ""@
    }) + "]\n"@
}

/// The object of one framework; `quoted` is its name in quotation marks.
pub fn render_framework(b: &Block, quoted: &str) -> (out: String)
    ensures
        out@ == json_framework(b@, quoted@),
{
    let mut out = String::from_str("{\"name\":");
    out.append(quoted);
    out.append(",\"count\":");
    push_dec(&mut out, b.func_count as u128);
    out.append(",\"thunks_seen\":");
    push_dec(&mut out, b.thunks_seen as u128);
    out.append(",\"hash\":\"");
    out.append(hex16(&b.hash).as_str());
    out.append("\"}");
    out
}

fn render_frameworks(v: &Vec<Block>) -> (out: String)
    ensures
        out@ == json_frameworks(real_blocks(block_views(v@))),
{
    let mut out = String::from_str("");
    let mut first = true;
    let mut i: usize = 0;
    while i < v.len()
        invariant
            i <= v@.len(),
            out@ == json_frameworks(real_blocks(block_views(v@).take(i as int))),
            first == (real_blocks(block_views(v@).take(i as int)).len() == 0),
        decreases v@.len() - i,
    {
        assert(block_views(v@).take(i + 1).drop_last() =~= block_views(v@).take(i as int));
        let b = &v[i];
        if !b.is_terminator {
            let ghost was = real_blocks(block_views(v@).take(i as int));
            assert(was.push(b@).drop_last() =~= was);
            if first {
                out.append("");
            } else {
                out.append(",");
            }
            out.append(render_framework(b, quoted(b.name.as_str()).as_str()).as_str());
            first = false;
        }
        i += 1;
    }
    assert(block_views(v@).take(i as int) =~= block_views(v@));
    out
}

/// The fields of a file in front of its frameworks; `quoted` is its path in quotation marks.
pub fn render_file(e: &Entry, quoted: &str) -> (out: String)
    ensures
        out@ == json_head(e@, quoted@),
{
    let mut out = String::from_str("  {\"file\":");
    out.append(quoted);
    out.append(",\"size\":");
    push_dec(&mut out, e.report.len as u128);
    out.append(",\"entropy\":");
    out.append(e.entropy.as_str());
    out.append(",\"is_eapp\":");
    if e.report.is_eapp {
        out.append("true");
    } else {
        out.append("false");
    }
    out.append(",\"load_base\":");
    match e.report.load_base {
        Some(b) => push_dec(&mut out, b as u128),
        None => out.append("null"),
    }
    out.append(",\"frameworks\":[");
    out
}

/// The JSON of a list of files.
pub fn render_json(v: &[Entry]) -> (out: String)
    ensures
        out@ == json_text(entry_views(v@)),
{
    let mut out = String::from_str("[\n");
    let mut i: usize = 0;
    while i < v.len()
        invariant
            i <= v@.len(),
            out@ == json_files(entry_views(v@).take(i as int)),
        decreases v@.len() - i,
    {
        assert(entry_views(v@).take(i + 1).drop_last() =~= entry_views(v@).take(i as int));
        let e = &v[i];
        assert(entry_views(v@).take(i + 1).last() == e@);
        if i > 0 {
            out.append(",\n");
        } else {
            out.append("");
        }
        out.append(render_file(e, quoted(e.report.path.as_str()).as_str()).as_str());
        out.append(render_frameworks(&e.report.blocks).as_str());
        out.append("]}");
        i += 1;
    }
    assert(entry_views(v@).take(i as int) =~= entry_views(v@));
    if v.len() > 0 {
        out.append("\n");
    } else {
        out.append("");
    }
    out.append("]\n");
    out
}

// ---------------------------------------------------------------- laws

/// The row of a framework in a table.
pub open spec fn row_of(rows: Seq<RowView>, name: Seq<char>) -> Option<RowView>
    decreases rows.len(),
{
    if rows.len() == 0 {
        None
    } else if rows[0].name == name {
        Some(rows[0])
    } else {
        row_of(rows.drop_first(), name)
    }
}

/// How many blocks, terminators left aside, import the framework.
pub open spec fn sightings(v: Seq<BlockView>, name: Seq<char>) -> int
    decreases v.len(),
{
    if v.len() == 0 {
        0
    } else {
        sightings(v.drop_last(), name) + (if !v.last().is_terminator && v.last().name == name {
            1int
        } else {
            0
        })
    }
}

/// Block `k` imports the framework.
pub open spec fn imports_at(v: Seq<BlockView>, name: Seq<char>, k: int) -> bool {
    0 <= k < v.len() && !v[k].is_terminator && v[k].name == name
}

/// The bounds of a row are those of the counts that were seen: every count lies between them and
/// both were seen.
pub open spec fn bounds_hold(v: Seq<BlockView>, r: RowView) -> bool {
    &&& forall|k: int| #[trigger]
        imports_at(v, r.name, k) ==> r.lo <= v[k].func_count <= r.hi
    &&& exists|k: int| #[trigger] imports_at(v, r.name, k) && v[k].func_count == r.lo
    &&& exists|k: int| #[trigger] imports_at(v, r.name, k) && v[k].func_count == r.hi
}

proof fn lemma_row_of_with_seen(rows: Seq<RowView>, name: Seq<char>, count: u32, other: Seq<char>)
    requires
        in_order(rows),
    ensures
        row_of(with_seen(rows, name, count), other) == (if other != name {
            row_of(rows, other)
        } else {
            match row_of(rows, name) {
                Some(r) => Some(widened(r, count)),
                None => Some(first_row(name, count)),
            }
        }),
    decreases rows.len(),
{
    let new = with_seen(rows, name, count);
    if rows.len() == 0 {
        assert(new.drop_first() =~= rows);
    } else {
        let rest = rows.drop_first();
        assert forall|i: int, j: int| 0 <= i < j < rest.len() implies text_less(
            #[trigger] rest[i].name,
            #[trigger] rest[j].name,
        ) by {
            assert(text_less(rows[i + 1].name, rows[j + 1].name));
        }
        if rows[0].name == name {
            assert(new.drop_first() =~= rest);
        } else if text_less(name, rows[0].name) {
            assert(new.drop_first() =~= rows);
            lemma_absent(rows, name);
        } else {
            lemma_row_of_with_seen(rest, name, count, other);
            assert(new.drop_first() =~= with_seen(rest, name, count));
        }
    }
}

proof fn lemma_absent(rows: Seq<RowView>, name: Seq<char>)
    requires
        forall|k: int| 0 <= k < rows.len() ==> text_less(name, rows[0].name) && (k > 0 ==> text_less(
            rows[0].name,
            #[trigger] rows[k].name,
        )),
    ensures
        row_of(rows, name) is None,
{
    assert forall|k: int| 0 <= k < rows.len() implies #[trigger] rows[k].name != name by {
        if k > 0 {
            lemma_text_less_transitive(name, rows[0].name, rows[k].name);
        }
        lemma_text_less_total(name, rows[k].name);
    }
    lemma_row_of_none(rows, name);
}

proof fn lemma_row_of_none(rows: Seq<RowView>, name: Seq<char>)
    requires
        forall|k: int| 0 <= k < rows.len() ==> #[trigger] rows[k].name != name,
    ensures
        row_of(rows, name) is None,
    decreases rows.len(),
{
    if rows.len() > 0 {
        let rest = rows.drop_first();
        assert forall|k: int| 0 <= k < rest.len() implies #[trigger] rest[k].name != name by {
            assert(rest[k] == rows[k + 1]);
        }
        lemma_row_of_none(rest, name);
    }
}

proof fn lemma_with_seen_in_order(rows: Seq<RowView>, name: Seq<char>, count: u32)
    requires
        in_order(rows),
    ensures
        in_order(with_seen(rows, name, count)),
        with_seen(rows, name, count).len() > 0,
        with_seen(rows, name, count)[0].name == name || (rows.len() > 0 && with_seen(
            rows,
            name,
            count,
        )[0].name == rows[0].name),
        forall|low: Seq<char>|
            text_less(low, name) && (forall|k: int|
                0 <= k < rows.len() ==> text_less(low, #[trigger] rows[k].name)) ==> (forall|k: int|
                0 <= k < with_seen(rows, name, count).len() ==> text_less(
                    low,
                    #[trigger] with_seen(rows, name, count)[k].name,
                )),
    decreases rows.len(),
{
    let new = with_seen(rows, name, count);
    if rows.len() > 0 {
        let rest = rows.drop_first();
        assert forall|i: int, j: int| 0 <= i < j < rest.len() implies text_less(
            #[trigger] rest[i].name,
            #[trigger] rest[j].name,
        ) by {
            assert(text_less(rows[i + 1].name, rows[j + 1].name));
        }
        lemma_text_less_total(name, rows[0].name);
        if rows[0].name == name {
            assert forall|i: int, j: int| 0 <= i < j < new.len() implies text_less(
                #[trigger] new[i].name,
                #[trigger] new[j].name,
            ) by {
                assert(new[i].name == rows[i].name && new[j].name == rows[j].name);
            }
            assert forall|k: int| 0 <= k < new.len() implies #[trigger] new[k].name
                == rows[k].name by {}
        } else if text_less(name, rows[0].name) {
            assert forall|i: int, j: int| 0 <= i < j < new.len() implies text_less(
                #[trigger] new[i].name,
                #[trigger] new[j].name,
            ) by {
                assert(new[j] == rows[j - 1]);
                if i > 0 {
                    assert(new[i] == rows[i - 1]);
                } else if j > 1 {
                    lemma_text_less_transitive(name, rows[0].name, rows[j - 1].name);
                }
            }
            assert forall|k: int| 0 < k < new.len() implies #[trigger] new[k] == rows[k - 1] by {}
        } else {
            lemma_with_seen_in_order(rest, name, count);
            let tail = with_seen(rest, name, count);
            let low = rows[0].name;
            assert forall|k: int| 0 <= k < rest.len() implies text_less(
                low,
                #[trigger] rest[k].name,
            ) by {
                assert(text_less(rows[0].name, rows[k + 1].name));
            }
            assert forall|i: int, j: int| 0 <= i < j < new.len() implies text_less(
                #[trigger] new[i].name,
                #[trigger] new[j].name,
            ) by {
                assert(new[j] == tail[j - 1]);
                if i > 0 {
                    assert(new[i] == tail[i - 1]);
                }
            }
            assert forall|low: Seq<char>|
                text_less(low, name) && (forall|k: int|
                    0 <= k < rows.len() ==> text_less(low, #[trigger] rows[k].name)) implies (
            forall|k: int| 0 <= k < new.len() ==> text_less(low, #[trigger] new[k].name)) by {
                assert forall|k: int| 0 <= k < rest.len() implies text_less(
                    low,
                    #[trigger] rest[k].name,
                ) by {
                    assert(rest[k] == rows[k + 1]);
                }
                assert forall|k: int| 0 <= k < new.len() implies text_less(
                    low,
                    #[trigger] new[k].name,
                ) by {
                    if k > 0 {
                        assert(new[k] == tail[k - 1]);
                    } else {
                        assert(new[0] == rows[0]);
                    }
                }
            }
        }
    }
}

/// The table lists each framework once, in order of the names, with the number of blocks that
/// import it and the least and the greatest count among them; a framework that no block imports
/// has no row.
pub proof fn law_table_is_exact(v: Seq<BlockView>, name: Seq<char>)
    ensures
        in_order(table(v)),
        match row_of(table(v), name) {
            None => sightings(v, name) == 0,
            Some(r) => r.name == name && r.seen == sightings(v, name) && r.seen > 0 && bounds_hold(
                v,
                r,
            ),
        },
    decreases v.len(),
{
    if v.len() > 0 {
        let rest = v.drop_last();
        law_table_is_exact(rest, name);
        let b = v.last();
        assert forall|k: int| #[trigger] imports_at(rest, name, k) implies imports_at(v, name, k)
            && v[k] == rest[k] by {}
        if !b.is_terminator {
            lemma_with_seen_in_order(table(rest), b.name, b.func_count);
            lemma_row_of_with_seen(table(rest), b.name, b.func_count, name);
        }
        match row_of(table(v), name) {
            None => {},
            Some(r) => {
                assert(r.name == name);
                if row_of(table(rest), name) is None {
                    lemma_unseen(rest, name);
                } else {
                    assert(bounds_hold(rest, row_of(table(rest), name)->0));
                }
                assert forall|k: int| #[trigger] imports_at(v, name, k) implies r.lo
                    <= v[k].func_count <= r.hi by {
                    if k < rest.len() {
                        assert(imports_at(rest, name, k));
                    }
                }
                if !b.is_terminator && b.name == name {
                    assert(imports_at(v, name, v.len() - 1));
                }
                if row_of(table(rest), name) is Some {
                    let old_row = row_of(table(rest), name)->0;
                    let a = choose|k: int| #[trigger]
                        imports_at(rest, name, k) && rest[k].func_count == old_row.lo;
                    let z = choose|k: int| #[trigger]
                        imports_at(rest, name, k) && rest[k].func_count == old_row.hi;
                    assert(imports_at(v, name, a) && imports_at(v, name, z));
                }
            },
        }
    }
}

proof fn lemma_unseen(v: Seq<BlockView>, name: Seq<char>)
    requires
        sightings(v, name) == 0,
    ensures
        forall|k: int| !#[trigger] imports_at(v, name, k),
    decreases v.len(),
{
    if v.len() > 0 {
        lemma_sightings_nonneg(v.drop_last(), name);
        lemma_unseen(v.drop_last(), name);
        assert forall|k: int| !#[trigger] imports_at(v, name, k) by {
            if 0 <= k < v.len() - 1 {
                assert(!imports_at(v.drop_last(), name, k));
            }
        }
    }
}

proof fn lemma_sightings_nonneg(v: Seq<BlockView>, name: Seq<char>)
    ensures
        sightings(v, name) >= 0,
    decreases v.len(),
{
    if v.len() > 0 {
        lemma_sightings_nonneg(v.drop_last(), name);
    }
}

// ---------------------------------------------------------------- laws of the aggregate

/// The files that are binaries are counted one by one.
pub proof fn law_binaries_are_counted(v: Seq<EntryView>)
    ensures
        eapp_count(v) == v.filter(|e: EntryView| e.report.is_eapp).len(),
        eapp_count(v) <= v.len(),
    decreases v.len(),
{
    reveal(Seq::filter);
    if v.len() > 0 {
        law_binaries_are_counted(v.drop_last());
    }
}

/// The blocks of all files are those of the files one behind the other.
pub proof fn law_blocks_of_all_files(v: Seq<EntryView>, k: int, b: BlockView)
    ensures
        all_blocks(v) == v.map_values(|e: EntryView| e.report.blocks).flatten_alt(),
        0 <= k < v.len() && v[k].report.blocks.contains(b) ==> all_blocks(v).contains(b),
    decreases v.len(),
{
    let m = v.map_values(|e: EntryView| e.report.blocks);
    if v.len() > 0 {
        let u = v.drop_last();
        law_blocks_of_all_files(u, k, b);
        assert(m.drop_last() =~= u.map_values(|e: EntryView| e.report.blocks));
        let x = all_blocks(u);
        let y = v.last().report.blocks;
        if 0 <= k < v.len() && v[k].report.blocks.contains(b) {
            if k < u.len() {
                let i = choose|i: int| 0 <= i < x.len() && x[i] == b;
                assert((x + y)[i] == b);
            } else {
                let i = choose|i: int| 0 <= i < y.len() && y[i] == b;
                assert((x + y)[x.len() + i] == b);
            }
        }
    }
}

/// The sightings of a framework are the blocks of its name that import something.
pub proof fn law_sightings_are_counted(v: Seq<BlockView>, name: Seq<char>)
    ensures
        sightings(v, name) == v.filter(|b: BlockView| !b.is_terminator && b.name == name).len(),
    decreases v.len(),
{
    reveal(Seq::filter);
    if v.len() > 0 {
        law_sightings_are_counted(v.drop_last(), name);
    }
}

/// A range is one number where both ends are the same, else both with two dots between them.
#[verifier::rlimit(60)]
pub proof fn law_a_range_is_shown(r: RowView)
    ensures
        r.lo == r.hi ==> range_text(r) == dec(r.lo as nat),
        r.lo != r.hi ==> begins(range_text(r), dec(r.lo as nat) + ".."@) && ends(
            range_text(r),
            ".."@ + dec(r.hi as nat),
        ),
        begins(row_line(r), "  "@ + r.name),
        ends(
            row_line(r),
            pad_left(dec(r.seen as nat), 5, ' ') + "   "@ + range_text(r) + "\n"@,
        ),
        r.name.len() <= 20 && dec(r.seen as nat).len() <= 5 ==> row_line(r).len() == 32
            + range_text(r).len(),
{
    reveal_strlit("  ");
    reveal_strlit(" ");
    reveal_strlit("   ");
    reveal_strlit("\n");
    let none = Seq::<char>::empty();
    if r.lo != r.hi {
        law_parts_are_found(none, dec(r.lo as nat) + ".."@, dec(r.hi as nat), none);
        law_parts_are_found(dec(r.lo as nat), ".."@ + dec(r.hi as nat), none, none);
        assert(range_text(r) =~= dec(r.lo as nat) + (".."@ + dec(r.hi as nat)));
    }
    let line = row_line(r);
    let t = pad_left(dec(r.seen as nat), 5, ' ') + "   "@ + range_text(r) + "\n"@;
    assert(line.skip(line.len() - t.len()) =~= t);
    let p = "  "@ + r.name;
    law_padding_keeps_the_text(r.name, 20, ' ');
    assert(line.take(p.len() as int) =~= p) by {
        let n = pad_right(r.name, 20);
        assert(n.take(r.name.len() as int) =~= r.name);
        assert forall|k: int| 0 <= k < p.len() implies line[k] == p[k] by {
            if k >= "  "@.len() {
                assert(line[k] == n[k - "  "@.len()]);
                assert(n.take(r.name.len() as int)[k - "  "@.len()] == n[k - "  "@.len()]);
            }
        }
    }
}

/// Every framework has its row.
pub proof fn law_every_framework_has_its_row(v: Seq<RowView>, k: int)
    requires
        0 <= k < v.len(),
    ensures
        contains(row_lines(v), row_line(v[k])),
    decreases v.len(),
{
    let own = row_line(v.last());
    let before = row_lines(v.drop_last());
    let none = Seq::<char>::empty();
    if k < v.len() - 1 {
        law_every_framework_has_its_row(v.drop_last(), k);
        lemma_contained_further(none, before, own, row_line(v[k]));
        assert(none + before + own =~= before + own);
    } else {
        law_parts_are_found(before, own, none, none);
        assert(before + own + none =~= before + own);
    }
}

/// The aggregate shows how many files there are, how many of them are binaries and how many are
/// not, and then a row for every framework of all of them.
#[verifier::rlimit(60)]
pub proof fn law_the_aggregate_shows_its_numbers(v: Seq<EntryView>)
    ensures
        contains(aggregate_text(v), "across "@ + dec(v.len()) + " files"@),
        contains(aggregate_text(v), dec(eapp_count(v)) + " plaintext eApp · "@),
        contains(
            aggregate_text(v),
            " plaintext eApp · "@ + dec((v.len() - eapp_count(v)) as nat) + " not eApp"@,
        ),
        contains(aggregate_text(v), row_lines(table(all_blocks(v)))),
{
    let a = "\n\n=== AGGREGATE across "@;
    let d1 = dec(v.len());
    let k1 = " files ===\n  "@;
    let d2 = dec(eapp_count(v));
    let k2 = " plaintext eApp · "@;
    let d3 = dec((v.len() - eapp_count(v)) as nat);
    let k3 = " not eApp (encrypted or other)\n\n  framework            games   count(min..max)\n"@;
    let rows = row_lines(table(all_blocks(v)));
    let z = "\n  ⚠️  A framework whose count VARIES across games means the ABI is versioned,\n      not fixed — that changes what a loader has to resolve against.\n"@;
    reveal_strlit("\n\n=== AGGREGATE across ");
    reveal_strlit("across ");
    reveal_strlit(" files ===\n  ");
    reveal_strlit(" files");
    reveal_strlit(
        " not eApp (encrypted or other)\n\n  framework            games   count(min..max)\n",
    );
    reveal_strlit(" not eApp");
    let s = aggregate_text(v);
    lemma_aggregate_parts(a, d1, k1, d2, k2, d3, k3, rows, z);
    let i = a.len() - 7;
    let p = "across "@ + d1 + " files"@;
    assert(a.skip(i) =~= "across "@);
    assert(k1.take(6) =~= " files"@);
    assert(k3.take(9) =~= " not eApp"@);
    assert(s.subrange(i, i + p.len()) =~= p) by {
        assert(s.subrange(i, i + p.len()) =~= a.skip(i) + d1 + k1.take(6));
    }
    assert(occurs_at(s, p, i));
    let j = a.len() + d1.len() + k1.len() + d2.len();
    let q = k2 + d3 + " not eApp"@;
    assert(s.subrange(j as int, j + q.len() as int) =~= q) by {
        assert(s.subrange(j as int, j + q.len() as int) =~= k2 + d3 + k3.take(9));
    }
    assert(occurs_at(s, q, j as int));
}

#[verifier::rlimit(60)]
proof fn lemma_aggregate_parts(
    a: Seq<char>,
    d1: Seq<char>,
    k1: Seq<char>,
    d2: Seq<char>,
    k2: Seq<char>,
    d3: Seq<char>,
    k3: Seq<char>,
    rows: Seq<char>,
    z: Seq<char>,
)
    ensures
        ({
            let s = a + d1 + k1 + d2 + k2 + d3 + k3 + rows + z;
            contains(s, d2 + k2) && contains(s, rows)
        }),
{
    let s = a + d1 + k1 + d2 + k2 + d3 + k3 + rows + z;
    let i = (a.len() + d1.len() + k1.len()) as int;
    let p = d2 + k2;
    assert(s.subrange(i, i + p.len()) =~= p);
    assert(occurs_at(s, p, i));
    let j = i + d2.len() + k2.len() + d3.len() + k3.len();
    assert(s.subrange(j, j + rows.len()) =~= rows);
    assert(occurs_at(s, rows, j));
}

/// Of a binary the first two blocks are dumped, ninety-six bytes from the place of each, and of
/// every other file none.
pub proof fn law_two_blocks_are_dumped(r: ReportView, raw: Seq<u8>, k: int)
    ensures
        r.sinf.len() > 0 || !r.is_eapp ==> raw_text(r, raw).len() == 0,
        r.sinf.len() == 0 && r.is_eapp && 0 <= k < r.blocks.len() && k < 2 ==> contains(
            raw_text(r, raw),
            dump_rows(
                raw,
                r.blocks[k].file_off,
                dump_end(raw, r.blocks[k].file_off, 96),
            ),
        ),
        r.sinf.len() == 0 && r.is_eapp && r.blocks.len() > 2 ==> raw_text(r, raw) == raw_blocks(
            r.blocks.take(2),
            raw,
            2,
        ),
{
    reveal_strlit("");
    let n: int = if r.blocks.len() < 2 {
        r.blocks.len() as int
    } else {
        2
    };
    if r.sinf.len() == 0 && r.is_eapp {
        if 0 <= k < r.blocks.len() && k < 2 {
            lemma_dumped(r.blocks, raw, n, k);
        }
        if r.blocks.len() > 2 {
            lemma_raw_prefix(r.blocks, raw, 2);
        }
    }
}

proof fn lemma_raw_prefix(v: Seq<BlockView>, raw: Seq<u8>, n: int)
    requires
        n <= 2 <= v.len(),
    ensures
        raw_blocks(v, raw, n) == raw_blocks(v.take(2), raw, n),
    decreases n,
{
    if n > 0 {
        lemma_raw_prefix(v, raw, n - 1);
        assert(v.take(2)[n - 1] == v[n - 1]);
    }
}

#[verifier::rlimit(60)]
proof fn lemma_dumped(v: Seq<BlockView>, raw: Seq<u8>, n: int, k: int)
    requires
        0 <= k < n <= v.len(),
    ensures
        contains(
            raw_blocks(v, raw, n),
            dump_rows(raw, v[k].file_off, dump_end(raw, v[k].file_off, 96)),
        ),
    decreases n,
{
    let b = v[n - 1];
    let before = raw_blocks(v, raw, n - 1);
    let own = dump_rows(raw, b.file_off, dump_end(raw, b.file_off, 96));
    let head = "\n  --- raw @0x"@ + hex(b.file_off as nat) + " ("@ + b.name + ") ---\n"@;
    let none = Seq::<char>::empty();
    let all = raw_blocks(v, raw, n);
    assert(all =~= before + head + own);
    if k < n - 1 {
        lemma_dumped(v, raw, n - 1, k);
        lemma_contained_further(
            none,
            before,
            head + own,
            dump_rows(raw, v[k].file_off, dump_end(raw, v[k].file_off, 96)),
        );
        assert(none + before + (head + own) =~= all);
    } else {
        law_parts_are_found(before + head, own, none, none);
        assert(before + head + own + none =~= all);
    }
}

/// Every file stands in the list for machines with its quoted path, its size, whether it is a binary
/// and its base, and with its frameworks one by one.
pub proof fn law_every_file_is_listed(v: Seq<EntryView>, k: int)
    requires
        0 <= k < v.len(),
    ensures
        contains(
            json_text(v),
            json_head(v[k], debug_form(v[k].report.path)) + json_frameworks(
                real_blocks(v[k].report.blocks),
            ) + "]}"@,
        ),
{
    lemma_file_is_listed(v, k);
    let none = Seq::<char>::empty();
    let tail = (if v.len() > 0 {
        "\n"@
    } else {
        ""@
    }) + "]\n"@;
    lemma_contained_further(
        none,
        json_files(v),
        tail,
        json_head(v[k], debug_form(v[k].report.path)) + json_frameworks(
            real_blocks(v[k].report.blocks),
        ) + "]}"@,
    );
    assert(none + json_files(v) + tail =~= json_text(v));
}

#[verifier::rlimit(60)]
proof fn lemma_file_is_listed(v: Seq<EntryView>, k: int)
    requires
        0 <= k < v.len(),
    ensures
        contains(
            json_files(v),
            json_head(v[k], debug_form(v[k].report.path)) + json_frameworks(
                real_blocks(v[k].report.blocks),
            ) + "]}"@,
        ),
    decreases v.len(),
{
    let e = v.last();
    let own = json_head(e, debug_form(e.report.path)) + json_frameworks(
        real_blocks(e.report.blocks),
    ) + "]}"@;
    let gap = if v.len() > 1 {
        ",\n"@
    } else {
        ""@
    };
    let before = json_files(v.drop_last());
    let none = Seq::<char>::empty();
    let all = json_files(v);
    assert(all =~= before + gap + own);
    if k < v.len() - 1 {
        lemma_file_is_listed(v.drop_last(), k);
        lemma_contained_further(
            none,
            before,
            gap + own,
            json_head(v[k], debug_form(v[k].report.path)) + json_frameworks(
                real_blocks(v[k].report.blocks),
            ) + "]}"@,
        );
        assert(none + before + (gap + own) =~= all);
    } else {
        law_parts_are_found(before + gap, own, none, none);
        assert(before + gap + own + none =~= all);
    }
}

/// What the list for machines says of a file: the size in decimal, the entropy, whether it is a
/// binary, and the base in decimal or that there is none.
#[verifier::rlimit(60)]
pub proof fn law_a_file_is_told_to_machines(e: EntryView, q: Seq<char>)
    ensures
        begins(json_head(e, q), "  {\"file\":"@ + q + ",\"size\":"@ + dec(e.report.len as nat)),
        contains(
            json_head(e, q),
            ",\"is_eapp\":"@ + (if e.report.is_eapp {
                "true"@
            } else {
                "false"@
            }) + ",\"load_base\":"@,
        ),
        ends(
            json_head(e, q),
            ",\"load_base\":"@ + (match e.report.load_base {
                Some(b) => dec(b as nat),
                None => "null"@,
            }) + ",\"frameworks\":["@,
        ),
{
    let s = json_head(e, q);
    let a = "  {\"file\":"@ + q + ",\"size\":"@ + dec(e.report.len as nat);
    let b = ",\"entropy\":"@ + e.entropy;
    let k1 = ",\"is_eapp\":"@;
    let d1 = if e.report.is_eapp {
        "true"@
    } else {
        "false"@
    };
    let k2 = ",\"load_base\":"@;
    let d2 = match e.report.load_base {
        Some(b) => dec(b as nat),
        None => "null"@,
    };
    let z = ",\"frameworks\":["@;
    let t = k2 + d2 + z;
    assert(s =~= a + b + k1 + d1 + k2 + (d2 + z));
    lemma_inside(a, b, k1, d1, k2, d2 + z);
    assert(s.take(a.len() as int) =~= a);
    assert(s.skip(s.len() - t.len()) =~= t);
}

/// Every framework of a file is told with its quoted name, both counts and its hash.
#[verifier::rlimit(60)]
pub proof fn law_every_framework_is_told(v: Seq<BlockView>, k: int)
    requires
        0 <= k < v.len(),
    ensures
        contains(
            json_frameworks(v),
            "{\"name\":"@ + debug_form(v[k].name) + ",\"count\":"@ + dec(v[k].func_count as nat)
                + ",\"thunks_seen\":"@ + dec(v[k].thunks_seen as nat) + ",\"hash\":\""@ + hex_bytes(
                v[k].hash,
            ) + "\"}"@,
        ),
    decreases v.len(),
{
    let own = json_framework(v.last(), debug_form(v.last().name));
    let gap = if v.len() > 1 {
        ","@
    } else {
        ""@
    };
    let before = json_frameworks(v.drop_last());
    let none = Seq::<char>::empty();
    let all = json_frameworks(v);
    assert(all =~= before + gap + own);
    if k < v.len() - 1 {
        law_every_framework_is_told(v.drop_last(), k);
        lemma_contained_further(
            none,
            before,
            gap + own,
            json_framework(v[k], debug_form(v[k].name)),
        );
        assert(none + before + (gap + own) =~= all);
    } else {
        law_parts_are_found(before + gap, own, none, none);
        assert(before + gap + own + none =~= all);
    }
}

} // verus!
