//! Call sites of a few functions, with the format string that each caller loads.
//!
//! The register that carries the format differs from function to function, so each target names
//! its own.

use vstd::prelude::*;

use crate::arm::{adr, branch_target, dest, is_bl, overwrites, pool_load, word_before};
#[allow(unused_imports)]
use crate::arm::{
    adr_address, branch_word, condition, is_adr, is_call, is_pool_load, law_a_branch_is_read_back,
    law_what_is_a_pool_load,
    law_what_is_an_adr, law_what_writes_a_register, pool_address, rd, target, wrap, writes,
};
use crate::bytes::word_fits;
use crate::image::{parse, Img, ImgView};
#[allow(unused_imports)]
use crate::image::{law_numbers_are_read_back, number_of, string_at, word};
use crate::listing::place_of;
#[allow(unused_imports)]
use crate::listing::place;
use crate::table::{add_text, find, put};
#[allow(unused_imports)]
use crate::table::{
    keys_ascend, lemma_filter_map_first, lemma_lookup_with_value, lemma_numbers_first,
    lemma_with_value_ascends, numbers,
};
#[allow(unused_imports)]
use crate::table::{lookup, with_text, with_value};
use crate::text::{
    chars_of, push_address, push_dec, push_hex, push_right, quoted, same_text, split, split_once,
};
#[allow(unused_imports)]
use crate::text::{ends, lemma_contained_further, occurs_at};
#[allow(unused_imports)]
use crate::text::{address, debug_form, dec, halves, hex, law_a_text_is_cut_at_the_first};
#[allow(unused_imports)]
use crate::text::{begins, contains, law_parts_are_found, pad_right, pieces, texts, views};

verus! {

// ---------------------------------------------------------------- targets

/// The address and the register of one target; the register is r2 when it is left out.
pub open spec fn target_of(t: Seq<char>) -> Option<(int, int)> {
    match halves(t, ':') {
        Some((a, r)) => match (number_of(a), number_of(r)) {
            (Some(x), Some(y)) => Some((x, y)),
            _ => None,
        },
        None => match number_of(t) {
            Some(x) => Some((x, 2)),
            None => None,
        },
    }
}

/// The targets of the first `n` pieces; a piece that is no target is passed over, and a later
/// piece replaces an earlier one of the same address.
pub open spec fn targets_of(v: Seq<Seq<char>>, n: int) -> Seq<(u32, u32)>
    decreases n,
{
    if n <= 0 {
        Seq::empty()
    } else {
        match target_of(v[n - 1]) {
            Some((a, r)) => with_value(targets_of(v, n - 1), a as u32, r as u32),
            None => targets_of(v, n - 1),
        }
    }
}

/// Parses `ADDR:REG` targets with commas between them.
pub fn parse_targets(text: &str) -> (r: Vec<(u32, u32)>)
    ensures
        r@ == targets_of(pieces(text@, ','), pieces(text@, ',').len() as int),
{
    let t = chars_of(text);
    let parts = split(t.as_slice(), ',');
    let ghost all = pieces(text@, ',');
    assert(views(parts@).len() == parts@.len());
    let mut r: Vec<(u32, u32)> = Vec::new();
    let mut i: usize = 0;
    while i < parts.len()
        invariant
            i <= parts@.len(),
            views(parts@) == all,
            r@ == targets_of(all, i as int),
        decreases parts@.len() - i,
    {
        assert(all[i as int] == parts@[i as int]@);
        let piece = parts[i].as_slice();
        match split_once(piece, ':') {
            Some((a, g)) => if let (Some(x), Some(y)) = (parse(a), parse(g)) {
                put(&mut r, x, y);
            },
            None => if let Some(x) = parse(piece) {
                put(&mut r, x, 2);
            },
        }
        i += 1;
    }
    r
}

// ---------------------------------------------------------------- formats

/// What supplies the format register at a call.
pub enum Found {
    /// A string in the image.
    Literal(String),
    /// A pool word that points at no string.
    Pointer(u32),
    /// An address beside the code that holds no string.
    Adr(u32),
    /// An instruction that computes it: its address and its word.
    Computed(u32, u32),
    /// Nothing within forty instructions.
    Unresolved,
}

/// The contents of a finding.
pub enum FoundView {
    Literal(Seq<char>),
    Pointer(u32),
    Adr(u32),
    Computed(u32, u32),
    Unresolved,
}

impl View for Found {
    type V = FoundView;

    open spec fn view(&self) -> FoundView {
        match self {
            Found::Literal(s) => FoundView::Literal(s@),
            Found::Pointer(v) => FoundView::Pointer(*v),
            Found::Adr(a) => FoundView::Adr(*a),
            Found::Computed(a, w) => FoundView::Computed(*a, *w),
            Found::Unresolved => FoundView::Unresolved,
        }
    }
}

/// What the instruction at `at` says of the register: it loads it from a pool, forms an address in
/// it, or writes it otherwise; nothing when it leaves the register alone.
pub open spec fn supplies(img: ImgView, at: u32, reg: u32) -> Option<FoundView> {
    let w = word(img, at);
    if is_pool_load(w) && rd(w) == reg {
        let v = word(img, pool_address(w, at));
        Some(
            match string_at(img, v) {
                Some(s) => FoundView::Literal(s),
                None => FoundView::Pointer(v),
            },
        )
    } else if is_adr(w) && rd(w) == reg {
        let a = adr_address(w, at);
        Some(
            match string_at(img, a) {
                Some(s) => FoundView::Literal(s),
                None => FoundView::Adr(a),
            },
        )
    } else if condition(w) == 14 && writes(w, reg) {
        Some(FoundView::Computed(at, w))
    } else {
        None
    }
}

/// What the instruction `back` words before `pc` says of the register.
pub open spec fn supplies_back(img: ImgView, pc: u32, reg: u32, back: int) -> Option<FoundView> {
    supplies(img, wrap(pc - 4 * back), reg)
}

/// The nearest instruction before the call at `pc`, from the `back`-th on, that supplies the
/// register.
pub open spec fn format_from(img: ImgView, pc: u32, reg: u32, back: int) -> FoundView
    decreases 41 - back,
{
    if back > 40 {
        FoundView::Unresolved
    } else {
        match supplies_back(img, pc, reg, back) {
            Some(f) => f,
            None => format_from(img, pc, reg, back + 1),
        }
    }
}

fn read_supply(img: &Img, at: u32, reg: u32) -> (r: Option<Found>)
    ensures
        match r {
            Some(f) => supplies(img@, at, reg) == Some(f@),
            None => supplies(img@, at, reg) is None,
        },
{
    let w: u32 = img.w(at);
    if dest(w) == reg {
        if let Some(p) = pool_load(w, at) {
            let v: u32 = img.w(p);
            return Some(
                match img.cstr(v) {
                    Some(s) => Found::Literal(s),
                    None => Found::Pointer(v),
                },
            );
        }
        if let Some(a) = adr(w, at) {
            return Some(
                match img.cstr(a) {
                    Some(s) => Found::Literal(s),
                    None => Found::Adr(a),
                },
            );
        }
    }
    if overwrites(w, reg) {
        Some(Found::Computed(at, w))
    } else {
        None
    }
}

/// What supplies the format register at the call at `pc`.
pub fn find_format(img: &Img, pc: u32, reg: u32) -> (f: Found)
    ensures
        f@ == format_from(img@, pc, reg, 1),
{
    let mut back: u32 = 1;
    while back <= 40
        invariant
            1 <= back <= 41,
            format_from(img@, pc, reg, 1) == format_from(img@, pc, reg, back as int),
        decreases 41 - back,
    {
        if let Some(f) = read_supply(img, word_before(pc, back), reg) {
            return f;
        }
        back += 1;
    }
    Found::Unresolved
}

/// One call site.
pub struct Site {
    pub pc: u32,
    pub found: Found,
}

/// The contents of a list of sites.
pub open spec fn site_views(v: Seq<Site>) -> Seq<(u32, FoundView)> {
    v.map_values(|s: Site| (s.pc, s.found@))
}

/// The register of the target that the word at `pc` calls.
pub open spec fn called(img: ImgView, targets: Seq<(u32, u32)>, pc: u32) -> Option<u32> {
    let w = word(img, pc);
    if is_call(w) {
        lookup(targets, target(w, pc))
    } else {
        None
    }
}

/// The call in the word at `off`, if it calls a target, with what supplies its format.
pub open spec fn site_here(img: ImgView, targets: Seq<(u32, u32)>, off: int) -> Seq<
    (u32, FoundView),
> {
    let pc = place(img, off);
    match called(img, targets, pc) {
        Some(reg) => seq![(pc, format_from(img, pc, reg, 1))],
        None => Seq::empty(),
    }
}

/// The call sites from the word at `off` on.
pub open spec fn sites_from(img: ImgView, targets: Seq<(u32, u32)>, off: int) -> Seq<
    (u32, FoundView),
>
    decreases img.d.len() - off,
{
    if off + 4 > img.d.len() {
        Seq::empty()
    } else {
        site_here(img, targets, off) + sites_from(img, targets, off + 4)
    }
}

fn called_register(img: &Img, targets: &Vec<(u32, u32)>, pc: u32) -> (r: Option<u32>)
    ensures
        r == called(img@, targets@, pc),
{
    let w: u32 = img.w(pc);
    if !is_bl(w) {
        return None;
    }
    match branch_target(w, pc) {
        Some(t) => match find(targets, t) {
            Some(g) => Some(*g),
            None => None,
        },
        None => None,
    }
}

/// Every call of one of the targets, with what supplies its format.
pub fn call_sites(img: &Img, targets: &Vec<(u32, u32)>) -> (v: Vec<Site>)
    ensures
        site_views(v@) == sites_from(img@, targets@, 0),
{
    let mut v: Vec<Site> = Vec::new();
    let mut off: usize = 0;
    assert(site_views(v@) + sites_from(img@, targets@, 0) =~= sites_from(img@, targets@, 0));
    assert(img.d@.len() == img.d.len());
    while word_fits(img.d.as_slice(), off)
        invariant
            img.d@.len() <= usize::MAX,
            off <= img.d@.len(),
            site_views(v@) + sites_from(img@, targets@, off as int) == sites_from(img@, targets@, 0),
        decreases img.d@.len() - off,
    {
        let pc: u32 = place_of(img, off);
        let ghost done = site_views(v@);
        let ghost rest = sites_from(img@, targets@, off + 4);
        match called_register(img, targets, pc) {
            Some(reg) => {
                let found = find_format(img, pc, reg);
                let ghost one = (pc, found@);
                v.push(Site { pc, found });
                assert(site_views(v@) =~= done.push(one));
                assert(site_views(v@) + rest =~= done + (seq![one] + rest));
            },
            None => {
                assert(done + rest =~= done + (Seq::<(u32, FoundView)>::empty() + rest));
            },
        }
        off += 4;
    }
    assert(site_views(v@) + Seq::<(u32, FoundView)>::empty() =~= site_views(v@));
    v
}

proof fn lemma_site_kept(
    img: ImgView,
    targets: Seq<(u32, u32)>,
    from: int,
    n: nat,
    hit: (u32, FoundView),
)
    requires
        0 <= from,
        from + 4 * n + 4 <= img.d.len(),
        site_here(img, targets, from + 4 * n).contains(hit),
    ensures
        sites_from(img, targets, from).contains(hit),
    decreases n,
{
    let head = site_here(img, targets, from);
    let rest = sites_from(img, targets, from + 4);
    let all = sites_from(img, targets, from);
    assert(all == head + rest);
    if n == 0 {
        let k = choose|k: int| 0 <= k < head.len() && head[k] == hit;
        assert(all[k] == hit);
    } else {
        let m = (n - 1) as nat;
        assert(from + 4 + 4 * m == from + 4 * n);
        lemma_site_kept(img, targets, from + 4, m, hit);
        let k = choose|k: int| 0 <= k < rest.len() && rest[k] == hit;
        assert(all[head.len() + k] == hit);
    }
}

/// Every call of a target is among the sites, wherever in the image it stands, the last word
/// included, with what supplies its format.
pub proof fn law_calls_are_all_found(img: ImgView, targets: Seq<(u32, u32)>, n: nat)
    requires
        4 * n + 4 <= img.d.len(),
        called(img, targets, place(img, 4 * n as int)) is Some,
    ensures
        ({
            let pc = place(img, 4 * n as int);
            sites_from(img, targets, 0).contains(
                (pc, format_from(img, pc, called(img, targets, pc)->0, 1)),
            )
        }),
{
    let pc = place(img, 4 * n as int);
    let hit = (pc, format_from(img, pc, called(img, targets, pc)->0, 1));
    assert(site_here(img, targets, 4 * n as int)[0] == hit);
    lemma_site_kept(img, targets, 0, n, hit);
}

/// A literal is reported only when it is the nearest thing that supplies the register: no
/// instruction between it and the call writes the register.
pub proof fn law_format_is_the_last_write(img: ImgView, pc: u32, reg: u32, back: int, from: int)
    requires
        1 <= from <= back <= 40,
        supplies_back(img, pc, reg, back) is Some,
        forall|k: int| from <= k < back ==> #[trigger] supplies_back(img, pc, reg, k) is None,
    ensures
        format_from(img, pc, reg, from) == supplies_back(img, pc, reg, back)->0,
    decreases back - from,
{
    if from < back {
        assert(supplies_back(img, pc, reg, from) is None);
        law_format_is_the_last_write(img, pc, reg, back, from + 1);
    }
}

// ---------------------------------------------------------------- text

/// The text of a finding. `quoted` is a literal in quotation marks; `disasm` is the text of the
/// instruction that computes the format.
pub open spec fn found_text(f: FoundView, quoted: Seq<char>, disasm: Seq<char>) -> Seq<char> {
    match f {
        FoundView::Literal(_) => quoted,
        FoundView::Pointer(v) => "<pointer "@ + address(v) + ", not a literal string>"@,
        FoundView::Adr(a) => "<adr "@ + address(a) + ", not a string>"@,
        FoundView::Computed(at, _) => "<computed at "@ + address(at) + ": "@ + disasm + ">"@,
        FoundView::Unresolved => "<not resolved within 40 instructions>"@,
    }
}

/// The text of a finding from its parts.
pub fn render_found_parts(f: &Found, quoted: &str, disasm: &str) -> (out: String)
    ensures
        out@ == found_text(f@, quoted@, disasm@),
{
    match f {
        Found::Literal(_) => String::from_str(quoted),
        Found::Pointer(v) => {
            let mut out = String::from_str("<pointer ");
            push_address(&mut out, *v);
            out.append(", not a literal string>");
            out
        },
        Found::Adr(a) => {
            let mut out = String::from_str("<adr ");
            push_address(&mut out, *a);
            out.append(", not a string>");
            out
        },
        Found::Computed(at, _) => {
            let mut out = String::from_str("<computed at ");
            push_address(&mut out, *at);
            out.append(": ");
            out.append(disasm);
            out.append(">");
            out
        },
        Found::Unresolved => String::from_str("<not resolved within 40 instructions>"),
    }
}

/// A literal in quotation marks; nothing for another finding.
pub open spec fn literal_form(f: FoundView) -> Seq<char> {
    match f {
        FoundView::Literal(s) => debug_form(s),
        _ => ""@,
    }
}

/// The text of a finding; `disasm` is the text of the instruction that computes the format, where
/// one does.
pub fn render_found(f: &Found, disasm: &str) -> (out: String)
    ensures
        out@ == found_text(f@, literal_form(f@), disasm@),
{
    let q = match f {
        Found::Literal(s) => quoted(s.as_str()),
        _ => String::from_str(""),
    };
    render_found_parts(f, q.as_str(), disasm)
}

/// A call site with the text of its format.
pub struct SiteText {
    pub pc: u32,
    pub text: String,
}

/// The contents of a list of site texts.
pub open spec fn site_texts(v: Seq<SiteText>) -> Seq<(u32, Seq<char>)> {
    v.map_values(|s: SiteText| (s.pc, s.text@))
}

/// The targets as a map of hexadecimal numbers.
pub open spec fn target_map(v: Seq<(u32, u32)>, n: int) -> Seq<char>
    decreases n,
{
    if n <= 0 {
        "{"@
    } else {
        target_map(v, n - 1) + (if n > 1 {
            ", "@
        } else {
            ""@
        }) + hex(v[n - 1].0 as nat) + ": "@ + hex(v[n - 1].1 as nat)
    }
}

/// The lines of the first `n` sites.
pub open spec fn site_lines(v: Seq<(u32, Seq<char>)>, n: int) -> Seq<char>
    decreases n,
{
    if n <= 0 {
        Seq::empty()
    } else {
        site_lines(v, n - 1) + "  "@ + address(v[n - 1].0) + "  "@ + v[n - 1].1 + "\n"@
    }
}

/// The different texts of the first `n` sites, in order.
pub open spec fn vocabulary(v: Seq<(u32, Seq<char>)>, n: int) -> Seq<Seq<char>>
    decreases n,
{
    if n <= 0 {
        Seq::empty()
    } else {
        with_text(vocabulary(v, n - 1), v[n - 1].1)
    }
}

/// How many of the first `n` sites have the text.
pub open spec fn uses(v: Seq<(u32, Seq<char>)>, t: Seq<char>, n: int) -> nat
    decreases n,
{
    if n <= 0 {
        0
    } else {
        uses(v, t, n - 1) + (if v[n - 1].1 == t {
            1nat
        } else {
            0
        })
    }
}

/// Where the text is first used, from the `i`-th site on; 0 when it is not.
pub open spec fn first_use(v: Seq<(u32, Seq<char>)>, t: Seq<char>, i: int) -> u32
    decreases v.len() - i,
{
    if i >= v.len() {
        0
    } else if v[i].1 == t {
        v[i].0
    } else {
        first_use(v, t, i + 1)
    }
}

/// The line of one text of the vocabulary; `quoted` is the text in quotation marks.
pub open spec fn vocabulary_line(quoted: Seq<char>, uses: nat, first: u32) -> Seq<char> {
    "    "@ + pad_right(quoted, 52) + " x"@ + dec(uses) + "  "@ + address(first) + "\n"@
}

/// The lines of the first `n` texts of the vocabulary.
pub open spec fn vocabulary_lines(
    v: Seq<(u32, Seq<char>)>,
    words: Seq<Seq<char>>,
    n: int,
) -> Seq<char>
    decreases n,
{
    if n <= 0 {
        Seq::empty()
    } else {
        let t = words[n - 1];
        vocabulary_lines(v, words, n - 1) + vocabulary_line(
            debug_form(t),
            uses(v, t, v.len() as int),
            first_use(v, t, 0),
        )
    }
}

/// The listing of the call sites and of the different formats they use.
pub open spec fn callfmt_text(targets: Seq<(u32, u32)>, v: Seq<(u32, Seq<char>)>) -> Seq<char> {
    let words = vocabulary(v, v.len() as int);
    "\n=== call sites of "@ + target_map(targets, targets.len() as int)
        + "} with their format strings ===\n"@ + site_lines(v, v.len() as int) + "\n  "@ + dec(
        v.len(),
    ) + " call sites, "@ + dec(words.len()) + " distinct format strings:\n"@ + vocabulary_lines(
        v,
        words,
        words.len() as int,
    )
}

fn render_targets(v: &Vec<(u32, u32)>) -> (out: String)
    ensures
        out@ == target_map(v@, v@.len() as int),
{
    let mut out = String::from_str("{");
    let mut i: usize = 0;
    while i < v.len()
        invariant
            i <= v@.len(),
            out@ == target_map(v@, i as int),
        decreases v@.len() - i,
    {
        if i > 0 {
            out.append(", ");
        } else {
            out.append("");
        }
        push_hex(&mut out, v[i].0 as u128);
        out.append(": ");
        push_hex(&mut out, v[i].1 as u128);
        i += 1;
    }
    out
}

fn count_uses(v: &Vec<SiteText>, t: &str) -> (r: (usize, u32))
    ensures
        r.0 == uses(site_texts(v@), t@, v@.len() as int),
        r.1 == first_use(site_texts(v@), t@, 0),
{
    let mut n: usize = 0;
    let mut first: u32 = 0;
    let mut i: usize = 0;
    while i < v.len()
        invariant
            i <= v@.len(),
            n <= i,
            n == uses(site_texts(v@), t@, i as int),
            n == 0 ==> first == 0 && first_use(site_texts(v@), t@, 0) == first_use(
                site_texts(v@),
                t@,
                i as int,
            ),
            n > 0 ==> first == first_use(site_texts(v@), t@, 0),
        decreases v@.len() - i,
    {
        assert(site_texts(v@)[i as int] == (v@[i as int].pc, v@[i as int].text@));
        if same_text(v[i].text.as_str(), t) {
            if n == 0 {
                first = v[i].pc;
            }
            n += 1;
        }
        i += 1;
    }
    (n, first)
}

/// The line of one text of the vocabulary; `quoted` is the text in quotation marks.
pub fn render_vocabulary_line(quoted: &str, uses: usize, first: u32) -> (out: String)
    ensures
        out@ == vocabulary_line(quoted@, uses as nat, first),
{
    let mut out = String::from_str("    ");
    push_right(&mut out, quoted, 52);
    out.append(" x");
    push_dec(&mut out, uses as u128);
    out.append("  ");
    push_address(&mut out, first);
    out.append("\n");
    out
}

/// The listing of the call sites and of the different formats they use.
pub fn render_callfmt(targets: &Vec<(u32, u32)>, v: &Vec<SiteText>) -> (out: String)
    ensures
        out@ == callfmt_text(targets@, site_texts(v@)),
{
    let ghost all = site_texts(v@);
    let mut lines = String::new();
    let mut words: Vec<String> = Vec::new();
    let mut i: usize = 0;
    assert(texts(words@) =~= vocabulary(all, 0));
    while i < v.len()
        invariant
            i <= v@.len(),
            all == site_texts(v@),
            lines@ == site_lines(all, i as int),
            texts(words@) == vocabulary(all, i as int),
        decreases v@.len() - i,
    {
        assert(all[i as int] == (v@[i as int].pc, v@[i as int].text@));
        lines.append("  ");
        push_address(&mut lines, v[i].pc);
        lines.append("  ");
        lines.append(v[i].text.as_str());
        lines.append("\n");
        add_text(&mut words, v[i].text.as_str());
        i += 1;
    }
    let mut rows = String::new();
    let mut k: usize = 0;
    while k < words.len()
        invariant
            k <= words@.len(),
            all == site_texts(v@),
            rows@ == vocabulary_lines(all, texts(words@), k as int),
        decreases words@.len() - k,
    {
        assert(texts(words@)[k as int] == words@[k as int]@);
        let t = words[k].as_str();
        let (n, first) = count_uses(v, t);
        rows.append(render_vocabulary_line(quoted(t).as_str(), n, first).as_str());
        k += 1;
    }
    let mut out = String::from_str("\n=== call sites of ");
    out.append(render_targets(targets).as_str());
    out.append("} with their format strings ===\n");
    out.append(lines.as_str());
    out.append("\n  ");
    push_dec(&mut out, v.len() as u128);
    out.append(" call sites, ");
    push_dec(&mut out, words.len() as u128);
    out.append(" distinct format strings:\n");
    out.append(rows.as_str());
    out
}

/// Every site is counted under exactly one text of the vocabulary: the vocabulary lists exactly
/// the texts that occur, each once, in order.
pub proof fn law_vocabulary_is_exact(v: Seq<(u32, Seq<char>)>, n: int)
    requires
        0 <= n <= v.len(),
    ensures
        crate::table::texts_ascend(vocabulary(v, n)),
        forall|t: Seq<char>|
            #![trigger vocabulary(v, n).contains(t)]
            vocabulary(v, n).contains(t) <==> uses(v, t, n) > 0,
    decreases n,
{
    if n > 0 {
        law_vocabulary_is_exact(v, n - 1);
        crate::table::lemma_with_text(vocabulary(v, n - 1), v[n - 1].1);
        assert forall|t: Seq<char>| #[trigger] vocabulary(v, n).contains(t) <==> uses(v, t, n)
            > 0 by {
            assert(vocabulary(v, n - 1).contains(t) <==> uses(v, t, n - 1) > 0);
        }
    }
}

// ---------------------------------------------------------------- what decides a format

/// The instruction names the register as its destination.
pub open spec fn names(w: u32, reg: u32) -> bool {
    w / 0x1000 % 16 == reg
}

/// A literal load, or an address computed from the program counter, on whatever condition.
pub open spec fn takes_from_the_pool(w: u32) -> bool {
    w / 0x1_0000 % 0x1000 == 0x59f || w / 0x1_0000 % 0x1000 == 0x51f
}

pub open spec fn takes_its_own_place(w: u32) -> bool {
    w / 0x1_0000 % 0x1000 == 0x28f
}

/// An instruction that is always executed and leaves a result in its destination: data processing
/// but for the four comparisons, or the load of a word.
pub open spec fn always_leaves_a_result(w: u32) -> bool {
    let class = w / 0x400_0000 % 4;
    let op = w / 0x20_0000 % 16;
    w / 0x1000_0000 == 14 && ({
        ||| class == 0 && (op < 8 || op > 11)
        ||| class == 1 && w / 0x10_0000 % 2 == 1 && w / 0x40_0000 % 2 == 0
    })
}

/// The instruction `k` before the one at `pc`.
pub open spec fn word_back(img: ImgView, pc: u32, k: int) -> u32 {
    word(img, wrap(pc - 4 * k))
}

/// The instruction says nothing of the register.
pub open spec fn says_nothing(w: u32, reg: u32) -> bool {
    !names(w, reg) || (!takes_from_the_pool(w) && !takes_its_own_place(w)
        && !always_leaves_a_result(w))
}

proof fn lemma_supplies_nothing(img: ImgView, at: u32, reg: u32)
    ensures
        supplies(img, at, reg) is None <==> says_nothing(word(img, at), reg),
{
    let w = word(img, at);
    law_what_is_a_pool_load(w);
    law_what_is_an_adr(w);
    law_what_writes_a_register(w, reg);
}

proof fn lemma_search_passes(img: ImgView, pc: u32, reg: u32, from: int, b: int)
    requires
        1 <= from <= b <= 41,
        forall|k: int|
            from <= k < b ==> says_nothing(#[trigger] word_back(img, pc, k), reg),
    ensures
        format_from(img, pc, reg, from) == format_from(img, pc, reg, b),
    decreases b - from,
{
    if from < b {
        lemma_supplies_nothing(img, wrap(pc - 4 * from), reg);
        assert(says_nothing(word_back(img, pc, from), reg));
        lemma_search_passes(img, pc, reg, from + 1, b);
    }
}

/// Going back from a call, the first instruction that says anything of the format register
/// decides, and nothing further back does. A literal load gives the string that its word points
/// at, or else the word; a computed address the string that stands there, or else the address; and
/// every other instruction that is always executed and leaves a result in the register, be it data
/// processing or the load of a word, is reported as the place where the format is computed.
#[verifier::rlimit(60)]
pub proof fn law_the_nearest_write_decides(img: ImgView, pc: u32, reg: u32, b: int)
    requires
        1 <= b <= 40,
        forall|k: int| 1 <= k < b ==> says_nothing(#[trigger] word_back(img, pc, k), reg),
    ensures
        ({
            let at = wrap(pc - 4 * b);
            let w = word(img, at);
            let found = format_from(img, pc, reg, 1);
            &&& names(w, reg) && takes_from_the_pool(w) ==> {
                let v = word(img, wrap(at + 8 + (if w / 0x80_0000 % 2 == 1 {
                    (w % 0x1000) as int
                } else {
                    -(w % 0x1000)
                })));
                found == (match string_at(img, v) {
                    Some(s) => FoundView::Literal(s),
                    None => FoundView::Pointer(v),
                })
            }
            &&& names(w, reg) && takes_its_own_place(w) ==> {
                let a = adr_address(w, at);
                found == (match string_at(img, a) {
                    Some(s) => FoundView::Literal(s),
                    None => FoundView::Adr(a),
                })
            }
            &&& names(w, reg) && always_leaves_a_result(w) && !takes_from_the_pool(w)
                && !takes_its_own_place(w) ==> found == FoundView::Computed(at, w)
        }),
{
    let at = wrap(pc - 4 * b);
    let w = word(img, at);
    lemma_search_passes(img, pc, reg, 1, b);
    law_what_is_a_pool_load(w);
    law_what_is_an_adr(w);
    law_what_writes_a_register(w, reg);
    assert(takes_from_the_pool(w) ==> !takes_its_own_place(w));
    assert(format_from(img, pc, reg, b) == (match supplies_back(img, pc, reg, b) {
        Some(f) => f,
        None => format_from(img, pc, reg, b + 1),
    }));
}

/// A format is given up just where none of the forty instructions before the call says anything of
/// the register.
pub proof fn law_forty_instructions_are_read(img: ImgView, pc: u32, reg: u32)
    ensures
        format_from(img, pc, reg, 1) == FoundView::Unresolved <==> forall|k: int|
            1 <= k <= 40 ==> says_nothing(#[trigger] word_back(img, pc, k), reg),
{
    if forall|k: int|
        1 <= k <= 40 ==> says_nothing(#[trigger] word_back(img, pc, k), reg) {
        lemma_search_passes(img, pc, reg, 1, 41);
    } else {
        let b = choose|b: int|
            1 <= b <= 40 && !says_nothing(#[trigger] word_back(img, pc, b), reg);
        lemma_search_stops(img, pc, reg, 1, b);
    }
}

proof fn lemma_search_stops(img: ImgView, pc: u32, reg: u32, from: int, b: int)
    requires
        1 <= from <= b <= 40,
        !says_nothing(word_back(img, pc, b), reg),
    ensures
        format_from(img, pc, reg, from) != FoundView::Unresolved,
    decreases b - from,
{
    lemma_supplies_nothing(img, wrap(pc - 4 * from), reg);
    if from < b && supplies_back(img, pc, reg, from) is None {
        lemma_search_stops(img, pc, reg, from + 1, b);
    }
}

/// A target that is written `address:register`, in either base, is read back as just these; one
/// without a register names the third.
#[verifier::rlimit(60)]
pub proof fn law_targets_are_read_back(a: u32, r: u32)
    ensures
        target_of("0x"@ + hex(a as nat) + ":"@ + dec(r as nat)) == Some((a as int, r as int)),
        target_of("0x"@ + hex(a as nat) + ":0x"@ + hex(r as nat)) == Some((a as int, r as int)),
        target_of("0x"@ + hex(a as nat)) == Some((a as int, 2int)),
{
    law_numbers_are_read_back(a);
    law_numbers_are_read_back(r);
    let h = "0x"@ + hex(a as nat);
    reveal_strlit(":");
    reveal_strlit(":0x");
    reveal_strlit("0x");
    law_a_text_is_cut_at_the_first(h, ':', dec(r as nat));
    law_a_text_is_cut_at_the_first(h, ':', "0x"@ + hex(r as nat));
    assert(h + ":"@ + dec(r as nat) =~= h + seq![':'] + dec(r as nat));
    assert(h + ":0x"@ + hex(r as nat) =~= h + seq![':'] + ("0x"@ + hex(r as nat)));
}

/// A target is asked for at an address.
pub open spec fn asks_for(t: Seq<char>, a: u32) -> bool {
    target_of(t) is Some && (target_of(t)->0).0 as u32 == a
}

/// The register that a target names is read where the target was asked for last.
pub open spec fn last_asked(v: Seq<Seq<char>>, n: int, k: int, a: u32) -> bool {
    0 <= k < n && asks_for(v[k], a) && forall|j: int| k < j < n ==> !asks_for(#[trigger] v[j], a)
}

proof fn lemma_targets(v: Seq<Seq<char>>, n: int, a: u32)
    requires
        0 <= n <= v.len(),
    ensures
        keys_ascend(targets_of(v, n)),
        match lookup(targets_of(v, n), a) {
            Some(r) => exists|k: int|
                #[trigger] last_asked(v, n, k, a) && (target_of(v[k])->0).1 as u32 == r,
            None => forall|k: int| 0 <= k < n ==> !asks_for(#[trigger] v[k], a),
        },
    decreases n,
{
    if n > 0 {
        lemma_targets(v, n - 1, a);
        let before = targets_of(v, n - 1);
        if target_of(v[n - 1]) is Some {
            let (x, r) = target_of(v[n - 1])->0;
            lemma_with_value_ascends(before, x as u32, r as u32);
            lemma_lookup_with_value(before, x as u32, r as u32, a);
        }
        if asks_for(v[n - 1], a) {
            assert(last_asked(v, n, n - 1, a));
        } else if lookup(before, a) is Some {
            let k = choose|k: int|
                #[trigger] last_asked(v, n - 1, k, a) && (target_of(v[k])->0).1 as u32 == lookup(
                    before,
                    a,
                )->0;
            assert(last_asked(v, n, k, a));
        }
    }
}

/// A target is looked for just where it was asked for, and the register that was named last for it
/// is the one that is read.
pub proof fn law_the_last_register_counts(v: Seq<Seq<char>>, a: u32)
    ensures
        match lookup(targets_of(v, v.len() as int), a) {
            Some(r) => exists|k: int|
                #[trigger] last_asked(v, v.len() as int, k, a) && (target_of(v[k])->0).1 as u32
                    == r,
            None => forall|k: int| 0 <= k < v.len() ==> !asks_for(#[trigger] v[k], a),
        },
{
    lemma_targets(v, v.len() as int, a);
}

proof fn lemma_sites_exact(img: ImgView, targets: Seq<(u32, u32)>, i: int, n: nat)
    requires
        0 <= i,
        4 * (i + n) + 4 > img.d.len(),
        n > 0 ==> 4 * (i + n) <= img.d.len(),
    ensures
        sites_from(img, targets, 4 * i) == numbers(i, n).filter_map(
            |k: int|
                {
                    let pc = place(img, 4 * k);
                    match called(img, targets, pc) {
                        Some(reg) => Some((pc, format_from(img, pc, reg, 1))),
                        None => None,
                    }
                },
        ),
    decreases n,
{
    let f = |k: int|
        {
            let pc = place(img, 4 * k);
            match called(img, targets, pc) {
                Some(reg) => Some((pc, format_from(img, pc, reg, 1))),
                None => None,
            }
        };
    if n > 0 {
        lemma_sites_exact(img, targets, i + 1, (n - 1) as nat);
        lemma_numbers_first(i, n);
        let rest = numbers(i + 1, (n - 1) as nat);
        lemma_filter_map_first(i, rest, f);
        let none = Seq::<(u32, FoundView)>::empty();
        assert(none + rest.filter_map(f) =~= rest.filter_map(f));
    } else {
        assert(numbers(i, n).filter_map(f) =~= Seq::empty());
    }
}

/// The call sites are those of the words of the image that call a target, each once and in order,
/// with the format that the register of the target holds there.
pub proof fn law_sites_are_listed_in_order(img: ImgView, targets: Seq<(u32, u32)>)
    ensures
        sites_from(img, targets, 0) == numbers(0, img.d.len() / 4).filter_map(
            |k: int|
                {
                    let pc = place(img, 4 * k);
                    match called(img, targets, pc) {
                        Some(reg) => Some((pc, format_from(img, pc, reg, 1))),
                        None => None,
                    }
                },
        ),
{
    lemma_sites_exact(img, targets, 0, img.d.len() / 4);
}

/// A word is a call site just where it is a branch with a link to a target, on any condition; the
/// register is that of the target.
pub proof fn law_what_is_a_call_site(
    img: ImgView,
    targets: Seq<(u32, u32)>,
    pc: u32,
    cond: int,
    words: int,
)
    requires
        0 <= cond <= 14,
        -0x80_0000 <= words < 0x80_0000,
    ensures
        word(img, pc) == branch_word(cond, true, words) ==> called(img, targets, pc) == lookup(
            targets,
            ((pc + 8 + 4 * words) % 0x1_0000_0000) as u32,
        ),
        word(img, pc) == branch_word(cond, false, words) ==> called(img, targets, pc) is None,
{
    law_a_branch_is_read_back(cond, true, words, pc);
    law_a_branch_is_read_back(cond, false, words, pc);
}

/// A format text is used as often as it is found, and the place that is shown for it is the first.
pub proof fn law_uses_are_counted(v: Seq<(u32, Seq<char>)>, t: Seq<char>, n: int)
    requires
        0 <= n <= v.len(),
    ensures
        uses(v, t, n) == v.take(n).filter(|s: (u32, Seq<char>)| s.1 == t).len(),
    decreases n,
{
    reveal(Seq::filter);
    if n > 0 {
        law_uses_are_counted(v, t, n - 1);
        assert(v.take(n).drop_last() =~= v.take(n - 1));
        assert(v.take(n).last() == v[n - 1]);
    } else {
        assert(v.take(0) =~= Seq::empty());
    }
}

/// The place that is shown for a text is that of its first use.
pub proof fn law_the_first_use_is_shown(v: Seq<(u32, Seq<char>)>, i: int, k: int)
    requires
        0 <= i <= k < v.len(),
        forall|j: int| i <= j < k ==> (#[trigger] v[j]).1 != v[k].1,
    ensures
        first_use(v, v[k].1, i) == v[k].0,
    decreases k - i,
{
    if i < k {
        assert(v[i].1 != v[k].1);
        law_the_first_use_is_shown(v, i + 1, k);
    }
}

/// What is shown for a format tells what was found: the string in quotation marks, or in angle
/// brackets the word, the address or the place of the instruction, or that it was given up.
#[verifier::rlimit(60)]
pub proof fn law_findings_are_told_apart(v: u32, w: u32, q: Seq<char>, d: Seq<char>, s: Seq<char>)
    ensures
        found_text(FoundView::Literal(s), q, d) == q,
        begins(found_text(FoundView::Pointer(v), q, d), "<pointer "@ + address(v)),
        begins(found_text(FoundView::Adr(v), q, d), "<adr "@ + address(v)),
        begins(found_text(FoundView::Computed(v, w), q, d), "<computed at "@ + address(v)),
        contains(found_text(FoundView::Computed(v, w), q, d), d),
        begins(found_text(FoundView::Unresolved, q, d), "<not resolved"@),
{
    reveal_strlit("<not resolved within 40 instructions>");
    reveal_strlit("<not resolved");
    let a = found_text(FoundView::Pointer(v), q, d);
    let b = found_text(FoundView::Adr(v), q, d);
    let c = found_text(FoundView::Computed(v, w), q, d);
    law_parts_are_found(
        Seq::empty(),
        "<pointer "@ + address(v),
        ", not a literal string>"@,
        Seq::empty(),
    );
    law_parts_are_found(Seq::empty(), "<adr "@ + address(v), ", not a string>"@, Seq::empty());
    law_parts_are_found(
        Seq::empty(),
        "<computed at "@ + address(v),
        ": "@ + d + ">"@,
        Seq::empty(),
    );
    assert(c =~= ("<computed at "@ + address(v)) + (": "@ + d + ">"@));
    law_parts_are_found("<computed at "@ + address(v) + ": "@, d, ">"@, Seq::empty());
    let u = found_text(FoundView::Unresolved, q, d);
    assert(u.take(13) =~= "<not resolved"@);
}

/// Every call site has its line, with its place and its text.
#[verifier::rlimit(60)]
pub proof fn law_every_site_has_its_line(v: Seq<(u32, Seq<char>)>, n: int, k: int)
    requires
        0 <= k < n <= v.len(),
    ensures
        contains(site_lines(v, n), "  "@ + address(v[k].0) + "  "@ + v[k].1 + "\n"@),
    decreases n,
{
    let own = "  "@ + address(v[n - 1].0) + "  "@ + v[n - 1].1 + "\n"@;
    let before = site_lines(v, n - 1);
    let none = Seq::<char>::empty();
    let all = site_lines(v, n);
    assert(all =~= before + own);
    if k < n - 1 {
        law_every_site_has_its_line(v, n - 1, k);
        lemma_contained_further(
            none,
            before,
            own,
            "  "@ + address(v[k].0) + "  "@ + v[k].1 + "\n"@,
        );
        assert(none + before + own =~= all);
    } else {
        law_parts_are_found(before, own, none, none);
        assert(before + own + none =~= all);
    }
}

/// Every format text has its line, with how often it is used and where first.
pub proof fn law_every_text_has_its_line(
    v: Seq<(u32, Seq<char>)>,
    words: Seq<Seq<char>>,
    n: int,
    k: int,
)
    requires
        0 <= k < n <= words.len(),
    ensures
        contains(
            vocabulary_lines(v, words, n),
            "    "@ + pad_right(debug_form(words[k]), 52) + " x"@ + dec(
                uses(v, words[k], v.len() as int),
            ) + "  "@ + address(first_use(v, words[k], 0)) + "\n"@,
        ),
    decreases n,
{
    let t = words[n - 1];
    let own = vocabulary_line(debug_form(t), uses(v, t, v.len() as int), first_use(v, t, 0));
    let before = vocabulary_lines(v, words, n - 1);
    let none = Seq::<char>::empty();
    if k < n - 1 {
        law_every_text_has_its_line(v, words, n - 1, k);
        lemma_contained_further(
            none,
            before,
            own,
            vocabulary_line(
                debug_form(words[k]),
                uses(v, words[k], v.len() as int),
                first_use(v, words[k], 0),
            ),
        );
        assert(none + before + own =~= before + own);
    } else {
        law_parts_are_found(before, own, none, none);
        assert(before + own + none =~= before + own);
    }
}

/// The list of call sites is headed by its targets, has all sites, their number and the number of
/// texts, and ends with the texts.
#[verifier::rlimit(60)]
pub proof fn law_the_list_of_sites_is_whole(targets: Seq<(u32, u32)>, v: Seq<(u32, Seq<char>)>)
    ensures
        ({
            let words = vocabulary(v, v.len() as int);
            let s = callfmt_text(targets, v);
            &&& begins(s, "\n=== call sites of "@ + target_map(targets, targets.len() as int) + "}"@)
            &&& contains(s, site_lines(v, v.len() as int))
            &&& contains(s, dec(v.len()) + " call sites, "@ + dec(words.len()) + " distinct"@)
            &&& ends(s, vocabulary_lines(v, words, words.len() as int))
        }),
{
    let words = vocabulary(v, v.len() as int);
    let a = "\n=== call sites of "@ + target_map(targets, targets.len() as int);
    let b = "} with their format strings ===\n"@;
    let l = site_lines(v, v.len() as int);
    let c = "\n  "@;
    let d = dec(v.len()) + " call sites, "@ + dec(words.len());
    let e = " distinct format strings:\n"@;
    let f = vocabulary_lines(v, words, words.len() as int);
    reveal_strlit("}");
    reveal_strlit("} with their format strings ===\n");
    reveal_strlit(" distinct");
    reveal_strlit(" distinct format strings:\n");
    assert(b.take(1) =~= "}"@);
    assert(e.take(9) =~= " distinct"@);
    assert(callfmt_text(targets, v) =~= a + b + l + c + d + e + f);
    lemma_site_parts(a, b, "}"@, l, c, d, e, " distinct"@, f);
}

#[verifier::rlimit(60)]
proof fn lemma_site_parts(
    a: Seq<char>,
    b: Seq<char>,
    b1: Seq<char>,
    l: Seq<char>,
    c: Seq<char>,
    d: Seq<char>,
    e: Seq<char>,
    e1: Seq<char>,
    f: Seq<char>,
)
    requires
        begins(b, b1),
        begins(e, e1),
    ensures
        ({
            let s = a + b + l + c + d + e + f;
            begins(s, a + b1) && contains(s, l) && contains(s, d + e1) && ends(s, f)
        }),
{
    let s = a + b + l + c + d + e + f;
    let r = l + c + d + e + f;
    assert(s =~= a + b + r);
    lemma_begun(a, b, b1, r);
    lemma_amid(a + b + l + c, d, e, e1, f);
    let t = c + d + e + f;
    assert(s =~= a + b + l + t);
    law_parts_are_found(a + b, l, t, s);
    law_parts_are_found(a + b + l + c + d + e, f, Seq::empty(), s);
}

proof fn lemma_begun(a: Seq<char>, b: Seq<char>, b1: Seq<char>, r: Seq<char>)
    requires
        begins(b, b1),
    ensures
        begins(a + b + r, a + b1),
{
    let p = a + b1;
    assert((a + b + r).take(p.len() as int) =~= a + b.take(b1.len() as int));
}

proof fn lemma_amid(x: Seq<char>, d: Seq<char>, e: Seq<char>, e1: Seq<char>, f: Seq<char>)
    requires
        begins(e, e1),
    ensures
        contains(x + d + e + f, d + e1),
{
    let s = x + d + e + f;
    let q = d + e1;
    let i = x.len() as int;
    assert(s.subrange(i, i + q.len()) =~= d + e.take(e1.len() as int));
    assert(occurs_at(s, q, i));
}

} // verus!
