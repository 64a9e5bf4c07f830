//! The text of the coverage audit, and its control against counts that were made by hand.

use vstd::prelude::*;

use crate::audit::{
    append_imports, drop_held, gather, list_names, most_declared_by, pick_framework,
};
#[allow(unused_imports)]
use crate::audit::{
    all_hard, all_soft, all_used, declared, framework_names, hard_lists, law_all_titles_count,
    law_every_framework_is_named,
    law_lists_are_filtered, law_the_largest_declared_size_counts, lemma_concat_holds,
    lemma_filter_holds, most_declared, of_framework, published_lists, soft_lists, some_may_need,
    some_needs, title_views, without,
};
use crate::coverage::{Title, TitleView};
use crate::imports::{
    count_import, distinct_imports, holds_import, make_import, render_imports, Import, ImportView,
};
#[allow(unused_imports)]
use crate::imports::{
    distinct, import_list, import_views, law_distinct_is_exact, law_distinct_keeps_every_import,
    lemma_import_less_total, times,
};
use crate::text::{push_dec, push_dec_left, push_right, push_run, same_text};
#[allow(unused_imports)]
use crate::text::{
    begins, contains, dec, ends, law_parts_are_found, lemma_contained_further, pad_left, pad_right,
    run_of, texts,
};

verus! {

// ---------------------------------------------------------------- frameworks

/// The ordinals of a list in brackets.
pub open spec fn ordinal_list(v: Seq<ImportView>, n: int) -> Seq<char>
    decreases n,
{
    if n <= 0 {
        "["@
    } else {
        ordinal_list(v, n - 1) + (if n > 1 {
            ", "@
        } else {
            ""@
        }) + dec(v[n - 1].ord as nat)
    }
}

fn render_ordinals(v: &Vec<Import>) -> (out: String)
    ensures
        out@ == ordinal_list(import_views(v@), v@.len() as int) + "]"@,
{
    let mut out = String::from_str("[");
    let mut i: usize = 0;
    while i < v.len()
        invariant
            i <= v@.len(),
            out@ == ordinal_list(import_views(v@), i as int),
        decreases v@.len() - i,
    {
        assert(import_views(v@)[i as int] == v@[i as int]@);
        if i > 0 {
            out.append(", ");
        } else {
            out.append("");
        }
        push_dec(&mut out, v[i].ord as u128);
        i += 1;
    }
    out.append("]");
    out
}

/// What the audit says of one framework: how many thunks it publishes, the ordinals that are used,
/// those that are used and implemented, those that are missing, those that are missing and only
/// soft, and those that are implemented and never used.
pub struct Standing {
    pub count: int,
    pub used: Seq<ImportView>,
    pub live: int,
    pub missing: Seq<ImportView>,
    pub soft: Seq<ImportView>,
    pub dead: Seq<ImportView>,
}

/// The standing of a framework.
pub open spec fn standing(v: Seq<TitleView>, done: Seq<ImportView>, fw: Seq<char>) -> Standing {
    let used = of_framework(all_used(v), fw);
    Standing {
        count: most_declared(v, fw),
        used,
        live: used.len() - without(used, done).len(),
        missing: without(of_framework(all_hard(v), fw), done),
        soft: without(of_framework(all_soft(v), fw), done),
        dead: without(of_framework(done, fw), all_used(v)),
    }
}

/// A line of ordinals under a framework; nothing when there are none.
pub open spec fn ordinals_line(head: Seq<char>, v: Seq<ImportView>) -> Seq<char> {
    if v.len() == 0 {
        ""@
    } else {
        run_of(' ', 14) + head + (ordinal_list(v, v.len() as int) + "]"@) + "\n"@
    }
}

/// The row of numbers of the table.
pub open spec fn number_row(
    name: Seq<char>,
    published: int,
    called: int,
    live: int,
    missing: int,
    soft: int,
) -> Seq<char> {
    pad_right(name, 14) + pad_left(dec(published as nat), 5, ' ') + pad_left(
        dec(called as nat),
        8,
        ' ',
    ) + pad_left(dec(live as nat), 6, ' ') + pad_left(dec(missing as nat), 9, ' ') + pad_left(
        dec(soft as nat),
        7,
        ' ',
    ) + "\n"@
}

/// The lines of one framework.
pub open spec fn standing_lines(fw: Seq<char>, s: Standing) -> Seq<char> {
    number_row(
        fw,
        s.count,
        s.used.len() as int,
        s.live,
        s.missing.len() as int,
        s.soft.len() as int,
    ) + ordinals_line("  missing: "@, s.missing) + ordinals_line("  soft:    "@, s.soft)
        + ordinals_line("  implemented but never called: "@, s.dead)
}

/// The lines of the first `n` frameworks.
pub open spec fn all_standing_lines(
    v: Seq<TitleView>,
    done: Seq<ImportView>,
    names: Seq<Seq<char>>,
    n: int,
) -> Seq<char>
    decreases n,
{
    if n <= 0 {
        Seq::empty()
    } else {
        all_standing_lines(v, done, names, n - 1) + standing_lines(
            names[n - 1],
            standing(v, done, names[n - 1]),
        )
    }
}

/// The sums of the columns.
pub struct Totals {
    pub published: u128,
    pub called: u128,
    pub live: u128,
    pub missing: u128,
    pub soft: u128,
}

/// The sums of the columns as integers: published, called, live, missing, soft.
pub open spec fn sums(
    v: Seq<TitleView>,
    done: Seq<ImportView>,
    names: Seq<Seq<char>>,
    n: int,
) -> (int, int, int, int, int)
    decreases n,
{
    if n <= 0 {
        (0, 0, 0, 0, 0)
    } else {
        let t = sums(v, done, names, n - 1);
        let s = standing(v, done, names[n - 1]);
        (
            t.0 + s.count,
            t.1 + s.used.len(),
            t.2 + s.live,
            t.3 + s.missing.len(),
            t.4 + s.soft.len(),
        )
    }
}

fn push_number_row(
    out: &mut String,
    name: &str,
    published: u128,
    called: u128,
    live: u128,
    missing: u128,
    soft: u128,
)
    ensures
        final(out)@ == old(out)@ + number_row(
            name@,
            published as int,
            called as int,
            live as int,
            missing as int,
            soft as int,
        ),
{
    let mut line = String::from_str("");
    push_right(&mut line, name, 14);
    proof {
        reveal_strlit("");
    }
    assert(line@ =~= pad_right(name@, 14));
    push_dec_left(&mut line, published, 5);
    push_dec_left(&mut line, called, 8);
    push_dec_left(&mut line, live, 6);
    push_dec_left(&mut line, missing, 9);
    push_dec_left(&mut line, soft, 7);
    line.append("\n");
    out.append(line.as_str());
}

fn render_ordinals_line(head: &str, v: &Vec<Import>) -> (out: String)
    ensures
        out@ == ordinals_line(head@, import_views(v@)),
{
    if v.len() == 0 {
        return String::from_str("");
    }
    let mut out = String::new();
    push_run(&mut out, ' ', 14);
    assert(out@ =~= run_of(' ', 14));
    out.append(head);
    out.append(render_ordinals(v).as_str());
    out.append("\n");
    out
}

proof fn lemma_without_len(a: Seq<ImportView>, b: Seq<ImportView>)
    ensures
        without(a, b).len() <= a.len(),
    decreases a.len(),
{
    if a.len() > 0 {
        lemma_without_len(a.drop_last(), b);
    }
}

/// The used ordinals of all titles: hard, soft, and both together.
struct Used {
    hard: Vec<Import>,
    soft: Vec<Import>,
    used: Vec<Import>,
}

spec fn used_holds(u: Used, v: Seq<TitleView>) -> bool {
    &&& import_views(u.hard@) == all_hard(v)
    &&& import_views(u.soft@) == all_soft(v)
    &&& import_views(u.used@) == all_used(v)
}

fn render_standing(v: &Vec<Title>, u: &Used, done: &Vec<Import>, fw: &str) -> (r: (
    String,
    (usize, usize, usize, usize, usize),
))
    requires
        used_holds(*u, title_views(v@)),
    ensures
        ({
            let s = standing(title_views(v@), import_views(done@), fw@);
            &&& r.0@ == standing_lines(fw@, s)
            &&& r.1.0 == s.count
            &&& r.1.1 == s.used.len()
            &&& r.1.2 == s.live
            &&& r.1.3 == s.missing.len()
            &&& r.1.4 == s.soft.len()
        }),
{
    let count: usize = most_declared_by(v, fw);
    let used = pick_framework(&u.used, fw);
    let open = drop_held(&used, done);
    proof {
        lemma_without_len(import_views(used@), import_views(done@));
    }
    assert(import_views(used@).len() == used@.len());
    assert(import_views(open@).len() == open@.len());
    let live: usize = used.len() - open.len();
    let missing = drop_held(&pick_framework(&u.hard, fw), done);
    let soft = drop_held(&pick_framework(&u.soft, fw), done);
    let dead = drop_held(&pick_framework(done, fw), &u.used);
    assert(import_views(missing@).len() == missing@.len());
    assert(import_views(soft@).len() == soft@.len());
    let mut out = String::new();
    push_number_row(
        &mut out,
        fw,
        count as u128,
        used.len() as u128,
        live as u128,
        missing.len() as u128,
        soft.len() as u128,
    );
    assert(out@ =~= number_row(
        fw@,
        count as int,
        used.len() as int,
        live as int,
        missing.len() as int,
        soft.len() as int,
    ));
    out.append(render_ordinals_line("  missing: ", &missing).as_str());
    out.append(render_ordinals_line("  soft:    ", &soft).as_str());
    out.append(render_ordinals_line("  implemented but never called: ", &dead).as_str());
    (out, (count, used.len(), live, missing.len(), soft.len()))
}

fn render_standings(v: &Vec<Title>, u: &Used, done: &Vec<Import>, names: &Vec<String>) -> (r: (
    String,
    Totals,
))
    requires
        used_holds(*u, title_views(v@)),
    ensures
        r.0@ == all_standing_lines(
            title_views(v@),
            import_views(done@),
            texts(names@),
            names@.len() as int,
        ),
        (
            r.1.published as int,
            r.1.called as int,
            r.1.live as int,
            r.1.missing as int,
            r.1.soft as int,
        ) == sums(title_views(v@), import_views(done@), texts(names@), names@.len() as int),
{
    let ghost ts = title_views(v@);
    let ghost dn = import_views(done@);
    let ghost m = usize::MAX as int;
    let mut out = String::new();
    let mut t = Totals { published: 0, called: 0, live: 0, missing: 0, soft: 0 };
    let mut n: usize = 0;
    proof {
        assert(m * m <= 0xffff_ffff_ffff_ffff * 0xffff_ffff_ffff_ffff) by (nonlinear_arith)
            requires
                0 <= m <= 0xffff_ffff_ffff_ffff,
        ;
    }
    assert(names@.len() == names.len());
    while n < names.len()
        invariant
            n <= names@.len() <= m,
            m == usize::MAX,
            m * m < u128::MAX,
            ts == title_views(v@),
            dn == import_views(done@),
            used_holds(*u, ts),
            out@ == all_standing_lines(ts, dn, texts(names@), n as int),
            (
                t.published as int,
                t.called as int,
                t.live as int,
                t.missing as int,
                t.soft as int,
            ) == sums(ts, dn, texts(names@), n as int),
            t.published <= n * m,
            t.called <= n * m,
            t.live <= n * m,
            t.missing <= n * m,
            t.soft <= n * m,
        decreases names@.len() - n,
    {
        assert(texts(names@)[n as int] == names@[n as int]@);
        let (lines, row) = render_standing(v, u, done, names[n].as_str());
        out.append(lines.as_str());
        proof {
            assert(n * m + m <= m * m) by (nonlinear_arith)
                requires
                    0 <= n < m,
            ;
            assert((n + 1) * m == n * m + m) by (nonlinear_arith);
        }
        t.published = t.published + row.0 as u128;
        t.called = t.called + row.1 as u128;
        t.live = t.live + row.2 as u128;
        t.missing = t.missing + row.3 as u128;
        t.soft = t.soft + row.4 as u128;
        n += 1;
    }
    (out, t)
}

// ---------------------------------------------------------------- frequency

/// How many titles reach the ordinal hard.
pub open spec fn reach_count(v: Seq<TitleView>, x: ImportView) -> int
    decreases v.len(),
{
    if v.len() == 0 {
        0
    } else {
        reach_count(v.drop_last(), x) + (if v.last().hard.contains(x) {
            1int
        } else {
            0
        })
    }
}

/// The ordinals of a list that exactly `c` titles reach hard.
pub open spec fn reached_by(v: Seq<TitleView>, a: Seq<ImportView>, c: int) -> Seq<ImportView>
    decreases a.len(),
{
    if a.len() == 0 {
        Seq::empty()
    } else if reach_count(v, a.last()) == c {
        reached_by(v, a.drop_last(), c).push(a.last())
    } else {
        reached_by(v, a.drop_last(), c)
    }
}

/// The lines of the missing ordinals that `c` titles or fewer reach, most titles first.
pub open spec fn frequency_lines(v: Seq<TitleView>, missing: Seq<ImportView>, c: int) -> Seq<char>
    decreases c,
{
    if c <= 0 {
        Seq::empty()
    } else {
        let own = reached_by(v, missing, c);
        (if own.len() == 0 {
            Seq::empty()
        } else {
            pad_left(dec(c as nat), 3, ' ') + "/"@ + dec(v.len()) + ": "@ + import_list(own)
                + "\n"@
        }) + frequency_lines(v, missing, c - 1)
    }
}

fn count_reach(v: &Vec<Title>, x: &Import) -> (n: usize)
    ensures
        n == reach_count(title_views(v@), x@),
{
    let mut n: usize = 0;
    let mut i: usize = 0;
    while i < v.len()
        invariant
            i <= v@.len(),
            n <= i,
            n == reach_count(title_views(v@).take(i as int), x@),
        decreases v@.len() - i,
    {
        assert(title_views(v@).take(i + 1).drop_last() =~= title_views(v@).take(i as int));
        assert(title_views(v@).take(i + 1).last() == v@[i as int]@);
        if holds_import(&v[i].hard, x) {
            n += 1;
        }
        i += 1;
    }
    assert(title_views(v@).take(i as int) =~= title_views(v@));
    n
}

fn pick_reached(v: &Vec<Title>, a: &Vec<Import>, c: usize) -> (r: Vec<Import>)
    ensures
        import_views(r@) == reached_by(title_views(v@), import_views(a@), c as int),
{
    let mut r: Vec<Import> = Vec::new();
    let mut i: usize = 0;
    assert(import_views(r@) =~= reached_by(title_views(v@), import_views(a@).take(0), c as int));
    while i < a.len()
        invariant
            i <= a@.len(),
            import_views(r@) == reached_by(
                title_views(v@),
                import_views(a@).take(i as int),
                c as int,
            ),
        decreases a@.len() - i,
    {
        assert(import_views(a@).take(i + 1).drop_last() =~= import_views(a@).take(i as int));
        assert(import_views(a@).take(i + 1).last() == a@[i as int]@);
        if count_reach(v, &a[i]) == c {
            let ghost was = import_views(r@);
            let x = make_import(a[i].fw.as_str(), a[i].ord);
            r.push(x);
            assert(import_views(r@) =~= was.push(x@));
        }
        i += 1;
    }
    assert(import_views(a@).take(i as int) =~= import_views(a@));
    r
}

fn render_frequency(v: &Vec<Title>, missing: &Vec<Import>) -> (out: String)
    ensures
        out@ == frequency_lines(title_views(v@), import_views(missing@), v@.len() as int),
{
    let ghost ts = title_views(v@);
    let ghost ms = import_views(missing@);
    let mut out = String::new();
    let mut c: usize = v.len();
    let ghost all = frequency_lines(ts, ms, c as int);
    assert(out@ + all =~= all);
    assert(ts.len() == v@.len());
    while c > 0
        invariant
            ts == title_views(v@),
            ts.len() == v@.len(),
            ms == import_views(missing@),
            out@ + frequency_lines(ts, ms, c as int) == all,
        decreases c,
    {
        let own = pick_reached(v, missing, c);
        assert(import_views(own@).len() == own@.len());
        let ghost was = out@;
        let ghost rest = frequency_lines(ts, ms, c - 1);
        if own.len() > 0 {
            let mut line = String::from_str("");
            push_dec_left(&mut line, c as u128, 3);
            proof {
                reveal_strlit("");
            }
            assert(line@ =~= pad_left(dec(c as nat), 3, ' '));
            line.append("/");
            push_dec(&mut line, v.len() as u128);
            line.append(": ");
            line.append(render_imports(&own).as_str());
            line.append("\n");
            out.append(line.as_str());
            assert(out@ + rest =~= was + (line@ + rest));
        } else {
            assert(out@ + rest =~= was + (Seq::<char>::empty() + rest));
        }
        c -= 1;
    }
    assert(out@ + Seq::<char>::empty() =~= out@);
    out
}

// ---------------------------------------------------------------- the audit

/// The text of the audit.
pub open spec fn audit_text(v: Seq<TitleView>, done: Seq<ImportView>) -> Seq<char> {
    let names = framework_names(published_lists(v));
    let t = sums(v, done, names, names.len() as int);
    dec(v.len())
        + " titles scanned\n\nframework       pub  called  impl  MISSING   soft\n"@
        + all_standing_lines(v, done, names, names.len() as int) + number_row(
        "TOTAL"@,
        t.0,
        t.1,
        t.2,
        t.3,
        t.4,
    ) + "\n=== missing ordinals by how many titles call them ===\n"@ + frequency_lines(
        v,
        without(all_hard(v), done),
        v.len() as int,
    )
}

/// The text of the audit: `done` are the ordinals that are implemented.
pub fn render_audit(v: &Vec<Title>, done: &Vec<Import>) -> (out: String)
    ensures
        out@ == audit_text(title_views(v@), import_views(done@)),
{
    let (hard_all, soft_all, published) = gather(v);
    let hard = distinct_imports(&hard_all);
    let soft = drop_held(&distinct_imports(&soft_all), &hard);
    let mut both: Vec<Import> = Vec::new();
    append_imports(&mut both, &hard);
    append_imports(&mut both, &soft);
    assert(import_views(both@) =~= import_views(hard@) + import_views(soft@));
    let used = distinct_imports(&both);
    let names = list_names(&published);
    assert(texts(names@).len() == names@.len());
    let u = Used { hard, soft, used };
    let (lines, t) = render_standings(v, &u, done, &names);
    let mut out = String::from_str("");
    push_dec(&mut out, v.len() as u128);
    proof {
        reveal_strlit("");
    }
    assert(out@ =~= dec(v@.len()));
    out.append(" titles scanned\n\nframework       pub  called  impl  MISSING   soft\n");
    out.append(lines.as_str());
    push_number_row(&mut out, "TOTAL", t.published, t.called, t.live, t.missing, t.soft);
    out.append("\n=== missing ordinals by how many titles call them ===\n");
    out.append(render_frequency(v, &drop_held(&u.hard, done)).as_str());
    out
}

/// The lines of the first `n` titles: name, number of missing ordinals and what they are.
pub open spec fn per_title_lines(v: Seq<TitleView>, done: Seq<ImportView>, n: int) -> Seq<char>
    decreases n,
{
    if n <= 0 {
        "\n=== per title ===\n"@
    } else {
        let t = v[n - 1];
        let missing = without(t.hard, done);
        per_title_lines(v, done, n - 1) + pad_right(t.name, 14) + pad_left(
            dec(missing.len()),
            3,
            ' ',
        ) + "  "@ + import_list(missing) + "\n"@
    }
}

/// What each title reaches and is not implemented.
pub fn render_per_title(v: &Vec<Title>, done: &Vec<Import>) -> (out: String)
    ensures
        out@ == per_title_lines(title_views(v@), import_views(done@), v@.len() as int),
{
    let mut out = String::from_str("\n=== per title ===\n");
    let mut i: usize = 0;
    while i < v.len()
        invariant
            i <= v@.len(),
            out@ == per_title_lines(title_views(v@), import_views(done@), i as int),
        decreases v@.len() - i,
    {
        assert(title_views(v@)[i as int] == v@[i as int]@);
        let missing = drop_held(&v[i].hard, done);
        assert(import_views(missing@).len() == missing@.len());
        push_right(&mut out, v[i].name.as_str(), 14);
        push_dec_left(&mut out, missing.len() as u128, 3);
        out.append("  ");
        out.append(render_imports(&missing).as_str());
        out.append("\n");
        i += 1;
    }
    out
}

// ---------------------------------------------------------------- counts made by hand

/// The reference counts of OpenGLES ordinals that were made by hand for Minigolf.
pub open spec fn hand_minigolf() -> Seq<(usize, usize)> {
    seq![
        (4usize, 9usize), (12, 3), (13, 4), (19, 1), (21, 1), (36, 8), (37, 4), (40, 8),
        (53, 24), (84, 1), (99, 1), (101, 1), (125, 1), (137, 8), (157, 1), (158, 1), (159, 5),
        (165, 2), (167, 1), (175, 3),
    ]
}

/// The reference counts of OpenGLES ordinals that were made by hand for Zuma.
pub open spec fn hand_zuma() -> Seq<(usize, usize)> {
    seq![
        (4usize, 17usize), (12, 2), (13, 3), (36, 10), (37, 19), (40, 32), (45, 2), (84, 2),
        (99, 3), (105, 1), (125, 17), (137, 32), (148, 16), (157, 1), (158, 1), (159, 17),
        (165, 26), (167, 3), (169, 14), (171, 5), (173, 7), (175, 7),
    ]
}

/// The reference counts of OpenGLES ordinals that were made by hand for Pacman.
pub open spec fn hand_pacman() -> Seq<(usize, usize)> {
    seq![
        (4usize, 2usize), (12, 3), (13, 2), (35, 2), (36, 3), (37, 6), (38, 2), (40, 6), (99, 2),
        (125, 1), (137, 16), (157, 1), (158, 1), (159, 2), (167, 1),
    ]
}

fn list_minigolf() -> (v: Vec<(usize, usize)>)
    ensures
        v@ == hand_minigolf(),
{
    let v: Vec<(usize, usize)> = vec![
        (4, 9), (12, 3), (13, 4), (19, 1), (21, 1), (36, 8), (37, 4), (40, 8), (53, 24), (84, 1),
        (99, 1), (101, 1), (125, 1), (137, 8), (157, 1), (158, 1), (159, 5), (165, 2), (167, 1),
        (175, 3),
    ];
    assert(v@ =~= hand_minigolf());
    v
}

fn list_zuma() -> (v: Vec<(usize, usize)>)
    ensures
        v@ == hand_zuma(),
{
    let v: Vec<(usize, usize)> = vec![
        (4, 17), (12, 2), (13, 3), (36, 10), (37, 19), (40, 32), (45, 2), (84, 2), (99, 3),
        (105, 1), (125, 17), (137, 32), (148, 16), (157, 1), (158, 1), (159, 17), (165, 26),
        (167, 3), (169, 14), (171, 5), (173, 7), (175, 7),
    ];
    assert(v@ =~= hand_zuma());
    v
}

fn list_pacman() -> (v: Vec<(usize, usize)>)
    ensures
        v@ == hand_pacman(),
{
    let v: Vec<(usize, usize)> = vec![
        (4, 2), (12, 3), (13, 2), (35, 2), (36, 3), (37, 6), (38, 2), (40, 6), (99, 2), (125, 1),
        (137, 16), (157, 1), (158, 1), (159, 2), (167, 1),
    ];
    assert(v@ =~= hand_pacman());
    v
}

/// The titles that were counted by hand, each with its counts.
pub open spec fn hand_counts() -> Seq<(Seq<char>, Seq<(usize, usize)>)> {
    seq![
        ("Minigolf"@, hand_minigolf()),
        ("Zuma"@, hand_zuma()),
        ("Pacman"@, hand_pacman()),
    ]
}

/// The count of an ordinal in a list of counts.
pub open spec fn count_in(v: Seq<(usize, usize)>, ord: int) -> Option<usize>
    decreases v.len(),
{
    if v.len() == 0 {
        None
    } else if v[0].0 == ord {
        Some(v[0].1)
    } else {
        count_in(v.drop_first(), ord)
    }
}

/// The number of references to an ordinal that a scan found, when there is one.
pub open spec fn scanned(t: TitleView, x: ImportView) -> Option<int> {
    if t.hard.contains(x) {
        Some(times(t.refs, x) as int)
    } else {
        None
    }
}

/// The ordinals of a list of counts, as imports of OpenGLES.
pub open spec fn hand_imports(v: Seq<(usize, usize)>) -> Seq<ImportView> {
    v.map_values(|p: (usize, usize)| ImportView { fw: "OpenGLES"@, ord: p.0 as int })
}

/// The ordinals that were counted by hand or found by the scan, in order.
pub open spec fn compared(t: TitleView, want: Seq<(usize, usize)>) -> Seq<ImportView> {
    distinct(hand_imports(want) + of_framework(t.hard, "OpenGLES"@))
}

/// The two counts of an ordinal differ.
pub open spec fn differs(t: TitleView, want: Seq<(usize, usize)>, x: ImportView) -> bool {
    match (count_in(want, x.ord), scanned(t, x)) {
        (Some(a), Some(b)) => a != b,
        (None, None) => false,
        _ => true,
    }
}

/// A count that may be missing, as text.
pub open spec fn count_text(n: Option<int>) -> Seq<char> {
    match n {
        Some(n) => "Some("@ + dec(n as nat) + ")"@,
        None => "None"@,
    }
}

/// The same count as an integer.
pub open spec fn as_count(n: Option<usize>) -> Option<int> {
    match n {
        Some(n) => Some(n as int),
        None => None,
    }
}

/// The lines of the ordinals among the first `n` whose counts differ.
pub open spec fn difference_lines(
    t: TitleView,
    want: Seq<(usize, usize)>,
    v: Seq<ImportView>,
    n: int,
) -> Seq<char>
    decreases n,
{
    if n <= 0 {
        Seq::empty()
    } else {
        let before = difference_lines(t, want, v, n - 1);
        let x = v[n - 1];
        if differs(t, want, x) {
            before + ("  #"@ + dec(x.ord as nat) + ": §18 says "@ + count_text(
                as_count(count_in(want, x.ord)),
            ) + ", scan says "@ + count_text(scanned(t, x)) + "\n"@)
        } else {
            before
        }
    }
}

/// No count of the title differs from the one that was made by hand.
pub open spec fn counts_hold(t: TitleView, want: Seq<(usize, usize)>) -> bool {
    forall|k: int|
        0 <= k < compared(t, want).len() ==> !differs(t, want, #[trigger] compared(t, want)[k])
}

/// The first title of that name.
pub open spec fn titled(v: Seq<TitleView>, name: Seq<char>, i: int) -> Option<TitleView>
    decreases v.len() - i,
{
    if i < 0 || i >= v.len() {
        None
    } else if v[i].name == name {
        Some(v[i])
    } else {
        titled(v, name, i + 1)
    }
}

/// The control of one title holds: it was scanned and no count differs.
pub open spec fn control_holds(v: Seq<TitleView>, c: (Seq<char>, Seq<(usize, usize)>)) -> bool {
    match titled(v, c.0, 0) {
        Some(t) => counts_hold(t, c.1),
        None => false,
    }
}

/// The lines of the control of one title.
pub open spec fn control_text(
    v: Seq<TitleView>,
    c: (Seq<char>, Seq<(usize, usize)>),
) -> Seq<char> {
    "verify "@ + c.0 + (match titled(v, c.0, 0) {
        None => ": NOT SCANNED\n"@,
        Some(t) => if counts_hold(t, c.1) {
            ": ok ("@ + dec(c.1.len()) + " ordinals)\n"@
        } else {
            let keys = compared(t, c.1);
            ": MISMATCH\n"@ + difference_lines(t, c.1, keys, keys.len() as int)
        },
    })
}

fn find_count(v: &Vec<(usize, usize)>, ord: usize) -> (r: Option<usize>)
    ensures
        r == count_in(v@, ord as int),
{
    let mut i: usize = 0;
    assert(v@.skip(0) =~= v@);
    while i < v.len()
        invariant
            i <= v@.len(),
            count_in(v@, ord as int) == count_in(v@.skip(i as int), ord as int),
        decreases v@.len() - i,
    {
        assert(v@.skip(i as int)[0] == v@[i as int]);
        if v[i].0 == ord {
            return Some(v[i].1);
        }
        assert(v@.skip(i as int).drop_first() =~= v@.skip(i + 1));
        i += 1;
    }
    None
}

fn scanned_count(t: &Title, x: &Import) -> (r: Option<usize>)
    ensures
        as_count(r) == scanned(t@, x@),
{
    if holds_import(&t.hard, x) {
        Some(count_import(&t.refs, x))
    } else {
        None
    }
}

fn push_count(out: &mut String, n: Option<usize>)
    ensures
        final(out)@ == old(out)@ + count_text(as_count(n)),
{
    match n {
        Some(n) => {
            let mut t = String::from_str("Some(");
            push_dec(&mut t, n as u128);
            t.append(")");
            out.append(t.as_str());
        },
        None => out.append("None"),
    }
}

fn list_compared(t: &Title, want: &Vec<(usize, usize)>) -> (r: Vec<Import>)
    ensures
        import_views(r@) == compared(t@, want@),
{
    let mut all: Vec<Import> = Vec::new();
    let mut i: usize = 0;
    assert(import_views(all@) =~= hand_imports(want@.take(0)));
    while i < want.len()
        invariant
            i <= want@.len(),
            import_views(all@) == hand_imports(want@.take(i as int)),
        decreases want@.len() - i,
    {
        let ghost was = import_views(all@);
        let x = make_import("OpenGLES", want[i].0);
        all.push(x);
        assert(import_views(all@) =~= was.push(x@));
        i += 1;
        assert(import_views(all@) =~= hand_imports(want@.take(i as int)));
    }
    assert(want@.take(i as int) =~= want@);
    append_imports(&mut all, &pick_framework(&t.hard, "OpenGLES"));
    distinct_imports(&all)
}

fn render_differences(t: &Title, want: &Vec<(usize, usize)>) -> (r: (bool, String))
    ensures
        r.0 == counts_hold(t@, want@),
        r.1@ == difference_lines(
            t@,
            want@,
            compared(t@, want@),
            compared(t@, want@).len() as int,
        ),
{
    let keys = list_compared(t, want);
    let ghost ks = import_views(keys@);
    assert(ks.len() == keys@.len());
    let mut ok = true;
    let mut out = String::new();
    let mut n: usize = 0;
    while n < keys.len()
        invariant
            n <= keys@.len(),
            ks == import_views(keys@),
            ks == compared(t@, want@),
            ks.len() == keys@.len(),
            out@ == difference_lines(t@, want@, ks, n as int),
            ok ==> forall|k: int| 0 <= k < n ==> !differs(t@, want@, #[trigger] ks[k]),
            !ok ==> !counts_hold(t@, want@),
        decreases keys@.len() - n,
    {
        assert(ks[n as int] == keys@[n as int]@);
        let w = find_count(want, keys[n].ord);
        let g = scanned_count(t, &keys[n]);
        let same = match (w, g) {
            (Some(a), Some(b)) => a == b,
            (None, None) => true,
            _ => false,
        };
        assert(same == !differs(t@, want@, ks[n as int]));
        if !same {
            ok = false;
            let mut line = String::from_str("  #");
            push_dec(&mut line, keys[n].ord as u128);
            line.append(": §18 says ");
            push_count(&mut line, w);
            line.append(", scan says ");
            push_count(&mut line, g);
            line.append("\n");
            out.append(line.as_str());
        }
        n += 1;
    }
    (ok, out)
}

fn find_title<'a>(v: &'a Vec<Title>, name: &str) -> (r: Option<&'a Title>)
    ensures
        match r {
            Some(t) => titled(title_views(v@), name@, 0) == Some(t@),
            None => titled(title_views(v@), name@, 0) is None,
        },
{
    let mut i: usize = 0;
    while i < v.len()
        invariant
            i <= v@.len(),
            titled(title_views(v@), name@, 0) == titled(title_views(v@), name@, i as int),
        decreases v@.len() - i,
    {
        assert(title_views(v@)[i as int] == v@[i as int]@);
        if same_text(v[i].name.as_str(), name) {
            return Some(&v[i]);
        }
        i += 1;
    }
    None
}

fn render_control(v: &Vec<Title>, name: &str, want: &Vec<(usize, usize)>) -> (r: (bool, String))
    ensures
        r.0 == control_holds(title_views(v@), (name@, want@)),
        r.1@ == control_text(title_views(v@), (name@, want@)),
{
    let mut out = String::from_str("verify ");
    out.append(name);
    match find_title(v, name) {
        None => {
            out.append(": NOT SCANNED\n");
            (false, out)
        },
        Some(t) => {
            let (ok, lines) = render_differences(t, want);
            if ok {
                let mut tail = String::from_str(": ok (");
                push_dec(&mut tail, want.len() as u128);
                tail.append(" ordinals)\n");
                out.append(tail.as_str());
            } else {
                let mut tail = String::from_str(": MISMATCH\n");
                tail.append(lines.as_str());
                out.append(tail.as_str());
            }
            (ok, out)
        },
    }
}

/// Holds the scan against the counts that were made by hand: whether all of them hold, and the
/// lines that say so.
pub fn verify(v: &Vec<Title>) -> (r: (bool, String))
    ensures
        r.0 == (forall|k: int|
            0 <= k < 3 ==> control_holds(title_views(v@), #[trigger] hand_counts()[k])),
        r.1@ == control_text(title_views(v@), hand_counts()[0]) + control_text(
            title_views(v@),
            hand_counts()[1],
        ) + control_text(title_views(v@), hand_counts()[2]),
{
    let (a, first) = render_control(v, "Minigolf", &list_minigolf());
    let (b, second) = render_control(v, "Zuma", &list_zuma());
    let (c, third) = render_control(v, "Pacman", &list_pacman());
    assert(hand_counts()[0] == ("Minigolf"@, hand_minigolf()));
    assert(hand_counts()[1] == ("Zuma"@, hand_zuma()));
    assert(hand_counts()[2] == ("Pacman"@, hand_pacman()));
    let mut out = first;
    out.append(second.as_str());
    out.append(third.as_str());
    (a && b && c, out)
}

// ---------------------------------------------------------------- laws

proof fn lemma_times_contains(v: Seq<ImportView>, x: ImportView)
    ensures
        times(v, x) > 0 <==> v.contains(x),
    decreases v.len(),
{
    if v.len() > 0 {
        let rest = v.drop_last();
        lemma_times_contains(rest, x);
        if v.last() == x {
            assert(v[v.len() - 1] == x);
        }
        if rest.contains(x) {
            let k = choose|k: int| 0 <= k < rest.len() && rest[k] == x;
            assert(v[k] == x);
        }
        if v.contains(x) && v.last() != x {
            let k = choose|k: int| 0 <= k < v.len() && v[k] == x;
            assert(rest[k] == x);
        }
    }
}

proof fn lemma_push_contains(v: Seq<ImportView>, y: ImportView, x: ImportView)
    ensures
        v.push(y).contains(x) <==> v.contains(x) || x == y,
{
    let p = v.push(y);
    if x == y {
        assert(p[v.len() as int] == x);
    }
    if v.contains(x) {
        let k = choose|k: int| 0 <= k < v.len() && v[k] == x;
        assert(p[k] == x);
    }
    if p.contains(x) && x != y {
        let k = choose|k: int| 0 <= k < p.len() && p[k] == x;
        assert(v[k] == x);
    }
}

proof fn lemma_last_contains(a: Seq<ImportView>, x: ImportView)
    requires
        a.len() > 0,
    ensures
        a.contains(x) <==> a.drop_last().contains(x) || x == a.last(),
{
    assert(a =~= a.drop_last().push(a.last()));
    lemma_push_contains(a.drop_last(), a.last(), x);
}

proof fn lemma_without(a: Seq<ImportView>, b: Seq<ImportView>)
    requires
        a.no_duplicates(),
    ensures
        without(a, b).no_duplicates(),
        forall|x: ImportView|
            #[trigger] without(a, b).contains(x) <==> a.contains(x) && !b.contains(x),
    decreases a.len(),
{
    if a.len() > 0 {
        let rest = a.drop_last();
        lemma_without(rest, b);
        assert(!rest.contains(a.last()));
        let w = without(rest, b);
        if !b.contains(a.last()) {
            assert(!w.contains(a.last()));
            assert(w.push(a.last()).no_duplicates());
        }
        assert forall|x: ImportView| #[trigger] without(a, b).contains(x) <==> a.contains(x)
            && !b.contains(x) by {
            lemma_last_contains(a, x);
            lemma_push_contains(w, a.last(), x);
            assert(w.contains(x) <==> rest.contains(x) && !b.contains(x));
        }
    }
}

proof fn lemma_of_framework(a: Seq<ImportView>, fw: Seq<char>)
    requires
        a.no_duplicates(),
    ensures
        of_framework(a, fw).no_duplicates(),
        forall|x: ImportView|
            #[trigger] of_framework(a, fw).contains(x) <==> a.contains(x) && x.fw == fw,
    decreases a.len(),
{
    if a.len() > 0 {
        let rest = a.drop_last();
        lemma_of_framework(rest, fw);
        assert(!rest.contains(a.last()));
        let w = of_framework(rest, fw);
        if a.last().fw == fw {
            assert(!w.contains(a.last()));
            assert(w.push(a.last()).no_duplicates());
        }
        assert forall|x: ImportView| #[trigger] of_framework(a, fw).contains(x) <==> a.contains(x)
            && x.fw == fw by {
            lemma_last_contains(a, x);
            lemma_push_contains(w, a.last(), x);
            assert(w.contains(x) <==> rest.contains(x) && x.fw == fw);
        }
    }
}

proof fn lemma_distinct(v: Seq<ImportView>)
    ensures
        distinct(v).no_duplicates(),
        forall|x: ImportView| #[trigger] distinct(v).contains(x) <==> v.contains(x),
{
    law_distinct_is_exact(v);
    let d = distinct(v);
    assert forall|i: int, j: int| 0 <= i < d.len() && 0 <= j < d.len() && i != j implies d[i]
        != d[j] by {
        if i < j {
            lemma_import_less_total(d[i], d[j]);
        } else {
            lemma_import_less_total(d[j], d[i]);
        }
    }
    assert forall|x: ImportView| #[trigger] distinct(v).contains(x) <==> v.contains(x) by {
        lemma_times_contains(v, x);
    }
}

/// Of the ordinals of a framework that the titles use each is implemented, or missing, or missing
/// and only soft: the three numbers add up to the number that is used. An ordinal that is
/// implemented and never used is none of them.
pub proof fn law_audit_adds_up(v: Seq<TitleView>, done: Seq<ImportView>, fw: Seq<char>)
    ensures
        ({
            let s = standing(v, done, fw);
            &&& s.used.len() == s.live + s.missing.len() + s.soft.len()
            &&& forall|x: ImportView|
                s.dead.contains(x) ==> !s.used.contains(x)
        }),
{
    let s = standing(v, done, fw);
    let hard = all_hard(v);
    let soft = all_soft(v);
    let used = all_used(v);
    lemma_distinct(hard_lists(v));
    lemma_distinct(soft_lists(v));
    lemma_without(distinct(soft_lists(v)), hard);
    lemma_distinct(hard + soft);
    lemma_of_framework(hard, fw);
    lemma_of_framework(soft, fw);
    lemma_of_framework(used, fw);
    lemma_without(of_framework(hard, fw), done);
    lemma_without(of_framework(soft, fw), done);
    lemma_without(of_framework(used, fw), done);
    let open = without(of_framework(used, fw), done);
    assert forall|x: ImportView| (hard + soft).contains(x) <==> hard.contains(x)
        || soft.contains(x) by {
        if hard.contains(x) {
            let k = choose|k: int| 0 <= k < hard.len() && hard[k] == x;
            assert((hard + soft)[k] == x);
        }
        if soft.contains(x) {
            let k = choose|k: int| 0 <= k < soft.len() && soft[k] == x;
            assert((hard + soft)[hard.len() + k] == x);
        }
        if (hard + soft).contains(x) {
            let k = choose|k: int| 0 <= k < (hard + soft).len() && (hard + soft)[k] == x;
            if k < hard.len() {
                assert(hard[k] == x);
            } else {
                assert(soft[k - hard.len()] == x);
            }
        }
    }
    assert forall|x: ImportView| open.contains(x) <==> s.missing.contains(x) || s.soft.contains(
        x,
    ) by {
        assert(used.contains(x) <==> (hard + soft).contains(x));
    }
    assert(open.to_set() =~= s.missing.to_set() + s.soft.to_set());
    assert(s.missing.to_set().disjoint(s.soft.to_set())) by {
        assert forall|x: ImportView| !(s.missing.contains(x) && s.soft.contains(x)) by {
            if s.missing.contains(x) && s.soft.contains(x) {
                assert(hard.contains(x) && soft.contains(x));
            }
        }
    }
    vstd::set_lib::lemma_set_disjoint_lens(s.missing.to_set(), s.soft.to_set());
    open.unique_seq_to_set();
    s.missing.unique_seq_to_set();
    s.soft.unique_seq_to_set();
    assert forall|x: ImportView| s.dead.contains(x) implies !s.used.contains(x) by {
        lemma_without_excludes(of_framework(done, fw), used, x);
    }
}

proof fn lemma_without_excludes(a: Seq<ImportView>, b: Seq<ImportView>, x: ImportView)
    requires
        without(a, b).contains(x),
    ensures
        !b.contains(x),
    decreases a.len(),
{
    let w = without(a, b);
    if a.len() > 0 {
        let rest = a.drop_last();
        if b.contains(a.last()) {
            lemma_without_excludes(rest, b, x);
        } else {
            lemma_push_contains(without(rest, b), a.last(), x);
            if x != a.last() {
                lemma_without_excludes(rest, b, x);
            }
        }
    }
}

// ---------------------------------------------------------------- what a standing says

/// The standing of a framework says of each of its ordinals what it is: used where a title needs
/// it or may need it; missing where a title needs it and it is not implemented; soft where titles
/// only may need it and it is not implemented; dead where it is implemented and no title even may
/// need it. Those that are live are the used ones that are implemented, and the size is the largest
/// that a title declares.
pub proof fn law_a_standing_is_exact(
    v: Seq<TitleView>,
    done: Seq<ImportView>,
    fw: Seq<char>,
    x: ImportView,
)
    ensures
        ({
            let s = standing(v, done, fw);
            let own = x.fw == fw;
            &&& s.used.contains(x) <==> own && (some_needs(v, x) || some_may_need(v, x))
            &&& s.missing.contains(x) <==> own && some_needs(v, x) && !done.contains(x)
            &&& s.soft.contains(x) <==> own && some_may_need(v, x) && !some_needs(v, x)
                && !done.contains(x)
            &&& s.dead.contains(x) <==> own && done.contains(x) && !some_needs(v, x)
                && !some_may_need(v, x)
            &&& s.live == s.used.filter(|y: ImportView| done.contains(y)).len()
            &&& forall|k: int|
                0 <= k < v.len() ==> declared((#[trigger] v[k]).published, fw) <= s.count
            &&& s.count == 0 || exists|k: int|
                0 <= k < v.len() && declared((#[trigger] v[k]).published, fw) == s.count
        }),
{
    let s = standing(v, done, fw);
    law_all_titles_count(v, x);
    law_lists_are_filtered(all_used(v), done, fw, x);
    law_lists_are_filtered(all_hard(v), done, fw, x);
    law_lists_are_filtered(of_framework(all_hard(v), fw), done, fw, x);
    law_lists_are_filtered(all_soft(v), done, fw, x);
    law_lists_are_filtered(of_framework(all_soft(v), fw), done, fw, x);
    law_lists_are_filtered(done, all_used(v), fw, x);
    law_lists_are_filtered(of_framework(done, fw), all_used(v), fw, x);
    lemma_live(s.used, done);
    law_the_largest_declared_size_counts(v, fw);
}

proof fn lemma_live(a: Seq<ImportView>, done: Seq<ImportView>)
    ensures
        a.len() - without(a, done).len() == a.filter(|y: ImportView| done.contains(y)).len(),
    decreases a.len(),
{
    reveal(Seq::filter);
    if a.len() > 0 {
        lemma_live(a.drop_last(), done);
    }
}

/// The columns of the last row add up as those of every row do, and each is at least that of every
/// row above it.
pub proof fn law_totals_add_up(
    v: Seq<TitleView>,
    done: Seq<ImportView>,
    names: Seq<Seq<char>>,
    n: int,
    k: int,
)
    requires
        0 <= k < n <= names.len(),
    ensures
        ({
            let t = sums(v, done, names, n);
            let s = standing(v, done, names[k]);
            &&& t.1 == t.2 + t.3 + t.4
            &&& t.0 >= s.count
            &&& t.1 >= s.used.len()
            &&& t.2 >= s.live
            &&& t.3 >= s.missing.len()
            &&& t.4 >= s.soft.len()
        }),
    decreases n,
{
    lemma_sums(v, done, names, n);
    lemma_sums(v, done, names, n - 1);
    if k < n - 1 {
        law_totals_add_up(v, done, names, n - 1, k);
    }
    law_audit_adds_up(v, done, names[n - 1]);
    law_the_largest_declared_size_counts(v, names[n - 1]);
    lemma_live(standing(v, done, names[n - 1]).used, done);
}

proof fn lemma_sums(v: Seq<TitleView>, done: Seq<ImportView>, names: Seq<Seq<char>>, n: int)
    requires
        n <= names.len(),
    ensures
        ({
            let t = sums(v, done, names, n);
            &&& t.1 == t.2 + t.3 + t.4
            &&& t.0 >= 0 && t.1 >= 0 && t.2 >= 0 && t.3 >= 0 && t.4 >= 0
        }),
    decreases n,
{
    if n > 0 {
        lemma_sums(v, done, names, n - 1);
        law_audit_adds_up(v, done, names[n - 1]);
        law_the_largest_declared_size_counts(v, names[n - 1]);
        lemma_live(standing(v, done, names[n - 1]).used, done);
    }
}

/// The totals do not depend on where the list of frameworks is cut: those of one more framework
/// are larger by its own row.
pub proof fn law_totals_are_sums(
    v: Seq<TitleView>,
    done: Seq<ImportView>,
    names: Seq<Seq<char>>,
    more: Seq<char>,
)
    ensures
        ({
            let all = names.push(more);
            let t = sums(v, done, all, all.len() as int);
            let u = sums(v, done, names, names.len() as int);
            let s = standing(v, done, more);
            &&& t.0 - u.0 == s.count
            &&& t.1 - u.1 == s.used.len()
            &&& t.2 - u.2 == s.live
            &&& t.3 - u.3 == s.missing.len()
            &&& t.4 - u.4 == s.soft.len()
        }),
{
    lemma_sums_prefix(v, done, names, names.push(more), names.len() as int);
}

proof fn lemma_sums_prefix(
    v: Seq<TitleView>,
    done: Seq<ImportView>,
    a: Seq<Seq<char>>,
    b: Seq<Seq<char>>,
    n: int,
)
    requires
        n <= a.len() <= b.len(),
        forall|k: int| 0 <= k < a.len() ==> #[trigger] a[k] == b[k],
    ensures
        sums(v, done, a, n) == sums(v, done, b, n),
    decreases n,
{
    if n > 0 {
        lemma_sums_prefix(v, done, a, b, n - 1);
        assert(a[n - 1] == b[n - 1]);
    }
}

/// An import is reached by as many titles as need it.
pub proof fn law_reach_counts_the_titles(v: Seq<TitleView>, x: ImportView)
    ensures
        reach_count(v, x) == v.filter(|t: TitleView| t.hard.contains(x)).len(),
        0 <= reach_count(v, x) <= v.len(),
        reach_count(v, x) > 0 <==> some_needs(v, x),
    decreases v.len(),
{
    reveal(Seq::filter);
    if v.len() > 0 {
        let u = v.drop_last();
        law_reach_counts_the_titles(u, x);
        if some_needs(u, x) {
            let k = choose|k: int| 0 <= k < u.len() && (#[trigger] u[k]).hard.contains(x);
            assert(v[k].hard.contains(x));
        }
        if v.last().hard.contains(x) {
            assert(v[v.len() - 1].hard.contains(x));
        }
        if some_needs(v, x) {
            let k = choose|k: int| 0 <= k < v.len() && (#[trigger] v[k]).hard.contains(x);
            if k < u.len() {
                assert(u[k].hard.contains(x));
            }
        }
    }
}

/// Every missing import stands on the line of the number of titles that need it, and on no other;
/// each of them is needed by at least one title and by no more than there are.
pub proof fn law_missing_imports_are_ranked(
    v: Seq<TitleView>,
    done: Seq<ImportView>,
    c: int,
    x: ImportView,
)
    ensures
        ({
            let missing = without(all_hard(v), done);
            &&& reached_by(v, missing, c) == missing.filter(
                |y: ImportView| v.filter(|t: TitleView| t.hard.contains(y)).len() == c,
            )
            &&& reached_by(v, missing, c).contains(x) <==> some_needs(v, x) && !done.contains(x)
                && v.filter(|t: TitleView| t.hard.contains(x)).len() == c
            &&& reached_by(v, missing, c).contains(x) ==> 1 <= c <= v.len()
        }),
{
    let missing = without(all_hard(v), done);
    lemma_reached_by(v, missing, c);
    law_all_titles_count(v, x);
    law_lists_are_filtered(all_hard(v), done, Seq::empty(), x);
    lemma_filter_holds(
        missing,
        |y: ImportView| v.filter(|t: TitleView| t.hard.contains(y)).len() == c,
        x,
    );
    law_reach_counts_the_titles(v, x);
}

proof fn lemma_reached_by(v: Seq<TitleView>, a: Seq<ImportView>, c: int)
    ensures
        reached_by(v, a, c) == a.filter(
            |y: ImportView| v.filter(|t: TitleView| t.hard.contains(y)).len() == c,
        ),
    decreases a.len(),
{
    reveal(Seq::filter);
    if a.len() > 0 {
        lemma_reached_by(v, a.drop_last(), c);
        law_reach_counts_the_titles(v, a.last());
    }
}

proof fn lemma_count_in(v: Seq<(usize, usize)>, ord: int)
    ensures
        count_in(v, ord) is Some <==> exists|k: int| 0 <= k < v.len() && (#[trigger] v[k]).0 == ord,
    decreases v.len(),
{
    if v.len() > 0 {
        let u = v.drop_first();
        lemma_count_in(u, ord);
        if exists|k: int| 0 <= k < v.len() && (#[trigger] v[k]).0 == ord {
            let k = choose|k: int| 0 <= k < v.len() && (#[trigger] v[k]).0 == ord;
            if k > 0 {
                assert(u[k - 1].0 == ord);
            }
        }
        if exists|k: int| 0 <= k < u.len() && (#[trigger] u[k]).0 == ord {
            let k = choose|k: int| 0 <= k < u.len() && (#[trigger] u[k]).0 == ord;
            assert(v[k + 1].0 == ord);
        }
        if v[0].0 == ord {
            assert(v[0].0 == ord);
        }
    }
}

/// What was counted by hand for an ordinal, and how often the title refers to it, agree: neither
/// has it, or both have it as often.
pub open spec fn ordinal_agrees(t: TitleView, want: Seq<(usize, usize)>, ord: int) -> bool {
    let x = ImportView { fw: "OpenGLES"@, ord };
    match count_in(want, ord) {
        Some(n) => t.hard.contains(x) && times(t.refs, x) == n,
        None => !t.hard.contains(x),
    }
}

/// A control holds just where every single ordinal agrees, whether it was counted by hand, found by
/// the scan, or both.
pub proof fn law_a_control_compares_every_ordinal(t: TitleView, want: Seq<(usize, usize)>)
    ensures
        counts_hold(t, want) <==> forall|ord: int| #[trigger] ordinal_agrees(t, want, ord),
{
    let keys = compared(t, want);
    if counts_hold(t, want) {
        assert forall|ord: int| #[trigger] ordinal_agrees(t, want, ord) by {
            let x = ImportView { fw: "OpenGLES"@, ord };
            lemma_compared(t, want, x);
            if keys.contains(x) {
                let k = choose|k: int| 0 <= k < keys.len() && keys[k] == x;
                assert(!differs(t, want, keys[k]));
            }
        }
    }
    if forall|ord: int| #[trigger] ordinal_agrees(t, want, ord) {
        assert forall|k: int| 0 <= k < keys.len() implies !differs(t, want, #[trigger] keys[k]) by {
            let x = keys[k];
            assert(keys.contains(x));
            lemma_compared(t, want, x);
            assert(x.fw == "OpenGLES"@);
            assert(ordinal_agrees(t, want, x.ord));
        }
    }
}

proof fn lemma_compared(t: TitleView, want: Seq<(usize, usize)>, x: ImportView)
    ensures
        compared(t, want).contains(x) <==> x.fw == "OpenGLES"@ && (count_in(want, x.ord) is Some
            || t.hard.contains(x)),
{
    let h = hand_imports(want);
    let g = of_framework(t.hard, "OpenGLES"@);
    law_distinct_keeps_every_import(h + g, x);
    lemma_concat_holds(h, g, x);
    law_lists_are_filtered(t.hard, Seq::empty(), "OpenGLES"@, x);
    lemma_count_in(want, x.ord);
    assert(h.contains(x) <==> x.fw == "OpenGLES"@ && exists|k: int|
        0 <= k < want.len() && (#[trigger] want[k]).0 == x.ord) by {
        if h.contains(x) {
            let k = choose|k: int| 0 <= k < h.len() && h[k] == x;
            assert(want[k].0 == x.ord);
        }
        if x.fw == "OpenGLES"@ && exists|k: int|
            0 <= k < want.len() && (#[trigger] want[k]).0 == x.ord {
            let k = choose|k: int| 0 <= k < want.len() && (#[trigger] want[k]).0 == x.ord;
            assert(h[k] == x);
        }
    }
}

/// A title is found by its name where it was scanned, the first of that name, and is missed just
/// where it was not.
pub proof fn law_a_title_is_found_by_name(v: Seq<TitleView>, name: Seq<char>)
    ensures
        match titled(v, name, 0) {
            Some(t) => exists|k: int|
                0 <= k < v.len() && #[trigger] v[k] == t && t.name == name && forall|j: int|
                    0 <= j < k ==> (#[trigger] v[j]).name != name,
            None => forall|k: int| 0 <= k < v.len() ==> (#[trigger] v[k]).name != name,
        },
{
    lemma_titled(v, name, 0);
}

proof fn lemma_titled(v: Seq<TitleView>, name: Seq<char>, i: int)
    requires
        0 <= i <= v.len(),
    ensures
        match titled(v, name, i) {
            Some(t) => exists|k: int|
                i <= k < v.len() && #[trigger] v[k] == t && t.name == name && forall|j: int|
                    i <= j < k ==> (#[trigger] v[j]).name != name,
            None => forall|k: int| i <= k < v.len() ==> (#[trigger] v[k]).name != name,
        },
    decreases v.len() - i,
{
    if i < v.len() {
        if v[i].name == name {
            assert(v[i] == v[i]);
        } else {
            lemma_titled(v, name, i + 1);
        }
    }
}

// ---------------------------------------------------------------- what the lines say

/// A row of numbers can be read by its columns: the name, and then the five numbers, each against the
/// right edge of its column.
#[verifier::rlimit(60)]
pub proof fn law_a_row_is_read_by_its_columns(
    name: Seq<char>,
    published: int,
    called: int,
    live: int,
    missing: int,
    soft: int,
)
    requires
        name.len() <= 14,
        dec(published as nat).len() <= 5,
        dec(called as nat).len() <= 8,
        dec(live as nat).len() <= 6,
        dec(missing as nat).len() <= 9,
        dec(soft as nat).len() <= 7,
    ensures
        ({
            let row = number_row(name, published, called, live, missing, soft);
            &&& row.len() == 50
            &&& begins(row, name)
            &&& ends(row.take(19), dec(published as nat))
            &&& ends(row.take(27), dec(called as nat))
            &&& ends(row.take(33), dec(live as nat))
            &&& ends(row.take(42), dec(missing as nat))
            &&& ends(row.take(49), dec(soft as nat))
        }),
{
    reveal_strlit("\n");
    let row = number_row(name, published, called, live, missing, soft);
    let a = pad_right(name, 14);
    let b = pad_left(dec(published as nat), 5, ' ');
    let c = pad_left(dec(called as nat), 8, ' ');
    let d = pad_left(dec(live as nat), 6, ' ');
    let e = pad_left(dec(missing as nat), 9, ' ');
    let f = pad_left(dec(soft as nat), 7, ' ');
    assert(row == a + b + c + d + e + f + "\n"@);
    lemma_column(a, dec(published as nat), 5, c + d + e + f + "\n"@, row);
    lemma_column(a + b, dec(called as nat), 8, d + e + f + "\n"@, row);
    lemma_column(a + b + c, dec(live as nat), 6, e + f + "\n"@, row);
    lemma_column(a + b + c + d, dec(missing as nat), 9, f + "\n"@, row);
    lemma_column(a + b + c + d + e, dec(soft as nat), 7, "\n"@, row);
    assert(row.take(name.len() as int) =~= name);
}

proof fn lemma_column(front: Seq<char>, s: Seq<char>, width: int, rest: Seq<char>, row: Seq<char>)
    requires
        s.len() <= width,
        row =~= front + pad_left(s, width, ' ') + rest,
    ensures
        ends(row.take(front.len() + width), s),
{
    let t = row.take(front.len() + width);
    assert(t.skip(t.len() - s.len()) =~= s);
}

/// A list of ordinals shows every one of them.
#[verifier::rlimit(60)]
pub proof fn law_every_ordinal_is_shown(v: Seq<ImportView>, n: int, k: int)
    requires
        0 <= k < n <= v.len(),
    ensures
        contains(ordinal_list(v, n), dec(v[k].ord as nat)),
    decreases n,
{
    let own = dec(v[n - 1].ord as nat);
    let before = ordinal_list(v, n - 1);
    let gap = if n > 1 {
        ", "@
    } else {
        ""@
    };
    let none = Seq::<char>::empty();
    let all = ordinal_list(v, n);
    assert(all =~= before + gap + own);
    if k < n - 1 {
        law_every_ordinal_is_shown(v, n - 1, k);
        lemma_contained_further(none, before, gap + own, dec(v[k].ord as nat));
        assert(none + before + (gap + own) =~= all);
    } else {
        law_parts_are_found(before + gap, own, none, none);
        assert(before + gap + own + none =~= all);
    }
}

/// A line of ordinals is there just where there are ordinals.
pub proof fn law_empty_lists_have_no_line(head: Seq<char>, v: Seq<ImportView>)
    ensures
        v.len() == 0 ==> ordinals_line(head, v).len() == 0,
        v.len() > 0 ==> contains(ordinals_line(head, v), head + ordinal_list(v, v.len() as int)),
        v.len() > 0 ==> ends(ordinals_line(head, v), "]\n"@),
{
    reveal_strlit("");
    reveal_strlit("]");
    reveal_strlit("\n");
    reveal_strlit("]\n");
    if v.len() > 0 {
        let line = ordinals_line(head, v);
        let l = ordinal_list(v, v.len() as int);
        assert(line =~= run_of(' ', 14) + (head + l) + "]\n"@);
        law_parts_are_found(run_of(' ', 14), head + l, "]\n"@, line);
        law_parts_are_found(run_of(' ', 14) + (head + l), "]\n"@, Seq::empty(), line);
    }
}

/// Every framework has its row, with its own numbers and its own three lists.
pub proof fn law_every_framework_stands_in_the_audit(
    v: Seq<TitleView>,
    done: Seq<ImportView>,
    names: Seq<Seq<char>>,
    n: int,
    k: int,
)
    requires
        0 <= k < n <= names.len(),
    ensures
        ({
            let s = standing(v, done, names[k]);
            contains(
                all_standing_lines(v, done, names, n),
                number_row(
                    names[k],
                    s.count,
                    s.used.len() as int,
                    s.live,
                    s.missing.len() as int,
                    s.soft.len() as int,
                ) + ordinals_line("  missing: "@, s.missing) + ordinals_line(
                    "  soft:    "@,
                    s.soft,
                ) + ordinals_line("  implemented but never called: "@, s.dead),
            )
        }),
    decreases n,
{
    let own = standing_lines(names[n - 1], standing(v, done, names[n - 1]));
    let before = all_standing_lines(v, done, names, n - 1);
    let none = Seq::<char>::empty();
    if k < n - 1 {
        law_every_framework_stands_in_the_audit(v, done, names, n - 1, k);
        lemma_contained_further(
            none,
            before,
            own,
            standing_lines(names[k], standing(v, done, names[k])),
        );
        assert(none + before + own =~= before + own);
    } else {
        law_parts_are_found(before, own, none, none);
        assert(before + own + none =~= before + own);
    }
}

/// Every number of titles that some missing import is needed by has its line with all of those
/// imports, the most needed first.
#[verifier::rlimit(60)]
pub proof fn law_every_frequency_has_its_line(
    v: Seq<TitleView>,
    missing: Seq<ImportView>,
    c: int,
    k: int,
)
    requires
        1 <= k <= c,
        reached_by(v, missing, k).len() > 0,
    ensures
        contains(
            frequency_lines(v, missing, c),
            pad_left(dec(k as nat), 3, ' ') + "/"@ + dec(v.len()) + ": "@ + import_list(
                reached_by(v, missing, k),
            ) + "\n"@,
        ),
        k == c ==> begins(
            frequency_lines(v, missing, c),
            pad_left(dec(k as nat), 3, ' ') + "/"@ + dec(v.len()) + ": "@,
        ),
    decreases c,
{
    let rest = frequency_lines(v, missing, c - 1);
    let none = Seq::<char>::empty();
    let all = frequency_lines(v, missing, c);
    let line = pad_left(dec(k as nat), 3, ' ') + "/"@ + dec(v.len()) + ": "@ + import_list(
        reached_by(v, missing, k),
    ) + "\n"@;
    if k < c {
        law_every_frequency_has_its_line(v, missing, c - 1, k);
        let own = if reached_by(v, missing, c).len() == 0 {
            none
        } else {
            pad_left(dec(c as nat), 3, ' ') + "/"@ + dec(v.len()) + ": "@ + import_list(
                reached_by(v, missing, c),
            ) + "\n"@
        };
        lemma_contained_further(own, rest, none, line);
        assert(own + rest + none =~= all);
    } else {
        law_parts_are_found(none, line, rest, none);
        assert(none + line + rest =~= all);
        let p = pad_left(dec(k as nat), 3, ' ') + "/"@ + dec(v.len()) + ": "@;
        assert(all.take(p.len() as int) =~= p);
    }
}

/// Every title has its line: its name, how many imports it lacks, and which.
#[verifier::rlimit(60)]
pub proof fn law_every_title_has_its_line(
    v: Seq<TitleView>,
    done: Seq<ImportView>,
    n: int,
    k: int,
)
    requires
        0 <= k < n <= v.len(),
    ensures
        ({
            let lacks = v[k].hard.filter(|x: ImportView| !done.contains(x));
            contains(
                per_title_lines(v, done, n),
                pad_right(v[k].name, 14) + pad_left(dec(lacks.len()), 3, ' ') + "  "@ + import_list(
                    lacks,
                ) + "\n"@,
            )
        }),
    decreases n,
{
    let t = v[n - 1];
    let lacks = without(t.hard, done);
    law_lists_are_filtered(t.hard, done, Seq::empty(), ImportView { fw: Seq::empty(), ord: 0 });
    let own = pad_right(t.name, 14) + pad_left(dec(lacks.len()), 3, ' ') + "  "@ + import_list(
        lacks,
    ) + "\n"@;
    let before = per_title_lines(v, done, n - 1);
    let none = Seq::<char>::empty();
    let all = per_title_lines(v, done, n);
    assert(all =~= before + own);
    if k < n - 1 {
        law_every_title_has_its_line(v, done, n - 1, k);
        let other = v[k].hard.filter(|x: ImportView| !done.contains(x));
        lemma_contained_further(
            none,
            before,
            own,
            pad_right(v[k].name, 14) + pad_left(dec(other.len()), 3, ' ') + "  "@ + import_list(
                other,
            ) + "\n"@,
        );
        assert(none + before + own =~= all);
    } else {
        law_parts_are_found(before, own, none, none);
        assert(before + own + none =~= all);
    }
}

/// A control is said to be right just where it holds, to be unscanned where its title was not
/// scanned, and else every ordinal that differs has its line with both numbers.
#[verifier::rlimit(60)]
pub proof fn law_a_control_tells_every_difference(
    v: Seq<TitleView>,
    c: (Seq<char>, Seq<(usize, usize)>),
    k: int,
)
    ensures
        titled(v, c.0, 0) is None ==> ends(control_text(v, c), ": NOT SCANNED\n"@)
            && !control_holds(v, c),
        control_holds(v, c) ==> ends(control_text(v, c), ": ok ("@ + dec(c.1.len()) + " ordinals)\n"@),
        titled(v, c.0, 0) is Some && !control_holds(v, c) ==> {
            let t = titled(v, c.0, 0)->0;
            let keys = compared(t, c.1);
            contains(control_text(v, c), ": MISMATCH\n"@) && (0 <= k < keys.len() && differs(
                t,
                c.1,
                keys[k],
            ) ==> contains(
                control_text(v, c),
                "  #"@ + dec(keys[k].ord as nat) + ": §18 says "@ + count_text(
                    as_count(count_in(c.1, keys[k].ord)),
                ) + ", scan says "@ + count_text(scanned(t, keys[k])) + "\n"@,
            ))
        },
{
    let s = control_text(v, c);
    let head = "verify "@ + c.0;
    let none = Seq::<char>::empty();
    match titled(v, c.0, 0) {
        None => {
            law_parts_are_found(head, ": NOT SCANNED\n"@, none, s);
        },
        Some(t) => {
            if counts_hold(t, c.1) {
                let p = ": ok ("@ + dec(c.1.len()) + " ordinals)\n"@;
                law_parts_are_found(head, p, none, s);
            } else {
                let keys = compared(t, c.1);
                let d = difference_lines(t, c.1, keys, keys.len() as int);
                law_parts_are_found(head, ": MISMATCH\n"@, d, s);
                assert(head + ": MISMATCH\n"@ + d =~= s);
                if 0 <= k < keys.len() && differs(t, c.1, keys[k]) {
                    lemma_difference_has_its_line(t, c.1, keys, keys.len() as int, k);
                    lemma_contained_further(
                        head + ": MISMATCH\n"@,
                        d,
                        none,
                        "  #"@ + dec(keys[k].ord as nat) + ": §18 says "@ + count_text(
                            as_count(count_in(c.1, keys[k].ord)),
                        ) + ", scan says "@ + count_text(scanned(t, keys[k])) + "\n"@,
                    );
                    assert(head + ": MISMATCH\n"@ + d + none =~= s);
                }
            }
        },
    }
}

proof fn lemma_difference_has_its_line(
    t: TitleView,
    want: Seq<(usize, usize)>,
    v: Seq<ImportView>,
    n: int,
    k: int,
)
    requires
        0 <= k < n <= v.len(),
        differs(t, want, v[k]),
    ensures
        contains(
            difference_lines(t, want, v, n),
            "  #"@ + dec(v[k].ord as nat) + ": §18 says "@ + count_text(
                as_count(count_in(want, v[k].ord)),
            ) + ", scan says "@ + count_text(scanned(t, v[k])) + "\n"@,
        ),
    decreases n,
{
    let line = "  #"@ + dec(v[k].ord as nat) + ": §18 says "@ + count_text(
        as_count(count_in(want, v[k].ord)),
    ) + ", scan says "@ + count_text(scanned(t, v[k])) + "\n"@;
    let before = difference_lines(t, want, v, n - 1);
    let all = difference_lines(t, want, v, n);
    let none = Seq::<char>::empty();
    if k < n - 1 {
        lemma_difference_has_its_line(t, want, v, n - 1, k);
        if differs(t, want, v[n - 1]) {
            let x = v[n - 1];
            let own = "  #"@ + dec(x.ord as nat) + ": §18 says "@ + count_text(
                as_count(count_in(want, x.ord)),
            ) + ", scan says "@ + count_text(scanned(t, x)) + "\n"@;
            lemma_contained_further(none, before, own, line);
            assert(none + before + own =~= all);
        }
    } else {
        law_parts_are_found(before, line, none, none);
        assert(before + line + none =~= all);
    }
}

/// The audit begins with the number of titles, has every framework that a title publishes, the
/// totals of all of them, and at its end the missing imports by how many titles need them.
pub proof fn law_the_audit_is_whole(v: Seq<TitleView>, done: Seq<ImportView>)
    ensures
        ({
            let names = framework_names(published_lists(v));
            let t = sums(v, done, names, names.len() as int);
            let s = audit_text(v, done);
            &&& begins(s, dec(v.len()) + " titles scanned\n"@)
            &&& contains(s, all_standing_lines(v, done, names, names.len() as int))
            &&& contains(s, number_row("TOTAL"@, t.0, t.1, t.2, t.3, t.4))
            &&& ends(s, frequency_lines(v, without(all_hard(v), done), v.len() as int))
        }),
{
    let names = framework_names(published_lists(v));
    let t = sums(v, done, names, names.len() as int);
    lemma_audit_head();
    lemma_audit_parts(
        dec(v.len()),
        " titles scanned\n"@,
        " titles scanned\n\nframework       pub  called  impl  MISSING   soft\n"@,
        all_standing_lines(v, done, names, names.len() as int),
        number_row("TOTAL"@, t.0, t.1, t.2, t.3, t.4),
        "\n=== missing ordinals by how many titles call them ===\n"@,
        frequency_lines(v, without(all_hard(v), done), v.len() as int),
    );
}

#[verifier::rlimit(60)]
proof fn lemma_audit_head()
    ensures
        begins(
            " titles scanned\n\nframework       pub  called  impl  MISSING   soft\n"@,
            " titles scanned\n"@,
        ),
{
    reveal_strlit(" titles scanned\n");
    reveal_strlit(" titles scanned\n\nframework       pub  called  impl  MISSING   soft\n");
    let h = " titles scanned\n\nframework       pub  called  impl  MISSING   soft\n"@;
    assert(h.take(16) =~= " titles scanned\n"@);
}

#[verifier::rlimit(60)]
proof fn lemma_audit_parts(
    d: Seq<char>,
    g: Seq<char>,
    h: Seq<char>,
    l: Seq<char>,
    r: Seq<char>,
    m: Seq<char>,
    f: Seq<char>,
)
    requires
        begins(h, g),
    ensures
        ({
            let s = d + h + l + r + m + f;
            begins(s, d + g) && contains(s, l) && contains(s, r) && ends(s, f)
        }),
{
    let s = d + h + l + r + m + f;
    let x = r + m + f;
    assert(s =~= d + h + l + x);
    law_parts_are_found(d + h, l, x, s);
    let y = m + f;
    assert(s =~= d + h + l + r + y);
    law_parts_are_found(d + h + l, r, y, s);
    law_parts_are_found(d + h + l + r + m, f, Seq::empty(), s);
    let z = l + r + m + f;
    assert(s =~= d + h + z);
    lemma_audit_begins(d, g, h, z);
}

proof fn lemma_audit_begins(d: Seq<char>, g: Seq<char>, h: Seq<char>, z: Seq<char>)
    requires
        begins(h, g),
    ensures
        begins(d + h + z, d + g),
{
    let p = d + g;
    assert((d + h + z).take(p.len() as int) =~= d + h.take(g.len() as int));
}

/// A framework stands in the audit just where a title publishes it.
#[verifier::rlimit(60)]
pub proof fn law_which_frameworks_are_audited(v: Seq<TitleView>, fw: Seq<char>)
    ensures
        framework_names(published_lists(v)).contains(fw) <==> exists|k: int, j: int|
            0 <= k < v.len() && 0 <= j < v[k].published.len() && (#[trigger] v[k].published[j]).fw
                == fw,
{
    law_every_framework_is_named(published_lists(v), fw);
    let all = published_lists(v);
    if exists|i: int| 0 <= i < all.len() && (#[trigger] all[i]).fw == fw {
        let i = choose|i: int| 0 <= i < all.len() && (#[trigger] all[i]).fw == fw;
        let (k, j) = lemma_published_origin(v, i);
        assert(v[k].published[j].fw == fw);
    }
    if exists|k: int, j: int|
        0 <= k < v.len() && 0 <= j < v[k].published.len() && (#[trigger] v[k].published[j]).fw
            == fw {
        let (k, j) = choose|k: int, j: int|
            0 <= k < v.len() && 0 <= j < v[k].published.len() && (#[trigger] v[k].published[j]).fw
                == fw;
        let i = lemma_published_listed(v, k, j);
        assert(all[i].fw == fw);
    }
}

proof fn lemma_published_origin(v: Seq<TitleView>, i: int) -> (r: (int, int))
    requires
        0 <= i < published_lists(v).len(),
    ensures
        0 <= r.0 < v.len(),
        0 <= r.1 < v[r.0].published.len(),
        v[r.0].published[r.1] == published_lists(v)[i],
    decreases v.len(),
{
    let u = v.drop_last();
    let n = published_lists(u).len();
    if i < n {
        lemma_published_origin(u, i)
    } else {
        (v.len() - 1, i - n)
    }
}

proof fn lemma_published_listed(v: Seq<TitleView>, k: int, j: int) -> (i: int)
    requires
        0 <= k < v.len(),
        0 <= j < v[k].published.len(),
    ensures
        0 <= i < published_lists(v).len(),
        published_lists(v)[i] == v[k].published[j],
    decreases v.len(),
{
    let u = v.drop_last();
    if k < v.len() - 1 {
        lemma_published_listed(u, k, j)
    } else {
        published_lists(u).len() + j
    }
}

} // verus!
