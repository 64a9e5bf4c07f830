//! Imported functions, named by framework and ordinal, and ordered lists of them.

use vstd::prelude::*;

use crate::text::{chars_of, comes_before, push_dec, same_text, text_of};
#[allow(unused_imports)]
use crate::text::{contains, law_parts_are_found, lemma_contained_further};
#[allow(unused_imports)]
use crate::text::{dec, law_a_text_is_cut_at_the_first, law_decimal_reads_back};
#[allow(unused_imports)]
use crate::text::{lemma_text_less_total, lemma_text_less_transitive, text_less};

verus! {

/// One function of a framework.
pub struct Import {
    pub fw: String,
    pub ord: usize,
}

/// The contents of an import.
pub struct ImportView {
    pub fw: Seq<char>,
    pub ord: int,
}

impl View for Import {
    type V = ImportView;

    open spec fn view(&self) -> ImportView {
        ImportView { fw: self.fw@, ord: self.ord as int }
    }
}

/// The contents of a list of imports.
pub open spec fn import_views(v: Seq<Import>) -> Seq<ImportView> {
    v.map_values(|x: Import| x@)
}

/// The order of imports: by framework, then by ordinal.
pub open spec fn import_less(a: ImportView, b: ImportView) -> bool {
    text_less(a.fw, b.fw) || (a.fw == b.fw && a.ord < b.ord)
}

/// The order is total.
pub proof fn lemma_import_less_total(a: ImportView, b: ImportView)
    ensures
        a == b || import_less(a, b) || import_less(b, a),
        a == b ==> !import_less(a, b),
        import_less(a, b) ==> !import_less(b, a),
{
    lemma_text_less_total(a.fw, b.fw);
}

/// The order is transitive.
pub proof fn lemma_import_less_transitive(a: ImportView, b: ImportView, c: ImportView)
    requires
        import_less(a, b),
        import_less(b, c),
    ensures
        import_less(a, c),
{
    if text_less(a.fw, b.fw) && text_less(b.fw, c.fw) {
        lemma_text_less_transitive(a.fw, b.fw, c.fw);
    }
}

/// The imports stand in order, and none occurs twice.
pub open spec fn imports_ascend(s: Seq<ImportView>) -> bool {
    forall|i: int, j: int| 0 <= i < j < s.len() ==> import_less(s[i], s[j])
}

/// The list with `x` in its place; unchanged when it holds `x` already.
pub open spec fn with_import(s: Seq<ImportView>, x: ImportView) -> Seq<ImportView>
    decreases s.len(),
{
    if s.len() == 0 {
        seq![x]
    } else if s[0] == x {
        s
    } else if import_less(x, s[0]) {
        seq![x] + s
    } else {
        seq![s[0]] + with_import(s.drop_first(), x)
    }
}

/// The different imports of a list, in order.
pub open spec fn distinct(v: Seq<ImportView>) -> Seq<ImportView>
    decreases v.len(),
{
    if v.len() == 0 {
        Seq::empty()
    } else {
        with_import(distinct(v.drop_last()), v.last())
    }
}

/// How often an import occurs in a list.
pub open spec fn times(v: Seq<ImportView>, x: ImportView) -> nat
    decreases v.len(),
{
    if v.len() == 0 {
        0
    } else {
        times(v.drop_last(), x) + (if v.last() == x {
            1nat
        } else {
            0
        })
    }
}

/// The import as text: the framework, `#` and the ordinal.
pub open spec fn import_text(x: ImportView) -> Seq<char> {
    x.fw + "#"@ + dec(x.ord as nat)
}

/// The texts of the imports, with a space between each two.
pub open spec fn import_list(v: Seq<ImportView>) -> Seq<char>
    decreases v.len(),
{
    if v.len() == 0 {
        ""@
    } else if v.len() == 1 {
        import_text(v[0])
    } else {
        import_list(v.drop_last()) + " "@ + import_text(v.last())
    }
}

/// A new import of the framework.
pub fn make_import(fw: &str, ord: usize) -> (r: Import)
    ensures
        r@ == (ImportView { fw: fw@, ord: ord as int }),
{
    Import { fw: text_of(chars_of(fw).as_slice()), ord }
}

/// Whether two imports are the same.
pub fn same_import(a: &Import, b: &Import) -> (r: bool)
    ensures
        r == (a@ == b@),
{
    a.ord == b.ord && same_text(a.fw.as_str(), b.fw.as_str())
}

fn import_before(a: &Import, b: &Import) -> (r: bool)
    ensures
        r == import_less(a@, b@),
{
    comes_before(a.fw.as_str(), b.fw.as_str()) || (a.ord < b.ord && same_text(
        a.fw.as_str(),
        b.fw.as_str(),
    ))
}

/// Whether the list holds the import.
pub fn holds_import(v: &Vec<Import>, x: &Import) -> (r: bool)
    ensures
        r == import_views(v@).contains(x@),
{
    let mut i: usize = 0;
    while i < v.len()
        invariant
            i <= v@.len(),
            forall|k: int| 0 <= k < i ==> import_views(v@)[k] != x@,
        decreases v@.len() - i,
    {
        if same_import(&v[i], x) {
            assert(import_views(v@)[i as int] == x@);
            return true;
        }
        i += 1;
    }
    false
}

/// How often the import occurs in the list.
pub fn count_import(v: &Vec<Import>, x: &Import) -> (n: usize)
    ensures
        n == times(import_views(v@), x@),
{
    let mut n: usize = 0;
    let mut i: usize = 0;
    while i < v.len()
        invariant
            i <= v@.len(),
            n <= i,
            n == times(import_views(v@).take(i as int), x@),
        decreases v@.len() - i,
    {
        assert(import_views(v@).take(i + 1).drop_last() =~= import_views(v@).take(i as int));
        assert(import_views(v@).take(i + 1).last() == v@[i as int]@);
        if same_import(&v[i], x) {
            n += 1;
        }
        i += 1;
    }
    assert(import_views(v@).take(i as int) =~= import_views(v@));
    n
}

proof fn lemma_with_import_at(s: Seq<ImportView>, x: ImportView, p: int)
    requires
        0 <= p <= s.len(),
        forall|k: int| 0 <= k < p ==> import_less(s[k], x),
    ensures
        with_import(s, x) == s.take(p) + with_import(s.skip(p), x),
    decreases p,
{
    if p == 0 {
        assert(s.skip(0) =~= s);
        assert(s.take(0) + with_import(s, x) =~= with_import(s, x));
    } else {
        lemma_import_less_total(s[0], x);
        let rest = s.drop_first();
        assert forall|k: int| 0 <= k < p - 1 implies import_less(rest[k], x) by {
            assert(rest[k] == s[k + 1]);
        }
        lemma_with_import_at(rest, x, p - 1);
        assert(rest.skip(p - 1) =~= s.skip(p));
        assert(seq![s[0]] + (rest.take(p - 1) + with_import(s.skip(p), x)) =~= s.take(p)
            + with_import(s.skip(p), x));
    }
}

/// Puts the import into its place.
pub fn add_import(v: &mut Vec<Import>, x: &Import)
    ensures
        import_views(final(v)@) == with_import(import_views(old(v)@), x@),
{
    let mut p: usize = 0;
    while p < v.len() && import_before(&v[p], x)
        invariant
            p <= v@.len(),
            v@ == old(v)@,
            forall|k: int| 0 <= k < p ==> import_less(import_views(v@)[k], x@),
        decreases v@.len() - p,
    {
        p += 1;
    }
    let ghost was = import_views(old(v)@);
    proof {
        lemma_with_import_at(was, x@, p as int);
        if p < was.len() {
            assert(was.skip(p as int)[0] == was[p as int]);
            lemma_import_less_total(was[p as int], x@);
        }
        assert(was.take(p as int) + was.skip(p as int) =~= was);
    }
    if p < v.len() && same_import(&v[p], x) {
        return;
    }
    v.insert(p, make_import(x.fw.as_str(), x.ord));
    proof {
        if p < was.len() {
            assert(import_views(v@) =~= was.take(p as int) + (seq![x@] + was.skip(p as int)));
        } else {
            assert(was.skip(p as int) =~= Seq::empty());
            assert(import_views(v@) =~= was.take(p as int) + seq![x@]);
        }
    }
}

/// The different imports of a list, in order.
pub fn distinct_imports(v: &Vec<Import>) -> (r: Vec<Import>)
    ensures
        import_views(r@) == distinct(import_views(v@)),
{
    let mut r: Vec<Import> = Vec::new();
    let mut i: usize = 0;
    assert(import_views(r@) =~= distinct(import_views(v@).take(0)));
    while i < v.len()
        invariant
            i <= v@.len(),
            import_views(r@) == distinct(import_views(v@).take(i as int)),
        decreases v@.len() - i,
    {
        assert(import_views(v@).take(i + 1).drop_last() =~= import_views(v@).take(i as int));
        add_import(&mut r, &v[i]);
        i += 1;
    }
    assert(import_views(v@).take(i as int) =~= import_views(v@));
    r
}

/// The texts of the imports, with a space between each two.
pub fn render_imports(v: &Vec<Import>) -> (out: String)
    ensures
        out@ == import_list(import_views(v@)),
{
    let mut out = String::from_str("");
    let mut i: usize = 0;
    while i < v.len()
        invariant
            i <= v@.len(),
            out@ == import_list(import_views(v@).take(i as int)),
        decreases v@.len() - i,
    {
        assert(import_views(v@).take(i + 1).drop_last() =~= import_views(v@).take(i as int));
        let ghost was = out@;
        let mut one = String::from_str(v[i].fw.as_str());
        one.append("#");
        push_dec(&mut one, v[i].ord as u128);
        if i > 0 {
            out.append(" ");
            out.append(one.as_str());
        } else {
            out = one;
        }
        i += 1;
    }
    assert(import_views(v@).take(i as int) =~= import_views(v@));
    out
}

// ---------------------------------------------------------------- laws

/// A list that is in order stays so, gains the one import and loses none.
pub proof fn lemma_with_import(s: Seq<ImportView>, t: ImportView)
    requires
        imports_ascend(s),
    ensures
        imports_ascend(with_import(s, t)),
        forall|x: ImportView| with_import(s, t).contains(x) <==> (s.contains(x) || x == t),
    decreases s.len(),
{
    let new = with_import(s, t);
    if s.len() == 0 {
        assert forall|x: ImportView| new.contains(x) <==> (s.contains(x) || x == t) by {
            if x == t {
                assert(new[0] == x);
            }
        }
    } else {
        lemma_import_less_total(s[0], t);
        if s[0] == t {
        } else if import_less(t, s[0]) {
            assert forall|i: int, j: int| 0 <= i < j < new.len() implies import_less(
                new[i],
                new[j],
            ) by {
                assert(new[j] == s[j - 1]);
                if i > 0 {
                    assert(new[i] == s[i - 1]);
                } else if j > 1 {
                    lemma_import_less_transitive(t, s[0], s[j - 1]);
                }
            }
            assert forall|x: ImportView| new.contains(x) <==> (s.contains(x) || x == t) by {
                if x == t {
                    assert(new[0] == x);
                }
                if s.contains(x) {
                    let k = choose|k: int| 0 <= k < s.len() && s[k] == x;
                    assert(new[k + 1] == x);
                }
                if new.contains(x) {
                    let k = choose|k: int| 0 <= k < new.len() && new[k] == x;
                    if k > 0 {
                        assert(s[k - 1] == x);
                    }
                }
            }
        } else {
            let rest = s.drop_first();
            assert forall|i: int, j: int| 0 <= i < j < rest.len() implies import_less(
                rest[i],
                rest[j],
            ) by {
                assert(rest[i] == s[i + 1] && rest[j] == s[j + 1]);
            }
            lemma_with_import(rest, t);
            let tail = with_import(rest, t);
            assert forall|x: ImportView| rest.contains(x) implies import_less(s[0], x) by {
                let k = choose|k: int| 0 <= k < rest.len() && rest[k] == x;
                assert(rest[k] == s[k + 1]);
            }
            assert forall|i: int, j: int| 0 <= i < j < new.len() implies import_less(
                new[i],
                new[j],
            ) by {
                assert(new[j] == tail[j - 1]);
                if i > 0 {
                    assert(new[i] == tail[i - 1]);
                } else {
                    let x = tail[j - 1];
                    assert(tail.contains(x));
                    assert(rest.contains(x) || x == t);
                    assert(new[0] == s[0]);
                }
            }
            assert forall|x: ImportView| s.contains(x) <==> (rest.contains(x) || x == s[0]) by {
                if s.contains(x) && x != s[0] {
                    let k = choose|k: int| 0 <= k < s.len() && s[k] == x;
                    assert(rest[k - 1] == x);
                }
                if rest.contains(x) {
                    let k = choose|k: int| 0 <= k < rest.len() && rest[k] == x;
                    assert(s[k + 1] == x);
                }
            }
            assert forall|x: ImportView| new.contains(x) <==> (tail.contains(x) || x == s[0]) by {
                if new.contains(x) && x != s[0] {
                    let k = choose|k: int| 0 <= k < new.len() && new[k] == x;
                    assert(tail[k - 1] == x);
                }
                if tail.contains(x) {
                    let k = choose|k: int| 0 <= k < tail.len() && tail[k] == x;
                    assert(new[k + 1] == x);
                }
                if x == s[0] {
                    assert(new[0] == x);
                }
            }
        }
    }
}

/// The different imports of a list are exactly those that occur in it, each once, in order.
pub proof fn law_distinct_is_exact(v: Seq<ImportView>)
    ensures
        imports_ascend(distinct(v)),
        forall|x: ImportView|
            #![trigger distinct(v).contains(x)]
            #![trigger times(v, x)]
            distinct(v).contains(x) <==> times(v, x) > 0,
    decreases v.len(),
{
    if v.len() > 0 {
        law_distinct_is_exact(v.drop_last());
        lemma_with_import(distinct(v.drop_last()), v.last());
        assert forall|x: ImportView|
            #![trigger distinct(v).contains(x)]
            distinct(v).contains(x) <==> times(v, x) > 0 by {
            assert(distinct(v.drop_last()).contains(x) <==> times(v.drop_last(), x) > 0);
        }
    }
}

/// The sorted list without repetitions holds just what the list it was made from holds.
pub proof fn law_distinct_keeps_every_import(v: Seq<ImportView>, x: ImportView)
    ensures
        distinct(v).contains(x) <==> v.contains(x),
{
    law_distinct_is_exact(v);
    lemma_times_is_presence(v, x);
}

pub proof fn lemma_times_is_presence(v: Seq<ImportView>, x: ImportView)
    ensures
        times(v, x) > 0 <==> v.contains(x),
    decreases v.len(),
{
    if v.len() > 0 {
        let u = v.drop_last();
        lemma_times_is_presence(u, x);
        if u.contains(x) {
            let k = choose|k: int| 0 <= k < u.len() && u[k] == x;
            assert(v[k] == x);
        }
        if v.last() == x {
            assert(v[v.len() - 1] == x);
        }
        if v.contains(x) {
            let k = choose|k: int| 0 <= k < v.len() && v[k] == x;
            if k < v.len() - 1 {
                assert(u[k] == x);
            }
        }
    }
}

/// References are counted one by one: those of two lists together are those of the one and those
/// of the other, and a single reference counts once, for its own import alone.
#[verifier::rlimit(60)]
pub proof fn law_references_are_counted(a: Seq<ImportView>, b: Seq<ImportView>, x: ImportView)
    ensures
        times(a + b, x) == times(a, x) + times(b, x),
        times(seq![x], x) == 1,
        forall|y: ImportView| y != x ==> #[trigger] times(seq![x], y) == 0,
        times(Seq::empty(), x) == 0,
    decreases b.len(),
{
    reveal_with_fuel(times, 2);
    assert(seq![x].drop_last() =~= Seq::<ImportView>::empty());
    if b.len() > 0 {
        law_references_are_counted(a, b.drop_last(), x);
        assert((a + b).drop_last() =~= a + b.drop_last());
        assert((a + b).last() == b.last());
    } else {
        assert(a + b =~= a);
    }
}

/// An import is written as its framework, `#` and its ordinal, so two imports with names free of
/// `#` are never written alike.
pub proof fn law_imports_are_told_apart(x: ImportView, y: ImportView)
    requires
        x.ord >= 0,
        y.ord >= 0,
        !x.fw.contains('#'),
        !y.fw.contains('#'),
        import_text(x) == import_text(y),
    ensures
        x == y,
{
    reveal_strlit("#");
    assert("#"@ =~= seq!['#']);
    law_a_text_is_cut_at_the_first(x.fw, '#', dec(x.ord as nat));
    law_a_text_is_cut_at_the_first(y.fw, '#', dec(y.ord as nat));
    let m = if x.ord < y.ord { y.ord } else { x.ord };
    law_decimal_reads_back(x.ord as nat, 0, m);
    law_decimal_reads_back(y.ord as nat, 0, m);
}

/// A list of imports names every one of them.
#[verifier::rlimit(60)]
pub proof fn law_every_import_is_named(v: Seq<ImportView>, k: int)
    requires
        0 <= k < v.len(),
    ensures
        contains(import_list(v), v[k].fw + "#"@ + dec(v[k].ord as nat)),
    decreases v.len(),
{
    let none = Seq::<char>::empty();
    let own = import_text(v.last());
    if v.len() == 1 {
        law_parts_are_found(none, own, none, none);
        assert(none + own + none =~= own);
    } else {
        let before = import_list(v.drop_last());
        let all = import_list(v);
        if k < v.len() - 1 {
            law_every_import_is_named(v.drop_last(), k);
            lemma_contained_further(none, before, " "@ + own, import_text(v[k]));
            assert(none + before + (" "@ + own) =~= all);
        } else {
            law_parts_are_found(before + " "@, own, none, none);
            assert(before + " "@ + own + none =~= all);
        }
    }
}

} // verus!
