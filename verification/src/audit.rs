//! The coverage audit: which of the ordinals that the titles reach are implemented.

use vstd::prelude::*;
use vstd::slice::slice_subrange;

use crate::coverage::{Title, TitleView};
use crate::imports::{distinct_imports, holds_import, make_import, Import, ImportView};
#[allow(unused_imports)]
use crate::imports::{distinct, import_views, imports_ascend, law_distinct_is_exact};
#[allow(unused_imports)]
use crate::imports::law_distinct_keeps_every_import;
use crate::table::add_text;
#[allow(unused_imports)]
use crate::table::{lemma_with_text, texts_ascend, with_text};
use crate::text::{chars_of, find_char, parse_unsigned, same_text, stands_at, text_of};
#[allow(unused_imports)]
use crate::text::{dec, first_at, law_decimal_reads_back, law_other_text_is_no_number};
#[allow(unused_imports)]
use crate::text::{lemma_first_at, lemma_first_at_is, occurs_at, texts, unsigned};

verus! {

// ---------------------------------------------------------------- implemented ordinals

/// Where the commas and spaces from `i` on end.
pub open spec fn skip_separators(s: Seq<char>, i: int) -> int
    decreases s.len() - i,
{
    if 0 <= i < s.len() && (s[i] == ',' || s[i] == ' ') {
        skip_separators(s, i + 1)
    } else {
        i
    }
}

/// An ASCII digit.
pub open spec fn is_digit(c: char) -> bool {
    '0' <= c <= '9'
}

/// Where the digits from `i` on end.
pub open spec fn skip_digits(s: Seq<char>, i: int) -> int
    decreases s.len() - i,
{
    if 0 <= i < s.len() && is_digit(s[i]) {
        skip_digits(s, i + 1)
    } else {
        i
    }
}

/// The import that a `set_stub("` at `i` names: the text up to the next quotation mark and the
/// number behind the commas and spaces that follow.
pub open spec fn stub_at(s: Seq<char>, i: int) -> Option<ImportView> {
    let q = first_at(s, '"', i + 10);
    if q >= s.len() {
        None
    } else {
        let a = skip_separators(s, q + 1);
        let b = skip_digits(s, a);
        match unsigned(s.subrange(a, b), false, usize::MAX as int) {
            Some(n) => Some(ImportView { fw: s.subrange(i + 10, q), ord: n }),
            None => None,
        }
    }
}

/// The imports that the `set_stub("` calls before `n` name, in order.
pub open spec fn stubs(s: Seq<char>, n: int) -> Seq<ImportView>
    decreases n,
{
    if n <= 0 {
        Seq::empty()
    } else if occurs_at(s, "set_stub(\""@, n - 1) && stub_at(s, n - 1) is Some {
        stubs(s, n - 1).push(stub_at(s, n - 1)->0)
    } else {
        stubs(s, n - 1)
    }
}

fn digit_here(c: char) -> (r: bool)
    ensures
        r == is_digit(c),
{
    let n: u32 = c as u32;
    48 <= n && n <= 57
}

fn read_stub(s: &[char], i: usize) -> (r: Option<Import>)
    requires
        i + 10 <= s@.len(),
    ensures
        match r {
            Some(x) => stub_at(s@, i as int) == Some(x@),
            None => stub_at(s@, i as int) is None,
        },
{
    assert(s@.len() == s.len());
    let q: usize = find_char(s, '"', i + 10);
    if q >= s.len() {
        return None;
    }
    let mut a: usize = q + 1;
    while a < s.len() && (s[a] == ',' || s[a] == ' ')
        invariant
            q < a <= s@.len(),
            skip_separators(s@, q + 1) == skip_separators(s@, a as int),
        decreases s@.len() - a,
    {
        a += 1;
    }
    let mut b: usize = a;
    while b < s.len() && digit_here(s[b])
        invariant
            a <= b <= s@.len(),
            skip_digits(s@, a as int) == skip_digits(s@, b as int),
        decreases s@.len() - b,
    {
        b += 1;
    }
    match parse_unsigned(slice_subrange(s, a, b), false, usize::MAX as u128) {
        Some(n) => {
            let fw = text_of(slice_subrange(s, i + 10, q));
            Some(Import { fw, ord: n as usize })
        },
        None => None,
    }
}

/// The ordinals that a source gives a behaviour to, read out of its `set_stub` calls.
pub fn implemented(src: &str) -> (v: Vec<Import>)
    ensures
        import_views(v@) == distinct(stubs(src@, src@.len() as int)),
{
    let s = chars_of(src);
    let call = chars_of("set_stub(\"");
    proof {
        reveal_strlit("set_stub(\"");
    }
    let mut all: Vec<Import> = Vec::new();
    let mut n: usize = 0;
    assert(import_views(all@) =~= stubs(s@, 0));
    while n < s.len()
        invariant
            n <= s@.len(),
            call@ == "set_stub(\""@,
            call@.len() == 10,
            import_views(all@) == stubs(s@, n as int),
        decreases s@.len() - n,
    {
        let ghost was = import_views(all@);
        if stands_at(s.as_slice(), call.as_slice(), n) {
            if let Some(x) = read_stub(s.as_slice(), n) {
                all.push(x);
                assert(import_views(all@) =~= was.push(x@));
            }
        }
        n += 1;
    }
    distinct_imports(&all)
}

// ---------------------------------------------------------------- lists

/// The imports of `a` that `b` does not hold.
pub open spec fn without(a: Seq<ImportView>, b: Seq<ImportView>) -> Seq<ImportView>
    decreases a.len(),
{
    if a.len() == 0 {
        Seq::empty()
    } else if b.contains(a.last()) {
        without(a.drop_last(), b)
    } else {
        without(a.drop_last(), b).push(a.last())
    }
}

/// The imports of one framework.
pub open spec fn of_framework(a: Seq<ImportView>, fw: Seq<char>) -> Seq<ImportView>
    decreases a.len(),
{
    if a.len() == 0 {
        Seq::empty()
    } else if a.last().fw == fw {
        of_framework(a.drop_last(), fw).push(a.last())
    } else {
        of_framework(a.drop_last(), fw)
    }
}

fn copy_import(x: &Import) -> (r: Import)
    ensures
        r@ == x@,
{
    make_import(x.fw.as_str(), x.ord)
}

/// The imports of `a` that `b` does not hold.
pub fn drop_held(a: &Vec<Import>, b: &Vec<Import>) -> (r: Vec<Import>)
    ensures
        import_views(r@) == without(import_views(a@), import_views(b@)),
{
    let mut r: Vec<Import> = Vec::new();
    let mut i: usize = 0;
    assert(import_views(r@) =~= without(import_views(a@).take(0), import_views(b@)));
    while i < a.len()
        invariant
            i <= a@.len(),
            import_views(r@) == without(import_views(a@).take(i as int), import_views(b@)),
        decreases a@.len() - i,
    {
        assert(import_views(a@).take(i + 1).drop_last() =~= import_views(a@).take(i as int));
        assert(import_views(a@).take(i + 1).last() == a@[i as int]@);
        if !holds_import(b, &a[i]) {
            let ghost was = import_views(r@);
            let x = copy_import(&a[i]);
            r.push(x);
            assert(import_views(r@) =~= was.push(x@));
        }
        i += 1;
    }
    assert(import_views(a@).take(i as int) =~= import_views(a@));
    r
}

/// The imports of one framework.
pub fn pick_framework(a: &Vec<Import>, fw: &str) -> (r: Vec<Import>)
    ensures
        import_views(r@) == of_framework(import_views(a@), fw@),
{
    let mut r: Vec<Import> = Vec::new();
    let mut i: usize = 0;
    assert(import_views(r@) =~= of_framework(import_views(a@).take(0), fw@));
    while i < a.len()
        invariant
            i <= a@.len(),
            import_views(r@) == of_framework(import_views(a@).take(i as int), fw@),
        decreases a@.len() - i,
    {
        assert(import_views(a@).take(i + 1).drop_last() =~= import_views(a@).take(i as int));
        assert(import_views(a@).take(i + 1).last() == a@[i as int]@);
        if same_text(a[i].fw.as_str(), fw) {
            let ghost was = import_views(r@);
            let x = copy_import(&a[i]);
            r.push(x);
            assert(import_views(r@) =~= was.push(x@));
        }
        i += 1;
    }
    assert(import_views(a@).take(i as int) =~= import_views(a@));
    r
}

/// Appends copies of the imports of `a`.
pub fn append_imports(r: &mut Vec<Import>, a: &Vec<Import>)
    ensures
        import_views(final(r)@) == import_views(old(r)@) + import_views(a@),
{
    let mut i: usize = 0;
    let ghost start = import_views(r@);
    assert(start + import_views(a@).take(0) =~= start);
    while i < a.len()
        invariant
            i <= a@.len(),
            import_views(r@) == start + import_views(a@).take(i as int),
        decreases a@.len() - i,
    {
        let ghost was = import_views(r@);
        let x = copy_import(&a[i]);
        r.push(x);
        assert(import_views(r@) =~= was.push(x@));
        assert(was.push(x@) =~= start + import_views(a@).take(i + 1));
        i += 1;
    }
    assert(import_views(a@).take(i as int) =~= import_views(a@));
}

// ---------------------------------------------------------------- all titles

/// The contents of a list of titles.
pub open spec fn title_views(v: Seq<Title>) -> Seq<TitleView> {
    v.map_values(|t: Title| t@)
}

/// A title of that name is in the list.
pub open spec fn has_title(v: Seq<TitleView>, name: Seq<char>) -> bool {
    exists|k: int| 0 <= k < v.len() && (#[trigger] v[k]).name == name
}

/// Adds a title unless one of its name is there: identical builds that ship under several ids are
/// counted once.
pub fn add_title(v: &mut Vec<Title>, t: Title)
    ensures
        title_views(final(v)@) == (if has_title(title_views(old(v)@), t@.name) {
            title_views(old(v)@)
        } else {
            title_views(old(v)@).push(t@)
        }),
{
    let mut k: usize = 0;
    while k < v.len()
        invariant
            k <= v@.len(),
            v@ == old(v)@,
            forall|j: int| 0 <= j < k ==> (#[trigger] title_views(v@)[j]).name != t@.name,
        decreases v@.len() - k,
    {
        if same_text(v[k].name.as_str(), t.name.as_str()) {
            assert(title_views(v@)[k as int].name == t@.name);
            return;
        }
        k += 1;
    }
    let ghost was = title_views(v@);
    let ghost one = t@;
    v.push(t);
    assert(title_views(v@) =~= was.push(one));
}

/// Adding titles one after the other never gives two of the same name.
pub proof fn law_titles_stay_unique(v: Seq<TitleView>, t: TitleView)
    requires
        forall|i: int, j: int|
            0 <= i < j < v.len() ==> (#[trigger] v[i]).name != (#[trigger] v[j]).name,
        !has_title(v, t.name),
    ensures
        forall|i: int, j: int|
            0 <= i < j < v.push(t).len() ==> (#[trigger] v.push(t)[i]).name != (#[trigger] v.push(
                t,
            )[j]).name,
{
    assert forall|i: int, j: int| 0 <= i < j < v.push(t).len() implies (#[trigger] v.push(
        t,
    )[i]).name != (#[trigger] v.push(t)[j]).name by {
        assert(v.push(t)[i] == v[i]);
        if j == v.len() {
            assert(v[i].name != t.name);
        }
    }
}

/// The hard ordinals of all titles, one list behind the other.
pub open spec fn hard_lists(v: Seq<TitleView>) -> Seq<ImportView>
    decreases v.len(),
{
    if v.len() == 0 {
        Seq::empty()
    } else {
        hard_lists(v.drop_last()) + v.last().hard
    }
}

/// The soft ordinals of all titles, one list behind the other.
pub open spec fn soft_lists(v: Seq<TitleView>) -> Seq<ImportView>
    decreases v.len(),
{
    if v.len() == 0 {
        Seq::empty()
    } else {
        soft_lists(v.drop_last()) + v.last().soft
    }
}

/// The declared frameworks of all titles, one list behind the other.
pub open spec fn published_lists(v: Seq<TitleView>) -> Seq<ImportView>
    decreases v.len(),
{
    if v.len() == 0 {
        Seq::empty()
    } else {
        published_lists(v.drop_last()) + v.last().published
    }
}

/// The ordinals that some title reaches hard.
pub open spec fn all_hard(v: Seq<TitleView>) -> Seq<ImportView> {
    distinct(hard_lists(v))
}

/// The ordinals that titles reach, but none of them hard.
pub open spec fn all_soft(v: Seq<TitleView>) -> Seq<ImportView> {
    without(distinct(soft_lists(v)), all_hard(v))
}

/// The ordinals that some title reaches, hard or soft.
pub open spec fn all_used(v: Seq<TitleView>) -> Seq<ImportView> {
    distinct(all_hard(v) + all_soft(v))
}

/// The names of the frameworks in a list, in order.
pub open spec fn framework_names(v: Seq<ImportView>) -> Seq<Seq<char>>
    decreases v.len(),
{
    if v.len() == 0 {
        Seq::empty()
    } else {
        with_text(framework_names(v.drop_last()), v.last().fw)
    }
}

/// How many thunks a title declares for the framework; the last declaration counts.
pub open spec fn declared(v: Seq<ImportView>, fw: Seq<char>) -> int
    decreases v.len(),
{
    if v.len() == 0 {
        0
    } else if v.last().fw == fw {
        v.last().ord
    } else {
        declared(v.drop_last(), fw)
    }
}

/// The greatest number of thunks that a title declares for the framework.
pub open spec fn most_declared(v: Seq<TitleView>, fw: Seq<char>) -> int
    decreases v.len(),
{
    if v.len() == 0 {
        0
    } else {
        let rest = most_declared(v.drop_last(), fw);
        let own = declared(v.last().published, fw);
        if own > rest {
            own
        } else {
            rest
        }
    }
}

/// The hard, the soft and the declared lists of all titles, each one behind the other.
pub fn gather(v: &Vec<Title>) -> (r: (Vec<Import>, Vec<Import>, Vec<Import>))
    ensures
        import_views(r.0@) == hard_lists(title_views(v@)),
        import_views(r.1@) == soft_lists(title_views(v@)),
        import_views(r.2@) == published_lists(title_views(v@)),
{
    let mut hard: Vec<Import> = Vec::new();
    let mut soft: Vec<Import> = Vec::new();
    let mut published: Vec<Import> = Vec::new();
    let mut i: usize = 0;
    assert(import_views(hard@) =~= hard_lists(title_views(v@).take(0)));
    assert(import_views(soft@) =~= soft_lists(title_views(v@).take(0)));
    assert(import_views(published@) =~= published_lists(title_views(v@).take(0)));
    while i < v.len()
        invariant
            i <= v@.len(),
            import_views(hard@) == hard_lists(title_views(v@).take(i as int)),
            import_views(soft@) == soft_lists(title_views(v@).take(i as int)),
            import_views(published@) == published_lists(title_views(v@).take(i as int)),
        decreases v@.len() - i,
    {
        assert(title_views(v@).take(i + 1).drop_last() =~= title_views(v@).take(i as int));
        assert(title_views(v@).take(i + 1).last() == v@[i as int]@);
        append_imports(&mut hard, &v[i].hard);
        append_imports(&mut soft, &v[i].soft);
        append_imports(&mut published, &v[i].published);
        i += 1;
    }
    assert(title_views(v@).take(i as int) =~= title_views(v@));
    (hard, soft, published)
}

/// The names of the frameworks in a list, in order.
pub fn list_names(v: &Vec<Import>) -> (r: Vec<String>)
    ensures
        texts(r@) == framework_names(import_views(v@)),
{
    let mut r: Vec<String> = Vec::new();
    let mut i: usize = 0;
    assert(texts(r@) =~= framework_names(import_views(v@).take(0)));
    while i < v.len()
        invariant
            i <= v@.len(),
            texts(r@) == framework_names(import_views(v@).take(i as int)),
        decreases v@.len() - i,
    {
        assert(import_views(v@).take(i + 1).drop_last() =~= import_views(v@).take(i as int));
        assert(import_views(v@).take(i + 1).last() == v@[i as int]@);
        add_text(&mut r, v[i].fw.as_str());
        i += 1;
    }
    assert(import_views(v@).take(i as int) =~= import_views(v@));
    r
}

fn declared_by(v: &Vec<Import>, fw: &str) -> (n: usize)
    ensures
        n == declared(import_views(v@), fw@),
{
    let mut i: usize = v.len();
    assert(import_views(v@).take(i as int) =~= import_views(v@));
    while i > 0
        invariant
            i <= v@.len(),
            declared(import_views(v@), fw@) == declared(import_views(v@).take(i as int), fw@),
        decreases i,
    {
        assert(import_views(v@).take(i as int).drop_last() =~= import_views(v@).take(i - 1));
        assert(import_views(v@).take(i as int).last() == v@[i - 1]@);
        if same_text(v[i - 1].fw.as_str(), fw) {
            return v[i - 1].ord;
        }
        i -= 1;
    }
    0
}

/// The greatest number of thunks that a title declares for the framework.
pub fn most_declared_by(v: &Vec<Title>, fw: &str) -> (n: usize)
    ensures
        n == most_declared(title_views(v@), fw@),
{
    let mut n: usize = 0;
    let mut i: usize = 0;
    while i < v.len()
        invariant
            i <= v@.len(),
            n == most_declared(title_views(v@).take(i as int), fw@),
        decreases v@.len() - i,
    {
        assert(title_views(v@).take(i + 1).drop_last() =~= title_views(v@).take(i as int));
        assert(title_views(v@).take(i + 1).last() == v@[i as int]@);
        let own: usize = declared_by(&v[i].published, fw);
        if own > n {
            n = own;
        }
        i += 1;
    }
    assert(title_views(v@).take(i as int) =~= title_views(v@));
    n
}

// ---------------------------------------------------------------- what the source says

/// The text of a registration: the framework's name in quotation marks, a comma, a blank and the
/// ordinal in decimal.
pub open spec fn stub_text(name: Seq<char>, ord: nat) -> Seq<char> {
    "set_stub(\""@ + name + seq!['"', ',', ' '] + dec(ord)
}

proof fn lemma_skip_digits_is(s: Seq<char>, i: int, j: int)
    requires
        0 <= i <= j <= s.len(),
        forall|k: int| i <= k < j ==> '0' <= #[trigger] s[k] <= '9',
        j < s.len() ==> !('0' <= s[j] <= '9'),
    ensures
        skip_digits(s, i) == j,
    decreases j - i,
{
    if i < j {
        lemma_skip_digits_is(s, i + 1, j);
    }
}

/// A registration that is written is read back: for every name without a quotation mark and
/// every ordinal that fits, wherever the registration stands, reading it gives that name and that
/// ordinal to its last digit.
#[verifier::rlimit(60)]
pub proof fn law_a_registration_is_read_back(
    front: Seq<char>,
    name: Seq<char>,
    ord: nat,
    rest: Seq<char>,
)
    requires
        !name.contains('"'),
        ord <= usize::MAX,
        rest.len() > 0 ==> !('0' <= rest[0] <= '9'),
    ensures
        stub_at(front + stub_text(name, ord) + rest, front.len() as int) == Some(
            ImportView { fw: name, ord: ord as int },
        ),
        occurs_at(front + stub_text(name, ord) + rest, "set_stub(\""@, front.len() as int),
{
    let s = front + stub_text(name, ord) + rest;
    let i = front.len() as int;
    reveal_strlit("set_stub(\"");
    assert("set_stub(\""@.len() == 10);
    law_decimal_reads_back(ord, 0, usize::MAX as int);
    let q = i + 10 + name.len();
    assert forall|k: int| i + 10 <= k < q implies s[k] != '"' by {
        assert(s[k] == name[k - i - 10]);
        assert(name.contains(name[k - i - 10]));
    }
    assert(s[q] == '"');
    lemma_first_at_is(s, '"', i + 10, q);
    let a = q + 3;
    assert(s[q + 1] == ',');
    assert(s[q + 2] == ' ');
    assert(s[a] == dec(ord)[0]);
    assert(skip_separators(s, q + 1) == a) by {
        reveal_with_fuel(skip_separators, 4);
    }
    let b = a + dec(ord).len();
    assert forall|k: int| a <= k < b implies '0' <= #[trigger] s[k] <= '9' by {
        assert(s[k] == dec(ord)[k - a]);
    }
    assert(b < s.len() ==> s[b] == rest[0]);
    lemma_skip_digits_is(s, a, b);
    assert(s.subrange(a, b) =~= dec(ord));
    assert(s.subrange(i + 10, q) =~= name);
    assert(s.subrange(i, i + 10) =~= "set_stub(\""@);
}

proof fn lemma_stubs_hold(s: Seq<char>, n: int, i: int)
    requires
        0 <= i < n <= s.len(),
        occurs_at(s, "set_stub(\""@, i),
        stub_at(s, i) is Some,
    ensures
        stubs(s, n).contains(stub_at(s, i)->0),
    decreases n,
{
    let here = stubs(s, n);
    let x = stub_at(s, i)->0;
    if i == n - 1 {
        assert(here.last() == x);
    } else {
        lemma_stubs_hold(s, n - 1, i);
        let before = stubs(s, n - 1);
        let k = choose|k: int| 0 <= k < before.len() && before[k] == x;
        assert(here[k] == x);
    }
}

proof fn lemma_stubs_stand_somewhere(s: Seq<char>, n: int, x: ImportView) -> (i: int)
    requires
        n <= s.len(),
        stubs(s, n).contains(x),
    ensures
        0 <= i < n,
        occurs_at(s, "set_stub(\""@, i),
        stub_at(s, i) == Some(x),
    decreases n,
{
    let here = stubs(s, n);
    let k = choose|k: int| 0 <= k < here.len() && here[k] == x;
    if n <= 0 {
        assert(false);
        0
    } else if occurs_at(s, "set_stub(\""@, n - 1) && stub_at(s, n - 1) is Some {
        if k == here.len() - 1 {
            n - 1
        } else {
            assert(stubs(s, n - 1)[k] == x);
            lemma_stubs_stand_somewhere(s, n - 1, x)
        }
    } else {
        assert(stubs(s, n - 1)[k] == x);
        lemma_stubs_stand_somewhere(s, n - 1, x)
    }
}

/// Every registration in a source text counts as implemented, wherever it stands.
pub proof fn law_every_registration_counts(
    front: Seq<char>,
    name: Seq<char>,
    ord: nat,
    rest: Seq<char>,
)
    requires
        !name.contains('"'),
        ord <= usize::MAX,
        rest.len() > 0 ==> !('0' <= rest[0] <= '9'),
    ensures
        ({
            let s = front + stub_text(name, ord) + rest;
            distinct(stubs(s, s.len() as int)).contains(ImportView { fw: name, ord: ord as int })
        }),
{
    let s = front + stub_text(name, ord) + rest;
    reveal_strlit("set_stub(\"");
    law_a_registration_is_read_back(front, name, ord, rest);
    lemma_stubs_hold(s, s.len() as int, front.len() as int);
    law_distinct_keeps_every_import(
        stubs(s, s.len() as int),
        ImportView { fw: name, ord: ord as int },
    );
}

/// Nothing counts as implemented that is not written as a registration: behind `set_stub("`
/// stands its name up to the next quotation mark, and behind that and a run of commas and blanks
/// stand digits that mean its ordinal, up to a character that is no digit.
#[verifier::rlimit(60)]
pub proof fn law_no_registration_is_invented(s: Seq<char>, x: ImportView)
    requires
        distinct(stubs(s, s.len() as int)).contains(x),
    ensures
        exists|i: int, a: int, b: int|
            {
                &&& #[trigger] occurs_at(s, "set_stub(\""@ + x.fw + seq!['"'], i)
                &&& !x.fw.contains('"')
                &&& i + 10 + x.fw.len() < a < b <= s.len()
                &&& forall|k: int|
                    i + 11 + x.fw.len() <= k < a ==> (#[trigger] s[k] == ',' || s[k] == ' ')
                &&& forall|k: int| a <= k < b ==> '0' <= #[trigger] s[k] <= '9'
                &&& b < s.len() ==> !('0' <= s[b] <= '9')
                &&& unsigned(#[trigger] s.subrange(a, b), false, usize::MAX as int) == Some(x.ord)
            },
{
    law_distinct_keeps_every_import(stubs(s, s.len() as int), x);
    let i = lemma_stubs_stand_somewhere(s, s.len() as int, x);
    reveal_strlit("set_stub(\"");
    let h = "set_stub(\""@;
    let q = first_at(s, '"', i + 10);
    lemma_first_at(s, '"', i + 10);
    let a = skip_separators(s, q + 1);
    lemma_skip_separators(s, q + 1);
    let b = skip_digits(s, a);
    lemma_skip_digits(s, a);
    if a == b {
        law_other_text_is_no_number(s.subrange(a, b), false, usize::MAX as int, 0);
    }
    let t = h + x.fw + seq!['"'];
    assert forall|k: int| 0 <= k < t.len() implies s.subrange(i, i + t.len())[k] == t[k] by {
        if k < 10 {
            assert(s.subrange(i, i + 10)[k] == h[k]);
        } else if k < 10 + x.fw.len() {
            assert(x.fw[k - 10] == s[i + k]);
        } else {
            assert(i + k == q);
        }
    }
    assert(s.subrange(i, i + t.len()) =~= t);
    assert(occurs_at(s, t, i));
    assert forall|k: int| 0 <= k < x.fw.len() implies x.fw[k] != '"' by {
        assert(x.fw[k] == s[i + 10 + k]);
    }
    assert(unsigned(s.subrange(a, b), false, usize::MAX as int) == Some(x.ord));
}

proof fn lemma_skip_separators(s: Seq<char>, i: int)
    requires
        0 <= i <= s.len(),
    ensures
        i <= skip_separators(s, i) <= s.len(),
        forall|k: int|
            i <= k < skip_separators(s, i) ==> (#[trigger] s[k] == ',' || s[k] == ' '),
    decreases s.len() - i,
{
    if i < s.len() && (s[i] == ',' || s[i] == ' ') {
        lemma_skip_separators(s, i + 1);
    }
}

proof fn lemma_skip_digits(s: Seq<char>, i: int)
    requires
        0 <= i <= s.len(),
    ensures
        i <= skip_digits(s, i) <= s.len(),
        forall|k: int| i <= k < skip_digits(s, i) ==> '0' <= #[trigger] s[k] <= '9',
        skip_digits(s, i) < s.len() ==> !('0' <= s[skip_digits(s, i)] <= '9'),
    decreases s.len() - i,
{
    if i < s.len() && is_digit(s[i]) {
        lemma_skip_digits(s, i + 1);
    }
}

// ---------------------------------------------------------------- what the lists hold

proof fn lemma_without_is_filter(a: Seq<ImportView>, b: Seq<ImportView>)
    ensures
        without(a, b) == a.filter(|x: ImportView| !b.contains(x)),
    decreases a.len(),
{
    reveal(Seq::filter);
    if a.len() > 0 {
        lemma_without_is_filter(a.drop_last(), b);
    }
}

proof fn lemma_of_framework_is_filter(a: Seq<ImportView>, fw: Seq<char>)
    ensures
        of_framework(a, fw) == a.filter(|x: ImportView| x.fw == fw),
    decreases a.len(),
{
    reveal(Seq::filter);
    if a.len() > 0 {
        lemma_of_framework_is_filter(a.drop_last(), fw);
    }
}

/// What is left of a list without another is just the imports that the other does not hold, in
/// their order and as often as they stood; what is left of it for one framework is just those of
/// that framework.
pub proof fn law_lists_are_filtered(
    a: Seq<ImportView>,
    b: Seq<ImportView>,
    fw: Seq<char>,
    x: ImportView,
)
    ensures
        without(a, b) == a.filter(|y: ImportView| !b.contains(y)),
        without(a, b).contains(x) <==> a.contains(x) && !b.contains(x),
        of_framework(a, fw) == a.filter(|y: ImportView| y.fw == fw),
        of_framework(a, fw).contains(x) <==> a.contains(x) && x.fw == fw,
{
    lemma_without_is_filter(a, b);
    lemma_of_framework_is_filter(a, fw);
    let f = |y: ImportView| !b.contains(y);
    let g = |y: ImportView| y.fw == fw;
    lemma_filter_holds(a, f, x);
    lemma_filter_holds(a, g, x);
}

pub proof fn lemma_filter_holds<T>(a: Seq<T>, f: spec_fn(T) -> bool, x: T)
    ensures
        a.filter(f).contains(x) <==> a.contains(x) && f(x),
    decreases a.len(),
{
    reveal(Seq::filter);
    if a.len() > 0 {
        let u = a.drop_last();
        lemma_filter_holds(u, f, x);
        let r = a.filter(f);
        let s = u.filter(f);
        assert(a.contains(x) <==> u.contains(x) || a.last() == x) by {
            if u.contains(x) {
                let k = choose|k: int| 0 <= k < u.len() && u[k] == x;
                assert(a[k] == x);
            }
            assert(a[a.len() - 1] == a.last());
            if a.contains(x) {
                let k = choose|k: int| 0 <= k < a.len() && a[k] == x;
                if k < u.len() {
                    assert(u[k] == x);
                }
            }
        }
        if f(a.last()) {
            assert(r.contains(x) <==> s.contains(x) || a.last() == x) by {
                if s.contains(x) {
                    let k = choose|k: int| 0 <= k < s.len() && s[k] == x;
                    assert(r[k] == x);
                }
                assert(r[s.len() as int] == a.last());
                if r.contains(x) {
                    let k = choose|k: int| 0 <= k < r.len() && r[k] == x;
                    if k < s.len() {
                        assert(s[k] == x);
                    }
                }
            }
        }
    }
}

/// Some title needs the import.
pub open spec fn some_needs(v: Seq<TitleView>, x: ImportView) -> bool {
    exists|k: int| 0 <= k < v.len() && (#[trigger] v[k]).hard.contains(x)
}

/// Some title may need the import.
pub open spec fn some_may_need(v: Seq<TitleView>, x: ImportView) -> bool {
    exists|k: int| 0 <= k < v.len() && (#[trigger] v[k]).soft.contains(x)
}

pub proof fn lemma_concat_holds<T>(a: Seq<T>, b: Seq<T>, x: T)
    ensures
        (a + b).contains(x) <==> a.contains(x) || b.contains(x),
{
    let c = a + b;
    if a.contains(x) {
        let k = choose|k: int| 0 <= k < a.len() && a[k] == x;
        assert(c[k] == x);
    }
    if b.contains(x) {
        let k = choose|k: int| 0 <= k < b.len() && b[k] == x;
        assert(c[a.len() + k] == x);
    }
    if c.contains(x) {
        let k = choose|k: int| 0 <= k < c.len() && c[k] == x;
        if k < a.len() {
            assert(a[k] == x);
        } else {
            assert(b[k - a.len()] == x);
        }
    }
}

proof fn lemma_hard_lists(v: Seq<TitleView>, x: ImportView)
    ensures
        hard_lists(v).contains(x) <==> some_needs(v, x),
    decreases v.len(),
{
    if v.len() > 0 {
        let u = v.drop_last();
        lemma_hard_lists(u, x);
        lemma_concat_holds(hard_lists(u), v.last().hard, x);
        if some_needs(u, x) {
            let k = choose|k: int| 0 <= k < u.len() && (#[trigger] u[k]).hard.contains(x);
            assert(v[k].hard.contains(x));
        }
        if v.last().hard.contains(x) {
            assert(v[v.len() - 1].hard.contains(x));
        }
        if some_needs(v, x) {
            let k = choose|k: int| 0 <= k < v.len() && (#[trigger] v[k]).hard.contains(x);
            if k < u.len() {
                assert(u[k].hard.contains(x));
            }
        }
    }
}

proof fn lemma_soft_lists(v: Seq<TitleView>, x: ImportView)
    ensures
        soft_lists(v).contains(x) <==> some_may_need(v, x),
    decreases v.len(),
{
    if v.len() > 0 {
        let u = v.drop_last();
        lemma_soft_lists(u, x);
        lemma_concat_holds(soft_lists(u), v.last().soft, x);
        if some_may_need(u, x) {
            let k = choose|k: int| 0 <= k < u.len() && (#[trigger] u[k]).soft.contains(x);
            assert(v[k].soft.contains(x));
        }
        if v.last().soft.contains(x) {
            assert(v[v.len() - 1].soft.contains(x));
        }
        if some_may_need(v, x) {
            let k = choose|k: int| 0 <= k < v.len() && (#[trigger] v[k]).soft.contains(x);
            if k < u.len() {
                assert(u[k].soft.contains(x));
            }
        }
    }
}

/// Over all titles an import is hard where it is hard for one of them, soft where it is soft for
/// one of them and hard for none, and used where it is either; each is listed once, in order.
pub proof fn law_all_titles_count(v: Seq<TitleView>, x: ImportView)
    ensures
        all_hard(v).contains(x) <==> some_needs(v, x),
        all_soft(v).contains(x) <==> some_may_need(v, x) && !some_needs(v, x),
        all_used(v).contains(x) <==> some_needs(v, x) || some_may_need(v, x),
        imports_ascend(all_hard(v)),
        imports_ascend(all_used(v)),
{
    lemma_hard_lists(v, x);
    lemma_soft_lists(v, x);
    law_distinct_keeps_every_import(hard_lists(v), x);
    law_distinct_keeps_every_import(soft_lists(v), x);
    law_lists_are_filtered(distinct(soft_lists(v)), all_hard(v), Seq::empty(), x);
    law_distinct_keeps_every_import(all_hard(v) + all_soft(v), x);
    lemma_concat_holds(all_hard(v), all_soft(v), x);
    law_distinct_is_exact(hard_lists(v));
    law_distinct_is_exact(all_hard(v) + all_soft(v));
}

/// The frameworks of a list of imports are just those that one of them belongs to, each once, in
/// order.
pub proof fn law_every_framework_is_named(v: Seq<ImportView>, fw: Seq<char>)
    ensures
        texts_ascend(framework_names(v)),
        framework_names(v).contains(fw) <==> exists|k: int|
            0 <= k < v.len() && (#[trigger] v[k]).fw == fw,
    decreases v.len(),
{
    if v.len() > 0 {
        let u = v.drop_last();
        law_every_framework_is_named(u, fw);
        lemma_with_text(framework_names(u), v.last().fw);
        assert(with_text(framework_names(u), v.last().fw).contains(fw) <==> (framework_names(
            u,
        ).contains(fw) || fw == v.last().fw));
        if exists|k: int| 0 <= k < u.len() && (#[trigger] u[k]).fw == fw {
            let k = choose|k: int| 0 <= k < u.len() && (#[trigger] u[k]).fw == fw;
            assert(v[k].fw == fw);
        }
        if v.last().fw == fw {
            assert(v[v.len() - 1].fw == fw);
        }
        if exists|k: int| 0 <= k < v.len() && (#[trigger] v[k]).fw == fw {
            let k = choose|k: int| 0 <= k < v.len() && (#[trigger] v[k]).fw == fw;
            if k < u.len() {
                assert(u[k].fw == fw);
            }
        }
    }
}

/// The size that a title declares for a framework is that of its entry, where it has one for it,
/// and nought where it has none.
pub proof fn law_the_declared_size_is_found(v: Seq<ImportView>, k: int)
    requires
        0 <= k < v.len(),
        forall|j: int| k < j < v.len() ==> (#[trigger] v[j]).fw != v[k].fw,
    ensures
        declared(v, v[k].fw) == v[k].ord,
        forall|fw: Seq<char>|
            (forall|j: int| 0 <= j < v.len() ==> (#[trigger] v[j]).fw != fw) ==> #[trigger] declared(
                v,
                fw,
            ) == 0,
    decreases v.len(),
{
    if k < v.len() - 1 {
        let u = v.drop_last();
        assert forall|j: int| k < j < u.len() implies (#[trigger] u[j]).fw != u[k].fw by {
            assert(u[j] == v[j]);
        }
        law_the_declared_size_is_found(u, k);
        assert(v[v.len() - 1].fw != v[k].fw);
    }
    assert forall|fw: Seq<char>|
        (forall|j: int| 0 <= j < v.len() ==> (#[trigger] v[j]).fw != fw) implies #[trigger] declared(
        v,
        fw,
    ) == 0 by {
        lemma_declared_nowhere(v, fw);
    }
}

proof fn lemma_declared_nowhere(v: Seq<ImportView>, fw: Seq<char>)
    requires
        forall|j: int| 0 <= j < v.len() ==> (#[trigger] v[j]).fw != fw,
    ensures
        declared(v, fw) == 0,
    decreases v.len(),
{
    if v.len() > 0 {
        assert(v[v.len() - 1].fw != fw);
        lemma_declared_nowhere(v.drop_last(), fw);
    }
}

/// The size of a framework over all titles is the largest that any of them declares.
pub proof fn law_the_largest_declared_size_counts(v: Seq<TitleView>, fw: Seq<char>)
    ensures
        most_declared(v, fw) >= 0,
        forall|k: int|
            0 <= k < v.len() ==> declared((#[trigger] v[k]).published, fw) <= most_declared(v, fw),
        most_declared(v, fw) == 0 || exists|k: int|
            0 <= k < v.len() && declared((#[trigger] v[k]).published, fw) == most_declared(v, fw),
    decreases v.len(),
{
    if v.len() > 0 {
        let u = v.drop_last();
        law_the_largest_declared_size_counts(u, fw);
        assert forall|k: int| 0 <= k < v.len() implies declared(
            (#[trigger] v[k]).published,
            fw,
        ) <= most_declared(v, fw) by {
            if k < u.len() {
                assert(u[k] == v[k]);
            }
        }
        if most_declared(v, fw) != 0 {
            if most_declared(v, fw) == declared(v.last().published, fw) {
                assert(declared(v[v.len() - 1].published, fw) == most_declared(v, fw));
            } else {
                let k = choose|k: int|
                    0 <= k < u.len() && declared((#[trigger] u[k]).published, fw) == most_declared(
                        u,
                        fw,
                    );
                assert(v[k] == u[k]);
                assert(declared(v[k].published, fw) == most_declared(v, fw));
            }
        }
    }
}

} // verus!
