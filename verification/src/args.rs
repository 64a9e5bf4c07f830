//! Command-line arguments: flags, `--name=value` options and plain targets.

use vstd::prelude::*;

use crate::text::{chars_of, same_text, starts_with, strip_front, text_of};
#[allow(unused_imports)]
use crate::text::{begins, behind, texts};

verus! {

/// The arguments that are no options, in order.
pub open spec fn plain(a: Seq<Seq<char>>) -> Seq<Seq<char>>
    decreases a.len(),
{
    if a.len() == 0 {
        Seq::empty()
    } else if begins(a.last(), "--"@) {
        plain(a.drop_last())
    } else {
        plain(a.drop_last()).push(a.last())
    }
}

/// What stands behind `prefix` in each argument that begins with it, in order.
pub open spec fn values_of(a: Seq<Seq<char>>, prefix: Seq<char>) -> Seq<Seq<char>>
    decreases a.len(),
{
    if a.len() == 0 {
        Seq::empty()
    } else {
        match behind(a.last(), prefix) {
            Some(v) => values_of(a.drop_last(), prefix).push(v),
            None => values_of(a.drop_last(), prefix),
        }
    }
}

/// What stands behind `prefix` in the first argument that begins with it.
pub open spec fn value_of(a: Seq<Seq<char>>, prefix: Seq<char>) -> Option<Seq<char>> {
    let v = values_of(a, prefix);
    if v.len() == 0 {
        None
    } else {
        Some(v[0])
    }
}

/// Whether the flag is among the arguments.
pub fn has_flag(args: &[String], flag: &str) -> (r: bool)
    ensures
        r == texts(args@).contains(flag@),
{
    let mut i: usize = 0;
    while i < args.len()
        invariant
            i <= args@.len(),
            forall|k: int| 0 <= k < i ==> texts(args@)[k] != flag@,
        decreases args@.len() - i,
    {
        if same_text(args[i].as_str(), flag) {
            assert(texts(args@)[i as int] == flag@);
            return true;
        }
        i += 1;
    }
    false
}

/// The arguments that are no options, in order.
pub fn targets(args: &[String]) -> (r: Vec<String>)
    ensures
        texts(r@) == plain(texts(args@)),
{
    let mut r: Vec<String> = Vec::new();
    let dashes = chars_of("--");
    let mut i: usize = 0;
    assert(texts(r@) =~= plain(texts(args@).take(0)));
    while i < args.len()
        invariant
            i <= args@.len(),
            dashes@ == "--"@,
            texts(r@) == plain(texts(args@).take(i as int)),
        decreases args@.len() - i,
    {
        assert(texts(args@).take(i + 1).drop_last() =~= texts(args@).take(i as int));
        let a = chars_of(args[i].as_str());
        let ghost done = r@;
        if !starts_with(a.as_slice(), dashes.as_slice()) {
            r.push(text_of(a.as_slice()));
            assert(texts(r@) =~= texts(done).push(a@));
        }
        i += 1;
    }
    assert(texts(args@).take(i as int) =~= texts(args@));
    r
}

/// The values of every `prefix` option, in order.
pub fn values(args: &[String], prefix: &str) -> (r: Vec<String>)
    ensures
        texts(r@) == values_of(texts(args@), prefix@),
{
    let mut r: Vec<String> = Vec::new();
    let mut i: usize = 0;
    assert(texts(r@) =~= values_of(texts(args@).take(0), prefix@));
    while i < args.len()
        invariant
            i <= args@.len(),
            texts(r@) == values_of(texts(args@).take(i as int), prefix@),
        decreases args@.len() - i,
    {
        assert(texts(args@).take(i + 1).drop_last() =~= texts(args@).take(i as int));
        let a = chars_of(args[i].as_str());
        let ghost done = r@;
        if let Some(v) = strip_front(a.as_slice(), prefix) {
            r.push(text_of(v));
            assert(texts(r@) =~= texts(done).push(v@));
        }
        i += 1;
    }
    assert(texts(args@).take(i as int) =~= texts(args@));
    r
}

/// The value of the first `prefix` option.
pub fn value(args: &[String], prefix: &str) -> (r: Option<String>)
    ensures
        match r {
            Some(v) => value_of(texts(args@), prefix@) == Some(v@),
            None => value_of(texts(args@), prefix@) is None,
        },
{
    let all = values(args, prefix);
    assert(texts(all@).len() == all@.len());
    if all.len() == 0 {
        None
    } else {
        assert(texts(all@)[0] == all@[0]@);
        Some(all[0].clone())
    }
}

// ---------------------------------------------------------------- laws

/// The plain arguments are those that do not begin with two hyphens, in their order.
pub proof fn law_plain_arguments_are_the_rest(a: Seq<Seq<char>>)
    ensures
        plain(a) == a.filter(|s: Seq<char>| !(s.len() >= 2 && s[0] == '-' && s[1] == '-')),
    decreases a.len(),
{
    reveal(Seq::filter);
    reveal_strlit("--");
    if a.len() > 0 {
        law_plain_arguments_are_the_rest(a.drop_last());
        let s = a.last();
        assert(begins(s, "--"@) <==> s.len() >= 2 && s[0] == '-' && s[1] == '-') by {
            if s.len() >= 2 && s[0] == '-' && s[1] == '-' {
                assert(s.take(2) =~= "--"@);
            }
            if begins(s, "--"@) {
                assert(s.take(2)[0] == s[0] && s.take(2)[1] == s[1]);
            }
        }
    }
}

proof fn lemma_values(a: Seq<Seq<char>>, prefix: Seq<char>)
    ensures
        values_of(a, prefix) == a.filter_map(|s: Seq<char>| behind(s, prefix)),
    decreases a.len(),
{
    if a.len() > 0 {
        lemma_values(a.drop_last(), prefix);
        match behind(a.last(), prefix) {
            Some(v) => {
                let u = values_of(a.drop_last(), prefix);
                assert(u.push(v) =~= u + seq![v]);
            },
            None => {},
        }
    }
}

proof fn lemma_values_of_none(a: Seq<Seq<char>>, prefix: Seq<char>)
    requires
        forall|j: int| 0 <= j < a.len() ==> !begins(#[trigger] a[j], prefix),
    ensures
        values_of(a, prefix).len() == 0,
    decreases a.len(),
{
    if a.len() > 0 {
        assert(!begins(a[a.len() - 1], prefix));
        lemma_values_of_none(a.drop_last(), prefix);
    }
}

proof fn lemma_first_value(a: Seq<Seq<char>>, prefix: Seq<char>, k: int)
    requires
        0 <= k < a.len(),
        begins(a[k], prefix),
        forall|j: int| 0 <= j < k ==> !begins(#[trigger] a[j], prefix),
    ensures
        values_of(a, prefix).len() > 0,
        values_of(a, prefix)[0] == a[k].skip(prefix.len() as int),
    decreases a.len(),
{
    let u = a.drop_last();
    if k < a.len() - 1 {
        lemma_first_value(u, prefix, k);
    } else {
        lemma_values_of_none(u, prefix);
    }
}

/// The value of a flag is what stands behind it in the first argument that begins with it; there is
/// none just where no argument does. The values are those of all such arguments, in their order.
pub proof fn law_the_first_value_counts(a: Seq<Seq<char>>, prefix: Seq<char>, k: int, v: Seq<char>)
    requires
        0 <= k < a.len(),
        forall|j: int| 0 <= j < k ==> !begins(#[trigger] a[j], prefix),
    ensures
        a[k] == prefix + v ==> value_of(a, prefix) == Some(v),
        values_of(a, prefix) == a.filter_map(|s: Seq<char>| behind(s, prefix)),
        k == a.len() - 1 && !begins(a[k], prefix) ==> value_of(a, prefix) is None,
{
    lemma_values(a, prefix);
    if a[k] == prefix + v {
        assert(a[k].take(prefix.len() as int) =~= prefix);
        assert(a[k].skip(prefix.len() as int) =~= v);
        lemma_first_value(a, prefix, k);
    }
    if k == a.len() - 1 && !begins(a[k], prefix) {
        assert forall|j: int| 0 <= j < a.len() implies !begins(#[trigger] a[j], prefix) by {
            if j < k {
                assert(!begins(a[j], prefix));
            }
        }
        lemma_values_of_none(a, prefix);
    }
}

/// Without any argument there is no value.
pub proof fn law_no_argument_gives_no_value(prefix: Seq<char>)
    ensures
        value_of(Seq::empty(), prefix) is None,
{
}

} // verus!
