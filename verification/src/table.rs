//! Small tables that are kept in ascending order: addresses, texts, and values found by an address.

use vstd::prelude::*;

use crate::text::{chars_of, comes_before, same_text, text_of};
#[allow(unused_imports)]
use crate::text::{lemma_text_less_total, lemma_text_less_transitive, text_less, texts};

verus! {

// ---------------------------------------------------------------- addresses

/// The addresses stand in ascending order, and none occurs twice.
pub open spec fn ascending(s: Seq<u32>) -> bool {
    forall|i: int, j: int| 0 <= i < j < s.len() ==> s[i] < s[j]
}

/// The list with `a` in its place; unchanged when it holds `a` already.
pub open spec fn with_address(s: Seq<u32>, a: u32) -> Seq<u32>
    decreases s.len(),
{
    if s.len() == 0 {
        seq![a]
    } else if s[0] == a {
        s
    } else if a < s[0] {
        seq![a] + s
    } else {
        seq![s[0]] + with_address(s.drop_first(), a)
    }
}

proof fn lemma_with_address_at(s: Seq<u32>, a: u32, p: int)
    requires
        0 <= p <= s.len(),
        forall|k: int| 0 <= k < p ==> s[k] < a,
    ensures
        with_address(s, a) == s.take(p) + with_address(s.skip(p), a),
    decreases p,
{
    if p == 0 {
        assert(s.skip(0) =~= s);
        assert(s.take(0) + with_address(s, a) =~= with_address(s, a));
    } else {
        let rest = s.drop_first();
        lemma_with_address_at(rest, a, p - 1);
        assert(rest.skip(p - 1) =~= s.skip(p));
        assert(seq![s[0]] + (rest.take(p - 1) + with_address(s.skip(p), a)) =~= s.take(p)
            + with_address(s.skip(p), a));
    }
}

/// Whether the list holds `a`.
pub fn holds(v: &Vec<u32>, a: u32) -> (r: bool)
    ensures
        r == v@.contains(a),
{
    let mut i: usize = 0;
    while i < v.len()
        invariant
            i <= v@.len(),
            forall|k: int| 0 <= k < i ==> v@[k] != a,
        decreases v@.len() - i,
    {
        if v[i] == a {
            return true;
        }
        i += 1;
    }
    false
}

/// Puts `a` into its place.
pub fn add_address(v: &mut Vec<u32>, a: u32)
    ensures
        final(v)@ == with_address(old(v)@, a),
{
    let mut p: usize = 0;
    while p < v.len() && v[p] < a
        invariant
            p <= v@.len(),
            v@ == old(v)@,
            forall|k: int| 0 <= k < p ==> v@[k] < a,
        decreases v@.len() - p,
    {
        p += 1;
    }
    let ghost was = old(v)@;
    proof {
        lemma_with_address_at(was, a, p as int);
        if p < was.len() {
            assert(was.skip(p as int)[0] == was[p as int]);
        }
        assert(was.take(p as int) + was.skip(p as int) =~= was);
    }
    if p < v.len() && v[p] == a {
        return;
    }
    v.insert(p, a);
    proof {
        if p < was.len() {
            assert(v@ =~= was.take(p as int) + (seq![a] + was.skip(p as int)));
        } else {
            assert(was.skip(p as int) =~= Seq::empty());
            assert(v@ =~= was.take(p as int) + seq![a]);
        }
    }
}

/// Whatever its order, a list gains the one address and loses none.
pub proof fn lemma_with_address_holds(s: Seq<u32>, a: u32, x: u32)
    ensures
        with_address(s, a).contains(x) <==> (s.contains(x) || x == a),
    decreases s.len(),
{
    let new = with_address(s, a);
    if s.len() == 0 {
        assert(new[0] == a);
    } else if s[0] == a {
    } else if a < s[0] {
        assert(new[0] == a);
        if s.contains(x) {
            let k = choose|k: int| 0 <= k < s.len() && s[k] == x;
            assert(new[k + 1] == x);
        }
        if new.contains(x) && x != a {
            let k = choose|k: int| 0 <= k < new.len() && new[k] == x;
            assert(s[k - 1] == x);
        }
    } else {
        let rest = s.drop_first();
        let tail = with_address(rest, a);
        lemma_with_address_holds(rest, a, x);
        assert(new[0] == s[0]);
        if tail.contains(x) {
            let k = choose|k: int| 0 <= k < tail.len() && tail[k] == x;
            assert(new[k + 1] == x);
        }
        if rest.contains(x) {
            let k = choose|k: int| 0 <= k < rest.len() && rest[k] == x;
            assert(s[k + 1] == x);
        }
        if s.contains(x) && x != s[0] {
            let k = choose|k: int| 0 <= k < s.len() && s[k] == x;
            assert(rest[k - 1] == x);
        }
        if new.contains(x) && x != s[0] {
            let k = choose|k: int| 0 <= k < new.len() && new[k] == x;
            assert(tail[k - 1] == x);
        }
    }
}

/// A list that is in order stays so, gains the one address and loses none.
pub proof fn lemma_with_address(s: Seq<u32>, a: u32)
    requires
        ascending(s),
    ensures
        ascending(with_address(s, a)),
        forall|x: u32| with_address(s, a).contains(x) <==> (s.contains(x) || x == a),
        with_address(s, a).len() == s.len() + (if s.contains(a) {
            0int
        } else {
            1
        }),
    decreases s.len(),
{
    let new = with_address(s, a);
    if s.len() == 0 {
        assert(new[0] == a);
        assert forall|x: u32| new.contains(x) <==> (s.contains(x) || x == a) by {
            if x == a {
                assert(new[0] == x);
            }
        }
    } else if s[0] == a {
    } else if a < s[0] {
        assert forall|i: int, j: int| 0 <= i < j < new.len() implies new[i] < new[j] by {
            assert(new[j] == s[j - 1]);
            if i > 0 {
                assert(new[i] == s[i - 1]);
            }
        }
        assert forall|x: u32| new.contains(x) <==> (s.contains(x) || x == a) by {
            if x == a {
                assert(new[0] == x);
            }
            if s.contains(x) {
                let k = choose|k: int| 0 <= k < s.len() && s[k] == x;
                assert(new[k + 1] == x);
            }
            if new.contains(x) {
                let k = choose|k: int| 0 <= k < new.len() && new[k] == x;
                if k > 0 {
                    assert(s[k - 1] == x);
                }
            }
        }
    } else {
        let rest = s.drop_first();
        lemma_with_address(rest, a);
        let tail = with_address(rest, a);
        assert forall|x: u32| rest.contains(x) implies s[0] < x by {
            let k = choose|k: int| 0 <= k < rest.len() && rest[k] == x;
            assert(rest[k] == s[k + 1]);
        }
        assert forall|i: int, j: int| 0 <= i < j < new.len() implies new[i] < new[j] by {
            assert(new[j] == tail[j - 1]);
            if i > 0 {
                assert(new[i] == tail[i - 1]);
            } else {
                let x = tail[j - 1];
                assert(tail.contains(x));
                assert(rest.contains(x) || x == a);
                assert(new[0] == s[0]);
            }
        }
        assert forall|x: u32| s.contains(x) <==> (rest.contains(x) || x == s[0]) by {
            if s.contains(x) && x != s[0] {
                let k = choose|k: int| 0 <= k < s.len() && s[k] == x;
                assert(rest[k - 1] == x);
            }
            if rest.contains(x) {
                let k = choose|k: int| 0 <= k < rest.len() && rest[k] == x;
                assert(s[k + 1] == x);
            }
        }
        assert forall|x: u32| new.contains(x) <==> (tail.contains(x) || x == s[0]) by {
            if new.contains(x) && x != s[0] {
                let k = choose|k: int| 0 <= k < new.len() && new[k] == x;
                assert(tail[k - 1] == x);
            }
            if tail.contains(x) {
                let k = choose|k: int| 0 <= k < tail.len() && tail[k] == x;
                assert(new[k + 1] == x);
            }
            if x == s[0] {
                assert(new[0] == x);
            }
        }
    }
}

// ---------------------------------------------------------------- texts

/// The texts stand in ascending order, and none occurs twice.
pub open spec fn texts_ascend(s: Seq<Seq<char>>) -> bool {
    forall|i: int, j: int| 0 <= i < j < s.len() ==> text_less(s[i], s[j])
}

/// The list with `t` in its place; unchanged when it holds `t` already.
pub open spec fn with_text(s: Seq<Seq<char>>, t: Seq<char>) -> Seq<Seq<char>>
    decreases s.len(),
{
    if s.len() == 0 {
        seq![t]
    } else if s[0] == t {
        s
    } else if text_less(t, s[0]) {
        seq![t] + s
    } else {
        seq![s[0]] + with_text(s.drop_first(), t)
    }
}

proof fn lemma_with_text_at(s: Seq<Seq<char>>, t: Seq<char>, p: int)
    requires
        0 <= p <= s.len(),
        forall|k: int| 0 <= k < p ==> text_less(s[k], t),
    ensures
        with_text(s, t) == s.take(p) + with_text(s.skip(p), t),
    decreases p,
{
    if p == 0 {
        assert(s.skip(0) =~= s);
        assert(s.take(0) + with_text(s, t) =~= with_text(s, t));
    } else {
        lemma_text_less_total(s[0], t);
        let rest = s.drop_first();
        assert forall|k: int| 0 <= k < p - 1 implies text_less(rest[k], t) by {
            assert(rest[k] == s[k + 1]);
        }
        lemma_with_text_at(rest, t, p - 1);
        assert(rest.skip(p - 1) =~= s.skip(p));
        assert(seq![s[0]] + (rest.take(p - 1) + with_text(s.skip(p), t)) =~= s.take(p) + with_text(
            s.skip(p),
            t,
        ));
    }
}

/// Puts `t` into its place.
pub fn add_text(v: &mut Vec<String>, t: &str)
    ensures
        texts(final(v)@) == with_text(texts(old(v)@), t@),
{
    let mut p: usize = 0;
    while p < v.len() && comes_before(v[p].as_str(), t)
        invariant
            p <= v@.len(),
            v@ == old(v)@,
            forall|k: int| 0 <= k < p ==> text_less(texts(v@)[k], t@),
        decreases v@.len() - p,
    {
        p += 1;
    }
    let ghost was = texts(old(v)@);
    proof {
        lemma_with_text_at(was, t@, p as int);
        if p < was.len() {
            assert(was.skip(p as int)[0] == was[p as int]);
            lemma_text_less_total(was[p as int], t@);
        }
        assert(was.take(p as int) + was.skip(p as int) =~= was);
    }
    if p < v.len() && same_text(v[p].as_str(), t) {
        return;
    }
    v.insert(p, text_of(chars_of(t).as_slice()));
    proof {
        if p < was.len() {
            assert(texts(v@) =~= was.take(p as int) + (seq![t@] + was.skip(p as int)));
        } else {
            assert(was.skip(p as int) =~= Seq::empty());
            assert(texts(v@) =~= was.take(p as int) + seq![t@]);
        }
    }
}

/// A list that is in order stays so, gains the one text and loses none.
pub proof fn lemma_with_text(s: Seq<Seq<char>>, t: Seq<char>)
    requires
        texts_ascend(s),
    ensures
        texts_ascend(with_text(s, t)),
        forall|x: Seq<char>| with_text(s, t).contains(x) <==> (s.contains(x) || x == t),
    decreases s.len(),
{
    let new = with_text(s, t);
    if s.len() == 0 {
        assert forall|x: Seq<char>| new.contains(x) <==> (s.contains(x) || x == t) by {
            if x == t {
                assert(new[0] == x);
            }
        }
    } else {
        lemma_text_less_total(s[0], t);
        if s[0] == t {
        } else if text_less(t, s[0]) {
            assert forall|i: int, j: int| 0 <= i < j < new.len() implies text_less(
                new[i],
                new[j],
            ) by {
                assert(new[j] == s[j - 1]);
                if i > 0 {
                    assert(new[i] == s[i - 1]);
                } else if j > 1 {
                    lemma_text_less_transitive(t, s[0], s[j - 1]);
                }
            }
            assert forall|x: Seq<char>| new.contains(x) <==> (s.contains(x) || x == t) by {
                if x == t {
                    assert(new[0] == x);
                }
                if s.contains(x) {
                    let k = choose|k: int| 0 <= k < s.len() && s[k] == x;
                    assert(new[k + 1] == x);
                }
                if new.contains(x) {
                    let k = choose|k: int| 0 <= k < new.len() && new[k] == x;
                    if k > 0 {
                        assert(s[k - 1] == x);
                    }
                }
            }
        } else {
            let rest = s.drop_first();
            assert forall|i: int, j: int| 0 <= i < j < rest.len() implies text_less(
                rest[i],
                rest[j],
            ) by {
                assert(rest[i] == s[i + 1] && rest[j] == s[j + 1]);
            }
            lemma_with_text(rest, t);
            let tail = with_text(rest, t);
            assert forall|x: Seq<char>| rest.contains(x) implies text_less(s[0], x) by {
                let k = choose|k: int| 0 <= k < rest.len() && rest[k] == x;
                assert(rest[k] == s[k + 1]);
            }
            assert forall|i: int, j: int| 0 <= i < j < new.len() implies text_less(
                new[i],
                new[j],
            ) by {
                assert(new[j] == tail[j - 1]);
                if i > 0 {
                    assert(new[i] == tail[i - 1]);
                } else {
                    let x = tail[j - 1];
                    assert(tail.contains(x));
                    assert(rest.contains(x) || x == t);
                    assert(new[0] == s[0]);
                }
            }
            assert forall|x: Seq<char>| s.contains(x) <==> (rest.contains(x) || x == s[0]) by {
                if s.contains(x) && x != s[0] {
                    let k = choose|k: int| 0 <= k < s.len() && s[k] == x;
                    assert(rest[k - 1] == x);
                }
                if rest.contains(x) {
                    let k = choose|k: int| 0 <= k < rest.len() && rest[k] == x;
                    assert(s[k + 1] == x);
                }
            }
            assert forall|x: Seq<char>| new.contains(x) <==> (tail.contains(x) || x == s[0]) by {
                if new.contains(x) && x != s[0] {
                    let k = choose|k: int| 0 <= k < new.len() && new[k] == x;
                    assert(tail[k - 1] == x);
                }
                if tail.contains(x) {
                    let k = choose|k: int| 0 <= k < tail.len() && tail[k] == x;
                    assert(new[k + 1] == x);
                }
                if x == s[0] {
                    assert(new[0] == x);
                }
            }
        }
    }
}

// ---------------------------------------------------------------- values by address

/// The value at `k`, if the table has one.
pub open spec fn lookup<V>(s: Seq<(u32, V)>, k: u32) -> Option<V>
    decreases s.len(),
{
    if s.len() == 0 {
        None
    } else if s[0].0 == k {
        Some(s[0].1)
    } else {
        lookup(s.drop_first(), k)
    }
}

/// The table with the value `x` at `k`, in ascending order of the addresses; a value that stood
/// there is replaced.
pub open spec fn with_value<V>(s: Seq<(u32, V)>, k: u32, x: V) -> Seq<(u32, V)>
    decreases s.len(),
{
    if s.len() == 0 {
        seq![(k, x)]
    } else if s[0].0 == k {
        seq![(k, x)] + s.drop_first()
    } else if k < s[0].0 {
        seq![(k, x)] + s
    } else {
        seq![s[0]] + with_value(s.drop_first(), k, x)
    }
}

/// The addresses of a table stand in ascending order, and none occurs twice.
pub open spec fn keys_ascend<V>(s: Seq<(u32, V)>) -> bool {
    forall|i: int, j: int| 0 <= i < j < s.len() ==> #[trigger] s[i].0 < #[trigger] s[j].0
}

/// Every address of the table is above `low`.
pub open spec fn above<V>(s: Seq<(u32, V)>, low: u32) -> bool {
    forall|i: int| 0 <= i < s.len() ==> low < #[trigger] s[i].0
}

proof fn lemma_with_value_at<V>(s: Seq<(u32, V)>, k: u32, x: V, p: int)
    requires
        0 <= p <= s.len(),
        forall|i: int| 0 <= i < p ==> #[trigger] s[i].0 < k,
    ensures
        with_value(s, k, x) == s.take(p) + with_value(s.skip(p), k, x),
    decreases p,
{
    if p == 0 {
        assert(s.skip(0) =~= s);
        assert(s.take(0) + with_value(s, k, x) =~= with_value(s, k, x));
    } else {
        let rest = s.drop_first();
        assert forall|i: int| 0 <= i < p - 1 implies #[trigger] rest[i].0 < k by {
            assert(rest[i] == s[i + 1]);
        }
        lemma_with_value_at(rest, k, x, p - 1);
        assert(rest.skip(p - 1) =~= s.skip(p));
        assert(seq![s[0]] + (rest.take(p - 1) + with_value(s.skip(p), k, x)) =~= s.take(p)
            + with_value(s.skip(p), k, x));
    }
}

/// The value at `k`, if the table has one.
pub fn find<V>(v: &Vec<(u32, V)>, k: u32) -> (r: Option<&V>)
    ensures
        match r {
            Some(x) => lookup(v@, k) == Some(*x),
            None => lookup(v@, k) is None,
        },
{
    let mut i: usize = 0;
    assert(v@.skip(0) =~= v@);
    while i < v.len()
        invariant
            i <= v@.len(),
            lookup(v@, k) == lookup(v@.skip(i as int), k),
        decreases v@.len() - i,
    {
        assert(v@.skip(i as int)[0] == v@[i as int]);
        if v[i].0 == k {
            return Some(&v[i].1);
        }
        assert(v@.skip(i as int).drop_first() =~= v@.skip(i + 1));
        i += 1;
    }
    None
}

/// Puts the value `x` at `k`.
pub fn put<V>(v: &mut Vec<(u32, V)>, k: u32, x: V)
    ensures
        final(v)@ == with_value(old(v)@, k, x),
{
    let mut p: usize = 0;
    while p < v.len() && v[p].0 < k
        invariant
            p <= v@.len(),
            v@ == old(v)@,
            forall|i: int| 0 <= i < p ==> #[trigger] v@[i].0 < k,
        decreases v@.len() - p,
    {
        p += 1;
    }
    let ghost was = old(v)@;
    proof {
        lemma_with_value_at(was, k, x, p as int);
        if p < was.len() {
            assert(was.skip(p as int)[0] == was[p as int]);
        }
    }
    if p < v.len() && v[p].0 == k {
        v.set(p, (k, x));
        assert(v@ =~= was.take(p as int) + (seq![(k, x)] + was.skip(p as int).drop_first()));
    } else {
        v.insert(p, (k, x));
        proof {
            if p < was.len() {
                assert(v@ =~= was.take(p as int) + (seq![(k, x)] + was.skip(p as int)));
            } else {
                assert(was.skip(p as int) =~= Seq::empty());
                assert(v@ =~= was.take(p as int) + seq![(k, x)]);
            }
        }
    }
}

proof fn lemma_with_value_above<V>(s: Seq<(u32, V)>, k: u32, x: V, low: u32)
    requires
        low < k,
        above(s, low),
    ensures
        above(with_value(s, k, x), low),
    decreases s.len(),
{
    let new = with_value(s, k, x);
    if s.len() > 0 {
        let rest = s.drop_first();
        assert(above(rest, low)) by {
            assert forall|i: int| 0 <= i < rest.len() implies low < #[trigger] rest[i].0 by {
                assert(rest[i] == s[i + 1]);
            }
        }
        lemma_with_value_above(rest, k, x, low);
        let tail = with_value(rest, k, x);
        assert forall|i: int| 0 <= i < new.len() implies low < #[trigger] new[i].0 by {
            if s[0].0 == k {
                if i > 0 {
                    assert(new[i] == rest[i - 1]);
                }
            } else if k < s[0].0 {
                if i > 0 {
                    assert(new[i] == s[i - 1]);
                }
            } else {
                if i > 0 {
                    assert(new[i] == tail[i - 1]);
                } else {
                    assert(new[0] == s[0]);
                }
            }
        }
    }
}

/// A table that is in order stays so when a value is put.
pub proof fn lemma_with_value_ascends<V>(s: Seq<(u32, V)>, k: u32, x: V)
    requires
        keys_ascend(s),
    ensures
        keys_ascend(with_value(s, k, x)),
    decreases s.len(),
{
    let new = with_value(s, k, x);
    if s.len() > 0 {
        let rest = s.drop_first();
        assert forall|i: int, j: int| 0 <= i < j < rest.len() implies #[trigger] rest[i].0
            < #[trigger] rest[j].0 by {
            assert(rest[i] == s[i + 1] && rest[j] == s[j + 1]);
        }
        assert forall|i: int| 0 <= i < rest.len() implies s[0].0 < #[trigger] rest[i].0 by {
            assert(rest[i] == s[i + 1]);
        }
        lemma_with_value_ascends(rest, k, x);
        let tail = with_value(rest, k, x);
        if s[0].0 < k {
            lemma_with_value_above(rest, k, x, s[0].0);
        }
        assert forall|i: int, j: int| 0 <= i < j < new.len() implies #[trigger] new[i].0
            < #[trigger] new[j].0 by {
            if s[0].0 == k {
                assert(new[j] == rest[j - 1]);
                if i > 0 {
                    assert(new[i] == rest[i - 1]);
                }
            } else if k < s[0].0 {
                assert(new[j] == s[j - 1]);
                if i > 0 {
                    assert(new[i] == s[i - 1]);
                }
            } else {
                assert(new[j] == tail[j - 1]);
                if i > 0 {
                    assert(new[i] == tail[i - 1]);
                } else {
                    assert(new[0] == s[0]);
                }
            }
        }
    }
}

/// The value that was put is found, and every other value as before.
pub proof fn lemma_lookup_with_value<V>(s: Seq<(u32, V)>, k: u32, x: V, j: u32)
    requires
        keys_ascend(s),
    ensures
        lookup(with_value(s, k, x), j) == (if j == k {
            Some(x)
        } else {
            lookup(s, j)
        }),
    decreases s.len(),
{
    let new = with_value(s, k, x);
    if s.len() == 0 {
        assert(new.drop_first() =~= s);
    } else {
        let rest = s.drop_first();
        assert forall|i: int, l: int| 0 <= i < l < rest.len() implies #[trigger] rest[i].0
            < #[trigger] rest[l].0 by {
            assert(rest[i] == s[i + 1] && rest[l] == s[l + 1]);
        }
        if s[0].0 == k {
            assert(new.drop_first() =~= rest);
        } else if k < s[0].0 {
            assert(new.drop_first() =~= s);
        } else {
            lemma_lookup_with_value(rest, k, x, j);
            assert(new.drop_first() =~= with_value(rest, k, x));
        }
    }
}

// ---------------------------------------------------------------- lists that are gone through

/// Two lists in a row give what the one gives and then what the other gives.
#[verifier::rlimit(60)]
pub proof fn lemma_filter_map_in_turn<A, B>(a: Seq<A>, b: Seq<A>, f: spec_fn(A) -> Option<B>)
    ensures
        (a + b).filter_map(f) == a.filter_map(f) + b.filter_map(f),
    decreases b.len(),
{
    if b.len() > 0 {
        lemma_filter_map_in_turn(a, b.drop_last(), f);
        assert((a + b).drop_last() =~= a + b.drop_last());
        assert((a + b).last() == b.last());
        match f(b.last()) {
            Some(x) => {
                let p = a.filter_map(f);
                let q = b.drop_last().filter_map(f);
                assert(p + q + seq![x] =~= p + (q + seq![x]));
            },
            None => {},
        }
    } else {
        assert(a + b =~= a);
        assert(b.filter_map(f) =~= Seq::empty());
        assert(a.filter_map(f) + Seq::empty() =~= a.filter_map(f));
    }
}

/// The first of a list comes before what the rest gives.
#[verifier::rlimit(60)]
pub proof fn lemma_filter_map_first<A, B>(x: A, b: Seq<A>, f: spec_fn(A) -> Option<B>)
    ensures
        (seq![x] + b).filter_map(f) == (match f(x) {
            Some(y) => seq![y] + b.filter_map(f),
            None => b.filter_map(f),
        }),
{
    lemma_filter_map_in_turn(seq![x], b, f);
    assert(seq![x].drop_last() =~= Seq::<A>::empty());
    reveal_with_fuel(Seq::filter_map, 2);
    match f(x) {
        Some(y) => {
            assert(Seq::<B>::empty() + seq![y] =~= seq![y]);
        },
        None => {
            assert(Seq::<B>::empty() + b.filter_map(f) =~= b.filter_map(f));
        },
    }
}

/// The numbers from `i` on, `n` of them.
pub open spec fn numbers(i: int, n: nat) -> Seq<int> {
    Seq::new(n, |k: int| i + k)
}

/// The numbers from one on begin with it.
pub proof fn lemma_numbers_first(i: int, n: nat)
    requires
        n > 0,
    ensures
        numbers(i, n) == seq![i] + numbers(i + 1, (n - 1) as nat),
{
    assert(numbers(i, n) =~= seq![i] + numbers(i + 1, (n - 1) as nat));
}

} // verus!
