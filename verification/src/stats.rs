//! Counts over a run: which addresses are hot, who allocates, and the lines that show it.

use vstd::prelude::*;

use crate::table::add_address;
#[allow(unused_imports)]
use crate::table::{ascending, lemma_with_address, lemma_with_address_holds, with_address};
use crate::text::{push_address, push_dec, push_hex_wide};
#[allow(unused_imports)]
use crate::text::lemma_one_more_cell;
#[allow(unused_imports)]
use crate::text::{address, begins, contains, dec, ends, hex, hex_wide, occurs_at, unsigned};
#[allow(unused_imports)]
use crate::text::{
    law_an_address_is_read_back, law_decimal_reads_back, law_hex_reads_back, law_parts_are_found,
    lemma_inside,
};

verus! {

// ---------------------------------------------------------------- ranking

/// The list with `x` in its place: behind everything of its weight or more.
pub open spec fn with_rank(v: Seq<(u64, u128)>, x: (u64, u128)) -> Seq<(u64, u128)>
    decreases v.len(),
{
    if v.len() > 0 && v.last().1 < x.1 {
        with_rank(v.drop_last(), x).push(v.last())
    } else {
        v.push(x)
    }
}

/// The first `n` entries by weight, the heaviest first; those of one weight keep their order.
pub open spec fn ranked(v: Seq<(u64, u128)>, n: int) -> Seq<(u64, u128)>
    decreases n,
{
    if n <= 0 {
        Seq::empty()
    } else {
        with_rank(ranked(v, n - 1), v[n - 1])
    }
}

proof fn lemma_with_rank_at(v: Seq<(u64, u128)>, x: (u64, u128), p: int)
    requires
        0 <= p <= v.len(),
        forall|k: int| p <= k < v.len() ==> (#[trigger] v[k]).1 < x.1,
        p > 0 ==> v[p - 1].1 >= x.1,
    ensures
        with_rank(v, x) == v.take(p) + seq![x] + v.skip(p),
    decreases v.len(),
{
    if p == v.len() {
        assert(v.skip(p) =~= Seq::empty());
        assert(v.take(p) =~= v);
        assert(v.take(p) + seq![x] + v.skip(p) =~= v.push(x));
    } else {
        let rest = v.drop_last();
        assert(v[v.len() - 1].1 < x.1);
        assert forall|k: int| p <= k < rest.len() implies (#[trigger] rest[k]).1 < x.1 by {
            assert(rest[k] == v[k]);
        }
        lemma_with_rank_at(rest, x, p);
        assert(rest.take(p) =~= v.take(p));
        assert((rest.take(p) + seq![x] + rest.skip(p)).push(v.last()) =~= v.take(p) + seq![x]
            + v.skip(p));
    }
}

/// The entries by weight, the heaviest first.
pub fn rank(v: &Vec<(u64, u128)>) -> (r: Vec<(u64, u128)>)
    ensures
        r@ == ranked(v@, v@.len() as int),
{
    let mut r: Vec<(u64, u128)> = Vec::new();
    let mut n: usize = 0;
    while n < v.len()
        invariant
            n <= v@.len(),
            r@ == ranked(v@, n as int),
        decreases v@.len() - n,
    {
        let x: (u64, u128) = v[n];
        let ghost was = r@;
        let mut p: usize = r.len();
        while p > 0 && r[p - 1].1 < x.1
            invariant
                p <= r@.len(),
                r@ == was,
                forall|k: int| p <= k < r@.len() ==> (#[trigger] r@[k]).1 < x.1,
            decreases p,
        {
            p -= 1;
        }
        proof {
            lemma_with_rank_at(was, x, p as int);
        }
        r.insert(p, x);
        assert(r@ =~= was.take(p as int) + seq![x] + was.skip(p as int));
        n += 1;
    }
    r
}

/// The weights do not increase.
pub open spec fn descending(v: Seq<(u64, u128)>) -> bool {
    forall|i: int, j: int| 0 <= i < j < v.len() ==> (#[trigger] v[i]).1 >= (#[trigger] v[j]).1
}

proof fn lemma_with_rank(v: Seq<(u64, u128)>, x: (u64, u128))
    requires
        descending(v),
    ensures
        descending(with_rank(v, x)),
        with_rank(v, x).len() == v.len() + 1,
        with_rank(v, x).to_multiset() =~= v.to_multiset().insert(x),
        forall|k: int|
            0 <= k < with_rank(v, x).len() ==> (#[trigger] with_rank(v, x)[k]).1 >= (
            if v.len() > 0 && v.last().1 < x.1 {
                v.last().1
            } else {
                x.1
            }),
    decreases v.len(),
{
    broadcast use vstd::seq_lib::group_to_multiset_ensures;

    if v.len() > 0 && v.last().1 < x.1 {
        let rest = v.drop_last();
        assert forall|i: int, j: int| 0 <= i < j < rest.len() implies (#[trigger] rest[i]).1 >= (
        #[trigger] rest[j]).1 by {
            assert(v[i].1 >= v[j].1);
        }
        lemma_with_rank(rest, x);
        let w = with_rank(rest, x);
        let new = w.push(v.last());
        if rest.len() > 0 {
            assert(v[rest.len() - 1].1 >= v[v.len() - 1].1);
        }
        assert forall|i: int, j: int| 0 <= i < j < new.len() implies (#[trigger] new[i]).1 >= (
        #[trigger] new[j]).1 by {
            assert(new[i] == w[i]);
            if j < w.len() {
                assert(new[j] == w[j]);
            }
        }
        assert(v =~= rest.push(v.last()));
        assert(new.to_multiset() =~= w.to_multiset().insert(v.last()));
        assert(v.to_multiset() =~= rest.to_multiset().insert(v.last()));
    } else {
        let new = v.push(x);
        assert forall|i: int, j: int| 0 <= i < j < new.len() implies (#[trigger] new[i]).1 >= (
        #[trigger] new[j]).1 by {
            if j == v.len() {
                if i < v.len() - 1 {
                    assert(v[i].1 >= v[v.len() - 1].1);
                }
            } else {
                assert(v[i].1 >= v[j].1);
            }
        }
        assert forall|k: int| 0 <= k < new.len() implies (#[trigger] new[k]).1 >= x.1 by {
            if k < v.len() - 1 {
                assert(v[k].1 >= v[v.len() - 1].1);
            }
        }
    }
}

/// A ranking holds exactly the entries it was made of, the heaviest first.
pub proof fn law_a_ranking_is_sorted(v: Seq<(u64, u128)>, n: int)
    requires
        0 <= n <= v.len(),
    ensures
        descending(ranked(v, n)),
        ranked(v, n).to_multiset() == v.take(n).to_multiset(),
    decreases n,
{
    broadcast use vstd::seq_lib::group_to_multiset_ensures;

    if n > 0 {
        law_a_ranking_is_sorted(v, n - 1);
        lemma_with_rank(ranked(v, n - 1), v[n - 1]);
        assert(v.take(n) =~= v.take(n - 1).push(v[n - 1]));
    } else {
        assert(v.take(0) =~= Seq::<(u64, u128)>::empty());
    }
}

// ---------------------------------------------------------------- addresses

/// The different addresses of the first `n`, in order.
pub open spec fn places(v: Seq<u32>, n: int) -> Seq<u32>
    decreases n,
{
    if n <= 0 {
        Seq::empty()
    } else {
        with_address(places(v, n - 1), v[n - 1])
    }
}

/// How often an address occurs among the first `n`.
pub open spec fn visits(v: Seq<u32>, a: u32, n: int) -> int
    decreases n,
{
    if n <= 0 {
        0
    } else {
        visits(v, a, n - 1) + (if v[n - 1] == a {
            1int
        } else {
            0
        })
    }
}

/// The addresses of a history, each with how often it occurs.
pub open spec fn tally_of(v: Seq<u32>) -> Seq<(u64, u128)> {
    places(v, v.len() as int).map_values(
        |a: u32| (a as u64, visits(v, a, v.len() as int) as u128),
    )
}

fn count_visits(v: &Vec<u32>, a: u32) -> (n: u128)
    ensures
        n == visits(v@, a, v@.len() as int),
{
    let mut n: u128 = 0;
    let mut i: usize = 0;
    while i < v.len()
        invariant
            i <= v@.len(),
            n <= i,
            n == visits(v@, a, i as int),
        decreases v@.len() - i,
    {
        if v[i] == a {
            n += 1;
        }
        i += 1;
    }
    n
}

/// The addresses of a history, each with how often it occurs, the most frequent first.
pub fn hottest(v: &Vec<u32>) -> (r: Vec<(u64, u128)>)
    ensures
        r@ == ranked(tally_of(v@), tally_of(v@).len() as int),
{
    let mut keys: Vec<u32> = Vec::new();
    let mut i: usize = 0;
    while i < v.len()
        invariant
            i <= v@.len(),
            keys@ == places(v@, i as int),
        decreases v@.len() - i,
    {
        add_address(&mut keys, v[i]);
        i += 1;
    }
    let ghost all = tally_of(v@);
    let mut t: Vec<(u64, u128)> = Vec::new();
    let mut k: usize = 0;
    while k < keys.len()
        invariant
            k <= keys@.len(),
            keys@ == places(v@, v@.len() as int),
            all == tally_of(v@),
            t@ == all.take(k as int),
        decreases keys@.len() - k,
    {
        let n: u128 = count_visits(v, keys[k]);
        t.push((keys[k] as u64, n));
        assert(all[k as int] == (keys@[k as int] as u64, n));
        k += 1;
        assert(t@ =~= all.take(k as int));
    }
    assert(all.take(k as int) =~= all);
    rank(&t)
}

/// The first `n` addresses of a ranking, each with its count, with two spaces between each two.
pub open spec fn hot_text(v: Seq<(u64, u128)>, n: int) -> Seq<char>
    decreases n,
{
    if n <= 0 {
        ""@
    } else {
        hot_text(v, n - 1) + (if n > 1 {
            "  0x"@
        } else {
            "0x"@
        }) + hex_wide(v[n - 1].0 as nat, 8) + " x"@ + dec(v[n - 1].1 as nat)
    }
}

/// At most `most` addresses of a ranking, each with its count.
pub fn render_hot(v: &Vec<(u64, u128)>, most: usize) -> (out: String)
    ensures
        out@ == hot_text(v@, if v@.len() < most {
            v@.len() as int
        } else {
            most as int
        }),
{
    let n: usize = if v.len() < most {
        v.len()
    } else {
        most
    };
    let mut out = String::from_str("");
    let mut i: usize = 0;
    while i < n
        invariant
            i <= n <= v@.len(),
            out@ == hot_text(v@, i as int),
        decreases n - i,
    {
        if i > 0 {
            out.append("  0x");
        } else {
            out.append("0x");
        }
        push_hex_wide(&mut out, v[i].0 as u128, 8);
        out.append(" x");
        push_dec(&mut out, v[i].1);
        i += 1;
    }
    out
}

/// The least of the first `n` addresses; 0 when there are none.
pub open spec fn least(v: Seq<u32>, n: int) -> u32
    decreases n,
{
    if n <= 0 {
        0
    } else if n == 1 || v[n - 1] < least(v, n - 1) {
        v[n - 1]
    } else {
        least(v, n - 1)
    }
}

/// The greatest of the first `n` addresses; 0 when there are none.
pub open spec fn greatest(v: Seq<u32>, n: int) -> u32
    decreases n,
{
    if n <= 0 {
        0
    } else if v[n - 1] > greatest(v, n - 1) {
        v[n - 1]
    } else {
        greatest(v, n - 1)
    }
}

/// The range that a history spins in: its least and its greatest address.
pub fn span(v: &Vec<u32>) -> (r: (u32, u32))
    ensures
        r.0 == least(v@, v@.len() as int),
        r.1 == greatest(v@, v@.len() as int),
{
    let mut lo: u32 = 0;
    let mut hi: u32 = 0;
    let mut i: usize = 0;
    while i < v.len()
        invariant
            i <= v@.len(),
            lo == least(v@, i as int),
            hi == greatest(v@, i as int),
        decreases v@.len() - i,
    {
        if i == 0 || v[i] < lo {
            lo = v[i];
        }
        if v[i] > hi {
            hi = v[i];
        }
        i += 1;
    }
    (lo, hi)
}

/// Every address of a history lies in the range that it spins in.
pub proof fn law_the_span_holds_all(v: Seq<u32>, n: int, k: int)
    requires
        0 <= k < n <= v.len(),
    ensures
        least(v, n) <= v[k] <= greatest(v, n),
    decreases n,
{
    if k < n - 1 {
        law_the_span_holds_all(v, n - 1, k);
    }
}

/// The last of the entries with the greatest count; 0 when there are none.
pub open spec fn busiest(v: Seq<(u32, u64)>, n: int) -> (u32, u64)
    decreases n,
{
    if n <= 0 {
        (0, 0)
    } else if v[n - 1].1 >= busiest(v, n - 1).1 {
        v[n - 1]
    } else {
        busiest(v, n - 1)
    }
}

/// The address with the greatest count.
pub fn busiest_of(v: &Vec<(u32, u64)>) -> (pc: u32)
    ensures
        pc == busiest(v@, v@.len() as int).0,
{
    let mut best: (u32, u64) = (0, 0);
    let mut i: usize = 0;
    while i < v.len()
        invariant
            i <= v@.len(),
            best == busiest(v@, i as int),
        decreases v@.len() - i,
    {
        if v[i].1 >= best.1 {
            best = v[i];
        }
        i += 1;
    }
    best.0
}

// ---------------------------------------------------------------- arrivals

/// Arrivals at a watched address, from one caller with one first argument.
#[derive(Clone, Copy)]
pub struct Arrival {
    pub caller: u32,
    pub arg: u32,
    pub times: u64,
    /// The sum of the arguments.
    pub bytes: u128,
}

/// One number for a caller and an argument, ordered by the caller first.
pub open spec fn pair_key(caller: u32, arg: u32) -> u64 {
    (caller * 0x1_0000_0000 + arg) as u64
}

/// The list with `k` in its place; unchanged when it holds `k` already.
pub open spec fn with_key(s: Seq<u64>, k: u64) -> Seq<u64>
    decreases s.len(),
{
    if s.len() == 0 {
        seq![k]
    } else if s[0] == k {
        s
    } else if k < s[0] {
        seq![k] + s
    } else {
        seq![s[0]] + with_key(s.drop_first(), k)
    }
}

/// The different pairs of the first `n` arrivals, in order.
pub open spec fn pair_keys(v: Seq<(u32, u32)>, n: int) -> Seq<u64>
    decreases n,
{
    if n <= 0 {
        Seq::empty()
    } else {
        with_key(pair_keys(v, n - 1), pair_key(v[n - 1].0, v[n - 1].1))
    }
}

/// How often a pair occurs among the first `n` arrivals.
pub open spec fn pair_times(v: Seq<(u32, u32)>, k: u64, n: int) -> int
    decreases n,
{
    if n <= 0 {
        0
    } else {
        pair_times(v, k, n - 1) + (if pair_key(v[n - 1].0, v[n - 1].1) == k {
            1int
        } else {
            0
        })
    }
}

/// The pairs with the bytes they asked for: the argument as often as they arrived.
pub open spec fn weighed(v: Seq<(u32, u32)>) -> Seq<(u64, u128)> {
    pair_keys(v, v.len() as int).map_values(
        |k: u64| (k, (pair_times(v, k, v.len() as int) * (k % 0x1_0000_0000)) as u128),
    )
}

/// The arrival that a pair stands for.
pub open spec fn arrival_of(v: Seq<(u32, u32)>, e: (u64, u128)) -> Arrival {
    Arrival {
        caller: (e.0 / 0x1_0000_0000) as u32,
        arg: (e.0 % 0x1_0000_0000) as u32,
        times: pair_times(v, e.0, v.len() as int) as u64,
        bytes: e.1,
    }
}

/// The arrivals by caller and argument, those that asked for the most first.
pub open spec fn arrivals_of(v: Seq<(u32, u32)>) -> Seq<Arrival> {
    let w = weighed(v);
    ranked(w, w.len() as int).map_values(|e: (u64, u128)| arrival_of(v, e))
}

fn key_of(caller: u32, arg: u32) -> (k: u64)
    ensures
        k == pair_key(caller, arg),
{
    caller as u64 * 0x1_0000_0000 + arg as u64
}

proof fn lemma_with_key_at(s: Seq<u64>, a: u64, p: int)
    requires
        0 <= p <= s.len(),
        forall|k: int| 0 <= k < p ==> s[k] < a,
    ensures
        with_key(s, a) == s.take(p) + with_key(s.skip(p), a),
    decreases p,
{
    if p == 0 {
        assert(s.skip(0) =~= s);
        assert(s.take(0) + with_key(s, a) =~= with_key(s, a));
    } else {
        let rest = s.drop_first();
        lemma_with_key_at(rest, a, p - 1);
        assert(rest.skip(p - 1) =~= s.skip(p));
        assert(seq![s[0]] + (rest.take(p - 1) + with_key(s.skip(p), a)) =~= s.take(p) + with_key(
            s.skip(p),
            a,
        ));
    }
}

fn add_key(v: &mut Vec<u64>, a: u64)
    ensures
        final(v)@ == with_key(old(v)@, a),
{
    let mut p: usize = 0;
    while p < v.len() && v[p] < a
        invariant
            p <= v@.len(),
            v@ == old(v)@,
            forall|k: int| 0 <= k < p ==> v@[k] < a,
        decreases v@.len() - p,
    {
        p += 1;
    }
    let ghost was = old(v)@;
    proof {
        lemma_with_key_at(was, a, p as int);
        if p < was.len() {
            assert(was.skip(p as int)[0] == was[p as int]);
        }
        assert(was.take(p as int) + was.skip(p as int) =~= was);
    }
    if p < v.len() && v[p] == a {
        return;
    }
    v.insert(p, a);
    proof {
        if p < was.len() {
            assert(v@ =~= was.take(p as int) + (seq![a] + was.skip(p as int)));
        } else {
            assert(was.skip(p as int) =~= Seq::empty());
            assert(v@ =~= was.take(p as int) + seq![a]);
        }
    }
}

fn count_pairs(v: &Vec<(u32, u32)>, k: u64) -> (n: u64)
    ensures
        n == pair_times(v@, k, v@.len() as int),
{
    let mut n: u64 = 0;
    let mut i: usize = 0;
    while i < v.len()
        invariant
            i <= v@.len(),
            n <= i,
            n == pair_times(v@, k, i as int),
        decreases v@.len() - i,
    {
        if key_of(v[i].0, v[i].1) == k {
            n += 1;
        }
        i += 1;
    }
    n
}

/// The arrivals by caller and argument, those that asked for the most first.
pub fn arrivals(v: &Vec<(u32, u32)>) -> (r: Vec<Arrival>)
    ensures
        r@ == arrivals_of(v@),
{
    let mut keys: Vec<u64> = Vec::new();
    let mut i: usize = 0;
    while i < v.len()
        invariant
            i <= v@.len(),
            keys@ == pair_keys(v@, i as int),
        decreases v@.len() - i,
    {
        add_key(&mut keys, key_of(v[i].0, v[i].1));
        i += 1;
    }
    let ghost all = weighed(v@);
    let mut t: Vec<(u64, u128)> = Vec::new();
    let mut k: usize = 0;
    while k < keys.len()
        invariant
            k <= keys@.len(),
            keys@ == pair_keys(v@, v@.len() as int),
            all == weighed(v@),
            t@ == all.take(k as int),
        decreases keys@.len() - k,
    {
        let n: u64 = count_pairs(v, keys[k]);
        let a: u64 = keys[k] % 0x1_0000_0000;
        proof {
            assert(n * a <= 0xffff_ffff_ffff_ffff * 0xffff_ffff) by (nonlinear_arith)
                requires
                    0 <= n <= 0xffff_ffff_ffff_ffff,
                    0 <= a <= 0xffff_ffff,
            ;
        }
        t.push((keys[k], n as u128 * a as u128));
        assert(all[k as int] == (keys@[k as int], (n * a) as u128));
        k += 1;
        assert(t@ =~= all.take(k as int));
    }
    assert(all.take(k as int) =~= all);
    let order = rank(&t);
    let ghost goal = arrivals_of(v@);
    let mut r: Vec<Arrival> = Vec::new();
    let mut j: usize = 0;
    while j < order.len()
        invariant
            j <= order@.len(),
            order@ == ranked(weighed(v@), weighed(v@).len() as int),
            goal == arrivals_of(v@),
            r@ == goal.take(j as int),
        decreases order@.len() - j,
    {
        let e: (u64, u128) = order[j];
        r.push(
            Arrival {
                caller: (e.0 / 0x1_0000_0000) as u32,
                arg: (e.0 % 0x1_0000_0000) as u32,
                times: count_pairs(v, e.0),
                bytes: e.1,
            },
        );
        assert(goal[j as int] == arrival_of(v@, order@[j as int]));
        j += 1;
        assert(r@ =~= goal.take(j as int));
    }
    assert(goal.take(j as int) =~= goal);
    r
}

// ---------------------------------------------------------------- lines

/// The first `n` words in hexadecimal, with a space before each.
pub open spec fn spaced_words(v: Seq<u32>, n: int) -> Seq<char>
    decreases n,
{
    if n <= 0 {
        Seq::empty()
    } else {
        spaced_words(v, n - 1) + " "@ + hex_wide(v[n - 1] as nat, 8)
    }
}

/// Appends words in hexadecimal, with a space before each.
pub fn push_words(out: &mut String, v: &[u32])
    ensures
        final(out)@ == old(out)@ + spaced_words(v@, v@.len() as int),
{
    let mut n: usize = 0;
    assert(out@ =~= old(out)@ + spaced_words(v@, 0));
    while n < v.len()
        invariant
            n <= v@.len(),
            out@ == old(out)@ + spaced_words(v@, n as int),
        decreases v@.len() - n,
    {
        out.append(" ");
        push_hex_wide(out, v[n] as u128, 8);
        n += 1;
        assert(out@ =~= old(out)@ + spaced_words(v@, n as int));
    }
}

/// A call of a framework: the arguments, the words on the stack and where it returns to.
pub open spec fn call_line(
    frame: usize,
    framework: Seq<char>,
    index: usize,
    args: Seq<u32>,
    stack: Seq<u32>,
    back: u32,
) -> Seq<char> {
    dec(frame as nat) + " "@ + framework + "#"@ + dec(index as nat) + spaced_words(
        args,
        args.len() as int,
    ) + spaced_words(stack, stack.len() as int) + " from "@ + hex_wide(back as nat, 8) + "\n"@
}

/// The line of a framework call in the call log.
pub fn render_call(
    frame: usize,
    framework: &str,
    index: usize,
    args: &[u32],
    stack: &[u32],
    back: u32,
) -> (out: String)
    ensures
        out@ == call_line(frame, framework@, index, args@, stack@, back),
{
    let mut out = String::new();
    push_dec(&mut out, frame as u128);
    assert(out@ =~= dec(frame as nat));
    out.append(" ");
    out.append(framework);
    out.append("#");
    push_dec(&mut out, index as u128);
    push_words(&mut out, args);
    push_words(&mut out, stack);
    out.append(" from ");
    push_hex_wide(&mut out, back as u128, 8);
    out.append("\n");
    out
}

/// The line of a branch edge: where it stands, where it goes, and how often it was taken.
pub open spec fn edge_line(site: u32, target: u32, times: u64) -> Seq<char> {
    hex_wide(site as nat, 8) + " "@ + hex_wide(target as nat, 8) + " "@ + dec(times as nat) + "\n"@
}

/// The line of a branch edge.
pub fn render_edge(site: u32, target: u32, times: u64) -> (out: String)
    ensures
        out@ == edge_line(site, target, times),
{
    let mut out = String::new();
    push_hex_wide(&mut out, site as u128, 8);
    assert(out@ =~= hex_wide(site as nat, 8));
    out.append(" ");
    push_hex_wide(&mut out, target as u128, 8);
    out.append(" ");
    push_dec(&mut out, times as u128);
    out.append("\n");
    out
}

/// The summary of a run.
pub open spec fn summary_line(
    title: Seq<char>,
    frames: usize,
    quads: u64,
    clears: u64,
    instructions: u64,
) -> Seq<char> {
    "summary: "@ + title + " frames="@ + dec(frames as nat) + " quads="@ + dec(quads as nat)
        + " clears="@ + dec(clears as nat) + " instructions="@ + dec(instructions as nat) + "\n"@
}

/// The summary of a run.
pub fn render_summary(title: &str, frames: usize, quads: u64, clears: u64, instructions: u64) -> (out:
    String)
    ensures
        out@ == summary_line(title@, frames, quads, clears, instructions),
{
    let mut out = String::from_str("summary: ");
    out.append(title);
    out.append(" frames=");
    push_dec(&mut out, frames as u128);
    out.append(" quads=");
    push_dec(&mut out, quads as u128);
    out.append(" clears=");
    push_dec(&mut out, clears as u128);
    out.append(" instructions=");
    push_dec(&mut out, instructions as u128);
    out.append("\n");
    out
}

/// One row of memory: its address and eight words.
pub open spec fn memory_line(base: u32, words: Seq<u32>) -> Seq<char> {
    "  mem "@ + address(base) + ":"@ + spaced_words(words, words.len() as int) + "\n"@
}

/// One row of memory.
pub fn render_memory(base: u32, words: &[u32]) -> (out: String)
    ensures
        out@ == memory_line(base, words@),
{
    let mut out = String::from_str("  mem ");
    push_address(&mut out, base);
    out.append(":");
    push_words(&mut out, words);
    out.append("\n");
    out
}

// ---------------------------------------------------------------- what is counted

/// A new entry of a ranking goes behind all that weigh as much or more and before all that weigh
/// less, so that equals keep their order.
#[verifier::rlimit(60)]
pub proof fn law_equals_keep_their_order(v: Seq<(u64, u128)>, x: (u64, u128)) -> (p: int)
    requires
        descending(v),
    ensures
        0 <= p <= v.len(),
        with_rank(v, x) == v.take(p).push(x) + v.skip(p),
        forall|k: int| 0 <= k < p ==> (#[trigger] v[k]).1 >= x.1,
        forall|k: int| p <= k < v.len() ==> (#[trigger] v[k]).1 < x.1,
    decreases v.len(),
{
    if v.len() > 0 && v.last().1 < x.1 {
        let u = v.drop_last();
        assert(descending(u)) by {
            assert forall|i: int, j: int| 0 <= i < j < u.len() implies (#[trigger] u[i]).1 >= (
            #[trigger] u[j]).1 by {
                assert(u[i] == v[i] && u[j] == v[j]);
            }
        }
        let p = law_equals_keep_their_order(u, x);
        assert(with_rank(v, x) =~= v.take(p).push(x) + v.skip(p)) by {
            assert(u.take(p) =~= v.take(p));
            assert(u.skip(p).push(v.last()) =~= v.skip(p));
        }
        assert forall|k: int| 0 <= k < p implies (#[trigger] v[k]).1 >= x.1 by {
            assert(u[k] == v[k]);
        }
        assert forall|k: int| p <= k < v.len() implies (#[trigger] v[k]).1 < x.1 by {
            if k < u.len() {
                assert(u[k] == v[k]);
            }
        }
        p
    } else {
        let p = v.len() as int;
        assert(v.push(x) =~= v.take(p).push(x) + v.skip(p));
        assert forall|k: int| 0 <= k < p implies (#[trigger] v[k]).1 >= x.1 by {
            if k < p - 1 {
                assert(v[k].1 >= v[p - 1].1);
            }
        }
        p
    }
}

/// The list that is ranked, entry by entry.
pub proof fn law_a_ranking_grows_by_one(v: Seq<(u64, u128)>, n: int)
    requires
        0 < n <= v.len(),
    ensures
        exists|p: int|
            0 <= p <= n - 1 && ranked(v, n) == #[trigger] ranked(v, n - 1).take(p).push(v[n - 1])
                + ranked(v, n - 1).skip(p),
        ranked(v, n).len() == n,
{
    law_a_ranking_is_sorted(v, n - 1);
    lemma_ranked_len(v, n - 1);
    let p = law_equals_keep_their_order(ranked(v, n - 1), v[n - 1]);
    assert(ranked(v, n) == ranked(v, n - 1).take(p).push(v[n - 1]) + ranked(v, n - 1).skip(p));
}

proof fn lemma_ranked_len(v: Seq<(u64, u128)>, n: int)
    requires
        0 <= n <= v.len(),
    ensures
        ranked(v, n).len() == n,
    decreases n,
{
    if n > 0 {
        lemma_ranked_len(v, n - 1);
        law_a_ranking_is_sorted(v, n - 1);
        let p = law_equals_keep_their_order(ranked(v, n - 1), v[n - 1]);
    }
}

/// The visits of an address are as many as it stands in the list.
pub proof fn law_visits_are_counted(v: Seq<u32>, a: u32, n: int)
    requires
        0 <= n <= v.len(),
    ensures
        visits(v, a, n) == v.take(n).filter(|x: u32| x == a).len(),
        0 <= visits(v, a, n) <= n,
    decreases n,
{
    reveal(Seq::filter);
    if n > 0 {
        law_visits_are_counted(v, a, n - 1);
        assert(v.take(n).drop_last() =~= v.take(n - 1));
        assert(v.take(n).last() == v[n - 1]);
    } else {
        assert(v.take(0) =~= Seq::empty());
    }
}

#[verifier::rlimit(60)]
proof fn lemma_places(v: Seq<u32>, n: int, a: u32)
    requires
        0 <= n <= v.len(),
    ensures
        ascending(places(v, n)),
        places(v, n).contains(a) <==> exists|k: int| 0 <= k < n && #[trigger] v[k] == a,
    decreases n,
{
    if n > 0 {
        lemma_places(v, n - 1, a);
        lemma_with_address(places(v, n - 1), v[n - 1]);
        lemma_with_address_holds(places(v, n - 1), v[n - 1], a);
        if exists|k: int| 0 <= k < n && #[trigger] v[k] == a {
            let k = choose|k: int| 0 <= k < n && #[trigger] v[k] == a;
            if k < n - 1 {
                assert(v[k] == a);
            }
        }
        if exists|k: int| 0 <= k < n - 1 && #[trigger] v[k] == a {
            let k = choose|k: int| 0 <= k < n - 1 && #[trigger] v[k] == a;
            assert(v[k] == a);
        }
        if v[n - 1] == a {
            assert(v[n - 1] == a);
        }
    }
}

/// The tally has every address that was visited, each once, in order, with its own number of
/// visits; and no other.
#[verifier::rlimit(60)]
pub proof fn law_a_tally_is_exact(v: Seq<u32>, k: int, a: u32)
    requires
        v.len() <= u128::MAX,
    ensures
        0 <= k < tally_of(v).len() ==> {
            let e = tally_of(v)[k];
            e.0 <= 0xffff_ffff && v.contains(e.0 as u32) && e.1 == v.filter(
                |x: u32| x == e.0 as u32,
            ).len() && e.1 > 0
        },
        forall|i: int, j: int|
            0 <= i < j < tally_of(v).len() ==> (#[trigger] tally_of(v)[i]).0 < (
            #[trigger] tally_of(v)[j]).0,
        v.contains(a) ==> exists|i: int|
            0 <= i < tally_of(v).len() && (#[trigger] tally_of(v)[i]).0 == a as u64,
{
    let n = v.len() as int;
    let p = places(v, n);
    let t = tally_of(v);
    assert(v.take(n) =~= v);
    if 0 <= k < t.len() {
        let x = p[k];
        lemma_places(v, n, x);
        assert(p.contains(x));
        let i = choose|i: int| 0 <= i < n && #[trigger] v[i] == x;
        assert(v.contains(x));
        law_visits_are_counted(v, x, n);
        lemma_visited(v, x, n, i);
        assert(t[k].0 == x as u64);
        assert(t[k].0 as u32 == x);
        assert(v.filter(|y: u32| y == t[k].0 as u32) == v.filter(|y: u32| y == x)) by {
            assert((|y: u32| y == t[k].0 as u32) =~= (|y: u32| y == x));
        }
    }
    lemma_places(v, n, a);
    assert forall|i: int, j: int| 0 <= i < j < t.len() implies (#[trigger] t[i]).0 < (
    #[trigger] t[j]).0 by {
        assert(p[i] < p[j]);
    }
    if v.contains(a) {
        let i = choose|i: int| 0 <= i < v.len() && v[i] == a;
        assert(v[i] == a);
        let j = choose|j: int| 0 <= j < p.len() && p[j] == a;
        assert(t[j].0 == a as u64);
    }
}

proof fn lemma_visited(v: Seq<u32>, a: u32, n: int, i: int)
    requires
        0 <= i < n <= v.len(),
        v[i] == a,
    ensures
        visits(v, a, n) > 0,
    decreases n,
{
    law_visits_are_counted(v, a, n - 1);
    if i < n - 1 {
        lemma_visited(v, a, n - 1, i);
    }
}

pub proof fn lemma_ranked_holds(v: Seq<(u64, u128)>, e: (u64, u128))
    ensures
        ranked(v, v.len() as int).contains(e) <==> v.contains(e),
        ranked(v, v.len() as int).len() == v.len(),
{
    let r = ranked(v, v.len() as int);
    law_a_ranking_is_sorted(v, v.len() as int);
    lemma_ranked_len(v, v.len() as int);
    assert(v.take(v.len() as int) =~= v);
    v.to_multiset_ensures();
    r.to_multiset_ensures();
    assert(v.contains(e) <==> v.to_multiset().count(e) > 0);
    assert(r.contains(e) <==> r.to_multiset().count(e) > 0);
}

/// The hottest addresses are those of the tally, with their visits, the most visited first.
pub proof fn law_the_hottest_come_first(v: Seq<u32>, e: (u64, u128))
    ensures
        ({
            let t = tally_of(v);
            let r = ranked(t, t.len() as int);
            &&& descending(r)
            &&& r.len() == t.len()
            &&& r.contains(e) <==> t.contains(e)
        }),
{
    let t = tally_of(v);
    law_a_ranking_is_sorted(t, t.len() as int);
    lemma_ranked_holds(t, e);
}

/// The span of a list begins and ends with addresses of the list.
pub proof fn law_the_span_is_tight(v: Seq<u32>, n: int)
    requires
        0 < n <= v.len(),
    ensures
        exists|k: int| 0 <= k < n && #[trigger] v[k] == least(v, n),
        exists|k: int| 0 <= k < n && #[trigger] v[k] == greatest(v, n),
    decreases n,
{
    if n == 1 {
        assert(v[0] == least(v, 1));
        assert(greatest(v, 0) == 0);
        assert(v[0] == greatest(v, 1));
    } else {
        law_the_span_is_tight(v, n - 1);
        let i = choose|k: int| 0 <= k < n - 1 && #[trigger] v[k] == least(v, n - 1);
        let j = choose|k: int| 0 <= k < n - 1 && #[trigger] v[k] == greatest(v, n - 1);
        if least(v, n) == v[n - 1] {
            assert(v[n - 1] == least(v, n));
        } else {
            assert(v[i] == least(v, n));
        }
        if greatest(v, n) == v[n - 1] {
            assert(v[n - 1] == greatest(v, n));
        } else {
            assert(v[j] == greatest(v, n));
        }
    }
}

/// The busiest is the last of those that no other exceeds.
pub proof fn law_the_busiest_is_exceeded_by_none(v: Seq<(u32, u64)>, n: int) -> (k: int)
    requires
        0 < n <= v.len(),
    ensures
        0 <= k < n,
        busiest(v, n) == v[k],
        forall|j: int| 0 <= j < n ==> (#[trigger] v[j]).1 <= v[k].1,
        forall|j: int| k < j < n ==> (#[trigger] v[j]).1 < v[k].1,
    decreases n,
{
    if n == 1 {
        assert(busiest(v, 0) == (0u32, 0u64));
        0
    } else {
        let k = law_the_busiest_is_exceeded_by_none(v, n - 1);
        if v[n - 1].1 >= busiest(v, n - 1).1 {
            n - 1
        } else {
            k
        }
    }
}

proof fn lemma_pair_keys_differ(a: (u32, u32), b: (u32, u32))
    ensures
        pair_key(a.0, a.1) == pair_key(b.0, b.1) <==> a == b,
        pair_key(a.0, a.1) / 0x1_0000_0000 == a.0,
        pair_key(a.0, a.1) % 0x1_0000_0000 == a.1,
{
    assert(a.0 * 0x1_0000_0000 + a.1 <= u64::MAX);
    assert(b.0 * 0x1_0000_0000 + b.1 <= u64::MAX);
}

proof fn lemma_pair_times(v: Seq<(u32, u32)>, x: (u32, u32), n: int)
    requires
        0 <= n <= v.len(),
    ensures
        pair_times(v, pair_key(x.0, x.1), n) == v.take(n).filter(|y: (u32, u32)| y == x).len(),
    decreases n,
{
    reveal(Seq::filter);
    if n > 0 {
        lemma_pair_times(v, x, n - 1);
        assert(v.take(n).drop_last() =~= v.take(n - 1));
        assert(v.take(n).last() == v[n - 1]);
        lemma_pair_keys_differ(v[n - 1], x);
    } else {
        assert(v.take(0) =~= Seq::empty());
    }
}

proof fn lemma_with_key_holds(s: Seq<u64>, k: u64, x: u64)
    ensures
        with_key(s, k).contains(x) <==> s.contains(x) || x == k,
    decreases s.len(),
{
    let new = with_key(s, k);
    if s.len() == 0 {
        assert(new[0] == k);
    } else if s[0] == k {
    } else if k < s[0] {
        assert(new[0] == k);
        if s.contains(x) {
            let i = choose|i: int| 0 <= i < s.len() && s[i] == x;
            assert(new[i + 1] == x);
        }
        if new.contains(x) {
            let i = choose|i: int| 0 <= i < new.len() && new[i] == x;
            if i > 0 {
                assert(s[i - 1] == x);
            }
        }
    } else {
        let t = s.drop_first();
        let rest = with_key(t, k);
        lemma_with_key_holds(t, k, x);
        assert(new[0] == s[0]);
        if s.contains(x) {
            let i = choose|i: int| 0 <= i < s.len() && s[i] == x;
            if i > 0 {
                assert(t[i - 1] == x);
            }
        }
        if t.contains(x) {
            let i = choose|i: int| 0 <= i < t.len() && t[i] == x;
            assert(s[i + 1] == x);
        }
        if rest.contains(x) {
            let i = choose|i: int| 0 <= i < rest.len() && rest[i] == x;
            assert(new[i + 1] == x);
        }
        if new.contains(x) {
            let i = choose|i: int| 0 <= i < new.len() && new[i] == x;
            if i > 0 {
                assert(rest[i - 1] == x);
            }
        }
    }
}

proof fn lemma_pair_keys(v: Seq<(u32, u32)>, n: int, k: u64)
    requires
        0 <= n <= v.len(),
    ensures
        pair_keys(v, n).contains(k) <==> exists|i: int|
            0 <= i < n && pair_key((#[trigger] v[i]).0, v[i].1) == k,
    decreases n,
{
    if n > 0 {
        lemma_pair_keys(v, n - 1, k);
        let own = pair_key(v[n - 1].0, v[n - 1].1);
        lemma_with_key_holds(pair_keys(v, n - 1), own, k);
        if exists|i: int| 0 <= i < n && pair_key((#[trigger] v[i]).0, v[i].1) == k {
            let i = choose|i: int| 0 <= i < n && pair_key((#[trigger] v[i]).0, v[i].1) == k;
            if i < n - 1 {
                assert(pair_key(v[i].0, v[i].1) == k);
            }
        }
        if exists|i: int| 0 <= i < n - 1 && pair_key((#[trigger] v[i]).0, v[i].1) == k {
            let i = choose|i: int| 0 <= i < n - 1 && pair_key((#[trigger] v[i]).0, v[i].1) == k;
            assert(pair_key(v[i].0, v[i].1) == k);
        }
        if own == k {
            assert(pair_key(v[n - 1].0, v[n - 1].1) == k);
        }
    }
}

#[verifier::rlimit(60)]
proof fn lemma_arrival(v: Seq<(u32, u32)>, j: int) -> (x: (u32, u32))
    requires
        v.len() <= 0xffff_ffff,
        0 <= j < arrivals_of(v).len(),
    ensures
        v.contains(x),
        arrivals_of(v)[j].caller == x.0,
        arrivals_of(v)[j].arg == x.1,
        arrivals_of(v)[j].times == v.filter(|y: (u32, u32)| y == x).len(),
        arrivals_of(v)[j].bytes == arrivals_of(v)[j].times * x.1,
{
    let w = weighed(v);
    let r = ranked(w, w.len() as int);
    lemma_ranked_len(w, w.len() as int);
    let e = r[j];
    assert(r.contains(e));
    lemma_ranked_holds(w, e);
    assert(w.contains(e));
    let i = choose|i: int| 0 <= i < w.len() && w[i] == e;
    let n = v.len() as int;
    let k = pair_keys(v, n)[i];
    assert(pair_keys(v, n).contains(k));
    lemma_pair_keys(v, n, k);
    let l = choose|l: int| 0 <= l < n && pair_key((#[trigger] v[l]).0, v[l].1) == k;
    let x = v[l];
    lemma_pair_keys_differ(x, x);
    lemma_pair_times(v, x, n);
    assert(v.take(n) =~= v);
    let f = v.filter(|y: (u32, u32)| y == x);
    v.lemma_filter_len(|y: (u32, u32)| y == x);
    assert(f.len() <= 0xffff_ffff);
    assert(f.len() * (x.1 as nat) <= 0xffff_ffff * 0xffff_ffff) by (nonlinear_arith)
        requires
            f.len() <= 0xffff_ffff,
            x.1 <= 0xffff_ffff,
    ;
    x
}

/// The arrivals are just the pairs of a caller and an argument that came, each with as many arrivals
/// as the pair came and with that many times the argument in bytes, the most bytes first.
#[verifier::rlimit(60)]
pub proof fn law_arrivals_are_exact(v: Seq<(u32, u32)>, j: int, y: (u32, u32))
    requires
        v.len() <= 0xffff_ffff,
    ensures
        0 <= j < arrivals_of(v).len() ==> {
            let a = arrivals_of(v)[j];
            v.contains((a.caller, a.arg)) && a.times == v.filter(
                |x: (u32, u32)| x == (a.caller, a.arg),
            ).len() && a.bytes == a.times * a.arg
        },
        forall|i: int, k: int|
            0 <= i < k < arrivals_of(v).len() ==> (#[trigger] arrivals_of(v)[i]).bytes >= (
            #[trigger] arrivals_of(v)[k]).bytes,
        v.contains(y) ==> exists|i: int|
            0 <= i < arrivals_of(v).len() && (#[trigger] arrivals_of(v)[i]).caller == y.0
                && arrivals_of(v)[i].arg == y.1,
{
    let w = weighed(v);
    let r = ranked(w, w.len() as int);
    let n = v.len() as int;
    lemma_ranked_len(w, w.len() as int);
    law_a_ranking_is_sorted(w, w.len() as int);
    if 0 <= j < arrivals_of(v).len() {
        let x = lemma_arrival(v, j);
        let a = arrivals_of(v)[j];
        assert((a.caller, a.arg) == x);
    }
    assert forall|i: int, k: int| 0 <= i < k < arrivals_of(v).len() implies (#[trigger] arrivals_of(
        v,
    )[i]).bytes >= (#[trigger] arrivals_of(v)[k]).bytes by {
        assert(r[i].1 >= r[k].1);
    }
    if v.contains(y) {
        let l = choose|l: int| 0 <= l < v.len() && v[l] == y;
        let key = pair_key(y.0, y.1);
        assert(pair_key(v[l].0, v[l].1) == key);
        lemma_pair_keys(v, n, key);
        let keys = pair_keys(v, n);
        let i = choose|i: int| 0 <= i < keys.len() && keys[i] == key;
        let e = w[i];
        assert(w.contains(e));
        lemma_ranked_holds(w, e);
        let q = choose|q: int| 0 <= q < r.len() && r[q] == e;
        lemma_pair_keys_differ(y, y);
        assert(arrivals_of(v)[q].caller == y.0);
    }
}

// ---------------------------------------------------------------- what the lines say

proof fn lemma_eight(n: u32)
    ensures
        hex_wide(n as nat, 8).len() == 8,
        unsigned(hex_wide(n as nat, 8), true, 0xffff_ffff) == Some(n as int),
{
    law_hex_reads_back(n as nat, 8, 0xffff_ffff);
    reveal_with_fuel(hex, 9);
}

/// Every word of a list stands in its cell of nine characters, behind a blank, and reads back.
#[verifier::rlimit(60)]
pub proof fn law_every_word_has_its_cell(v: Seq<u32>, n: int, k: int)
    requires
        0 <= k < n <= v.len(),
    ensures
        spaced_words(v, n).len() == 9 * n,
        spaced_words(v, n)[9 * k] == ' ',
        unsigned(spaced_words(v, n).subrange(9 * k + 1, 9 * k + 9), true, 0xffff_ffff) == Some(
            v[k] as int,
        ),
    decreases n,
{
    reveal_strlit(" ");
    let own = hex_wide(v[n - 1] as nat, 8);
    lemma_eight(v[n - 1]);
    let before = spaced_words(v, n - 1);
    let all = spaced_words(v, n);
    assert(all == before + " "@ + own);
    if n > 1 {
        law_every_word_has_its_cell(v, n - 1, 0);
    } else {
        assert(before =~= Seq::empty());
    }
    if k < n - 1 {
        law_every_word_has_its_cell(v, n - 1, k);
        lemma_one_more_cell(before, " "@, own, 9 * k + 1, 8);
        lemma_one_more_cell(before, " "@, own, 9 * k, 1);
    } else {
        lemma_one_more_cell(before, " "@, own, 0, 0);
        assert(before.len() == 9 * k);
    }
}

/// A line of the call graph reads back: where the call stands, where it goes and how often.
#[verifier::rlimit(60)]
pub proof fn law_an_edge_line_is_read_back(site: u32, target: u32, times: u64)
    ensures
        ({
            let line = edge_line(site, target, times);
            &&& unsigned(line.subrange(0, 8), true, 0xffff_ffff) == Some(site as int)
            &&& unsigned(line.subrange(9, 17), true, 0xffff_ffff) == Some(target as int)
            &&& unsigned(line.subrange(18, line.len() - 1), false, u64::MAX as int) == Some(
                times as int,
            )
            &&& line[8] == ' ' && line[17] == ' ' && line.last() == '\n'
        }),
{
    reveal_strlit(" ");
    reveal_strlit("\n");
    lemma_eight(site);
    lemma_eight(target);
    law_decimal_reads_back(times as nat, 0, u64::MAX as int);
    let line = edge_line(site, target, times);
    assert(line.subrange(0, 8) =~= hex_wide(site as nat, 8));
    assert(line.subrange(9, 17) =~= hex_wide(target as nat, 8));
    assert(line.subrange(18, line.len() - 1) =~= dec(times as nat));
}

/// A line of memory begins with its address, and its words follow.
#[verifier::rlimit(60)]
pub proof fn law_a_memory_line_is_read_back(base: u32, words: Seq<u32>, k: int)
    requires
        0 <= k < words.len(),
    ensures
        ({
            let line = memory_line(base, words);
            &&& line.subrange(6, 16) == address(base)
            &&& unsigned(line.subrange(18 + 9 * k, 26 + 9 * k), true, 0xffff_ffff) == Some(
                words[k] as int,
            )
            &&& line.len() == 18 + 9 * words.len()
        }),
{
    reveal_strlit("  mem ");
    reveal_strlit(":");
    reveal_strlit("\n");
    law_an_address_is_read_back(base);
    law_every_word_has_its_cell(words, words.len() as int, k);
    let line = memory_line(base, words);
    let s = spaced_words(words, words.len() as int);
    assert(line.subrange(6, 16) =~= address(base));
    assert(line.subrange(18 + 9 * k, 26 + 9 * k) =~= s.subrange(9 * k + 1, 9 * k + 9));
}

/// A line of the call log begins with the frame and the import, ends with the place it returns to,
/// and holds the arguments and then the stack between them.
#[verifier::rlimit(60)]
pub proof fn law_a_call_line_is_read_back(
    frame: usize,
    framework: Seq<char>,
    index: usize,
    args: Seq<u32>,
    stack: Seq<u32>,
    back: u32,
)
    ensures
        ({
            let line = call_line(frame, framework, index, args, stack, back);
            let head = dec(frame as nat) + seq![' '] + framework + seq!['#'] + dec(index as nat);
            let tail = " from "@ + hex_wide(back as nat, 8) + "\n"@;
            &&& begins(line, head)
            &&& ends(line, tail)
            &&& line == head + spaced_words(args, args.len() as int) + spaced_words(
                stack,
                stack.len() as int,
            ) + tail
            &&& unsigned(line.subrange(line.len() - 9, line.len() - 1), true, 0xffff_ffff) == Some(
                back as int,
            )
        }),
{
    reveal_strlit(" ");
    reveal_strlit("#");
    reveal_strlit(" from ");
    reveal_strlit("\n");
    lemma_eight(back);
    let line = call_line(frame, framework, index, args, stack, back);
    let head = dec(frame as nat) + seq![' '] + framework + seq!['#'] + dec(index as nat);
    let tail = " from "@ + hex_wide(back as nat, 8) + "\n"@;
    assert(line =~= head + spaced_words(args, args.len() as int) + spaced_words(
        stack,
        stack.len() as int,
    ) + tail);
    assert(line.take(head.len() as int) =~= head);
    assert(line.skip(line.len() - tail.len()) =~= tail);
    assert(line.subrange(line.len() - 9, line.len() - 1) =~= hex_wide(back as nat, 8));
}

/// The summary names the title and then its four numbers, each behind its own word.
pub proof fn law_a_summary_names_its_numbers(
    title: Seq<char>,
    frames: usize,
    quads: u64,
    clears: u64,
    instructions: u64,
)
    ensures
        ({
            let line = summary_line(title, frames, quads, clears, instructions);
            &&& begins(line, "summary: "@ + title)
            &&& contains(line, " frames="@ + dec(frames as nat) + " quads="@)
            &&& contains(line, " quads="@ + dec(quads as nat) + " clears="@)
            &&& contains(line, " clears="@ + dec(clears as nat) + " instructions="@)
            &&& ends(line, " instructions="@ + dec(instructions as nat) + "\n"@)
        }),
{
    lemma_inside(
        "summary: "@,
        title,
        " frames="@,
        dec(frames as nat),
        " quads="@,
        dec(quads as nat) + " clears="@ + dec(clears as nat) + " instructions="@ + dec(
            instructions as nat,
        ) + "\n"@,
    );
    lemma_inside(
        "summary: "@,
        title + " frames="@ + dec(frames as nat),
        " quads="@,
        dec(quads as nat),
        " clears="@,
        dec(clears as nat) + " instructions="@ + dec(instructions as nat) + "\n"@,
    );
    lemma_inside(
        "summary: "@,
        title + " frames="@ + dec(frames as nat) + " quads="@ + dec(quads as nat),
        " clears="@,
        dec(clears as nat),
        " instructions="@,
        dec(instructions as nat) + "\n"@,
    );
    lemma_inside(
        "summary: "@,
        title + " frames="@ + dec(frames as nat) + " quads="@ + dec(quads as nat) + " clears="@
            + dec(clears as nat),
        " instructions="@,
        dec(instructions as nat),
        "\n"@,
        Seq::empty(),
    );
    let line = summary_line(title, frames, quads, clears, instructions);
    lemma_summary_forms(title, frames, quads, clears, instructions);
}

#[verifier::rlimit(60)]
proof fn lemma_summary_forms(
    title: Seq<char>,
    frames: usize,
    quads: u64,
    clears: u64,
    instructions: u64,
)
    ensures
        ({
            let line = summary_line(title, frames, quads, clears, instructions);
            let f = dec(frames as nat);
            let q = dec(quads as nat);
            let c = dec(clears as nat);
            let i = dec(instructions as nat);
            &&& line == "summary: "@ + title + " frames="@ + f + " quads="@ + (q + " clears="@ + c
                + " instructions="@ + i + "\n"@)
            &&& line == "summary: "@ + (title + " frames="@ + f) + " quads="@ + q + " clears="@ + (c
                + " instructions="@ + i + "\n"@)
            &&& line == "summary: "@ + (title + " frames="@ + f + " quads="@ + q) + " clears="@ + c
                + " instructions="@ + (i + "\n"@)
            &&& line == "summary: "@ + (title + " frames="@ + f + " quads="@ + q + " clears="@ + c)
                + " instructions="@ + i + "\n"@ + Seq::<char>::empty()
        }),
{
}

/// The list of the hottest names each address with its visits, one behind the other.
#[verifier::rlimit(60)]
pub proof fn law_the_hot_list_names_all(v: Seq<(u64, u128)>, n: int, k: int)
    requires
        0 <= k < n <= v.len(),
    ensures
        contains(
            hot_text(v, n),
            "0x"@ + hex_wide(v[k].0 as nat, 8) + " x"@ + dec(v[k].1 as nat),
        ),
    decreases n,
{
    reveal_strlit("");
    reveal_strlit("  0x");
    reveal_strlit("0x");
    let before = hot_text(v, n - 1);
    let all = hot_text(v, n);
    let own = "0x"@ + hex_wide(v[n - 1].0 as nat, 8) + " x"@ + dec(v[n - 1].1 as nat);
    let gap = if n > 1 {
        seq![' ', ' ']
    } else {
        Seq::empty()
    };
    assert(all =~= before + gap + own);
    if k < n - 1 {
        law_the_hot_list_names_all(v, n - 1, k);
        let p = "0x"@ + hex_wide(v[k].0 as nat, 8) + " x"@ + dec(v[k].1 as nat);
        let i = choose|i: int| occurs_at(before, p, i);
        assert(all.subrange(i, i + p.len()) =~= before.subrange(i, i + p.len()));
        assert(occurs_at(all, p, i));
    } else {
        law_parts_are_found(before + gap, own, Seq::empty(), all);
        assert(all =~= before + gap + own + Seq::empty());
    }
}

} // verus!
