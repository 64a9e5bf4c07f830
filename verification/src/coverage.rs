//! Which framework ordinals a binary can reach.
//!
//! Three kinds of reference into the thunk array count: a branch to a thunk, a branch to a veneer
//! (an unconditional branch to a thunk that stands on its own), and a word that holds a thunk's
//! address or that of its resolved slot. An ordinal that only a veneer reaches, to which nothing
//! branches, is soft.

use vstd::prelude::*;

use crate::arm::branch_target;
#[allow(unused_imports)]
use crate::arm::{
    branch_to, branch_word, condition, is_branch, law_a_branch_is_read_back, links, target, wrap,
};
use crate::bytes::{u32le, word_fits};
#[allow(unused_imports)]
use crate::bytes::le32;
use crate::imports::{add_import, distinct_imports, holds_import, make_import, Import, ImportView};
#[allow(unused_imports)]
use crate::imports::{
    distinct, import_views, imports_ascend, law_distinct_is_exact,
    law_distinct_keeps_every_import, lemma_with_import, times, with_import,
};
use crate::names::title_of;
#[allow(unused_imports)]
use crate::names::{law_a_title_ends_at_its_version, title};
use crate::table::{add_address, find, holds, put};
#[allow(unused_imports)]
use crate::table::{
    keys_ascend, lemma_filter_map_first, lemma_lookup_with_value, lemma_numbers_first,
    lemma_with_address_holds, lemma_with_value_ascends, lookup, numbers, with_address, with_value,
};
#[allow(unused_imports)]
use crate::text::occurs_at;
use crate::text::same_text;

verus! {

// ---------------------------------------------------------------- binaries

/// A framework that a binary declares: its name and the addresses of its thunks.
pub struct Framework {
    pub name: String,
    pub thunks: Vec<u32>,
}

/// The contents of a framework.
pub struct FrameworkView {
    pub name: Seq<char>,
    pub thunks: Seq<u32>,
}

impl View for Framework {
    type V = FrameworkView;

    open spec fn view(&self) -> FrameworkView {
        FrameworkView { name: self.name@, thunks: self.thunks@ }
    }
}

/// The contents of a list of frameworks.
pub open spec fn framework_views(v: Seq<Framework>) -> Seq<FrameworkView> {
    v.map_values(|f: Framework| f@)
}

/// A loaded binary.
pub struct App {
    pub image: Vec<u8>,
    pub load_base: u32,
    pub frameworks: Vec<Framework>,
}

/// The contents of a binary.
pub struct AppView {
    pub image: Seq<u8>,
    pub load_base: u32,
    pub frameworks: Seq<FrameworkView>,
}

impl View for App {
    type V = AppView;

    open spec fn view(&self) -> AppView {
        AppView {
            image: self.image@,
            load_base: self.load_base,
            frameworks: framework_views(self.frameworks@),
        }
    }
}

/// A function of a binary: the index of its framework and its ordinal.
pub type Code = (usize, usize);

/// The import that a code stands for.
pub open spec fn import_of(app: AppView, c: Code) -> ImportView {
    ImportView { fw: app.frameworks[c.0 as int].name, ord: c.1 as int }
}

/// Every code of a table names a framework of the binary.
pub open spec fn codes_fit(app: AppView, t: Seq<(u32, Code)>) -> bool {
    forall|i: int| 0 <= i < t.len() ==> (#[trigger] t[i]).1.0 < app.frameworks.len()
}

/// The thunks of the first `k` frameworks and the first `i` of the next, by address; a later one
/// replaces an earlier one of the same address.
pub open spec fn thunk_table(f: Seq<FrameworkView>, k: int, i: int) -> Seq<(u32, Code)>
    decreases k, i,
{
    if i > 0 {
        with_value(
            thunk_table(f, k, i - 1),
            f[k].thunks[i - 1],
            (k as usize, (i - 1) as usize),
        )
    } else if k > 0 {
        thunk_table(f, k - 1, f[k - 1].thunks.len() as int)
    } else {
        Seq::empty()
    }
}

/// Where the resolved slots of a framework begin: behind its thunks.
pub open spec fn slots_at(f: FrameworkView) -> int {
    (if f.thunks.len() > 0 {
        f.thunks[0] as int
    } else {
        0
    }) + 4 * f.thunks.len()
}

/// The slots of the first `k` frameworks and the first `i` of the next, by address.
pub open spec fn slot_table(f: Seq<FrameworkView>, k: int, i: int) -> Seq<(u32, Code)>
    decreases k, i,
{
    if i > 0 {
        with_value(
            slot_table(f, k, i - 1),
            wrap(slots_at(f[k]) + 4 * (i - 1)),
            (k as usize, (i - 1) as usize),
        )
    } else if k > 0 {
        slot_table(f, k - 1, f[k - 1].thunks.len() as int)
    } else {
        Seq::empty()
    }
}

/// All thunks of a binary by address.
pub open spec fn thunks_of(app: AppView) -> Seq<(u32, Code)> {
    thunk_table(app.frameworks, app.frameworks.len() as int, 0)
}

/// All slots of a binary by address.
pub open spec fn slots_of(app: AppView) -> Seq<(u32, Code)> {
    slot_table(app.frameworks, app.frameworks.len() as int, 0)
}

proof fn lemma_with_value_fits(app: AppView, t: Seq<(u32, Code)>, k: u32, c: Code)
    requires
        codes_fit(app, t),
        c.0 < app.frameworks.len(),
    ensures
        codes_fit(app, with_value(t, k, c)),
    decreases t.len(),
{
    let new = with_value(t, k, c);
    if t.len() > 0 {
        let rest = t.drop_first();
        assert forall|i: int| 0 <= i < rest.len() implies (#[trigger] rest[i]).1.0
            < app.frameworks.len() by {
            assert(rest[i] == t[i + 1]);
        }
        lemma_with_value_fits(app, rest, k, c);
        assert forall|i: int| 0 <= i < new.len() implies (#[trigger] new[i]).1.0
            < app.frameworks.len() by {
            if t[0].0 == k {
                if i > 0 {
                    assert(new[i] == t[i]);
                }
            } else if k < t[0].0 {
                if i > 0 {
                    assert(new[i] == t[i - 1]);
                }
            } else if i > 0 {
                assert(new[i] == with_value(rest, k, c)[i - 1]);
            } else {
                assert(new[0] == t[0]);
            }
        }
    }
}

proof fn lemma_lookup_fits(app: AppView, t: Seq<(u32, Code)>, k: u32)
    requires
        codes_fit(app, t),
    ensures
        lookup(t, k) is Some ==> (lookup(t, k)->0).0 < app.frameworks.len(),
    decreases t.len(),
{
    if t.len() > 0 {
        assert(t[0].1.0 < app.frameworks.len());
        let rest = t.drop_first();
        assert forall|i: int| 0 <= i < rest.len() implies (#[trigger] rest[i]).1.0
            < app.frameworks.len() by {
            assert(rest[i] == t[i + 1]);
        }
        lemma_lookup_fits(app, rest, k);
    }
}

fn build_thunks(app: &App) -> (t: Vec<(u32, Code)>)
    ensures
        t@ == thunks_of(app@),
        codes_fit(app@, t@),
{
    let mut t: Vec<(u32, Code)> = Vec::new();
    let ghost f = framework_views(app.frameworks@);
    let mut k: usize = 0;
    while k < app.frameworks.len()
        invariant
            k <= app.frameworks@.len(),
            f == framework_views(app.frameworks@),
            t@ == thunk_table(f, k as int, 0),
            codes_fit(app@, t@),
        decreases app.frameworks@.len() - k,
    {
        let thunks = &app.frameworks[k].thunks;
        assert(f[k as int].thunks == thunks@);
        let mut i: usize = 0;
        while i < thunks.len()
            invariant
                k < app.frameworks@.len(),
                i <= thunks@.len(),
                f == framework_views(app.frameworks@),
                f[k as int].thunks == thunks@,
                t@ == thunk_table(f, k as int, i as int),
                codes_fit(app@, t@),
            decreases thunks@.len() - i,
        {
            proof {
                lemma_with_value_fits(app@, t@, thunks@[i as int], (k, i));
            }
            put(&mut t, thunks[i], (k, i));
            i += 1;
        }
        k += 1;
    }
    t
}

fn slot_address(f: &Framework, i: usize) -> (a: u32)
    ensures
        a == wrap(slots_at(f@) + 4 * i),
{
    let first: u128 = if f.thunks.len() > 0 {
        f.thunks[0] as u128
    } else {
        0
    };
    ((first + 4 * (f.thunks.len() as u128) + 4 * (i as u128)) % 0x1_0000_0000) as u32
}

fn build_slots(app: &App) -> (t: Vec<(u32, Code)>)
    ensures
        t@ == slots_of(app@),
        codes_fit(app@, t@),
{
    let mut t: Vec<(u32, Code)> = Vec::new();
    let ghost f = framework_views(app.frameworks@);
    let mut k: usize = 0;
    while k < app.frameworks.len()
        invariant
            k <= app.frameworks@.len(),
            f == framework_views(app.frameworks@),
            t@ == slot_table(f, k as int, 0),
            codes_fit(app@, t@),
        decreases app.frameworks@.len() - k,
    {
        let fw = &app.frameworks[k];
        assert(f[k as int] == fw@);
        let mut i: usize = 0;
        while i < fw.thunks.len()
            invariant
                k < app.frameworks@.len(),
                i <= fw.thunks@.len(),
                f == framework_views(app.frameworks@),
                f[k as int] == fw@,
                t@ == slot_table(f, k as int, i as int),
                codes_fit(app@, t@),
            decreases fw.thunks@.len() - i,
        {
            let a: u32 = slot_address(fw, i);
            proof {
                lemma_with_value_fits(app@, t@, a, (k, i));
            }
            put(&mut t, a, (k, i));
            i += 1;
        }
        k += 1;
    }
    t
}

// ---------------------------------------------------------------- edges

/// A branch in the image: where it stands, where it goes, whether it links and whether it is
/// taken always.
#[derive(Clone, Copy)]
pub struct Edge {
    pub pc: u32,
    pub target: u32,
    pub link: bool,
    pub always: bool,
}

/// The branch at a file offset.
pub open spec fn edge_at(app: AppView, off: int) -> Option<Edge> {
    let w = le32(app.image, off);
    let pc = wrap(app.load_base + off);
    if is_branch(w) {
        Some(Edge { pc, target: target(w, pc), link: links(w), always: condition(w) == 14 })
    } else {
        None
    }
}

/// The branches from the word at `off` on.
pub open spec fn edges_from(app: AppView, off: int) -> Seq<Edge>
    decreases app.image.len() - off,
{
    if off + 4 > app.image.len() {
        Seq::empty()
    } else {
        match edge_at(app, off) {
            Some(e) => seq![e] + edges_from(app, off + 4),
            None => edges_from(app, off + 4),
        }
    }
}

fn find_edges(app: &App) -> (v: Vec<Edge>)
    ensures
        v@ == edges_from(app@, 0),
{
    let mut v: Vec<Edge> = Vec::new();
    let img = app.image.as_slice();
    let mut off: usize = 0;
    let ghost all = edges_from(app@, 0);
    assert(v@ + all =~= all);
    while word_fits(img, off)
        invariant
            img@ == app.image@,
            off <= img@.len(),
            v@ + edges_from(app@, off as int) == all,
        decreases img@.len() - off,
    {
        let w: u32 = u32le(img, off);
        let pc: u32 = ((app.load_base as u128 + off as u128) % 0x1_0000_0000) as u32;
        let ghost done = v@;
        if let Some(t) = branch_target(w, pc) {
            let e = Edge {
                pc,
                target: t,
                link: w / 0x100_0000 % 2 == 1,
                always: w / 0x1000_0000 == 14,
            };
            v.push(e);
            assert(v@ + edges_from(app@, off + 4) =~= done + (seq![e] + edges_from(app@, off + 4)));
        }
        off += 4;
    }
    assert(v@ + Seq::<Edge>::empty() =~= v@);
    v
}

// ---------------------------------------------------------------- veneers

/// The edge is the body of a veneer into the table: it is taken always, does not link, and goes to
/// an address of the table.
pub open spec fn jumps_into(e: Edge, t: Seq<(u32, Code)>) -> bool {
    e.always && !e.link && lookup(t, e.target) is Some
}

/// The veneers among the first `n` edges that go straight to a thunk.
pub open spec fn first_veneers(edges: Seq<Edge>, thunks: Seq<(u32, Code)>, n: int) -> Seq<
    (u32, Code),
>
    decreases n,
{
    if n <= 0 {
        Seq::empty()
    } else {
        let e = edges[n - 1];
        if jumps_into(e, thunks) {
            with_value(first_veneers(edges, thunks, n - 1), e.pc, lookup(thunks, e.target)->0)
        } else {
            first_veneers(edges, thunks, n - 1)
        }
    }
}

/// The veneers `v` and those among the first `n` edges that go to one of them.
pub open spec fn more_veneers(edges: Seq<Edge>, v: Seq<(u32, Code)>, n: int) -> Seq<(u32, Code)>
    decreases n,
{
    if n <= 0 {
        v
    } else {
        let e = edges[n - 1];
        if is_left_out(e, v) {
            with_value(more_veneers(edges, v, n - 1), e.pc, lookup(v, e.target)->0)
        } else {
            more_veneers(edges, v, n - 1)
        }
    }
}

/// The veneers after `rounds` rounds of following chains.
pub open spec fn veneers(edges: Seq<Edge>, thunks: Seq<(u32, Code)>, rounds: int) -> Seq<
    (u32, Code),
>
    decreases rounds,
{
    if rounds <= 0 {
        first_veneers(edges, thunks, edges.len() as int)
    } else {
        more_veneers(edges, veneers(edges, thunks, rounds - 1), edges.len() as int)
    }
}

/// The veneers of a binary. Veneers can chain, and no chain is longer than there are edges: after
/// that many rounds the table is settled.
pub open spec fn veneers_of(app: AppView) -> Seq<(u32, Code)> {
    let edges = edges_from(app, 0);
    veneers(edges, thunks_of(app), edges.len() as int)
}

/// The edge is the body of a veneer that the table does not hold yet.
pub open spec fn is_left_out(e: Edge, v: Seq<(u32, Code)>) -> bool {
    jumps_into(e, v) && lookup(v, e.pc) is None
}

/// No edge is the body of a veneer that the table does not hold.
pub open spec fn settled(edges: Seq<Edge>, v: Seq<(u32, Code)>) -> bool {
    forall|k: int| 0 <= k < edges.len() ==> !is_left_out(#[trigger] edges[k], v)
}

fn is_jump_into(e: Edge, t: &Vec<(u32, Code)>) -> (r: Option<Code>)
    ensures
        match r {
            Some(c) => jumps_into(e, t@) && lookup(t@, e.target) == Some(c),
            None => !jumps_into(e, t@),
        },
{
    if !e.always || e.link {
        return None;
    }
    match find(t, e.target) {
        Some(c) => Some(*c),
        None => None,
    }
}

fn build_first(app: &App, edges: &Vec<Edge>, thunks: &Vec<(u32, Code)>) -> (v: Vec<(u32, Code)>)
    requires
        codes_fit(app@, thunks@),
    ensures
        v@ == first_veneers(edges@, thunks@, edges@.len() as int),
        codes_fit(app@, v@),
{
    let mut v: Vec<(u32, Code)> = Vec::new();
    let mut n: usize = 0;
    while n < edges.len()
        invariant
            n <= edges@.len(),
            codes_fit(app@, thunks@),
            v@ == first_veneers(edges@, thunks@, n as int),
            codes_fit(app@, v@),
        decreases edges@.len() - n,
    {
        let e: Edge = edges[n];
        if let Some(c) = is_jump_into(e, thunks) {
            proof {
                lemma_lookup_fits(app@, thunks@, e.target);
                lemma_with_value_fits(app@, v@, e.pc, c);
            }
            put(&mut v, e.pc, c);
        }
        n += 1;
    }
    v
}

fn copy_table(t: &Vec<(u32, Code)>) -> (r: Vec<(u32, Code)>)
    ensures
        r@ == t@,
{
    let mut r: Vec<(u32, Code)> = Vec::new();
    let mut i: usize = 0;
    while i < t.len()
        invariant
            i <= t@.len(),
            r@ == t@.take(i as int),
        decreases t@.len() - i,
    {
        r.push(t[i]);
        i += 1;
        assert(r@ =~= t@.take(i as int));
    }
    assert(t@.take(i as int) =~= t@);
    r
}

/// One round: the veneers with those that go to one of them, and whether there were any.
fn build_more(app: &App, edges: &Vec<Edge>, from: &Vec<(u32, Code)>) -> (r: (
    Vec<(u32, Code)>,
    bool,
))
    requires
        codes_fit(app@, from@),
    ensures
        r.0@ == more_veneers(edges@, from@, edges@.len() as int),
        codes_fit(app@, r.0@),
        r.1 == !settled(edges@, from@),
{
    let mut v = copy_table(from);
    let mut added = false;
    let mut n: usize = 0;
    while n < edges.len()
        invariant
            n <= edges@.len(),
            codes_fit(app@, from@),
            v@ == more_veneers(edges@, from@, n as int),
            codes_fit(app@, v@),
            added ==> !settled(edges@, from@),
            !added ==> forall|k: int| 0 <= k < n ==> !is_left_out(#[trigger] edges@[k], from@),
        decreases edges@.len() - n,
    {
        let e: Edge = edges[n];
        if let Some(c) = is_jump_into(e, from) {
            let known = match find(from, e.pc) {
                Some(_) => true,
                None => false,
            };
            if !known {
                proof {
                    lemma_lookup_fits(app@, from@, e.target);
                    lemma_with_value_fits(app@, v@, e.pc, c);
                }
                assert(is_left_out(edges@[n as int], from@));
                added = true;
                put(&mut v, e.pc, c);
            }
        }
        n += 1;
    }
    (v, added)
}

fn build_veneers(app: &App, edges: &Vec<Edge>, thunks: &Vec<(u32, Code)>) -> (v: Vec<(u32, Code)>)
    requires
        codes_fit(app@, thunks@),
    ensures
        v@ == veneers(edges@, thunks@, edges@.len() as int),
        codes_fit(app@, v@),
{
    let mut v = build_first(app, edges, thunks);
    let ghost mut rounds: int = 0;
    loop
        invariant
            0 <= rounds <= edges@.len(),
            codes_fit(app@, v@),
            v@ == veneers(edges@, thunks@, rounds),
        decreases edges@.len() - rounds,
    {
        let (next, added) = build_more(app, edges, &v);
        if !added {
            proof {
                law_settled_veneers_stay(edges@, thunks@, rounds, edges@.len() as int);
            }
            return v;
        }
        proof {
            lemma_rounds(edges@, thunks@, rounds);
            lemma_open_edges(edges@, v@, edges@.len() as int);
            rounds = rounds + 1;
        }
        v = next;
    }
}

/// How many of the first `n` edges stand at an address that the table does not hold.
pub open spec fn open_edges(edges: Seq<Edge>, v: Seq<(u32, Code)>, n: int) -> int
    decreases n,
{
    if n <= 0 {
        0
    } else {
        open_edges(edges, v, n - 1) + (if lookup(v, edges[n - 1].pc) is None {
            1int
        } else {
            0
        })
    }
}

proof fn lemma_open_edges(edges: Seq<Edge>, v: Seq<(u32, Code)>, n: int)
    requires
        0 <= n <= edges.len(),
    ensures
        0 <= open_edges(edges, v, n) <= n,
        (exists|k: int| 0 <= k < n && is_left_out(#[trigger] edges[k], v)) ==> open_edges(
            edges,
            v,
            n,
        ) > 0,
    decreases n,
{
    if n > 0 {
        lemma_open_edges(edges, v, n - 1);
        if exists|k: int| 0 <= k < n && is_left_out(#[trigger] edges[k], v) {
            let k = choose|k: int| 0 <= k < n && is_left_out(#[trigger] edges[k], v);
            if k < n - 1 {
                assert(is_left_out(edges[k], v));
            }
        }
    }
}

proof fn lemma_first_ascends(edges: Seq<Edge>, thunks: Seq<(u32, Code)>, n: int)
    ensures
        keys_ascend(first_veneers(edges, thunks, n)),
    decreases n,
{
    if n > 0 {
        lemma_first_ascends(edges, thunks, n - 1);
        let e = edges[n - 1];
        if jumps_into(e, thunks) {
            lemma_with_value_ascends(
                first_veneers(edges, thunks, n - 1),
                e.pc,
                lookup(thunks, e.target)->0,
            );
        }
    }
}

proof fn lemma_more_holds(edges: Seq<Edge>, v: Seq<(u32, Code)>, n: int)
    requires
        keys_ascend(v),
        0 <= n <= edges.len(),
    ensures
        keys_ascend(more_veneers(edges, v, n)),
        forall|a: u32| lookup(v, a) is Some ==> lookup(more_veneers(edges, v, n), a) is Some,
        forall|k: int|
            0 <= k < n && is_left_out(#[trigger] edges[k], v) ==> lookup(
                more_veneers(edges, v, n),
                edges[k].pc,
            ) is Some,
    decreases n,
{
    if n > 0 {
        lemma_more_holds(edges, v, n - 1);
        let e = edges[n - 1];
        let before = more_veneers(edges, v, n - 1);
        let all = more_veneers(edges, v, n);
        if is_left_out(e, v) {
            let c = lookup(v, e.target)->0;
            lemma_with_value_ascends(before, e.pc, c);
            assert forall|a: u32| lookup(all, a) == (if a == e.pc {
                Some(c)
            } else {
                lookup(before, a)
            }) by {
                lemma_lookup_with_value(before, e.pc, c, a);
            }
        }
    }
}

proof fn lemma_fewer_open(edges: Seq<Edge>, v: Seq<(u32, Code)>, w: Seq<(u32, Code)>, n: int)
    requires
        0 <= n <= edges.len(),
        forall|a: u32| lookup(v, a) is Some ==> lookup(w, a) is Some,
    ensures
        open_edges(edges, w, n) <= open_edges(edges, v, n),
        (exists|k: int|
            0 <= k < n && lookup(v, (#[trigger] edges[k]).pc) is None && lookup(w, edges[k].pc)
                is Some) ==> open_edges(edges, w, n) < open_edges(edges, v, n),
    decreases n,
{
    if n > 0 {
        lemma_fewer_open(edges, v, w, n - 1);
        assert(lookup(v, edges[n - 1].pc) is Some ==> lookup(w, edges[n - 1].pc) is Some);
        if exists|k: int|
            0 <= k < n && lookup(v, (#[trigger] edges[k]).pc) is None && lookup(w, edges[k].pc)
                is Some {
            let k = choose|k: int|
                0 <= k < n && lookup(v, (#[trigger] edges[k]).pc) is None && lookup(
                    w,
                    edges[k].pc,
                ) is Some;
            if k < n - 1 {
                assert(lookup(v, edges[k].pc) is None);
            }
        }
    }
}

/// Each round up to the last unsettled one has closed an edge.
proof fn lemma_rounds(edges: Seq<Edge>, thunks: Seq<(u32, Code)>, rounds: int)
    requires
        0 <= rounds,
    ensures
        keys_ascend(veneers(edges, thunks, rounds)),
        settled(edges, veneers(edges, thunks, rounds)) || open_edges(
            edges,
            veneers(edges, thunks, rounds),
            edges.len() as int,
        ) <= edges.len() - rounds,
    decreases rounds,
{
    let n = edges.len() as int;
    let now = veneers(edges, thunks, rounds);
    if rounds == 0 {
        lemma_first_ascends(edges, thunks, n);
        lemma_open_edges(edges, now, n);
    } else {
        let was = veneers(edges, thunks, rounds - 1);
        lemma_rounds(edges, thunks, rounds - 1);
        lemma_more_holds(edges, was, n);
        if settled(edges, was) {
            lemma_no_more_veneers(edges, was, n);
        } else {
            let k = choose|k: int| 0 <= k < n && is_left_out(#[trigger] edges[k], was);
            assert(lookup(was, edges[k].pc) is None && lookup(now, edges[k].pc) is Some);
            lemma_fewer_open(edges, was, now, n);
        }
    }
}

/// The table of veneers is settled before it is used: no edge is left that goes to a veneer and is
/// not one itself, however long the chains are.
pub proof fn law_veneers_are_settled(app: AppView)
    ensures
        settled(edges_from(app, 0), veneers_of(app)),
{
    let edges = edges_from(app, 0);
    lemma_rounds(edges, thunks_of(app), edges.len() as int);
    lemma_open_edges(edges, veneers_of(app), edges.len() as int);
}

proof fn lemma_first_holds(edges: Seq<Edge>, thunks: Seq<(u32, Code)>, n: int, k: int)
    requires
        0 <= k < n <= edges.len(),
        jumps_into(edges[k], thunks),
    ensures
        lookup(first_veneers(edges, thunks, n), edges[k].pc) is Some,
    decreases n,
{
    let e = edges[n - 1];
    let before = first_veneers(edges, thunks, n - 1);
    lemma_first_ascends(edges, thunks, n - 1);
    if k < n - 1 {
        lemma_first_holds(edges, thunks, n - 1, k);
    }
    if jumps_into(e, thunks) {
        lemma_lookup_with_value(before, e.pc, lookup(thunks, e.target)->0, edges[k].pc);
    }
}

proof fn lemma_rounds_keep(edges: Seq<Edge>, thunks: Seq<(u32, Code)>, rounds: int, a: u32)
    requires
        0 <= rounds,
        lookup(first_veneers(edges, thunks, edges.len() as int), a) is Some,
    ensures
        lookup(veneers(edges, thunks, rounds), a) is Some,
    decreases rounds,
{
    if rounds > 0 {
        lemma_rounds_keep(edges, thunks, rounds - 1, a);
        lemma_rounds(edges, thunks, rounds - 1);
        lemma_more_holds(edges, veneers(edges, thunks, rounds - 1), edges.len() as int);
    }
}

/// The body of a veneer is no call site, whether it goes to a thunk or stands anywhere in a chain
/// of veneers.
pub proof fn law_a_veneer_body_calls_nothing(app: AppView, k: int)
    requires
        0 <= k < edges_from(app, 0).len(),
        jumps_into(edges_from(app, 0)[k], thunks_of(app)) || jumps_into(
            edges_from(app, 0)[k],
            veneers_of(app),
        ),
    ensures
        called_by(edges_from(app, 0)[k], thunks_of(app), veneers_of(app)) is None,
{
    let edges = edges_from(app, 0);
    law_veneers_are_settled(app);
    assert(!is_left_out(edges[k], veneers_of(app)));
    if jumps_into(edges[k], thunks_of(app)) {
        lemma_first_holds(edges, thunks_of(app), edges.len() as int, k);
        lemma_rounds_keep(edges, thunks_of(app), edges.len() as int, edges[k].pc);
    }
}

// ---------------------------------------------------------------- references

/// The function that an address stands for: the thunk there, or the one its veneer goes to.
pub open spec fn reaches(
    thunks: Seq<(u32, Code)>,
    veneer: Seq<(u32, Code)>,
    addr: u32,
) -> Option<Code> {
    match lookup(thunks, addr) {
        Some(c) => Some(c),
        None => lookup(veneer, addr),
    }
}

/// The function that the edge calls; the body of a veneer calls none.
pub open spec fn called_by(
    e: Edge,
    thunks: Seq<(u32, Code)>,
    veneer: Seq<(u32, Code)>,
) -> Option<Code> {
    if lookup(veneer, e.pc) is Some {
        None
    } else {
        reaches(thunks, veneer, e.target)
    }
}

/// The functions that the first `n` edges call, in order.
pub open spec fn branch_refs(
    app: AppView,
    edges: Seq<Edge>,
    thunks: Seq<(u32, Code)>,
    veneer: Seq<(u32, Code)>,
    n: int,
) -> Seq<ImportView>
    decreases n,
{
    if n <= 0 {
        Seq::empty()
    } else {
        let before = branch_refs(app, edges, thunks, veneer, n - 1);
        match called_by(edges[n - 1], thunks, veneer) {
            Some(c) => before.push(import_of(app, c)),
            None => before,
        }
    }
}

/// The veneers that the first `n` edges branch to, the bodies of veneers left aside.
pub open spec fn veneers_called(edges: Seq<Edge>, veneer: Seq<(u32, Code)>, n: int) -> Seq<u32>
    decreases n,
{
    if n <= 0 {
        Seq::empty()
    } else {
        let e = edges[n - 1];
        if lookup(veneer, e.pc) is None && lookup(veneer, e.target) is Some {
            with_address(veneers_called(edges, veneer, n - 1), e.target)
        } else {
            veneers_called(edges, veneer, n - 1)
        }
    }
}

/// The functions whose thunk or slot address the first `n` words hold, in order.
pub open spec fn word_refs(
    app: AppView,
    thunks: Seq<(u32, Code)>,
    slots: Seq<(u32, Code)>,
    n: int,
) -> Seq<ImportView>
    decreases n,
{
    if n <= 0 {
        Seq::empty()
    } else {
        let before = word_refs(app, thunks, slots, n - 1);
        match reaches(thunks, slots, le32(app.image, 4 * (n - 1))) {
            Some(c) => before.push(import_of(app, c)),
            None => before,
        }
    }
}

/// All references of a binary: those of its branches, then those of its words.
pub open spec fn refs_of(app: AppView) -> Seq<ImportView> {
    let edges = edges_from(app, 0);
    branch_refs(app, edges, thunks_of(app), veneers_of(app), edges.len() as int) + word_refs(
        app,
        thunks_of(app),
        slots_of(app),
        (app.image.len() / 4) as int,
    )
}

/// The ordinals of the first `n` veneers that nothing branches to and that have no reference.
pub open spec fn orphans(
    app: AppView,
    veneer: Seq<(u32, Code)>,
    called: Seq<u32>,
    hard: Seq<ImportView>,
    n: int,
) -> Seq<ImportView>
    decreases n,
{
    if n <= 0 {
        Seq::empty()
    } else {
        let before = orphans(app, veneer, called, hard, n - 1);
        let (pc, c) = veneer[n - 1];
        if !called.contains(pc) && !hard.contains(import_of(app, c)) {
            with_import(before, import_of(app, c))
        } else {
            before
        }
    }
}

/// The ordinals of a binary that only an orphan veneer reaches.
pub open spec fn soft_of(app: AppView) -> Seq<ImportView> {
    let v = veneers_of(app);
    let edges = edges_from(app, 0);
    orphans(
        app,
        v,
        veneers_called(edges, v, edges.len() as int),
        distinct(refs_of(app)),
        v.len() as int,
    )
}

fn resolve(app: &App, c: Code) -> (r: Import)
    requires
        c.0 < app@.frameworks.len(),
    ensures
        r@ == import_of(app@, c),
{
    assert(app@.frameworks[c.0 as int] == app.frameworks@[c.0 as int]@);
    make_import(app.frameworks[c.0].name.as_str(), c.1)
}

fn find_reach(
    app: &App,
    first: &Vec<(u32, Code)>,
    second: &Vec<(u32, Code)>,
    addr: u32,
) -> (r: Option<Code>)
    requires
        codes_fit(app@, first@),
        codes_fit(app@, second@),
    ensures
        r == reaches(first@, second@, addr),
        r is Some ==> (r->0).0 < app@.frameworks.len(),
{
    proof {
        lemma_lookup_fits(app@, first@, addr);
        lemma_lookup_fits(app@, second@, addr);
    }
    match find(first, addr) {
        Some(c) => Some(*c),
        None => match find(second, addr) {
            Some(c) => Some(*c),
            None => None,
        },
    }
}

fn collect_branch_refs(
    app: &App,
    edges: &Vec<Edge>,
    thunks: &Vec<(u32, Code)>,
    veneer: &Vec<(u32, Code)>,
) -> (r: (Vec<Import>, Vec<u32>))
    requires
        codes_fit(app@, thunks@),
        codes_fit(app@, veneer@),
    ensures
        import_views(r.0@) == branch_refs(app@, edges@, thunks@, veneer@, edges@.len() as int),
        r.1@ == veneers_called(edges@, veneer@, edges@.len() as int),
{
    let mut refs: Vec<Import> = Vec::new();
    let mut called: Vec<u32> = Vec::new();
    let mut n: usize = 0;
    assert(import_views(refs@) =~= branch_refs(app@, edges@, thunks@, veneer@, 0));
    while n < edges.len()
        invariant
            n <= edges@.len(),
            codes_fit(app@, thunks@),
            codes_fit(app@, veneer@),
            import_views(refs@) == branch_refs(app@, edges@, thunks@, veneer@, n as int),
            called@ == veneers_called(edges@, veneer@, n as int),
        decreases edges@.len() - n,
    {
        let e: Edge = edges[n];
        let body = match find(veneer, e.pc) {
            Some(_) => true,
            None => false,
        };
        if !body {
            let ghost was = import_views(refs@);
            if let Some(c) = find_reach(app, thunks, veneer, e.target) {
                let x = resolve(app, c);
                refs.push(x);
                assert(import_views(refs@) =~= was.push(x@));
            }
            if let Some(_) = find(veneer, e.target) {
                add_address(&mut called, e.target);
            }
        }
        n += 1;
    }
    (refs, called)
}

fn collect_word_refs(
    app: &App,
    thunks: &Vec<(u32, Code)>,
    slots: &Vec<(u32, Code)>,
    refs: &mut Vec<Import>,
)
    requires
        codes_fit(app@, thunks@),
        codes_fit(app@, slots@),
    ensures
        import_views(final(refs)@) == import_views(old(refs)@) + word_refs(
            app@,
            thunks@,
            slots@,
            (app@.image.len() / 4) as int,
        ),
{
    let img = app.image.as_slice();
    let total: usize = img.len() / 4;
    let mut n: usize = 0;
    let ghost start = import_views(refs@);
    assert(start + word_refs(app@, thunks@, slots@, 0) =~= start);
    while n < total
        invariant
            n <= total,
            4 * total <= img@.len(),
            img@ == app@.image,
            img@.len() <= usize::MAX,
            codes_fit(app@, thunks@),
            codes_fit(app@, slots@),
            import_views(refs@) == start + word_refs(app@, thunks@, slots@, n as int),
        decreases total - n,
    {
        let w: u32 = u32le(img, 4 * n);
        let ghost was = import_views(refs@);
        if let Some(c) = find_reach(app, thunks, slots, w) {
            let x = resolve(app, c);
            refs.push(x);
            assert(import_views(refs@) =~= was.push(x@));
            assert(was.push(x@) =~= start + word_refs(app@, thunks@, slots@, n as int).push(x@));
        }
        n += 1;
    }
}

fn collect_orphans(
    app: &App,
    veneer: &Vec<(u32, Code)>,
    called: &Vec<u32>,
    hard: &Vec<Import>,
) -> (soft: Vec<Import>)
    requires
        codes_fit(app@, veneer@),
    ensures
        import_views(soft@) == orphans(
            app@,
            veneer@,
            called@,
            import_views(hard@),
            veneer@.len() as int,
        ),
{
    let mut soft: Vec<Import> = Vec::new();
    let mut n: usize = 0;
    assert(import_views(soft@) =~= orphans(app@, veneer@, called@, import_views(hard@), 0));
    while n < veneer.len()
        invariant
            n <= veneer@.len(),
            codes_fit(app@, veneer@),
            import_views(soft@) == orphans(
                app@,
                veneer@,
                called@,
                import_views(hard@),
                n as int,
            ),
        decreases veneer@.len() - n,
    {
        let (pc, c): (u32, Code) = veneer[n];
        assert(veneer@[n as int].1.0 < app@.frameworks.len());
        let x = resolve(app, c);
        if !holds(called, pc) && !holds_import(hard, &x) {
            add_import(&mut soft, &x);
        }
        n += 1;
    }
    soft
}

// ---------------------------------------------------------------- titles

/// What one binary references.
pub struct Title {
    pub name: String,
    /// The ordinals with a call site or a word that holds their address.
    pub hard: Vec<Import>,
    /// Every reference, in order: an ordinal occurs once for each.
    pub refs: Vec<Import>,
    /// The ordinals that only an orphan veneer reaches.
    pub soft: Vec<Import>,
    /// The frameworks that the binary declares, each with the number of its thunks.
    pub published: Vec<Import>,
}

/// The contents of a title.
pub struct TitleView {
    pub name: Seq<char>,
    pub hard: Seq<ImportView>,
    pub refs: Seq<ImportView>,
    pub soft: Seq<ImportView>,
    pub published: Seq<ImportView>,
}

impl View for Title {
    type V = TitleView;

    open spec fn view(&self) -> TitleView {
        TitleView {
            name: self.name@,
            hard: import_views(self.hard@),
            refs: import_views(self.refs@),
            soft: import_views(self.soft@),
            published: import_views(self.published@),
        }
    }
}

/// The entries of other frameworks than `name`, in order.
pub open spec fn without_framework(v: Seq<ImportView>, name: Seq<char>) -> Seq<ImportView>
    decreases v.len(),
{
    if v.len() == 0 {
        Seq::empty()
    } else if v.last().fw == name {
        without_framework(v.drop_last(), name)
    } else {
        without_framework(v.drop_last(), name).push(v.last())
    }
}

/// The first `n` frameworks of a binary, each with the number of its thunks; a later declaration
/// of a name takes the place of an earlier one.
pub open spec fn published_of(f: Seq<FrameworkView>, n: int) -> Seq<ImportView>
    decreases n,
{
    if n <= 0 {
        Seq::empty()
    } else {
        without_framework(published_of(f, n - 1), f[n - 1].name).push(
            ImportView { fw: f[n - 1].name, ord: f[n - 1].thunks.len() as int },
        )
    }
}

/// What a binary references; `stem` is the name of its file without the extension.
pub open spec fn title_view(stem: Seq<char>, app: AppView) -> TitleView {
    TitleView {
        name: title(stem),
        hard: distinct(refs_of(app)),
        refs: refs_of(app),
        soft: soft_of(app),
        published: published_of(app.frameworks, app.frameworks.len() as int),
    }
}

fn drop_framework(v: &Vec<Import>, name: &str) -> (r: Vec<Import>)
    ensures
        import_views(r@) == without_framework(import_views(v@), name@),
{
    let ghost all = import_views(v@);
    let mut r: Vec<Import> = Vec::new();
    let mut i: usize = 0;
    assert(import_views(r@) =~= without_framework(all.take(0), name@));
    while i < v.len()
        invariant
            i <= v@.len(),
            all == import_views(v@),
            import_views(r@) == without_framework(all.take(i as int), name@),
        decreases v@.len() - i,
    {
        assert(all.take(i + 1).drop_last() =~= all.take(i as int));
        assert(all.take(i + 1).last() == v@[i as int]@);
        if !same_text(v[i].fw.as_str(), name) {
            let ghost was = import_views(r@);
            let x = make_import(v[i].fw.as_str(), v[i].ord);
            r.push(x);
            assert(import_views(r@) =~= was.push(x@));
        }
        i += 1;
    }
    assert(all.take(i as int) =~= all);
    r
}

fn list_published(app: &App) -> (v: Vec<Import>)
    ensures
        import_views(v@) == published_of(app@.frameworks, app@.frameworks.len() as int),
{
    let mut v: Vec<Import> = Vec::new();
    let mut k: usize = 0;
    assert(import_views(v@) =~= published_of(app@.frameworks, 0));
    while k < app.frameworks.len()
        invariant
            k <= app.frameworks@.len(),
            import_views(v@) == published_of(app@.frameworks, k as int),
        decreases app.frameworks@.len() - k,
    {
        let f = &app.frameworks[k];
        assert(app@.frameworks[k as int] == f@);
        v = drop_framework(&v, f.name.as_str());
        let ghost was = import_views(v@);
        let x = make_import(f.name.as_str(), f.thunks.len());
        v.push(x);
        assert(import_views(v@) =~= was.push(x@));
        k += 1;
    }
    v
}

/// Scans a binary; `stem` is the name of its file without the extension.
pub fn scan(stem: &str, app: &App) -> (t: Title)
    ensures
        t@ == title_view(stem@, app@),
{
    let thunks = build_thunks(app);
    let slots = build_slots(app);
    let edges = find_edges(app);
    let veneer = build_veneers(app, &edges, &thunks);
    let (mut refs, called) = collect_branch_refs(app, &edges, &thunks, &veneer);
    collect_word_refs(app, &thunks, &slots, &mut refs);
    let hard = distinct_imports(&refs);
    let soft = collect_orphans(app, &veneer, &called, &hard);
    Title { name: title_of(stem), hard, refs, soft, published: list_published(app) }
}

// ---------------------------------------------------------------- laws

proof fn lemma_branch_ref_kept(
    app: AppView,
    edges: Seq<Edge>,
    thunks: Seq<(u32, Code)>,
    veneer: Seq<(u32, Code)>,
    k: int,
    n: int,
)
    requires
        0 <= k < n <= edges.len(),
        called_by(edges[k], thunks, veneer) is Some,
    ensures
        branch_refs(app, edges, thunks, veneer, n).contains(
            import_of(app, called_by(edges[k], thunks, veneer)->0),
        ),
    decreases n,
{
    let x = import_of(app, called_by(edges[k], thunks, veneer)->0);
    let all = branch_refs(app, edges, thunks, veneer, n);
    let before = branch_refs(app, edges, thunks, veneer, n - 1);
    if k == n - 1 {
        assert(all[before.len() as int] == x);
    } else {
        lemma_branch_ref_kept(app, edges, thunks, veneer, k, n - 1);
        let i = choose|i: int| 0 <= i < before.len() && before[i] == x;
        assert(all[i] == x);
    }
}

proof fn lemma_word_ref_kept(
    app: AppView,
    thunks: Seq<(u32, Code)>,
    slots: Seq<(u32, Code)>,
    k: int,
    n: int,
)
    requires
        0 <= k < n,
        reaches(thunks, slots, le32(app.image, 4 * k)) is Some,
    ensures
        word_refs(app, thunks, slots, n).contains(
            import_of(app, reaches(thunks, slots, le32(app.image, 4 * k))->0),
        ),
    decreases n,
{
    let x = import_of(app, reaches(thunks, slots, le32(app.image, 4 * k))->0);
    let all = word_refs(app, thunks, slots, n);
    let before = word_refs(app, thunks, slots, n - 1);
    if k == n - 1 {
        assert(all[before.len() as int] == x);
    } else {
        lemma_word_ref_kept(app, thunks, slots, k, n - 1);
        let i = choose|i: int| 0 <= i < before.len() && before[i] == x;
        assert(all[i] == x);
    }
}

proof fn lemma_occurs(v: Seq<ImportView>, x: ImportView)
    requires
        v.contains(x),
    ensures
        times(v, x) > 0,
    decreases v.len(),
{
    let k = choose|k: int| 0 <= k < v.len() && v[k] == x;
    if k < v.len() - 1 {
        assert(v.drop_last()[k] == x);
        lemma_occurs(v.drop_last(), x);
    }
}

/// A branch to a thunk, or to a veneer of one, makes the ordinal hard, wherever it stands; only
/// the body of a veneer does not count.
pub proof fn law_a_call_is_hard(app: AppView, k: int)
    requires
        0 <= k < edges_from(app, 0).len(),
        called_by(edges_from(app, 0)[k], thunks_of(app), veneers_of(app)) is Some,
    ensures
        title_view(Seq::empty(), app).hard.contains(
            import_of(app, called_by(edges_from(app, 0)[k], thunks_of(app), veneers_of(app))->0),
        ),
{
    let edges = edges_from(app, 0);
    let x = import_of(app, called_by(edges[k], thunks_of(app), veneers_of(app))->0);
    let b = branch_refs(app, edges, thunks_of(app), veneers_of(app), edges.len() as int);
    lemma_branch_ref_kept(app, edges, thunks_of(app), veneers_of(app), k, edges.len() as int);
    let i = choose|i: int| 0 <= i < b.len() && b[i] == x;
    assert(refs_of(app)[i] == x);
    lemma_occurs(refs_of(app), x);
    law_distinct_is_exact(refs_of(app));
}

/// A word that holds the address of a thunk or of its slot makes the ordinal hard.
pub proof fn law_an_address_in_the_data_is_hard(app: AppView, k: int)
    requires
        0 <= k,
        4 * k + 4 <= app.image.len(),
        reaches(thunks_of(app), slots_of(app), le32(app.image, 4 * k)) is Some,
    ensures
        title_view(Seq::empty(), app).hard.contains(
            import_of(app, reaches(thunks_of(app), slots_of(app), le32(app.image, 4 * k))->0),
        ),
{
    let n = (app.image.len() / 4) as int;
    let x = import_of(app, reaches(thunks_of(app), slots_of(app), le32(app.image, 4 * k))->0);
    let w = word_refs(app, thunks_of(app), slots_of(app), n);
    lemma_word_ref_kept(app, thunks_of(app), slots_of(app), k, n);
    let i = choose|i: int| 0 <= i < w.len() && w[i] == x;
    let b = refs_of(app).len() - w.len();
    assert(refs_of(app)[b + i] == x);
    lemma_occurs(refs_of(app), x);
    law_distinct_is_exact(refs_of(app));
}

proof fn lemma_orphans(
    app: AppView,
    veneer: Seq<(u32, Code)>,
    called: Seq<u32>,
    hard: Seq<ImportView>,
    n: int,
)
    requires
        n <= veneer.len(),
    ensures
        imports_ascend(orphans(app, veneer, called, hard, n)),
        forall|x: ImportView|
            orphans(app, veneer, called, hard, n).contains(x) ==> !hard.contains(x),
        forall|k: int|
            0 <= k < n && !called.contains(#[trigger] veneer[k].0) && !hard.contains(
                import_of(app, veneer[k].1),
            ) ==> orphans(app, veneer, called, hard, n).contains(import_of(app, veneer[k].1)),
    decreases n,
{
    if n > 0 {
        lemma_orphans(app, veneer, called, hard, n - 1);
        let before = orphans(app, veneer, called, hard, n - 1);
        let all = orphans(app, veneer, called, hard, n);
        let (pc, c) = veneer[n - 1];
        let last = import_of(app, c);
        let added = !called.contains(pc) && !hard.contains(last);
        lemma_with_import(before, last);
        assert(all == if added {
            with_import(before, last)
        } else {
            before
        });
        assert forall|x: ImportView| all.contains(x) == (before.contains(x) || (added && x
            == last)) by {
            assert(with_import(before, last).contains(x) <==> (before.contains(x) || x == last));
        }
        assert forall|x: ImportView| all.contains(x) implies !hard.contains(x) by {
            assert(before.contains(x) || (added && x == last));
        }
        assert forall|k: int|
            0 <= k < n && !called.contains(#[trigger] veneer[k].0) && !hard.contains(
                import_of(app, veneer[k].1),
            ) implies all.contains(import_of(app, veneer[k].1)) by {
            let x = import_of(app, veneer[k].1);
            if k < n - 1 {
                assert(before.contains(x));
            } else {
                assert(added && x == last);
            }
            assert(all.contains(x) == (before.contains(x) || (added && x == last)));
        }
    }
}

/// No ordinal is both hard and soft; the soft ones stand in order, each once.
pub proof fn law_soft_is_apart_from_hard(stem: Seq<char>, app: AppView)
    ensures
        imports_ascend(title_view(stem, app).hard),
        imports_ascend(title_view(stem, app).soft),
        forall|x: ImportView|
            title_view(stem, app).soft.contains(x) ==> !title_view(stem, app).hard.contains(x),
{
    law_distinct_is_exact(refs_of(app));
    let v = veneers_of(app);
    let edges = edges_from(app, 0);
    lemma_orphans(
        app,
        v,
        veneers_called(edges, v, edges.len() as int),
        distinct(refs_of(app)),
        v.len() as int,
    );
}

/// A veneer that nothing branches to still counts: its ordinal is hard or soft.
pub proof fn law_an_orphan_veneer_counts(app: AppView, k: int)
    requires
        0 <= k < veneers_of(app).len(),
        !veneers_called(edges_from(app, 0), veneers_of(app), edges_from(app, 0).len() as int).contains(
            veneers_of(app)[k].0,
        ),
    ensures
        ({
            let x = import_of(app, veneers_of(app)[k].1);
            let t = title_view(Seq::empty(), app);
            t.hard.contains(x) || t.soft.contains(x)
        }),
{
    let v = veneers_of(app);
    let edges = edges_from(app, 0);
    lemma_orphans(
        app,
        v,
        veneers_called(edges, v, edges.len() as int),
        distinct(refs_of(app)),
        v.len() as int,
    );
}

proof fn lemma_no_more_veneers(edges: Seq<Edge>, v: Seq<(u32, Code)>, n: int)
    requires
        0 <= n <= edges.len(),
        settled(edges, v),
    ensures
        more_veneers(edges, v, n) == v,
    decreases n,
{
    if n > 0 {
        lemma_no_more_veneers(edges, v, n - 1);
        assert(!is_left_out(edges[n - 1], v));
    }
}

/// A round that meets no new veneer changes nothing, and neither does any round behind it.
pub proof fn law_settled_veneers_stay(
    edges: Seq<Edge>,
    thunks: Seq<(u32, Code)>,
    rounds: int,
    more: int,
)
    requires
        0 <= rounds <= more,
        settled(edges, veneers(edges, thunks, rounds)),
    ensures
        veneers(edges, thunks, more) == veneers(edges, thunks, rounds),
    decreases more - rounds,
{
    if rounds < more {
        law_settled_veneers_stay(edges, thunks, rounds, more - 1);
        lemma_no_more_veneers(edges, veneers(edges, thunks, rounds), edges.len() as int);
    }
}

// ---------------------------------------------------------------- addresses and ordinals

/// The frameworks and their thunks can be counted by the machine.
pub open spec fn counted(app: AppView) -> bool {
    &&& app.frameworks.len() <= usize::MAX
    &&& forall|k: int|
        0 <= k < app.frameworks.len() ==> (#[trigger] app.frameworks[k]).thunks.len() <= usize::MAX
}

/// The binary has a framework `k` with an ordinal `i`.
pub open spec fn has_ordinal(app: AppView, k: int, i: int) -> bool {
    0 <= k < app.frameworks.len() && 0 <= i < app.frameworks[k].thunks.len()
}

/// Where the thunk of an ordinal stands.
pub open spec fn thunk_place(app: AppView, k: int, i: int) -> u32 {
    app.frameworks[k].thunks[i]
}

/// Where the slot of an ordinal stands: the slots follow the thunks of their framework, in the same
/// order, a word each.
pub open spec fn slot_place(app: AppView, k: int, i: int) -> u32 {
    ((app.frameworks[k].thunks[0] + 4 * app.frameworks[k].thunks.len() + 4 * i) % 0x1_0000_0000)
        as u32
}

/// No other thunk stands at this address.
pub open spec fn only_thunk(app: AppView, k: int, i: int) -> bool {
    has_ordinal(app, k, i) && forall|l: int, j: int|
        #[trigger] has_ordinal(app, l, j) && thunk_place(app, l, j) == thunk_place(app, k, i)
            ==> l == k && j == i
}

/// No other slot stands at this address.
pub open spec fn only_slot(app: AppView, k: int, i: int) -> bool {
    has_ordinal(app, k, i) && forall|l: int, j: int|
        #[trigger] has_ordinal(app, l, j) && slot_place(app, l, j) == slot_place(app, k, i)
            ==> l == k && j == i
}

/// The ordinal comes before ordinal `ii` of framework `kk`.
pub open spec fn comes_earlier(k: int, i: int, kk: int, ii: int) -> bool {
    k < kk || (k == kk && i < ii)
}

proof fn lemma_thunk_table(app: AppView, kk: int, ii: int, a: u32)
    requires
        counted(app),
        0 <= kk <= app.frameworks.len(),
        0 <= ii,
        ii > 0 ==> kk < app.frameworks.len() && ii <= app.frameworks[kk].thunks.len(),
    ensures
        keys_ascend(thunk_table(app.frameworks, kk, ii)),
        match lookup(thunk_table(app.frameworks, kk, ii), a) {
            Some(c) => has_ordinal(app, c.0 as int, c.1 as int) && comes_earlier(
                c.0 as int,
                c.1 as int,
                kk,
                ii,
            ) && thunk_place(app, c.0 as int, c.1 as int) == a,
            None => forall|k: int, i: int|
                #[trigger] has_ordinal(app, k, i) && comes_earlier(k, i, kk, ii) ==> thunk_place(
                    app,
                    k,
                    i,
                ) != a,
        },
    decreases kk, ii,
{
    let f = app.frameworks;
    if ii > 0 {
        lemma_thunk_table(app, kk, ii - 1, a);
        let before = thunk_table(f, kk, ii - 1);
        let x = f[kk].thunks[ii - 1];
        let c = (kk as usize, (ii - 1) as usize);
        lemma_with_value_ascends(before, x, c);
        lemma_lookup_with_value(before, x, c, a);
    } else if kk > 0 {
        lemma_thunk_table(app, kk - 1, f[kk - 1].thunks.len() as int, a);
    }
}

proof fn lemma_slot_table(app: AppView, kk: int, ii: int, a: u32)
    requires
        counted(app),
        0 <= kk <= app.frameworks.len(),
        0 <= ii,
        ii > 0 ==> kk < app.frameworks.len() && ii <= app.frameworks[kk].thunks.len(),
    ensures
        keys_ascend(slot_table(app.frameworks, kk, ii)),
        match lookup(slot_table(app.frameworks, kk, ii), a) {
            Some(c) => has_ordinal(app, c.0 as int, c.1 as int) && comes_earlier(
                c.0 as int,
                c.1 as int,
                kk,
                ii,
            ) && slot_place(app, c.0 as int, c.1 as int) == a,
            None => forall|k: int, i: int|
                #[trigger] has_ordinal(app, k, i) && comes_earlier(k, i, kk, ii) ==> slot_place(
                    app,
                    k,
                    i,
                ) != a,
        },
    decreases kk, ii,
{
    let f = app.frameworks;
    if ii > 0 {
        lemma_slot_table(app, kk, ii - 1, a);
        let before = slot_table(f, kk, ii - 1);
        let x = wrap(slots_at(f[kk]) + 4 * (ii - 1));
        assert(x == slot_place(app, kk, ii - 1));
        let c = (kk as usize, (ii - 1) as usize);
        lemma_with_value_ascends(before, x, c);
        lemma_lookup_with_value(before, x, c, a);
    } else if kk > 0 {
        lemma_slot_table(app, kk - 1, f[kk - 1].thunks.len() as int, a);
    }
}

/// A thunk that shares its address with no other is known by its framework and its ordinal; and
/// an address is known as a thunk only where one stands.
pub proof fn law_a_thunk_is_known_by_its_ordinal(app: AppView, k: int, i: int)
    requires
        counted(app),
        only_thunk(app, k, i),
    ensures
        lookup(thunks_of(app), thunk_place(app, k, i)) == Some((k as usize, i as usize)),
{
    lemma_thunk_table(app, app.frameworks.len() as int, 0, thunk_place(app, k, i));
    assert(has_ordinal(app, k, i));
}

/// An address at which no thunk stands is not taken for one.
pub proof fn law_no_thunk_is_invented(app: AppView, a: u32)
    requires
        counted(app),
        forall|k: int, i: int| #[trigger] has_ordinal(app, k, i) ==> thunk_place(app, k, i) != a,
    ensures
        lookup(thunks_of(app), a) is None,
{
    lemma_thunk_table(app, app.frameworks.len() as int, 0, a);
}

/// A slot that shares its address with no other is known by its framework and its ordinal: the
/// word `first thunk + 4 * count + 4 * i` is that of ordinal `i`, for every one of the framework.
pub proof fn law_a_slot_is_known_by_its_ordinal(app: AppView, k: int, i: int)
    requires
        counted(app),
        only_slot(app, k, i),
    ensures
        lookup(slots_of(app), slot_place(app, k, i)) == Some((k as usize, i as usize)),
{
    lemma_slot_table(app, app.frameworks.len() as int, 0, slot_place(app, k, i));
    assert(has_ordinal(app, k, i));
}

/// An address at which no slot stands is not taken for one.
pub proof fn law_no_slot_is_invented(app: AppView, a: u32)
    requires
        counted(app),
        forall|k: int, i: int| #[trigger] has_ordinal(app, k, i) ==> slot_place(app, k, i) != a,
    ensures
        lookup(slots_of(app), a) is None,
{
    lemma_slot_table(app, app.frameworks.len() as int, 0, a);
}

/// A word of the image that holds the address of a slot makes the ordinal of that slot hard, and
/// one that holds the address of a thunk makes the ordinal of that thunk hard.
pub proof fn law_an_address_makes_its_ordinal_hard(
    stem: Seq<char>,
    app: AppView,
    k: int,
    i: int,
    n: int,
)
    requires
        counted(app),
        0 <= n,
        4 * n + 4 <= app.image.len(),
        (only_thunk(app, k, i) && le32(app.image, 4 * n) == thunk_place(app, k, i)) || (only_slot(
            app,
            k,
            i,
        ) && le32(app.image, 4 * n) == slot_place(app, k, i) && forall|l: int, j: int|
            #[trigger] has_ordinal(app, l, j) ==> thunk_place(app, l, j) != slot_place(
                app,
                k,
                i,
            )),
    ensures
        title_view(stem, app).hard.contains(
            ImportView { fw: app.frameworks[k].name, ord: i },
        ),
{
    if only_thunk(app, k, i) && le32(app.image, 4 * n) == thunk_place(app, k, i) {
        law_a_thunk_is_known_by_its_ordinal(app, k, i);
    } else {
        law_no_thunk_is_invented(app, slot_place(app, k, i));
        law_a_slot_is_known_by_its_ordinal(app, k, i);
    }
    law_an_address_in_the_data_is_hard(app, n);
}

// ---------------------------------------------------------------- branches

proof fn lemma_edge_listed(app: AppView, from: int, off: int) -> (j: int)
    requires
        0 <= from <= off,
        (off - from) % 4 == 0,
        off + 4 <= app.image.len(),
        edge_at(app, off) is Some,
    ensures
        0 <= j < edges_from(app, from).len(),
        edges_from(app, from)[j] == edge_at(app, off)->0,
    decreases off - from,
{
    if from == off {
        0
    } else {
        let j = lemma_edge_listed(app, from + 4, off);
        if edge_at(app, from) is Some {
            j + 1
        } else {
            j
        }
    }
}

proof fn lemma_edge_origin(app: AppView, from: int, j: int) -> (off: int)
    requires
        0 <= from,
        0 <= j < edges_from(app, from).len(),
    ensures
        from <= off,
        off + 4 <= app.image.len(),
        edge_at(app, off) == Some(edges_from(app, from)[j]),
    decreases app.image.len() - from,
{
    if edge_at(app, from) is Some {
        if j == 0 {
            from
        } else {
            assert(edges_from(app, from)[j] == edges_from(app, from + 4)[j - 1]);
            lemma_edge_origin(app, from + 4, j - 1)
        }
    } else {
        lemma_edge_origin(app, from + 4, j)
    }
}

#[verifier::rlimit(60)]
proof fn lemma_same_pc(app: AppView, j: int, l: int)
    requires
        app.image.len() <= 0x1_0000_0000,
        0 <= j < edges_from(app, 0).len(),
        0 <= l < edges_from(app, 0).len(),
        edges_from(app, 0)[j].pc == edges_from(app, 0)[l].pc,
    ensures
        edges_from(app, 0)[j] == edges_from(app, 0)[l],
{
    let a = lemma_edge_origin(app, 0, j);
    let b = lemma_edge_origin(app, 0, l);
    lemma_places_differ(app.load_base, a, b);
}

#[verifier::rlimit(60)]
proof fn lemma_places_differ(base: u32, a: int, b: int)
    requires
        0 <= a < 0x1_0000_0000,
        0 <= b < 0x1_0000_0000,
        wrap(base + a) == wrap(base + b),
    ensures
        a == b,
{
    let x = base + a;
    let y = base + b;
    assert(x % 0x1_0000_0000 == y % 0x1_0000_0000);
    assert(x % 0x1_0000_0000 == x || x % 0x1_0000_0000 == x - 0x1_0000_0000);
    assert(y % 0x1_0000_0000 == y || y % 0x1_0000_0000 == y - 0x1_0000_0000);
}

/// A table whose codes can all be told from a branch: each entry stands at an unconditional jump
/// without a link that goes where the table, or the table of thunks, has the same code.
pub open spec fn explained(edges: Seq<Edge>, thunks: Seq<(u32, Code)>, v: Seq<(u32, Code)>, w: Seq<(u32, Code)>) -> bool {
    forall|a: u32|
        (#[trigger] lookup(v, a)) is Some ==> exists|j: int|
            0 <= j < edges.len() && (#[trigger] edges[j]).pc == a && edges[j].always && !edges[j].link
                && (lookup(thunks, edges[j].target) == lookup(v, a) || lookup(w, edges[j].target)
                == lookup(v, a))
}

proof fn lemma_first_explained(edges: Seq<Edge>, thunks: Seq<(u32, Code)>, n: int)
    requires
        0 <= n <= edges.len(),
    ensures
        explained(edges, thunks, first_veneers(edges, thunks, n), Seq::empty()),
    decreases n,
{
    if n > 0 {
        lemma_first_explained(edges, thunks, n - 1);
        lemma_first_ascends(edges, thunks, n - 1);
        let e = edges[n - 1];
        let before = first_veneers(edges, thunks, n - 1);
        let all = first_veneers(edges, thunks, n);
        if jumps_into(e, thunks) {
            assert forall|a: u32| (#[trigger] lookup(all, a)) is Some implies exists|j: int|
                0 <= j < edges.len() && (#[trigger] edges[j]).pc == a && edges[j].always
                    && !edges[j].link && (lookup(thunks, edges[j].target) == lookup(all, a)
                    || lookup(Seq::<(u32, Code)>::empty(), edges[j].target) == lookup(all, a)) by {
                lemma_lookup_with_value(before, e.pc, lookup(thunks, e.target)->0, a);
                if a == e.pc {
                    assert(edges[n - 1].pc == a);
                } else {
                    assert(lookup(before, a) is Some);
                }
            }
        }
    }
}

proof fn lemma_more_explained(edges: Seq<Edge>, thunks: Seq<(u32, Code)>, v: Seq<(u32, Code)>, n: int)
    requires
        keys_ascend(v),
        0 <= n <= edges.len(),
        explained(edges, thunks, v, v),
        forall|j: int, l: int|
            0 <= j < edges.len() && 0 <= l < edges.len() && (#[trigger] edges[j]).pc == (
            #[trigger] edges[l]).pc ==> edges[j] == edges[l],
    ensures
        explained(edges, thunks, more_veneers(edges, v, n), v),
        forall|a: u32|
            lookup(v, a) is Some ==> #[trigger] lookup(more_veneers(edges, v, n), a) == lookup(v, a),
    decreases n,
{
    if n > 0 {
        lemma_more_explained(edges, thunks, v, n - 1);
        lemma_more_holds(edges, v, n - 1);
        let e = edges[n - 1];
        let before = more_veneers(edges, v, n - 1);
        let all = more_veneers(edges, v, n);
        if is_left_out(e, v) {
            assert forall|a: u32| (#[trigger] lookup(all, a)) is Some implies exists|j: int|
                0 <= j < edges.len() && (#[trigger] edges[j]).pc == a && edges[j].always
                    && !edges[j].link && (lookup(thunks, edges[j].target) == lookup(all, a)
                    || lookup(v, edges[j].target) == lookup(all, a)) by {
                lemma_lookup_with_value(before, e.pc, lookup(v, e.target)->0, a);
                if a == e.pc {
                    assert(edges[n - 1].pc == a);
                } else {
                    assert(lookup(before, a) is Some);
                }
            }
            assert forall|a: u32| lookup(v, a) is Some implies #[trigger] lookup(all, a) == lookup(
                v,
                a,
            ) by {
                lemma_lookup_with_value(before, e.pc, lookup(v, e.target)->0, a);
                assert(lookup(before, a) == lookup(v, a));
            }
        }
    }
}

proof fn lemma_rounds_explained(app: AppView, rounds: int)
    requires
        0 <= rounds,
        app.image.len() <= 0x1_0000_0000,
    ensures
        ({
            let edges = edges_from(app, 0);
            let v = veneers(edges, thunks_of(app), rounds);
            &&& explained(edges, thunks_of(app), v, v)
            &&& forall|a: u32|
                lookup(first_veneers(edges, thunks_of(app), edges.len() as int), a) is Some
                    ==> #[trigger] lookup(v, a) == lookup(
                    first_veneers(edges, thunks_of(app), edges.len() as int),
                    a,
                )
        }),
    decreases rounds,
{
    let edges = edges_from(app, 0);
    let n = edges.len() as int;
    let thunks = thunks_of(app);
    let v = veneers(edges, thunks, rounds);
    if rounds == 0 {
        lemma_first_explained(edges, thunks, n);
    } else {
        let was = veneers(edges, thunks, rounds - 1);
        lemma_rounds_explained(app, rounds - 1);
        lemma_rounds(edges, thunks, rounds - 1);
        assert forall|j: int, l: int|
            0 <= j < edges.len() && 0 <= l < edges.len() && (#[trigger] edges[j]).pc == (
            #[trigger] edges[l]).pc implies edges[j] == edges[l] by {
            lemma_same_pc(app, j, l);
        }
        lemma_more_explained(edges, thunks, was, n);
        assert(v == more_veneers(edges, was, n));
        assert forall|a: u32| (#[trigger] lookup(v, a)) is Some implies exists|j: int|
            0 <= j < edges.len() && (#[trigger] edges[j]).pc == a && edges[j].always
                && !edges[j].link && (lookup(thunks, edges[j].target) == lookup(v, a) || lookup(
                v,
                edges[j].target,
            ) == lookup(v, a)) by {
            let j = choose|j: int|
                0 <= j < edges.len() && (#[trigger] edges[j]).pc == a && edges[j].always
                    && !edges[j].link && (lookup(thunks, edges[j].target) == lookup(v, a) || lookup(
                    was,
                    edges[j].target,
                ) == lookup(v, a));
            assert(edges[j].pc == a);
            if lookup(was, edges[j].target) is Some {
                assert(lookup(v, edges[j].target) == lookup(was, edges[j].target));
            }
        }
    }
}

/// The address of the word at an offset of the image.
pub open spec fn image_address(app: AppView, off: int) -> u32 {
    ((app.load_base + off) % 0x1_0000_0000) as u32
}

/// A branch stands at an offset of the image: its condition, whether it links, and the address that
/// it was laid to.
pub open spec fn branch_stands(
    app: AppView,
    off: int,
    cond: int,
    link: bool,
    words: int,
    to: u32,
) -> bool {
    &&& 0 <= off
    &&& off % 4 == 0
    &&& off + 4 <= app.image.len()
    &&& 0 <= cond <= 14
    &&& -0x80_0000 <= words < 0x80_0000
    &&& le32(app.image, off) == branch_word(cond, link, words)
    &&& to == ((image_address(app, off) + 8 + 4 * words) % 0x1_0000_0000) as u32
}

proof fn lemma_branch_stands(
    app: AppView,
    off: int,
    cond: int,
    link: bool,
    words: int,
    to: u32,
) -> (j: int)
    requires
        branch_stands(app, off, cond, link, words, to),
    ensures
        0 <= j < edges_from(app, 0).len(),
        edges_from(app, 0)[j] == (Edge {
            pc: image_address(app, off),
            target: to,
            link,
            always: cond == 14,
        }),
{
    law_a_branch_is_read_back(cond, link, words, image_address(app, off));
    lemma_edge_listed(app, 0, off)
}

/// A branch to a thunk that links, or that has a condition, makes its ordinal hard; one that does
/// neither is a veneer of that ordinal.
pub proof fn law_a_branch_to_a_thunk(
    stem: Seq<char>,
    app: AppView,
    off: int,
    cond: int,
    link: bool,
    words: int,
    k: int,
    i: int,
)
    requires
        counted(app),
        app.image.len() <= 0x1_0000_0000,
        only_thunk(app, k, i),
        branch_stands(app, off, cond, link, words, thunk_place(app, k, i)),
    ensures
        link || cond != 14 ==> title_view(stem, app).hard.contains(
            ImportView { fw: app.frameworks[k].name, ord: i },
        ),
        !link && cond == 14 ==> lookup(veneers_of(app), image_address(app, off)) == Some(
            (k as usize, i as usize),
        ),
{
    let to = thunk_place(app, k, i);
    let edges = edges_from(app, 0);
    let n = edges.len() as int;
    let j = lemma_branch_stands(app, off, cond, link, words, to);
    law_a_thunk_is_known_by_its_ordinal(app, k, i);
    if link || cond != 14 {
        lemma_calls_are_no_veneers(app, j);
        law_a_call_is_hard(app, j);
    } else {
        lemma_rounds_explained(app, n);
        lemma_first_holds(edges, thunks_of(app), n, j);
        lemma_first_code(app, n, j);
    }
}

proof fn lemma_calls_are_no_veneers(app: AppView, j: int)
    requires
        app.image.len() <= 0x1_0000_0000,
        0 <= j < edges_from(app, 0).len(),
        edges_from(app, 0)[j].link || !edges_from(app, 0)[j].always,
    ensures
        lookup(veneers_of(app), edges_from(app, 0)[j].pc) is None,
{
    let edges = edges_from(app, 0);
    let v = veneers_of(app);
    lemma_rounds_explained(app, edges.len() as int);
    let a = edges[j].pc;
    if lookup(v, a) is Some {
        let l = choose|l: int|
            0 <= l < edges.len() && (#[trigger] edges[l]).pc == a && edges[l].always
                && !edges[l].link && (lookup(thunks_of(app), edges[l].target) == lookup(v, a)
                || lookup(v, edges[l].target) == lookup(v, a));
        lemma_same_pc(app, j, l);
    }
}

proof fn lemma_first_code(app: AppView, n: int, j: int)
    requires
        app.image.len() <= 0x1_0000_0000,
        0 <= j < edges_from(app, 0).len(),
        n == edges_from(app, 0).len(),
        jumps_into(edges_from(app, 0)[j], thunks_of(app)),
    ensures
        lookup(first_veneers(edges_from(app, 0), thunks_of(app), n), edges_from(app, 0)[j].pc)
            == lookup(thunks_of(app), edges_from(app, 0)[j].target),
{
    let edges = edges_from(app, 0);
    let thunks = thunks_of(app);
    let v = first_veneers(edges, thunks, n);
    let a = edges[j].pc;
    lemma_first_explained(edges, thunks, n);
    lemma_first_holds(edges, thunks, n, j);
    let none = Seq::<(u32, Code)>::empty();
    let l = choose|l: int|
        0 <= l < edges.len() && (#[trigger] edges[l]).pc == a && edges[l].always && !edges[l].link
            && (lookup(thunks, edges[l].target) == lookup(v, a) || lookup(none, edges[l].target)
            == lookup(v, a));
    lemma_same_pc(app, j, l);
}

/// A branch to a veneer that links, or that has a condition, makes the ordinal of that veneer hard;
/// one that does neither is a veneer of the same ordinal, so that chains of any length count.
pub proof fn law_a_branch_to_a_veneer(
    stem: Seq<char>,
    app: AppView,
    off: int,
    cond: int,
    link: bool,
    words: int,
    to: u32,
    k: int,
    i: int,
)
    requires
        counted(app),
        app.image.len() <= 0x1_0000_0000,
        has_ordinal(app, k, i),
        branch_stands(app, off, cond, link, words, to),
        forall|l: int, j: int| #[trigger] has_ordinal(app, l, j) ==> thunk_place(app, l, j) != to,
        lookup(veneers_of(app), to) == Some((k as usize, i as usize)),
    ensures
        link || cond != 14 ==> title_view(stem, app).hard.contains(
            ImportView { fw: app.frameworks[k].name, ord: i },
        ),
        !link && cond == 14 ==> lookup(veneers_of(app), image_address(app, off)) == Some(
            (k as usize, i as usize),
        ),
{
    let edges = edges_from(app, 0);
    let v = veneers_of(app);
    let j = lemma_branch_stands(app, off, cond, link, words, to);
    law_no_thunk_is_invented(app, to);
    if link || cond != 14 {
        lemma_calls_are_no_veneers(app, j);
        law_a_call_is_hard(app, j);
    } else {
        law_veneers_are_settled(app);
        assert(!is_left_out(edges[j], v));
        let a = edges[j].pc;
        assert(lookup(v, a) is Some);
        lemma_rounds_explained(app, edges.len() as int);
        let l = choose|l: int|
            0 <= l < edges.len() && (#[trigger] edges[l]).pc == a && edges[l].always
                && !edges[l].link && (lookup(thunks_of(app), edges[l].target) == lookup(v, a)
                || lookup(v, edges[l].target) == lookup(v, a));
        lemma_same_pc(app, j, l);
    }
}

/// Nothing is a veneer but an unconditional branch without a link.
pub proof fn law_no_veneer_is_invented(app: AppView, a: u32)
    requires
        app.image.len() <= 0x1_0000_0000,
        lookup(veneers_of(app), a) is Some,
    ensures
        exists|off: int|
            0 <= off && off + 4 <= app.image.len() && #[trigger] image_address(app, off) == a && le32(
                app.image,
                off,
            ) / 0x100_0000 == 0xea,
{
    let edges = edges_from(app, 0);
    let v = veneers_of(app);
    lemma_rounds_explained(app, edges.len() as int);
    let l = choose|l: int|
        0 <= l < edges.len() && (#[trigger] edges[l]).pc == a && edges[l].always && !edges[l].link
            && (lookup(thunks_of(app), edges[l].target) == lookup(v, a) || lookup(
            v,
            edges[l].target,
        ) == lookup(v, a));
    let off = lemma_edge_origin(app, 0, l);
    let w = le32(app.image, off);
    assert(image_address(app, off) == a);
    assert(w / 0x1000_0000 == 14 && w / 0x200_0000 % 8 == 5 && w / 0x100_0000 % 2 == 0);
}

#[verifier::rlimit(60)]
proof fn lemma_branch_refs_exact(
    app: AppView,
    edges: Seq<Edge>,
    thunks: Seq<(u32, Code)>,
    veneer: Seq<(u32, Code)>,
    n: int,
)
    requires
        0 <= n <= edges.len(),
    ensures
        branch_refs(app, edges, thunks, veneer, n) == edges.take(n).filter_map(
            |e: Edge|
                match called_by(e, thunks, veneer) {
                    Some(c) => Some(import_of(app, c)),
                    None => None,
                },
        ),
    decreases n,
{
    if n > 0 {
        lemma_branch_refs_exact(app, edges, thunks, veneer, n - 1);
        assert(edges.take(n).drop_last() =~= edges.take(n - 1));
        let f = |e: Edge|
            match called_by(e, thunks, veneer) {
                Some(c) => Some(import_of(app, c)),
                None => None,
            };
        match called_by(edges[n - 1], thunks, veneer) {
            Some(c) => {
                let before = branch_refs(app, edges, thunks, veneer, n - 1);
                assert(before.push(import_of(app, c)) =~= before + seq![import_of(app, c)]);
            },
            None => {},
        }
    } else {
        assert(edges.take(n) =~= Seq::empty());
    }
}

proof fn lemma_word_refs_exact(
    app: AppView,
    thunks: Seq<(u32, Code)>,
    slots: Seq<(u32, Code)>,
    n: nat,
)
    ensures
        word_refs(app, thunks, slots, n as int) == Seq::new(
            n,
            |k: int| le32(app.image, 4 * k),
        ).filter_map(
            |w: u32|
                match reaches(thunks, slots, w) {
                    Some(c) => Some(import_of(app, c)),
                    None => None,
                },
        ),
    decreases n,
{
    let all = Seq::new(n, |k: int| le32(app.image, 4 * k));
    if n > 0 {
        let m = (n - 1) as nat;
        lemma_word_refs_exact(app, thunks, slots, m);
        assert(all.drop_last() =~= Seq::new(m, |k: int| le32(app.image, 4 * k)));
        match reaches(thunks, slots, le32(app.image, 4 * (n - 1))) {
            Some(c) => {
                let before = word_refs(app, thunks, slots, n - 1);
                assert(before.push(import_of(app, c)) =~= before + seq![import_of(app, c)]);
            },
            None => {},
        }
    }
}

/// Every reference counts once and nothing else does: the references are those of the branches that
/// call something, in order, and then those of the words of the image that are the address of
/// something, in order.
pub proof fn law_every_reference_counts_once(stem: Seq<char>, app: AppView)
    ensures
        ({
            let calls = edges_from(app, 0).filter_map(
                |e: Edge|
                    match called_by(e, thunks_of(app), veneers_of(app)) {
                        Some(c) => Some(import_of(app, c)),
                        None => None,
                    },
            );
            let words = Seq::new(
                app.image.len() / 4,
                |k: int| le32(app.image, 4 * k),
            ).filter_map(
                |w: u32|
                    match reaches(thunks_of(app), slots_of(app), w) {
                        Some(c) => Some(import_of(app, c)),
                        None => None,
                    },
            );
            title_view(stem, app).refs == calls + words
        }),
{
    let edges = edges_from(app, 0);
    assert(edges.take(edges.len() as int) =~= edges);
    lemma_branch_refs_exact(app, edges, thunks_of(app), veneers_of(app), edges.len() as int);
    lemma_word_refs_exact(app, thunks_of(app), slots_of(app), app.image.len() / 4);
}

/// An ordinal is hard just where something refers to it.
pub proof fn law_hard_is_what_is_referred_to(stem: Seq<char>, app: AppView, x: ImportView)
    ensures
        title_view(stem, app).hard.contains(x) <==> title_view(stem, app).refs.contains(x),
{
    law_distinct_keeps_every_import(refs_of(app), x);
}

proof fn lemma_called_veneers(edges: Seq<Edge>, veneer: Seq<(u32, Code)>, n: int, a: u32)
    requires
        0 <= n <= edges.len(),
    ensures
        veneers_called(edges, veneer, n).contains(a) <==> exists|k: int|
            0 <= k < n && (#[trigger] edges[k]).target == a && lookup(veneer, edges[k].pc) is None
                && lookup(veneer, a) is Some,
    decreases n,
{
    if n > 0 {
        lemma_called_veneers(edges, veneer, n - 1, a);
        let e = edges[n - 1];
        let before = veneers_called(edges, veneer, n - 1);
        lemma_with_address_holds(before, e.target, a);
        if exists|k: int|
            0 <= k < n && (#[trigger] edges[k]).target == a && lookup(veneer, edges[k].pc) is None
                && lookup(veneer, a) is Some {
            let k = choose|k: int|
                0 <= k < n && (#[trigger] edges[k]).target == a && lookup(veneer, edges[k].pc)
                    is None && lookup(veneer, a) is Some;
            if k < n - 1 {
                assert(edges[k].target == a);
            }
        }
        if veneers_called(edges, veneer, n).contains(a) {
            if before.contains(a) {
                let k = choose|k: int|
                    0 <= k < n - 1 && (#[trigger] edges[k]).target == a && lookup(
                        veneer,
                        edges[k].pc,
                    ) is None && lookup(veneer, a) is Some;
                assert(edges[k].target == a);
            } else {
                assert(edges[n - 1].target == a);
            }
        }
    }
}

proof fn lemma_lookup_stands(t: Seq<(u32, Code)>, a: u32) -> (k: int)
    requires
        lookup(t, a) is Some,
    ensures
        0 <= k < t.len(),
        t[k] == (a, lookup(t, a)->0),
    decreases t.len(),
{
    if t[0].0 == a {
        0
    } else {
        let k = lemma_lookup_stands(t.drop_first(), a);
        k + 1
    }
}

/// A veneer that no branch of the image goes to makes its ordinal soft, unless that is hard.
pub proof fn law_a_veneer_that_nothing_calls_is_soft(
    stem: Seq<char>,
    app: AppView,
    a: u32,
    k: int,
    i: int,
)
    requires
        counted(app),
        has_ordinal(app, k, i),
        lookup(veneers_of(app), a) == Some((k as usize, i as usize)),
        forall|off: int|
            0 <= off && off + 4 <= app.image.len() ==> branch_to(
                le32(app.image, off),
                #[trigger] image_address(app, off),
            ) != Some(a),
    ensures
        ({
            let x = ImportView { fw: app.frameworks[k].name, ord: i };
            title_view(stem, app).hard.contains(x) || title_view(stem, app).soft.contains(x)
        }),
{
    let edges = edges_from(app, 0);
    let v = veneers_of(app);
    let n = edges.len() as int;
    lemma_called_veneers(edges, v, n, a);
    if veneers_called(edges, v, n).contains(a) {
        let l = choose|l: int|
            0 <= l < n && (#[trigger] edges[l]).target == a && lookup(v, edges[l].pc) is None
                && lookup(v, a) is Some;
        let off = lemma_edge_origin(app, 0, l);
        assert(branch_to(le32(app.image, off), image_address(app, off)) == Some(a));
    }
    let p = lemma_lookup_stands(v, a);
    law_an_orphan_veneer_counts(app, p);
}

proof fn lemma_orphan_origin(
    app: AppView,
    veneer: Seq<(u32, Code)>,
    called: Seq<u32>,
    hard: Seq<ImportView>,
    n: int,
    x: ImportView,
)
    requires
        n <= veneer.len(),
        orphans(app, veneer, called, hard, n).contains(x),
    ensures
        exists|p: int|
            0 <= p < n && import_of(app, (#[trigger] veneer[p]).1) == x && !called.contains(
                veneer[p].0,
            ),
    decreases n,
{
    if n > 0 {
        let before = orphans(app, veneer, called, hard, n - 1);
        lemma_orphans(app, veneer, called, hard, n - 1);
        let (pc, c) = veneer[n - 1];
        lemma_with_import(before, import_of(app, c));
        if before.contains(x) {
            lemma_orphan_origin(app, veneer, called, hard, n - 1, x);
            let p = choose|p: int|
                0 <= p < n - 1 && import_of(app, (#[trigger] veneer[p]).1) == x && !called.contains(
                    veneer[p].0,
                );
            assert(import_of(app, veneer[p].1) == x);
        } else {
            assert(import_of(app, veneer[n - 1].1) == x);
        }
    }
}

/// Nothing is soft but the ordinal of a veneer that no branch outside the veneers goes to.
pub proof fn law_soft_comes_from_a_veneer(stem: Seq<char>, app: AppView, x: ImportView)
    requires
        title_view(stem, app).soft.contains(x),
    ensures
        exists|p: int|
            0 <= p < veneers_of(app).len() && import_of(app, (#[trigger] veneers_of(app)[p]).1) == x
                && forall|l: int|
                0 <= l < edges_from(app, 0).len() && (#[trigger] edges_from(app, 0)[l]).target
                    == veneers_of(app)[p].0 && lookup(veneers_of(app), veneers_of(app)[p].0) is Some
                    ==> lookup(veneers_of(app), edges_from(app, 0)[l].pc) is Some,
{
    let edges = edges_from(app, 0);
    let v = veneers_of(app);
    let n = edges.len() as int;
    let called = veneers_called(edges, v, n);
    lemma_orphan_origin(app, v, called, distinct(refs_of(app)), v.len() as int, x);
    let p = choose|p: int|
        0 <= p < v.len() && import_of(app, (#[trigger] v[p]).1) == x && !called.contains(v[p].0);
    lemma_called_veneers(edges, v, n, v[p].0);
    assert(import_of(app, v[p].1) == x);
}

proof fn lemma_without_framework(v: Seq<ImportView>, name: Seq<char>, x: ImportView)
    ensures
        without_framework(v, name).contains(x) <==> v.contains(x) && x.fw != name,
    decreases v.len(),
{
    if v.len() > 0 {
        let u = v.drop_last();
        lemma_without_framework(u, name, x);
        let r = without_framework(v, name);
        let s = without_framework(u, name);
        if v.contains(x) {
            let k = choose|k: int| 0 <= k < v.len() && v[k] == x;
            if k < v.len() - 1 {
                assert(u[k] == x);
            }
        }
        if u.contains(x) {
            let k = choose|k: int| 0 <= k < u.len() && u[k] == x;
            assert(v[k] == x);
        }
        assert(v[v.len() - 1] == v.last());
        if v.last().fw != name {
            if s.contains(x) {
                let k = choose|k: int| 0 <= k < s.len() && s[k] == x;
                assert(r[k] == x);
            }
            assert(r[s.len() as int] == v.last());
            if r.contains(x) {
                let k = choose|k: int| 0 <= k < r.len() && r[k] == x;
                if k < s.len() {
                    assert(s[k] == x);
                }
            }
        }
    }
}

proof fn lemma_published(f: Seq<FrameworkView>, n: int, x: ImportView)
    requires
        0 <= n <= f.len(),
    ensures
        published_of(f, n).contains(x) <==> exists|k: int|
            0 <= k < n && (#[trigger] f[k]).name == x.fw && f[k].thunks.len() == x.ord && forall|
                j: int,
            |
                k < j < n ==> (#[trigger] f[j]).name != x.fw,
    decreases n,
{
    if n > 0 {
        lemma_published(f, n - 1, x);
        let before = published_of(f, n - 1);
        let s = without_framework(before, f[n - 1].name);
        let all = published_of(f, n);
        let own = ImportView { fw: f[n - 1].name, ord: f[n - 1].thunks.len() as int };
        lemma_without_framework(before, f[n - 1].name, x);
        assert(all == s.push(own));
        assert(all.contains(x) <==> s.contains(x) || x == own) by {
            if s.contains(x) {
                let k = choose|k: int| 0 <= k < s.len() && s[k] == x;
                assert(all[k] == x);
            }
            assert(all[s.len() as int] == own);
            if all.contains(x) {
                let k = choose|k: int| 0 <= k < all.len() && all[k] == x;
                if k < s.len() {
                    assert(s[k] == x);
                }
            }
        }
        if x == own {
            assert(f[n - 1].name == x.fw);
        }
        if s.contains(x) {
            let k = choose|k: int|
                0 <= k < n - 1 && (#[trigger] f[k]).name == x.fw && f[k].thunks.len() == x.ord
                    && forall|j: int| k < j < n - 1 ==> (#[trigger] f[j]).name != x.fw;
            assert(f[k].name == x.fw);
        }
        if exists|k: int|
            0 <= k < n && (#[trigger] f[k]).name == x.fw && f[k].thunks.len() == x.ord && forall|
                j: int,
            |
                k < j < n ==> (#[trigger] f[j]).name != x.fw {
            let k = choose|k: int|
                0 <= k < n && (#[trigger] f[k]).name == x.fw && f[k].thunks.len() == x.ord
                    && forall|j: int| k < j < n ==> (#[trigger] f[j]).name != x.fw;
            if k < n - 1 {
                assert(f[n - 1].name != x.fw);
                assert(f[k].name == x.fw);
            }
        }
    }
}

/// A title publishes each of its frameworks with the number of its ordinals; of two with one name
/// the later.
pub proof fn law_every_framework_is_published(stem: Seq<char>, app: AppView, x: ImportView)
    ensures
        title_view(stem, app).published.contains(x) <==> exists|k: int|
            0 <= k < app.frameworks.len() && (#[trigger] app.frameworks[k]).name == x.fw
                && app.frameworks[k].thunks.len() == x.ord && forall|j: int|
                k < j < app.frameworks.len() ==> (#[trigger] app.frameworks[j]).name != x.fw,
{
    lemma_published(app.frameworks, app.frameworks.len() as int, x);
}

proof fn lemma_edges_exact(app: AppView, i: int, n: nat)
    requires
        0 <= i,
        4 * (i + n) + 4 > app.image.len(),
        n > 0 ==> 4 * (i + n) <= app.image.len(),
    ensures
        edges_from(app, 4 * i) == numbers(i, n).filter_map(|k: int| edge_at(app, 4 * k)),
    decreases n,
{
    let f = |k: int| edge_at(app, 4 * k);
    if n > 0 {
        lemma_edges_exact(app, i + 1, (n - 1) as nat);
        lemma_numbers_first(i, n);
        lemma_filter_map_first(i, numbers(i + 1, (n - 1) as nat), f);
    } else {
        assert(numbers(i, n).filter_map(f) =~= Seq::empty());
    }
}

/// The branches of a binary are those of the words of its image, each once and in order.
pub proof fn law_every_word_is_read_once(app: AppView)
    ensures
        edges_from(app, 0) == numbers(0, app.image.len() / 4).filter_map(
            |k: int| edge_at(app, 4 * k),
        ),
{
    lemma_edges_exact(app, 0, app.image.len() / 4);
}

/// A title is named by its file: by the stem up to its version mark.
pub proof fn law_a_title_is_named_by_its_file(stem: Seq<char>, app: AppView)
    ensures
        ({
            let name = title_view(stem, app).name;
            &&& stem.take(name.len() as int) == name
            &&& name == stem || occurs_at(stem, "_1_1_"@, name.len() as int)
            &&& forall|i: int| 0 <= i < name.len() ==> !occurs_at(stem, "_1_1_"@, i)
        }),
{
    law_a_title_ends_at_its_version(stem);
}

} // verus!
