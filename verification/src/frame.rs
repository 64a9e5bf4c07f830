//! The frame pump: which vectors are called, when completions are delivered, and how the clock and
//! the picture are handed over.

use vstd::prelude::*;

#[allow(unused_imports)]
use crate::arm::wrap;
use crate::input::Effect;
#[allow(unused_imports)]
use crate::input::word_after;

verus! {

// ---------------------------------------------------------------- vectors

/// The vector that ends a title; it is no entry.
pub const TERMINATE_VECTOR: usize = 1;

/// A vector of a title: its index, its address, and whether it is called at the start.
#[derive(Clone, Copy)]
pub struct Vector {
    pub index: usize,
    pub addr: u32,
    pub call: bool,
}

/// What is done with the first `n` vectors: those that are zero are passed over, and the one that
/// ends the title is called only on request.
pub open spec fn vector_plan(v: Seq<u32>, terminate: bool, n: int) -> Seq<Vector>
    decreases n,
{
    if n <= 0 {
        Seq::empty()
    } else if v[n - 1] == 0 {
        vector_plan(v, terminate, n - 1)
    } else {
        vector_plan(v, terminate, n - 1).push(
            Vector {
                index: (n - 1) as usize,
                addr: v[n - 1],
                call: n - 1 != TERMINATE_VECTOR || terminate,
            },
        )
    }
}

/// The vector that is called for every frame: the last of the first `n` that is not zero, called
/// at the start or not.
pub open spec fn frame_vector(v: Seq<u32>, n: int) -> Option<u32>
    decreases n,
{
    if n <= 0 {
        None
    } else if v[n - 1] != 0 {
        Some(v[n - 1])
    } else {
        frame_vector(v, n - 1)
    }
}

/// What is done with the vectors of a title, and the one that is called for every frame.
pub fn plan_vectors(v: &Vec<u32>, terminate: bool) -> (r: (Vec<Vector>, Option<u32>))
    ensures
        r.0@ == vector_plan(v@, terminate, v@.len() as int),
        r.1 == frame_vector(v@, v@.len() as int),
{
    let mut plan: Vec<Vector> = Vec::new();
    let mut frame: Option<u32> = None;
    let mut n: usize = 0;
    while n < v.len()
        invariant
            n <= v@.len(),
            plan@ == vector_plan(v@, terminate, n as int),
            frame == frame_vector(v@, n as int),
        decreases v@.len() - n,
    {
        if v[n] != 0 {
            frame = Some(v[n]);
            plan.push(Vector { index: n, addr: v[n], call: n != TERMINATE_VECTOR || terminate });
        }
        n += 1;
    }
    (plan, frame)
}

/// The vector that ends the title is not called at the start unless it is asked for, and every
/// other vector that is not zero is.
pub proof fn law_the_end_is_not_called(v: Seq<u32>, n: int, k: int)
    requires
        n <= v.len() <= usize::MAX,
        0 <= k < vector_plan(v, false, n).len(),
    ensures
        ({
            let e = vector_plan(v, false, n)[k];
            &&& e.call == (e.index != TERMINATE_VECTOR)
            &&& e.index < n
            &&& e.addr == v[e.index as int]
            &&& e.addr != 0
        }),
    decreases n,
{
    if n > 0 {
        let before = vector_plan(v, false, n - 1);
        if k < before.len() {
            law_the_end_is_not_called(v, n - 1, k);
        }
    }
}

/// There is a frame vector exactly when some vector is not zero, and then it is the last of them.
pub proof fn law_the_frame_vector_is_the_last(v: Seq<u32>, n: int)
    requires
        0 <= n <= v.len(),
    ensures
        match frame_vector(v, n) {
            Some(a) => exists|k: int|
                0 <= k < n && #[trigger] v[k] == a && a != 0 && forall|j: int|
                    k < j < n ==> #[trigger] v[j] == 0,
            None => forall|k: int| 0 <= k < n ==> #[trigger] v[k] == 0,
        },
    decreases n,
{
    if n > 0 {
        law_the_frame_vector_is_the_last(v, n - 1);
        if v[n - 1] == 0 && frame_vector(v, n - 1) is Some {
            let a = frame_vector(v, n - 1)->0;
            let k = choose|k: int|
                0 <= k < n - 1 && #[trigger] v[k] == a && a != 0 && forall|j: int|
                    k < j < n - 1 ==> #[trigger] v[j] == 0;
            assert(v[k] == a);
            assert forall|j: int| k < j < n implies #[trigger] v[j] == 0 by {}
        }
    }
}

// ---------------------------------------------------------------- completions

/// The requests among the first `n` that are due by the frame.
pub open spec fn ready(v: Seq<(u128, u32)>, frame: int, n: int) -> Seq<u32>
    decreases n,
{
    if n <= 0 {
        Seq::empty()
    } else if v[n - 1].0 <= frame {
        ready(v, frame, n - 1).push(v[n - 1].1)
    } else {
        ready(v, frame, n - 1)
    }
}

/// The entries among the first `n` that are not due by the frame.
pub open spec fn waiting(v: Seq<(u128, u32)>, frame: int, n: int) -> Seq<(u128, u32)>
    decreases n,
{
    if n <= 0 {
        Seq::empty()
    } else if v[n - 1].0 <= frame {
        waiting(v, frame, n - 1)
    } else {
        waiting(v, frame, n - 1).push(v[n - 1])
    }
}

/// The requests with the frame they are due at.
pub open spec fn dated(v: Seq<u32>, at: u128) -> Seq<(u128, u32)> {
    v.map_values(|r: u32| (at, r))
}

/// The requests that are delivered at a frame. Without a delay they are those that finished since
/// the last frame; with one, each waits for as many frames as the delay says. `queue` are those
/// that wait.
pub fn deliver(queue: &mut Vec<(u128, u32)>, pending: &Vec<u32>, frame: usize, delay: usize) -> (due:
    Vec<u32>)
    ensures
        delay == 0 ==> due@ == pending@ && final(queue)@ == old(queue)@,
        delay > 0 ==> ({
            let all = old(queue)@ + dated(pending@, (frame + delay) as u128);
            due@ == ready(all, frame as int, all.len() as int) && final(queue)@ == waiting(
                all,
                frame as int,
                all.len() as int,
            )
        }),
{
    let mut due: Vec<u32> = Vec::new();
    if delay == 0 {
        let mut i: usize = 0;
        while i < pending.len()
            invariant
                i <= pending@.len(),
                due@ == pending@.take(i as int),
            decreases pending@.len() - i,
        {
            due.push(pending[i]);
            i += 1;
            assert(due@ =~= pending@.take(i as int));
        }
        assert(pending@.take(i as int) =~= pending@);
        return due;
    }
    let at: u128 = frame as u128 + delay as u128;
    let ghost all = old(queue)@ + dated(pending@, at);
    let mut i: usize = 0;
    assert(queue@ =~= old(queue)@ + dated(pending@.take(0), at));
    while i < pending.len()
        invariant
            i <= pending@.len(),
            queue@ == old(queue)@ + dated(pending@.take(i as int), at),
        decreases pending@.len() - i,
    {
        queue.push((at, pending[i]));
        i += 1;
        assert(queue@ =~= old(queue)@ + dated(pending@.take(i as int), at));
    }
    assert(pending@.take(i as int) =~= pending@);
    let mut held: Vec<(u128, u32)> = Vec::new();
    let mut n: usize = 0;
    while n < queue.len()
        invariant
            n <= queue@.len(),
            queue@ == all,
            due@ == ready(all, frame as int, n as int),
            held@ == waiting(all, frame as int, n as int),
        decreases queue@.len() - n,
    {
        let e: (u128, u32) = queue[n];
        if e.0 <= frame as u128 {
            due.push(e.1);
        } else {
            held.push(e);
        }
        n += 1;
    }
    *queue = held;
    due
}

/// No request is lost: each is either delivered or waits on.
pub proof fn law_no_completion_is_lost(v: Seq<(u128, u32)>, frame: int, n: int)
    requires
        0 <= n <= v.len(),
    ensures
        ready(v, frame, n).len() + waiting(v, frame, n).len() == n,
        forall|k: int|
            0 <= k < waiting(v, frame, n).len() ==> (#[trigger] waiting(v, frame, n)[k]).0 > frame,
    decreases n,
{
    if n > 0 {
        law_no_completion_is_lost(v, frame, n - 1);
    }
}

/// What waits is delivered at its frame at the latest, and nothing before it.
pub proof fn law_completions_come_due(v: Seq<(u128, u32)>, frame: int, k: int, n: int)
    requires
        0 <= k < n <= v.len(),
    ensures
        v[k].0 <= frame ==> ready(v, frame, n).contains(v[k].1),
        v[k].0 > frame ==> waiting(v, frame, n).contains(v[k]),
    decreases n,
{
    let r = ready(v, frame, n);
    let w = waiting(v, frame, n);
    let r0 = ready(v, frame, n - 1);
    let w0 = waiting(v, frame, n - 1);
    if k == n - 1 {
        if v[k].0 <= frame {
            assert(r[r0.len() as int] == v[k].1);
        } else {
            assert(w[w0.len() as int] == v[k]);
        }
    } else {
        law_completions_come_due(v, frame, k, n - 1);
        if v[k].0 <= frame {
            let i = choose|i: int| 0 <= i < r0.len() && r0[i] == v[k].1;
            assert(r[i] == v[k].1);
        } else {
            let i = choose|i: int| 0 <= i < w0.len() && w0[i] == v[k];
            assert(w[i] == v[k]);
        }
    }
}

/// The links of the first `n` requests: each points at the next, and the last at nothing.
pub open spec fn links(due: Seq<u32>, n: int) -> Seq<Effect>
    decreases n,
{
    if n <= 0 {
        Seq::empty()
    } else {
        links(due, n - 1).push(
            Effect::Poke32 {
                addr: due[n - 1],
                word: if n < due.len() {
                    due[n]
                } else {
                    0
                },
            },
        )
    }
}

/// The requests as a linked list whose head the context holds.
pub open spec fn list_effects(due: Seq<u32>, ctx: u32) -> Seq<Effect> {
    links(due, due.len() as int).push(
        Effect::Poke32 {
            addr: wrap(ctx + 0x2c),
            word: if due.len() > 0 {
                due[0]
            } else {
                0
            },
        },
    )
}

/// Hands the finished requests over as a linked list.
pub fn link_completions(due: &Vec<u32>, ctx: u32) -> (out: Vec<Effect>)
    ensures
        out@ == list_effects(due@, ctx),
{
    let mut out: Vec<Effect> = Vec::new();
    let mut n: usize = 0;
    while n < due.len()
        invariant
            n <= due@.len(),
            out@ == links(due@, n as int),
        decreases due@.len() - n,
    {
        let word: u32 = if n + 1 < due.len() {
            due[n + 1]
        } else {
            0
        };
        out.push(Effect::Poke32 { addr: due[n], word });
        n += 1;
    }
    let head: u32 = if due.len() > 0 {
        due[0]
    } else {
        0
    };
    let at: u32 = ((ctx as u64 + 0x2c) % 0x1_0000_0000) as u32;
    out.push(Effect::Poke32 { addr: at, word: head });
    out
}

/// A word of the machine after the first `n` effects.
pub open spec fn word_after_all(e: Seq<Effect>, addr: u32, w: u32, n: int) -> u32
    decreases n,
{
    if n <= 0 {
        w
    } else {
        word_after(e[n - 1], addr, word_after_all(e, addr, w, n - 1))
    }
}

proof fn lemma_links(due: Seq<u32>, n: int, k: int, w: u32)
    requires
        0 <= k < n <= due.len(),
        due.no_duplicates(),
    ensures
        links(due, n).len() == n,
        word_after_all(links(due, n), due[k], w, n) == (if k + 1 < due.len() {
            due[k + 1]
        } else {
            0
        }),
    decreases n,
{
    lemma_links_len(due, n);
    let all = links(due, n);
    let before = links(due, n - 1);
    lemma_links_len(due, n - 1);
    lemma_word_prefix(before, all, due[k], w, n - 1);
    if k < n - 1 {
        lemma_links(due, n - 1, k, w);
        assert(due[k] != due[n - 1]);
    }
}

proof fn lemma_links_len(due: Seq<u32>, n: int)
    requires
        0 <= n <= due.len(),
    ensures
        links(due, n).len() == n,
    decreases n,
{
    if n > 0 {
        lemma_links_len(due, n - 1);
    }
}

proof fn lemma_word_prefix(a: Seq<Effect>, b: Seq<Effect>, addr: u32, w: u32, n: int)
    requires
        n <= a.len(),
        a.len() <= b.len(),
        forall|k: int| 0 <= k < a.len() ==> #[trigger] a[k] == b[k],
    ensures
        word_after_all(a, addr, w, n) == word_after_all(b, addr, w, n),
    decreases n,
{
    if n > 0 {
        lemma_word_prefix(a, b, addr, w, n - 1);
        assert(a[n - 1] == b[n - 1]);
    }
}

/// A title that follows the list from the context on meets exactly the requests that are due, in
/// order, and then the end.
pub proof fn law_the_list_can_be_walked(due: Seq<u32>, ctx: u32, k: int, w: u32)
    requires
        due.no_duplicates(),
        !due.contains(wrap(ctx + 0x2c)),
    ensures
        ({
            let e = list_effects(due, ctx);
            let n = e.len() as int;
            &&& word_after_all(e, wrap(ctx + 0x2c), w, n) == (if due.len() > 0 {
                due[0]
            } else {
                0
            })
            &&& 0 <= k < due.len() ==> word_after_all(e, due[k], w, n) == (if k + 1 < due.len() {
                due[k + 1]
            } else {
                0
            })
        }),
{
    let l = links(due, due.len() as int);
    let e = list_effects(due, ctx);
    lemma_links_len(due, due.len() as int);
    if 0 <= k < due.len() {
        lemma_links(due, due.len() as int, k, w);
        lemma_word_prefix(l, e, due[k], w, due.len() as int);
        assert(due[k] != wrap(ctx + 0x2c));
    }
}

// ---------------------------------------------------------------- clock and picture

/// Whether the clock is kept from running ahead of the frame rate: a limited rate on the wall
/// clock. A fixed clock is a baseline that nothing may change.
pub fn paces_clock(fps: usize, wall_clock: bool) -> (r: bool)
    ensures
        r == (fps > 0 && wall_clock),
{
    fps > 0 && wall_clock
}

/// The least clock of the next frame: one frame's length behind the clock of this one.
pub fn next_floor(now: u32, fps: u32) -> (r: u32)
    requires
        fps > 0,
    ensures
        r == wrap(now + 1_000_000int / (fps as int)),
{
    let step: u32 = 1_000_000 / fps;
    ((now as u64 + step as u64) % 0x1_0000_0000) as u32
}

/// A frame is never shorter than the rate says, as long as the clock does not pass its end.
pub proof fn law_a_frame_has_its_length(now: u32, fps: u32)
    requires
        fps > 0,
        now + 1_000_000int / (fps as int) <= 0xffff_ffff,
    ensures
        wrap(now + 1_000_000int / (fps as int)) - now == 1_000_000int / (fps as int),
{
    assert(1_000_000int / (fps as int) >= 0) by (nonlinear_arith)
        requires
            fps > 0,
    ;
}

/// Whether a fast start is over: from the frame on that was named, once.
pub fn hands_over(handed: bool, frames: usize, fast_until: u64) -> (r: bool)
    ensures
        r == (!handed && frames >= fast_until),
{
    !handed && frames as u64 >= fast_until
}

/// The colour word of a pixel.
pub open spec fn colour(r: u8, g: u8, b: u8) -> u32 {
    (r * 0x1_0000 + g * 0x100 + b) as u32
}

/// The words of a packed picture, three bytes to a pixel; a rest of one or two bytes is dropped.
pub fn pack_rgb(fb: &[u8]) -> (v: Vec<u32>)
    ensures
        v@.len() == fb@.len() / 3,
        forall|i: int|
            0 <= i < v@.len() ==> #[trigger] v@[i] == colour(
                fb@[3 * i],
                fb@[3 * i + 1],
                fb@[3 * i + 2],
            ),
{
    let n: usize = fb.len() / 3;
    let mut v: Vec<u32> = Vec::new();
    let mut i: usize = 0;
    assert(fb@.len() == fb.len());
    while i < n
        invariant
            i <= n,
            n == fb@.len() / 3,
            fb@.len() <= usize::MAX,
            v@.len() == i,
            forall|k: int|
                0 <= k < i ==> #[trigger] v@[k] == colour(
                    fb@[3 * k],
                    fb@[3 * k + 1],
                    fb@[3 * k + 2],
                ),
        decreases n - i,
    {
        let w: u32 = fb[3 * i] as u32 * 0x1_0000 + fb[3 * i + 1] as u32 * 0x100 + fb[3 * i
            + 2] as u32;
        v.push(w);
        i += 1;
    }
    v
}

/// The colour word holds the three bytes apart.
pub proof fn law_colours_are_kept(r: u8, g: u8, b: u8)
    ensures
        colour(r, g, b) / 0x1_0000 == r,
        colour(r, g, b) / 0x100 % 0x100 == g,
        colour(r, g, b) % 0x100 == b,
{
}

// ---------------------------------------------------------------- candidates for Select

/// How many event types are tried for Select.
pub const CANDIDATES: usize = 12;

/// The event type of a candidate: they are the numbers from 1 on.
pub fn candidate(i: usize) -> (r: u8)
    requires
        i < CANDIDATES,
    ensures
        r == i + 1,
{
    (i + 1) as u8
}

/// The next candidate, around the end.
pub fn next_candidate(i: usize) -> (r: usize)
    requires
        i < CANDIDATES,
    ensures
        r == (i + 1) % 12,
        r < CANDIDATES,
{
    (i + 1) % CANDIDATES
}

/// The candidate before, around the start.
pub fn previous_candidate(i: usize) -> (r: usize)
    requires
        i < CANDIDATES,
    ensures
        r == (i + 11) % 12,
        r < CANDIDATES,
{
    (i + 11) % CANDIDATES
}

// ---------------------------------------------------------------- what a frame does

/// The vectors that are planned are just those that are there, in order, each under its number; all
/// of them are called, but the last only on request.
pub proof fn law_every_vector_is_planned(v: Seq<u32>, terminate: bool, n: nat)
    requires
        n <= v.len() <= usize::MAX,
    ensures
        vector_plan(v, terminate, n as int) == Seq::new(n, |i: int| i).filter_map(
            |i: int|
                if v[i] == 0 {
                    None
                } else {
                    Some(
                        Vector {
                            index: i as usize,
                            addr: v[i],
                            call: i != TERMINATE_VECTOR || terminate,
                        },
                    )
                },
        ),
    decreases n,
{
    let all = Seq::new(n, |i: int| i);
    if n > 0 {
        let k = (n - 1) as nat;
        law_every_vector_is_planned(v, terminate, k);
        assert(all.drop_last() =~= Seq::new(k, |i: int| i));
        let before = vector_plan(v, terminate, n - 1);
        let x = Vector {
            index: (n - 1) as usize,
            addr: v[n - 1],
            call: n - 1 != TERMINATE_VECTOR || terminate,
        };
        assert(before.push(x) =~= before + seq![x]);
    }
}

/// What is due in a frame is handed out in order and leaves the queue; the rest waits in order.
#[verifier::rlimit(60)]
pub proof fn law_the_queue_is_split(v: Seq<(u128, u32)>, frame: int, n: int)
    requires
        0 <= n <= v.len(),
    ensures
        ready(v, frame, n) == v.take(n).filter(|e: (u128, u32)| e.0 <= frame).map_values(
            |e: (u128, u32)| e.1,
        ),
        waiting(v, frame, n) == v.take(n).filter(|e: (u128, u32)| e.0 > frame),
    decreases n,
{
    reveal(Seq::filter);
    let f = |e: (u128, u32)| e.0 <= frame;
    let m = |e: (u128, u32)| e.1;
    if n > 0 {
        law_the_queue_is_split(v, frame, n - 1);
        assert(v.take(n).drop_last() =~= v.take(n - 1));
        assert(v.take(n).last() == v[n - 1]);
        let a = v.take(n - 1).filter(f);
        assert(a.push(v[n - 1]).map_values(m) =~= a.map_values(m).push(v[n - 1].1));
    } else {
        assert(v.take(0) =~= Seq::empty());
        assert(v.take(0).filter(f).map_values(m) =~= Seq::empty());
    }
}

/// A request that comes in a frame is handed out just when its delay is over, and not before.
pub proof fn law_a_request_waits_its_delay(
    queue: Seq<(u128, u32)>,
    pending: Seq<u32>,
    frame: usize,
    delay: usize,
    k: int,
    now: int,
)
    requires
        0 <= k < pending.len(),
        frame <= now,
    ensures
        ({
            let all = queue + dated(pending, (frame + delay) as u128);
            let n = all.len() as int;
            &&& now < frame + delay ==> waiting(all, now, n).contains(
                ((frame + delay) as u128, pending[k]),
            )
            &&& now >= frame + delay ==> ready(all, now, n).contains(pending[k])
        }),
{
    let at = (frame + delay) as u128;
    let all = queue + dated(pending, at);
    let i = queue.len() + k;
    assert(all[i] == (at, pending[k]));
    law_completions_come_due(all, now, i, all.len() as int);
}

/// A frame of an even rate takes its share of a second, and as many of them as the rate are no
/// longer than the second.
pub proof fn law_frames_fill_a_second(fps: u32)
    requires
        fps > 0,
    ensures
        fps * (1_000_000int / (fps as int)) <= 1_000_000,
        1_000_000 - fps * (1_000_000int / (fps as int)) < fps,
{
    let q = 1_000_000int / (fps as int);
    assert(1_000_000 == fps * q + 1_000_000int % (fps as int)) by (nonlinear_arith)
        requires
            fps > 0,
            q == 1_000_000int / (fps as int),
    ;
}

/// The words of a list of effects that do not name an address leave it as it was.
pub proof fn law_a_list_writes_its_own_words(due: Seq<u32>, ctx: u32, a: u32, w: u32)
    requires
        !due.contains(a),
        a != wrap(ctx + 0x2c),
    ensures
        word_after_all(list_effects(due, ctx), a, w, list_effects(due, ctx).len() as int) == w,
{
    let l = links(due, due.len() as int);
    let e = list_effects(due, ctx);
    lemma_links_len(due, due.len() as int);
    lemma_links_elsewhere(due, due.len() as int, a, w);
    lemma_word_prefix(l, e, a, w, due.len() as int);
}

proof fn lemma_links_elsewhere(due: Seq<u32>, n: int, a: u32, w: u32)
    requires
        0 <= n <= due.len(),
        !due.contains(a),
    ensures
        word_after_all(links(due, n), a, w, n) == w,
    decreases n,
{
    if n > 0 {
        lemma_links_elsewhere(due, n - 1, a, w);
        lemma_links_len(due, n);
        lemma_links_len(due, n - 1);
        lemma_word_prefix(links(due, n - 1), links(due, n), a, w, n - 1);
        assert(due.contains(due[n - 1]));
    }
}

} // verus!
