//! The register of player processes that must not outlive the emulator.
//!
//! A flat array of process ids, zero for a free slot, so that whoever ends the program can walk it
//! without a lock.

use vstd::prelude::*;

verus! {

/// The size of the register: well past a four-voice pool and one music track.
pub const SLOTS: usize = 16;

/// The process ids that are registered; zero marks a free slot.
pub struct Registry {
    pub slots: [i32; SLOTS],
}

impl View for Registry {
    type V = Seq<i32>;

    open spec fn view(&self) -> Seq<i32> {
        self.slots@
    }
}

/// The first slot at or after `i` that is free; the length when none is.
pub open spec fn free_slot(s: Seq<i32>, i: int) -> int
    decreases s.len() - i,
{
    if i >= s.len() {
        s.len() as int
    } else if s[i] == 0 {
        i
    } else {
        free_slot(s, i + 1)
    }
}

/// The register once `p` is in its first free slot; unchanged when it is full.
pub open spec fn with_tracked(s: Seq<i32>, p: i32) -> Seq<i32> {
    let k = free_slot(s, 0);
    if k < s.len() {
        s.update(k, p)
    } else {
        s
    }
}

/// The register once every slot that holds `p` is free.
pub open spec fn with_forgotten(s: Seq<i32>, p: i32) -> Seq<i32> {
    s.map_values(
        |x: i32|
            if x == p {
                0i32
            } else {
                x
            },
    )
}

/// The registered ids that name a process, in slot order.
pub open spec fn live(s: Seq<i32>) -> Seq<i32>
    decreases s.len(),
{
    if s.len() == 0 {
        Seq::empty()
    } else if s.last() > 0 {
        live(s.drop_last()).push(s.last())
    } else {
        live(s.drop_last())
    }
}

/// The register with every slot free.
pub open spec fn all_free() -> Seq<i32> {
    Seq::new(SLOTS as nat, |k: int| 0i32)
}

impl Registry {
    /// A register with every slot free.
    pub fn new() -> (r: Self)
        ensures
            r@ == all_free(),
    {
        let r = Registry { slots: [0; SLOTS] };
        assert(r@ =~= all_free());
        r
    }
}

/// Registers a process in the first free slot. With no slot free, nothing is recorded.
pub fn track(reg: &mut Registry, pid: u32)
    ensures
        final(reg)@ == with_tracked(old(reg)@, pid as i32),
{
    let mut k: usize = 0;
    while k < SLOTS
        invariant
            k <= SLOTS,
            reg@ == old(reg)@,
            free_slot(reg@, 0) == free_slot(reg@, k as int),
        decreases SLOTS - k,
    {
        if reg.slots[k] == 0 {
            reg.slots[k] = pid as i32;
            assert(reg@ =~= old(reg)@.update(k as int, pid as i32));
            return;
        }
        k += 1;
    }
}

/// Frees every slot that holds the process.
pub fn forget(reg: &mut Registry, pid: u32)
    ensures
        final(reg)@ == with_forgotten(old(reg)@, pid as i32),
{
    let p: i32 = pid as i32;
    let mut k: usize = 0;
    while k < SLOTS
        invariant
            k <= SLOTS,
            p == pid as i32,
            forall|j: int|
                0 <= j < SLOTS ==> #[trigger] reg@[j] == (if j < k && old(reg)@[j] == p {
                    0
                } else {
                    old(reg)@[j]
                }),
        decreases SLOTS - k,
    {
        assert(reg@[k as int] == old(reg)@[k as int]);
        if reg.slots[k] == p {
            reg.slots[k] = 0;
        }
        k += 1;
    }
    assert(reg@ =~= with_forgotten(old(reg)@, p));
}

/// Takes everything still registered and frees every slot. The result is what has to be killed.
pub fn reap_all(reg: &mut Registry) -> (pids: Vec<i32>)
    ensures
        pids@ == live(old(reg)@),
        final(reg)@ == all_free(),
{
    let mut pids: Vec<i32> = Vec::new();
    let mut k: usize = 0;
    while k < SLOTS
        invariant
            k <= SLOTS,
            pids@ == live(old(reg)@.take(k as int)),
            forall|j: int|
                0 <= j < SLOTS ==> #[trigger] reg@[j] == (if j < k {
                    0
                } else {
                    old(reg)@[j]
                }),
        decreases SLOTS - k,
    {
        let pid: i32 = reg.slots[k];
        assert(reg@[k as int] == old(reg)@[k as int]);
        reg.slots[k] = 0;
        if pid > 0 {
            pids.push(pid);
        }
        k += 1;
        assert(old(reg)@.take(k as int).drop_last() =~= old(reg)@.take(k - 1));
    }
    assert(old(reg)@.take(SLOTS as int) =~= old(reg)@);
    assert(reg@ =~= all_free());
    pids
}

// ---------------------------------------------------------------- laws

proof fn lemma_free_slot(s: Seq<i32>, i: int)
    requires
        0 <= i <= s.len(),
    ensures
        i <= free_slot(s, i) <= s.len(),
        free_slot(s, i) < s.len() ==> s[free_slot(s, i)] == 0,
        free_slot(s, i) == s.len() ==> forall|k: int| i <= k < s.len() ==> s[k] != 0,
    decreases s.len() - i,
{
    if i < s.len() && s[i] != 0 {
        lemma_free_slot(s, i + 1);
    }
}

proof fn lemma_live(s: Seq<i32>, p: i32)
    ensures
        live(s).contains(p) <==> p > 0 && s.contains(p),
    decreases s.len(),
{
    if s.len() > 0 {
        let t = s.drop_last();
        lemma_live(t, p);
        if s.contains(p) {
            let k = choose|k: int| 0 <= k < s.len() && s[k] == p;
            if k < t.len() {
                assert(t[k] == p);
            }
        }
        if t.contains(p) {
            let k = choose|k: int| 0 <= k < t.len() && t[k] == p;
            assert(s[k] == p);
        }
        if s.last() > 0 {
            let l = live(t);
            if l.contains(p) {
                let k = choose|k: int| 0 <= k < l.len() && l[k] == p;
                assert(live(s)[k] == p);
            }
            if p == s.last() {
                assert(live(s)[l.len() as int] == p);
                assert(s[s.len() - 1] == p);
            }
            if live(s).contains(p) && p != s.last() {
                let k = choose|k: int| 0 <= k < live(s).len() && live(s)[k] == p;
                assert(l[k] == p);
            }
        }
    }
}

/// A process that was registered while a slot was free is among those killed at the end.
pub proof fn law_tracked_is_reaped(s: Seq<i32>, pid: u32)
    requires
        s.contains(0i32),
        0 < pid <= 0x7fff_ffff,
    ensures
        live(with_tracked(s, pid as i32)).contains(pid as i32),
{
    lemma_free_slot(s, 0);
    let k = free_slot(s, 0);
    let j = choose|j: int| 0 <= j < s.len() && s[j] == 0;
    assert(k < s.len());
    let t = with_tracked(s, pid as i32);
    assert(t[k] == pid as i32);
    lemma_live(t, pid as i32);
}

/// A process that was deregistered is not killed, however often it had been registered.
pub proof fn law_forgotten_is_not_reaped(s: Seq<i32>, pid: u32)
    requires
        0 < pid <= 0x7fff_ffff,
    ensures
        !live(with_forgotten(s, pid as i32)).contains(pid as i32),
{
    let t = with_forgotten(s, pid as i32);
    lemma_live(t, pid as i32);
}

/// Deregistering one process leaves every other registered.
pub proof fn law_forget_keeps_the_rest(s: Seq<i32>, pid: u32, other: i32)
    requires
        other != pid as i32,
    ensures
        live(with_forgotten(s, pid as i32)).contains(other) <==> live(s).contains(other),
{
    let t = with_forgotten(s, pid as i32);
    lemma_live(t, other);
    lemma_live(s, other);
    if other > 0 && s.contains(other) {
        let k = choose|k: int| 0 <= k < s.len() && s[k] == other;
        assert(t[k] == other);
    }
    if other > 0 && t.contains(other) {
        let k = choose|k: int| 0 <= k < t.len() && t[k] == other;
        assert(s[k] == other);
    }
}

/// Killing everything is safe to run again: the second time there is nothing left to kill.
pub proof fn law_reaping_twice_is_safe()
    ensures
        live(all_free()) == Seq::<i32>::empty(),
{
    let l = live(all_free());
    if l.len() > 0 {
        lemma_live(all_free(), l[0]);
        assert(l.contains(l[0]));
        let k = choose|k: int| 0 <= k < all_free().len() && all_free()[k] == l[0];
        assert(all_free()[k] == 0);
    }
    assert(l =~= Seq::empty());
}

/// Registering a process and deregistering it restores the register, when the process was not in
/// it before.
pub proof fn law_forget_undoes_track(s: Seq<i32>, pid: u32)
    requires
        0 < pid <= 0x7fff_ffff,
        !s.contains(pid as i32),
    ensures
        with_forgotten(with_tracked(s, pid as i32), pid as i32) == s,
{
    lemma_free_slot(s, 0);
    let t = with_tracked(s, pid as i32);
    let u = with_forgotten(t, pid as i32);
    assert forall|k: int| 0 <= k < s.len() implies u[k] == s[k] by {
        assert(s[k] != pid as i32);
    }
    assert(u =~= s);
}

/// A process that is tracked displaces none: all others are tracked as before, and where no slot is
/// free nothing changes.
pub proof fn law_tracking_displaces_none(s: Seq<i32>, pid: i32, other: i32)
    requires
        pid > 0,
    ensures
        with_tracked(s, pid).len() == s.len(),
        other > 0 && s.contains(other) ==> with_tracked(s, pid).contains(other),
        with_tracked(s, pid).contains(other) && other != pid ==> s.contains(other),
        !s.contains(0i32) ==> with_tracked(s, pid) == s,
{
    lemma_free_slot_is(s, 0);
    let k = free_slot(s, 0);
    let t = with_tracked(s, pid);
    if other > 0 && s.contains(other) {
        let i = choose|i: int| 0 <= i < s.len() && s[i] == other;
        assert(i != k);
        assert(t[i] == other);
    }
    if t.contains(other) && other != pid {
        let i = choose|i: int| 0 <= i < t.len() && t[i] == other;
        assert(s[i] == other);
    }
    if k < s.len() {
        assert(s.contains(s[k]));
    }
}

proof fn lemma_free_slot_is(s: Seq<i32>, i: int)
    requires
        0 <= i <= s.len(),
    ensures
        i <= free_slot(s, i) <= s.len(),
        free_slot(s, i) < s.len() ==> s[free_slot(s, i)] == 0,
    decreases s.len() - i,
{
    if i < s.len() && s[i] != 0 {
        lemma_free_slot_is(s, i + 1);
    }
}

/// What is reaped is every process that is tracked, as often as it is, in the order of the slots.
pub proof fn law_what_is_reaped(s: Seq<i32>)
    ensures
        live(s) == s.filter(|x: i32| x > 0),
    decreases s.len(),
{
    reveal(Seq::filter);
    if s.len() > 0 {
        law_what_is_reaped(s.drop_last());
    }
}

} // verus!
