//! Sound: a pool of four voices for effects, and one track of music.

use vstd::prelude::*;

use crate::text::{chars_of, same_text, starts_with};
#[allow(unused_imports)]
use crate::text::begins;

verus! {

/// How many effects can sound at once.
pub const VOICES: usize = 4;

/// An effect that sounds.
pub struct Voice {
    pub name: String,
    /// It begins again when it ends.
    pub looping: bool,
}

/// The contents of a voice.
pub struct VoiceView {
    pub name: Seq<char>,
    pub looping: bool,
}

impl View for Voice {
    type V = VoiceView;

    open spec fn view(&self) -> VoiceView {
        VoiceView { name: self.name@, looping: self.looping }
    }
}

/// The contents of a list of voices.
pub open spec fn voice_views(v: Seq<Voice>) -> Seq<VoiceView> {
    v.map_values(|x: Voice| x@)
}

/// The effect sounds.
pub open spec fn sounds(v: Seq<VoiceView>, name: Seq<char>) -> bool {
    exists|k: int| 0 <= k < v.len() && (#[trigger] v[k]).name == name
}

/// At most four voices, and no effect on two of them.
pub open spec fn pool_ok(v: Seq<VoiceView>) -> bool {
    v.len() <= VOICES && forall|i: int, j: int|
        0 <= i < j < v.len() ==> (#[trigger] v[i]).name != (#[trigger] v[j]).name
}

/// The answer to a request for an effect.
#[derive(Clone, Copy, PartialEq, Eq, Structural)]
pub enum Answer {
    /// It sounds already; a descriptor has one voice.
    Sounding,
    /// All voices are busy, and the request is dropped without a sound.
    Full,
    /// It can start.
    Free,
}

/// The answer to a request for an effect.
pub open spec fn answer_of(v: Seq<VoiceView>, name: Seq<char>) -> Answer {
    if sounds(v, name) {
        Answer::Sounding
    } else if v.len() >= VOICES {
        Answer::Full
    } else {
        Answer::Free
    }
}

/// The answer to a request for an effect.
pub fn ask_for(pool: &Vec<Voice>, name: &str) -> (r: Answer)
    ensures
        r == answer_of(voice_views(pool@), name@),
{
    let mut k: usize = 0;
    while k < pool.len()
        invariant
            k <= pool@.len(),
            forall|j: int| 0 <= j < k ==> (#[trigger] voice_views(pool@)[j]).name != name@,
        decreases pool@.len() - k,
    {
        if same_text(pool[k].name.as_str(), name) {
            assert(voice_views(pool@)[k as int].name == name@);
            return Answer::Sounding;
        }
        k += 1;
    }
    if pool.len() >= VOICES {
        Answer::Full
    } else {
        Answer::Free
    }
}

/// Starts an effect on a free voice.
pub fn start(pool: &mut Vec<Voice>, voice: Voice)
    requires
        pool_ok(voice_views(old(pool)@)),
        answer_of(voice_views(old(pool)@), voice@.name) == Answer::Free,
    ensures
        pool_ok(voice_views(final(pool)@)),
        voice_views(final(pool)@) == voice_views(old(pool)@).push(voice@),
{
    let ghost was = voice_views(pool@);
    let ghost one = voice@;
    pool.push(voice);
    assert(voice_views(pool@) =~= was.push(one));
    proof {
        let new = was.push(one);
        assert forall|i: int, j: int| 0 <= i < j < new.len() implies (#[trigger] new[i]).name != (
        #[trigger] new[j]).name by {
            assert(new[i] == was[i]);
        }
    }
}

/// Of the first `n` voices those whose flag is not set.
pub open spec fn still(v: Seq<VoiceView>, gone: Seq<bool>, n: int) -> Seq<VoiceView>
    decreases n,
{
    if n <= 0 {
        Seq::empty()
    } else if gone[n - 1] {
        still(v, gone, n - 1)
    } else {
        still(v, gone, n - 1).push(v[n - 1])
    }
}

/// Of the first `n` voices those whose flag is set and that begin again.
pub open spec fn again(v: Seq<VoiceView>, gone: Seq<bool>, n: int) -> Seq<VoiceView>
    decreases n,
{
    if n <= 0 {
        Seq::empty()
    } else if gone[n - 1] && v[n - 1].looping {
        again(v, gone, n - 1).push(v[n - 1])
    } else {
        again(v, gone, n - 1)
    }
}

fn copy_voice(v: &Voice) -> (r: Voice)
    ensures
        r@ == v@,
{
    Voice { name: String::from_str(v.name.as_str()), looping: v.looping }
}

proof fn lemma_still_and_again(v: Seq<VoiceView>, gone: Seq<bool>, n: int)
    requires
        pool_ok(v),
        0 <= n <= v.len(),
        gone.len() == v.len(),
    ensures
        still(v, gone, n).len() + again(v, gone, n).len() <= n,
        pool_ok(still(v, gone, n)),
        forall|k: int|
            0 <= k < still(v, gone, n).len() ==> exists|j: int|
                0 <= j < n && #[trigger] still(v, gone, n)[k] == #[trigger] v[j],
    decreases n,
{
    if n > 0 {
        lemma_still_and_again(v, gone, n - 1);
        let s = still(v, gone, n);
        let before = still(v, gone, n - 1);
        assert forall|k: int| 0 <= k < s.len() implies exists|j: int|
            0 <= j < n && #[trigger] s[k] == #[trigger] v[j] by {
            if k < before.len() {
                assert(s[k] == before[k]);
                let j = choose|j: int| 0 <= j < n - 1 && before[k] == #[trigger] v[j];
                assert(s[k] == v[j]);
            } else {
                assert(s[k] == v[n - 1]);
            }
        }
        if !gone[n - 1] {
            assert forall|i: int, j: int| 0 <= i < j < s.len() implies (#[trigger] s[i]).name != (
            #[trigger] s[j]).name by {
                assert(s[i] == before[i]);
                if j == before.len() {
                    let q = choose|q: int| 0 <= q < n - 1 && before[i] == #[trigger] v[q];
                    assert(v[q].name != v[n - 1].name);
                } else {
                    assert(s[j] == before[j]);
                }
            }
        }
    }
}

/// Takes the finished voices out of the pool and gives back those that are to begin again.
pub fn reap(pool: &mut Vec<Voice>, finished: &Vec<bool>) -> (relaunch: Vec<Voice>)
    requires
        finished@.len() == old(pool)@.len(),
    ensures
        voice_views(final(pool)@) == still(
            voice_views(old(pool)@),
            finished@,
            finished@.len() as int,
        ),
        voice_views(relaunch@) == again(
            voice_views(old(pool)@),
            finished@,
            finished@.len() as int,
        ),
{
    let ghost was = voice_views(pool@);
    let mut kept: Vec<Voice> = Vec::new();
    let mut relaunch: Vec<Voice> = Vec::new();
    let mut n: usize = 0;
    assert(voice_views(kept@) =~= still(was, finished@, 0));
    assert(voice_views(relaunch@) =~= again(was, finished@, 0));
    while n < pool.len()
        invariant
            n <= pool@.len(),
            finished@.len() == pool@.len(),
            was == voice_views(pool@),
            pool@ == old(pool)@,
            voice_views(kept@) == still(was, finished@, n as int),
            voice_views(relaunch@) == again(was, finished@, n as int),
        decreases pool@.len() - n,
    {
        let ghost k = voice_views(kept@);
        let ghost r = voice_views(relaunch@);
        assert(was[n as int] == pool@[n as int]@);
        if !finished[n] {
            let v = copy_voice(&pool[n]);
            kept.push(v);
            assert(voice_views(kept@) =~= k.push(v@));
        } else if pool[n].looping {
            let v = copy_voice(&pool[n]);
            relaunch.push(v);
            assert(voice_views(relaunch@) =~= r.push(v@));
        }
        n += 1;
    }
    *pool = kept;
    relaunch
}

/// The voices of an effect.
pub open spec fn named(v: Seq<VoiceView>, name: Seq<char>) -> Seq<bool> {
    v.map_values(|x: VoiceView| x.name == name)
}

/// Stops an effect: says which voices it was on and takes them out of the pool.
pub fn stop(pool: &mut Vec<Voice>, name: &str) -> (gone: Vec<bool>)
    ensures
        gone@ == named(voice_views(old(pool)@), name@),
        voice_views(final(pool)@) == still(
            voice_views(old(pool)@),
            gone@,
            gone@.len() as int,
        ),
{
    let ghost was = voice_views(pool@);
    let mut gone: Vec<bool> = Vec::new();
    let mut n: usize = 0;
    while n < pool.len()
        invariant
            n <= pool@.len(),
            pool@ == old(pool)@,
            was == voice_views(pool@),
            gone@ == named(was.take(n as int), name@),
        decreases pool@.len() - n,
    {
        assert(was[n as int] == pool@[n as int]@);
        gone.push(same_text(pool[n].name.as_str(), name));
        n += 1;
        assert(gone@ =~= named(was.take(n as int), name@));
    }
    assert(was.take(n as int) =~= was);
    let _ = reap(pool, &gone);
    gone
}

// ---------------------------------------------------------------- laws

/// Whatever voices finish, the pool stays in order, and those that begin again find room.
pub proof fn law_relaunched_voices_fit(v: Seq<VoiceView>, finished: Seq<bool>)
    requires
        pool_ok(v),
        finished.len() == v.len(),
    ensures
        pool_ok(still(v, finished, v.len() as int)),
        still(v, finished, v.len() as int).len() + again(v, finished, v.len() as int).len()
            <= VOICES,
{
    lemma_still_and_again(v, finished, v.len() as int);
}

/// An effect that is stopped sounds no more, so a trigger in the same frame starts it afresh.
pub proof fn law_a_stopped_effect_is_silent(v: Seq<VoiceView>, name: Seq<char>)
    requires
        pool_ok(v),
    ensures
        ({
            let left = still(v, named(v, name), v.len() as int);
            &&& !sounds(left, name)
            &&& pool_ok(left)
            &&& sounds(v, name) ==> answer_of(left, name) == Answer::Free
        }),
{
    let gone = named(v, name);
    lemma_still_and_again(v, gone, v.len() as int);
    lemma_still_lacks(v, name, v.len() as int);
    if sounds(v, name) {
        let k = choose|k: int| 0 <= k < v.len() && (#[trigger] v[k]).name == name;
        lemma_still_shrinks(v, gone, v.len() as int, k);
    }
}

proof fn lemma_still_lacks(v: Seq<VoiceView>, name: Seq<char>, n: int)
    requires
        0 <= n <= v.len(),
    ensures
        !sounds(still(v, named(v, name), n), name),
    decreases n,
{
    if n > 0 {
        lemma_still_lacks(v, name, n - 1);
        let before = still(v, named(v, name), n - 1);
        let s = still(v, named(v, name), n);
        assert forall|k: int| 0 <= k < s.len() implies (#[trigger] s[k]).name != name by {
            if k < before.len() {
                assert(s[k] == before[k]);
                assert(before[k].name != name);
            }
        }
    }
}

proof fn lemma_still_shrinks(v: Seq<VoiceView>, gone: Seq<bool>, n: int, k: int)
    requires
        0 <= n <= v.len(),
        gone.len() == v.len(),
        0 <= k < v.len(),
        gone[k],
    ensures
        still(v, gone, n).len() <= n - (if k < n {
            1int
        } else {
            0
        }),
    decreases n,
{
    if n > 0 {
        lemma_still_shrinks(v, gone, n - 1, k);
    }
}

// ---------------------------------------------------------------- music

/// A name that does not begin at the root is looked for in the game's directory.
pub fn is_resource(name: &str) -> (r: bool)
    ensures
        r == !begins(name@, "/"@),
{
    let n = chars_of(name);
    let slash = chars_of("/");
    !starts_with(n.as_slice(), slash.as_slice())
}

/// What happens to a track.
#[derive(Clone, Copy, PartialEq, Eq, Structural)]
pub enum Track {
    /// It plays on.
    PlaysOn,
    /// It begins again.
    Again,
    /// It is over.
    Over,
}

/// What happens to a track: a track that ended begins again when the player repeats; the title
/// never asks a second time.
pub fn after_track(ended: bool, repeat: bool) -> (r: Track)
    ensures
        r == (if !ended {
            Track::PlaysOn
        } else if repeat {
            Track::Again
        } else {
            Track::Over
        }),
{
    if !ended {
        Track::PlaysOn
    } else if repeat {
        Track::Again
    } else {
        Track::Over
    }
}

/// Whether the player repeats: in every mode but 0.
pub fn repeats(mode: u32) -> (r: bool)
    ensures
        r == (mode != 0),
{
    mode != 0
}

/// What is said when a track starts.
pub open spec fn track_text(label: Seq<char>, repeat: bool) -> Seq<char> {
    "audio: play "@ + label + (if repeat {
        " (repeating)\n"@
    } else {
        "\n"@
    })
}

/// What is said when a track starts.
pub fn render_track(label: &str, repeat: bool) -> (out: String)
    ensures
        out@ == track_text(label@, repeat),
{
    let mut out = String::from_str("audio: play ");
    out.append(label);
    if repeat {
        out.append(" (repeating)\n");
    } else {
        out.append("\n");
    }
    out
}

/// What is said when an effect starts.
pub open spec fn effect_text(name: Seq<char>, looping: bool) -> Seq<char> {
    "sfx: play "@ + name + (if looping {
        " (looping)\n"@
    } else {
        "\n"@
    })
}

/// What is said when an effect starts.
pub fn render_effect(name: &str, looping: bool) -> (out: String)
    ensures
        out@ == effect_text(name@, looping),
{
    let mut out = String::from_str("sfx: play ");
    out.append(name);
    if looping {
        out.append(" (looping)\n");
    } else {
        out.append("\n");
    }
    out
}

// ---------------------------------------------------------------- what is left and what comes again

/// The voices that play on are those that are not gone, in their order; those that are launched
/// again are the ones that are gone and loop, in their order.
#[verifier::rlimit(60)]
pub proof fn law_the_pool_is_split(v: Seq<VoiceView>, gone: Seq<bool>, n: nat)
    requires
        n <= v.len(),
        n <= gone.len(),
    ensures
        still(v, gone, n as int) == Seq::new(n, |i: int| i).filter(|i: int| !gone[i]).map_values(
            |i: int| v[i],
        ),
        again(v, gone, n as int) == Seq::new(n, |i: int| i).filter(
            |i: int| gone[i] && v[i].looping,
        ).map_values(|i: int| v[i]),
    decreases n,
{
    reveal(Seq::filter);
    let all = Seq::new(n, |i: int| i);
    let f = |i: int| !gone[i];
    let g = |i: int| gone[i] && v[i].looping;
    let m = |i: int| v[i];
    if n > 0 {
        let k = (n - 1) as nat;
        law_the_pool_is_split(v, gone, k);
        assert(all.drop_last() =~= Seq::new(k, |i: int| i));
        assert(all.last() == n - 1);
        let a = Seq::new(k, |i: int| i).filter(f);
        let b = Seq::new(k, |i: int| i).filter(g);
        assert(a.push(n - 1).map_values(m) =~= a.map_values(m).push(v[n - 1]));
        assert(b.push(n - 1).map_values(m) =~= b.map_values(m).push(v[n - 1]));
    } else {
        assert(all.filter(f).map_values(m) =~= Seq::empty());
        assert(all.filter(g).map_values(m) =~= Seq::empty());
    }
}

/// An effect is asked for: it sounds already where a voice has its name; else it is refused where
/// every voice is taken, and free where one is left.
pub proof fn law_an_effect_is_answered(v: Seq<VoiceView>, name: Seq<char>, k: int)
    ensures
        0 <= k < v.len() && v[k].name == name ==> answer_of(v, name) == Answer::Sounding,
        (forall|j: int| 0 <= j < v.len() ==> (#[trigger] v[j]).name != name) ==> answer_of(v, name)
            == (if v.len() < 4 {
            Answer::Free
        } else {
            Answer::Full
        }),
{
}

/// Stopping a name stops every voice of that name and no other.
pub proof fn law_stopping_is_by_name(v: Seq<VoiceView>, name: Seq<char>, x: VoiceView)
    ensures
        still(v, named(v, name), v.len() as int).contains(x) <==> v.contains(x) && x.name != name,
{
    lemma_stopped(v, name, v.len() as int, x);
    assert(v.take(v.len() as int) =~= v);
}

proof fn lemma_stopped(v: Seq<VoiceView>, name: Seq<char>, n: int, x: VoiceView)
    requires
        0 <= n <= v.len(),
    ensures
        still(v, named(v, name), n).contains(x) <==> v.take(n).contains(x) && x.name != name,
    decreases n,
{
    let gone = named(v, name);
    if n > 0 {
        lemma_stopped(v, name, n - 1, x);
        let before = still(v, gone, n - 1);
        let all = still(v, gone, n);
        let t = v.take(n);
        let u = v.take(n - 1);
        assert(gone[n - 1] == (v[n - 1].name == name));
        assert(t.contains(x) <==> u.contains(x) || v[n - 1] == x) by {
            if u.contains(x) {
                let k = choose|k: int| 0 <= k < u.len() && u[k] == x;
                assert(t[k] == x);
            }
            assert(t[n - 1] == v[n - 1]);
            if t.contains(x) {
                let k = choose|k: int| 0 <= k < t.len() && t[k] == x;
                if k < n - 1 {
                    assert(u[k] == x);
                }
            }
        }
        if !gone[n - 1] {
            assert(all.contains(x) <==> before.contains(x) || v[n - 1] == x) by {
                if before.contains(x) {
                    let k = choose|k: int| 0 <= k < before.len() && before[k] == x;
                    assert(all[k] == x);
                }
                assert(all[before.len() as int] == v[n - 1]);
                if all.contains(x) {
                    let k = choose|k: int| 0 <= k < all.len() && all[k] == x;
                    if k < before.len() {
                        assert(before[k] == x);
                    }
                }
            }
        }
    } else {
        assert(v.take(0) =~= Seq::empty());
    }
}

/// What is told of a track and of an effect is its name and whether it comes again.
pub proof fn law_sounds_are_told(label: Seq<char>)
    ensures
        track_text(label, true) == "audio: play "@ + label + " (repeating)\n"@,
        track_text(label, false) == "audio: play "@ + label + "\n"@,
        effect_text(label, true) == "sfx: play "@ + label + " (looping)\n"@,
        effect_text(label, false) == "sfx: play "@ + label + "\n"@,
{
}

} // verus!
