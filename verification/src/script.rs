//! Scripts that drive a run: one `FRAME: ACTION` on a line, with `#` comments.

use vstd::prelude::*;
use vstd::slice::slice_subrange;

use crate::input::{press, side, turn, wheel_byte, Effect, Hands, Pad};
#[allow(unused_imports)]
use crate::input::{
    hands_ok, law_a_turn_reports_every_detent, on_wheel, position_byte, pressed, samples_in_the_end,
    side_byte, turn_effects, turned, BTN_MENU, BTN_NEXT, BTN_PLAY, BTN_PREV, BTN_SELECT,
    QUARTER_BOTTOM, QUARTER_LEFT, QUARTER_RIGHT, QUARTER_TOP,
};
#[allow(unused_imports)]
use crate::options::lemma_dec_is_trimmed;
use crate::text::{
    chars_of, front, lowercase, next_word, parse_signed32, parse_unsigned, push_dec, push_hex_wide,
    quoted, same_chars, same_text, split, split_once, strip_front, text_of, trim,
};
#[allow(unused_imports)]
use crate::text::{
    before, behind, debug_form, dec, halves, hex_wide, lower_form, pieces, signed32, skip_space,
    skip_word, trimmed, unsigned, views, word_at,
};
#[allow(unused_imports)]
use crate::text::{
    begins, contains, ends, is_number, is_space, law_a_text_is_cut_at_the_first,
    law_decimal_reads_back, law_parts_are_found,
    law_joined_parts_come_apart, law_other_text_is_no_number, law_signed_reads_back,
    law_trimming_takes_white_space_alone, rejoined, unsigned_part,
};

verus! {

// ---------------------------------------------------------------- steps

/// An action and the frame it is due at.
pub struct Step {
    pub frame: usize,
    pub action: String,
}

/// The contents of a step.
pub struct StepView {
    pub frame: int,
    pub action: Seq<char>,
}

impl View for Step {
    type V = StepView;

    open spec fn view(&self) -> StepView {
        StepView { frame: self.frame as int, action: self.action@ }
    }
}

/// The contents of a list of steps.
pub open spec fn step_views(v: Seq<Step>) -> Seq<StepView> {
    v.map_values(|s: Step| s@)
}

/// Why a script cannot be read.
pub enum ScriptError {
    /// A line without a colon.
    NoColon(String),
    /// What stands before the colon is no frame number.
    BadFrame(String),
}

/// The contents of an error.
pub enum ErrorView {
    NoColon(Seq<char>),
    BadFrame(Seq<char>),
}

impl View for ScriptError {
    type V = ErrorView;

    open spec fn view(&self) -> ErrorView {
        match self {
            ScriptError::NoColon(s) => ErrorView::NoColon(s@),
            ScriptError::BadFrame(s) => ErrorView::BadFrame(s@),
        }
    }
}

/// What a line says once its comment and the white space around it are left out.
pub open spec fn line_text(line: Seq<char>) -> Seq<char> {
    trimmed(before(line, '#'))
}

/// The step of a line that is not empty.
pub open spec fn step_of(l: Seq<char>) -> Result<StepView, ErrorView> {
    match halves(l, ':') {
        None => Err(ErrorView::NoColon(l)),
        Some((f, a)) => match unsigned(trimmed(f), false, usize::MAX as int) {
            None => Err(ErrorView::BadFrame(f)),
            Some(n) => Ok(StepView { frame: n, action: lower_form(trimmed(a)) }),
        },
    }
}

/// The list with one more step: behind every step that is due no later.
pub open spec fn with_step(v: Seq<StepView>, s: StepView) -> Seq<StepView>
    decreases v.len(),
{
    if v.len() == 0 || s.frame < v.last().frame {
        if v.len() == 0 {
            seq![s]
        } else {
            with_step(v.drop_last(), s).push(v.last())
        }
    } else {
        v.push(s)
    }
}

/// The steps of the first `n` lines in order of their frames; the first line that cannot be read
/// spoils the script.
pub open spec fn steps_of(lines: Seq<Seq<char>>, n: int) -> Result<Seq<StepView>, ErrorView>
    decreases n,
{
    if n <= 0 {
        Ok(Seq::empty())
    } else {
        match steps_of(lines, n - 1) {
            Err(e) => Err(e),
            Ok(v) => {
                let l = line_text(lines[n - 1]);
                if l.len() == 0 {
                    Ok(v)
                } else {
                    match step_of(l) {
                        Err(e) => Err(e),
                        Ok(s) => Ok(with_step(v, s)),
                    }
                }
            },
        }
    }
}

/// The steps of a script.
pub open spec fn script_of(text: Seq<char>) -> Result<Seq<StepView>, ErrorView> {
    steps_of(pieces(text, '\n'), pieces(text, '\n').len() as int)
}

proof fn lemma_with_step_at(v: Seq<StepView>, s: StepView, p: int)
    requires
        0 <= p <= v.len(),
        forall|k: int| p <= k < v.len() ==> s.frame < (#[trigger] v[k]).frame,
        p > 0 ==> v[p - 1].frame <= s.frame,
    ensures
        with_step(v, s) == v.take(p) + seq![s] + v.skip(p),
    decreases v.len(),
{
    if p == v.len() {
        assert(v.skip(p) =~= Seq::empty());
        assert(v.take(p) =~= v);
        assert(v.take(p) + seq![s] + v.skip(p) =~= v.push(s));
        if v.len() == 0 {
            assert(v.push(s) =~= seq![s]);
        }
    } else {
        let rest = v.drop_last();
        assert(s.frame < v[v.len() - 1].frame);
        assert forall|k: int| p <= k < rest.len() implies s.frame < (#[trigger] rest[k]).frame by {
            assert(rest[k] == v[k]);
        }
        lemma_with_step_at(rest, s, p);
        assert(rest.take(p) =~= v.take(p));
        assert((rest.take(p) + seq![s] + rest.skip(p)).push(v.last()) =~= v.take(p) + seq![s]
            + v.skip(p));
    }
}

/// Puts a step into its place.
fn add_step(v: &mut Vec<Step>, s: Step)
    ensures
        step_views(final(v)@) == with_step(step_views(old(v)@), s@),
{
    let mut p: usize = v.len();
    while p > 0 && v[p - 1].frame > s.frame
        invariant
            p <= v@.len(),
            v@ == old(v)@,
            forall|k: int|
                p <= k < v@.len() ==> s.frame < (#[trigger] step_views(old(v)@)[k]).frame,
        decreases p,
    {
        assert(step_views(old(v)@)[p - 1] == v@[p - 1]@);
        p -= 1;
    }
    let ghost was = step_views(old(v)@);
    let ghost one = s@;
    proof {
        if p > 0 {
            assert(was[p - 1] == v@[p - 1]@);
        }
        lemma_with_step_at(was, one, p as int);
    }
    v.insert(p, s);
    assert(step_views(v@) =~= was.take(p as int) + seq![one] + was.skip(p as int));
}

fn read_step(l: &[char]) -> (r: Result<Step, ScriptError>)
    ensures
        match r {
            Ok(s) => step_of(l@) == Ok::<StepView, ErrorView>(s@),
            Err(e) => step_of(l@) == Err::<StepView, ErrorView>(e@),
        },
{
    match split_once(l, ':') {
        None => Err(ScriptError::NoColon(text_of(l))),
        Some((f, a)) => match parse_unsigned(trim(f), false, usize::MAX as u128) {
            None => Err(ScriptError::BadFrame(text_of(f))),
            Some(n) => {
                let action = lowercase(text_of(trim(a)).as_str());
                Ok(Step { frame: n as usize, action })
            },
        },
    }
}

/// Reads a script: its steps in order of their frames, or the first line that cannot be read.
pub fn parse_script(text: &str) -> (r: Result<Vec<Step>, ScriptError>)
    ensures
        match r {
            Ok(v) => script_of(text@) == Ok::<Seq<StepView>, ErrorView>(step_views(v@)),
            Err(e) => script_of(text@) == Err::<Seq<StepView>, ErrorView>(e@),
        },
{
    let t = chars_of(text);
    let lines = split(t.as_slice(), '\n');
    let ghost all = pieces(text@, '\n');
    assert(views(lines@).len() == lines@.len());
    let mut v: Vec<Step> = Vec::new();
    let mut n: usize = 0;
    assert(step_views(v@) =~= Seq::empty());
    while n < lines.len()
        invariant
            n <= lines@.len(),
            views(lines@) == all,
            all == pieces(text@, '\n'),
            all.len() == lines@.len(),
            steps_of(all, n as int) == Ok::<Seq<StepView>, ErrorView>(step_views(v@)),
        decreases lines@.len() - n,
    {
        assert(all[n as int] == lines@[n as int]@);
        let l = trim(front(lines[n].as_slice(), '#'));
        if l.len() > 0 {
            match read_step(l) {
                Ok(s) => add_step(&mut v, s),
                Err(e) => {
                    proof {
                        lemma_error_stays(all, n + 1, all.len() as int);
                    }
                    return Err(e);
                },
            }
        }
        n += 1;
    }
    Ok(v)
}

proof fn lemma_error_stays(lines: Seq<Seq<char>>, n: int, m: int)
    requires
        n <= m,
        steps_of(lines, n) is Err,
    ensures
        steps_of(lines, m) == steps_of(lines, n),
    decreases m - n,
{
    if n < m {
        lemma_error_stays(lines, n, m - 1);
    }
}

/// The steps are in order of their frames.
pub open spec fn in_frame_order(v: Seq<StepView>) -> bool {
    forall|i: int, j: int|
        0 <= i < j < v.len() ==> (#[trigger] v[i]).frame <= (#[trigger] v[j]).frame
}

proof fn lemma_with_step_in_order(v: Seq<StepView>, s: StepView)
    requires
        in_frame_order(v),
    ensures
        in_frame_order(with_step(v, s)),
        with_step(v, s).len() == v.len() + 1,
        with_step(v, s).to_multiset() =~= v.to_multiset().insert(s),
        forall|k: int|
            0 <= k < with_step(v, s).len() ==> (#[trigger] with_step(v, s)[k]).frame <= (
            if v.len() > 0 && v.last().frame > s.frame {
                v.last().frame
            } else {
                s.frame
            }),
    decreases v.len(),
{
    broadcast use vstd::seq_lib::group_to_multiset_ensures;

    if v.len() > 0 && s.frame < v.last().frame {
        let rest = v.drop_last();
        assert forall|i: int, j: int| 0 <= i < j < rest.len() implies (#[trigger] rest[i]).frame
            <= (#[trigger] rest[j]).frame by {
            assert(v[i].frame <= v[j].frame);
        }
        lemma_with_step_in_order(rest, s);
        let w = with_step(rest, s);
        let new = w.push(v.last());
        if rest.len() > 0 {
            assert(v[rest.len() - 1].frame <= v[v.len() - 1].frame);
        }
        assert forall|i: int, j: int| 0 <= i < j < new.len() implies (#[trigger] new[i]).frame <= (
        #[trigger] new[j]).frame by {
            if j < w.len() {
                assert(new[i] == w[i] && new[j] == w[j]);
            } else {
                assert(new[i] == w[i]);
            }
        }
        assert(v =~= rest.push(v.last()));
        assert(new.to_multiset() =~= w.to_multiset().insert(v.last()));
        assert(v.to_multiset() =~= rest.to_multiset().insert(v.last()));
    } else if v.len() == 0 {
        assert(seq![s] =~= v.push(s));
        assert(seq![s].to_multiset() =~= v.to_multiset().insert(s));
    } else {
        let new = v.push(s);
        assert forall|i: int, j: int| 0 <= i < j < new.len() implies (#[trigger] new[i]).frame <= (
        #[trigger] new[j]).frame by {
            if j == v.len() {
                if i < v.len() - 1 {
                    assert(v[i].frame <= v[v.len() - 1].frame);
                }
            } else {
                assert(v[i].frame <= v[j].frame);
            }
        }
        assert forall|k: int| 0 <= k < new.len() implies (#[trigger] new[k]).frame <= s.frame by {
            if k < v.len() - 1 {
                assert(v[k].frame <= v[v.len() - 1].frame);
            }
        }
    }
}

/// However the lines of a script are ordered, its steps come in order of their frames.
pub proof fn law_steps_come_in_order(lines: Seq<Seq<char>>, n: int)
    ensures
        match steps_of(lines, n) {
            Ok(v) => in_frame_order(v),
            Err(_) => true,
        },
    decreases n,
{
    if n > 0 {
        law_steps_come_in_order(lines, n - 1);
        if let Ok(v) = steps_of(lines, n - 1) {
            if let Ok(s) = step_of(line_text(lines[n - 1])) {
                lemma_with_step_in_order(v, s);
            }
        }
    }
}

/// A step that is added is the only change: no step is lost or doubled.
pub proof fn law_no_step_is_lost(v: Seq<StepView>, s: StepView)
    requires
        in_frame_order(v),
    ensures
        with_step(v, s).to_multiset() == v.to_multiset().insert(s),
{
    lemma_with_step_in_order(v, s);
}

/// Whether the step at the cursor is due.
pub fn is_due(v: &Vec<Step>, at: usize, frames: usize) -> (r: bool)
    ensures
        r == (at < v@.len() && v@[at as int].frame <= frames),
{
    at < v.len() && v[at].frame <= frames
}

// ---------------------------------------------------------------- actions

/// What a step does.
#[derive(Clone, Copy)]
pub enum Action {
    /// Press a button.
    Button { bit: u32 },
    /// Turn the wheel by detents.
    Wheel { n: i32 },
    /// Hold a finger to one side of the wheel for some frames.
    Hold { quarter: i32, frames: u32 },
    /// Touch one side of the wheel and let go.
    Tap { quarter: i32 },
    Shot,
    Terminate,
    Quit,
    Unknown,
}

/// The side that a `hold` names; the top when it names none.
pub open spec fn hold_side(w: Seq<char>) -> i32 {
    if w == "right"@ {
        QUARTER_RIGHT
    } else if w == "bottom"@ {
        QUARTER_BOTTOM
    } else if w == "left"@ {
        QUARTER_LEFT
    } else {
        QUARTER_TOP
    }
}

/// The quarter that a `tap` names, clockwise from the top.
pub open spec fn tap_side(w: Seq<char>) -> i32 {
    if w == "top"@ {
        0
    } else if w == "right"@ {
        1
    } else if w == "bottom"@ {
        2
    } else {
        3
    }
}

/// The action that a text names.
pub open spec fn action_of(a: Seq<char>) -> Action {
    if a == "select"@ {
        Action::Button { bit: BTN_SELECT }
    } else if a == "menu"@ {
        Action::Button { bit: BTN_PREV }
    } else if a == "play"@ {
        Action::Button { bit: BTN_PLAY }
    } else if a == "next"@ {
        Action::Button { bit: BTN_NEXT }
    } else if a == "prev"@ {
        Action::Button { bit: BTN_MENU }
    } else {
        match behind(a, "wheel"@) {
            Some(n) => Action::Wheel {
                n: match signed32(trimmed(n)) {
                    Some(n) => n as i32,
                    None => 0,
                },
            },
            None => match behind(a, "hold "@) {
                Some(r) => Action::Hold {
                    quarter: hold_side(word_at(r, 0)),
                    frames: match unsigned(
                        word_at(r, skip_word(r, skip_space(r, 0))),
                        false,
                        0xffff_ffff,
                    ) {
                        Some(n) => n as u32,
                        None => 60,
                    },
                },
                None => match behind(a, "tap"@) {
                    Some(w) => Action::Tap { quarter: tap_side(trimmed(w)) },
                    None => if a == "shot"@ {
                        Action::Shot
                    } else if a == "terminate"@ {
                        Action::Terminate
                    } else if a == "quit"@ {
                        Action::Quit
                    } else {
                        Action::Unknown
                    },
                },
            },
        }
    }
}

fn is_word(w: &[char], t: &str) -> (r: bool)
    ensures
        r == (w@ == t@),
{
    let c = chars_of(t);
    same_chars(w, c.as_slice())
}

fn read_hold(r: &[char]) -> (a: Action)
    ensures
        a == (Action::Hold {
            quarter: hold_side(word_at(r@, 0)),
            frames: match unsigned(
                word_at(r@, skip_word(r@, skip_space(r@, 0))),
                false,
                0xffff_ffff,
            ) {
                Some(n) => n as u32,
                None => 60,
            },
        }),
{
    let (a, b) = next_word(r, 0);
    let (c, d) = next_word(r, b);
    let w = slice_subrange(r, a, b);
    let quarter: i32 = if is_word(w, "right") {
        QUARTER_RIGHT
    } else if is_word(w, "bottom") {
        QUARTER_BOTTOM
    } else if is_word(w, "left") {
        QUARTER_LEFT
    } else {
        QUARTER_TOP
    };
    let frames: u32 = match parse_unsigned(slice_subrange(r, c, d), false, 0xffff_ffff) {
        Some(n) => n as u32,
        None => 60,
    };
    Action::Hold { quarter, frames }
}

/// Reads an action.
pub fn read_action(action: &str) -> (r: Action)
    ensures
        r == action_of(action@),
{
    if same_text(action, "select") {
        return Action::Button { bit: BTN_SELECT };
    }
    if same_text(action, "menu") {
        return Action::Button { bit: BTN_PREV };
    }
    if same_text(action, "play") {
        return Action::Button { bit: BTN_PLAY };
    }
    if same_text(action, "next") {
        return Action::Button { bit: BTN_NEXT };
    }
    if same_text(action, "prev") {
        return Action::Button { bit: BTN_MENU };
    }
    let a = chars_of(action);
    let a = a.as_slice();
    if let Some(n) = strip_front(a, "wheel") {
        let n: i32 = match parse_signed32(trim(n)) {
            Some(n) => n,
            None => 0,
        };
        return Action::Wheel { n };
    }
    if let Some(r) = strip_front(a, "hold ") {
        return read_hold(r);
    }
    if let Some(w) = strip_front(a, "tap") {
        let w = trim(w);
        let quarter: i32 = if is_word(w, "top") {
            0
        } else if is_word(w, "right") {
            1
        } else if is_word(w, "bottom") {
            2
        } else {
            3
        };
        return Action::Tap { quarter };
    }
    if same_text(action, "shot") {
        Action::Shot
    } else if same_text(action, "terminate") {
        Action::Terminate
    } else if same_text(action, "quit") {
        Action::Quit
    } else {
        Action::Unknown
    }
}

/// The size of a turn.
pub open spec fn magnitude(n: i32) -> int {
    if n < 0 {
        -n
    } else {
        n as int
    }
}

/// What an action does to the hands and to the machine. It goes the same way as a key, so a
/// script tests what a player would do.
pub open spec fn acted(p: Pad, h: Hands, a: Action) -> (Hands, Seq<Effect>) {
    match a {
        Action::Button { bit } => pressed(p, h, bit),
        Action::Wheel { n } => (
            Hands { raw: turned(h.raw as int, n as int) as i32, ..h },
            turn_effects(
                h.raw as int,
                magnitude(n),
                if n < 0 {
                    -1
                } else {
                    1
                },
            ),
        ),
        Action::Hold { quarter, frames } => (
            Hands { scripted: Some((side_byte(p.top, quarter as int), frames)), ..h },
            Seq::empty(),
        ),
        Action::Tap { quarter } => {
            let raw = 30 * quarter;
            (
                Hands { raw: raw as i32, tap_release: 4, ..h },
                seq![
                    Effect::Queue { byte: position_byte(raw) },
                    Effect::Queue { byte: position_byte(raw) },
                ],
            )
        },
        _ => (h, Seq::empty()),
    }
}

/// The action names sides of the wheel only.
pub open spec fn sides_fit(a: Action) -> bool {
    match a {
        Action::Hold { quarter, .. } => 0 <= quarter <= 3,
        Action::Tap { quarter } => 0 <= quarter <= 3,
        _ => true,
    }
}

/// Every action that is read from a text names sides of the wheel only.
pub proof fn law_actions_fit(a: Seq<char>)
    ensures
        sides_fit(action_of(a)),
{
}

/// Carries out an action.
pub fn act(p: &Pad, h: &mut Hands, a: Action, out: &mut Vec<Effect>)
    requires
        hands_ok(*old(h)),
        sides_fit(a),
    ensures
        hands_ok(*final(h)),
        *final(h) == acted(*p, *old(h), a).0,
        final(out)@ == old(out)@ + acted(*p, *old(h), a).1,
{
    match a {
        Action::Button { bit } => press(p, h, bit, out),
        Action::Wheel { n } => {
            let back = n < 0;
            let m: u32 = if back {
                (-(n as i64)) as u32
            } else {
                n as u32
            };
            turn(h, m, back, out);
        },
        Action::Hold { quarter, frames } => {
            h.scripted = Some((side(p.top, quarter), frames));
            assert(out@ =~= old(out)@ + Seq::<Effect>::empty());
        },
        Action::Tap { quarter } => {
            h.raw = 30 * quarter;
            h.tap_release = 4;
            out.push(Effect::Queue { byte: wheel_byte(h.raw) });
            out.push(Effect::Queue { byte: wheel_byte(h.raw) });
            assert(out@ =~= old(out)@ + acted(*p, *old(h), a).1);
        },
        _ => {
            assert(out@ =~= old(out)@ + Seq::<Effect>::empty());
        },
    }
}

// ---------------------------------------------------------------- messages

/// A number with its sign.
pub open spec fn signed_text(n: i32) -> Seq<char> {
    (if n < 0 {
        "-"@
    } else {
        "+"@
    }) + dec(magnitude(n) as nat)
}

/// What is said of an action: `text` is the action as it was written, `quoted` the same in
/// quotation marks, and `raw` where the wheel stands afterwards. A shot says nothing here.
pub open spec fn action_text(
    frames: usize,
    text: Seq<char>,
    quoted: Seq<char>,
    raw: int,
) -> Seq<char> {
    let head = "script frame "@ + dec(frames as nat) + ": "@;
    match action_of(text) {
        Action::Button { bit } => head + text + " -> flags bit 0x"@ + hex_wide(bit as nat, 2)
            + "\n"@,
        Action::Wheel { n } => head + "wheel "@ + signed_text(n) + " -> raw "@ + dec(raw as nat)
            + "\n"@,
        Action::Hold { quarter, frames: n } => head + "hold dir="@ + dec(quarter as nat) + " for "@
            + dec(n as nat) + " frames\n"@,
        Action::Tap { .. } => head + "tap "@ + behind(text, "tap"@)->0 + " -> raw "@ + dec(
            raw as nat,
        ) + "\n"@,
        Action::Shot => ""@,
        Action::Terminate => head + "terminate\n"@,
        Action::Quit => head + "quit\n"@,
        Action::Unknown => head + "unknown action "@ + quoted + ", ignored\n"@,
    }
}

fn push_signed(out: &mut String, n: i32)
    ensures
        final(out)@ == old(out)@ + signed_text(n),
{
    let mut t = if n < 0 {
        String::from_str("-")
    } else {
        String::from_str("+")
    };
    let m: i64 = n as i64;
    push_dec(
        &mut t,
        if m < 0 {
            (-m) as u128
        } else {
            m as u128
        },
    );
    out.append(t.as_str());
}

/// What is said of an action, from its parts.
pub fn render_action_parts(frames: usize, text: &str, quoted: &str, raw: i32) -> (out: String)
    requires
        on_wheel(raw as int),
    ensures
        out@ == action_text(frames, text@, quoted@, raw as int),
{
    let mut out = String::from_str("script frame ");
    push_dec(&mut out, frames as u128);
    out.append(": ");
    match read_action(text) {
        Action::Button { bit } => {
            out.append(text);
            out.append(" -> flags bit 0x");
            push_hex_wide(&mut out, bit as u128, 2);
            out.append("\n");
        },
        Action::Wheel { n } => {
            out.append("wheel ");
            push_signed(&mut out, n);
            out.append(" -> raw ");
            push_dec(&mut out, raw as u128);
            out.append("\n");
        },
        Action::Hold { quarter, frames: n } => {
            proof {
                law_actions_fit(text@);
            }
            out.append("hold dir=");
            push_dec(&mut out, quarter as u128);
            out.append(" for ");
            push_dec(&mut out, n as u128);
            out.append(" frames\n");
        },
        Action::Tap { .. } => {
            let a = chars_of(text);
            out.append("tap ");
            match strip_front(a.as_slice(), "tap") {
                Some(w) => out.append(text_of(w).as_str()),
                None => out.append(""),
            }
            out.append(" -> raw ");
            push_dec(&mut out, raw as u128);
            out.append("\n");
        },
        Action::Shot => return String::from_str(""),
        Action::Terminate => out.append("terminate\n"),
        Action::Quit => out.append("quit\n"),
        Action::Unknown => {
            out.append("unknown action ");
            out.append(quoted);
            out.append(", ignored\n");
        },
    }
    out
}

/// What is said of an action.
pub fn render_action(frames: usize, text: &str, raw: i32) -> (out: String)
    requires
        on_wheel(raw as int),
    ensures
        out@ == action_text(frames, text@, debug_form(text@), raw as int),
{
    render_action_parts(frames, text, quoted(text).as_str(), raw)
}

// ---------------------------------------------------------------- what a script says

/// A line is read back as it was written: the frame in decimal, a colon and the action, with white
/// space before, between and behind them and a comment at the end.
#[verifier::rlimit(60)]
pub proof fn law_a_line_is_read_back(
    a: Seq<char>,
    n: nat,
    b: Seq<char>,
    t: Seq<char>,
    c: Seq<char>,
    comment: Seq<char>,
)
    requires
        n <= usize::MAX,
        forall|k: int| 0 <= k < a.len() ==> is_space(#[trigger] a[k]),
        forall|k: int| 0 <= k < b.len() ==> is_space(#[trigger] b[k]),
        forall|k: int| 0 <= k < c.len() ==> is_space(#[trigger] c[k]),
        t.len() > 0,
        !is_space(t[0]),
        !is_space(t.last()),
        !t.contains('#'),
    ensures
        ({
            let l = dec(n) + seq![':'] + (b + t);
            &&& line_text(a + l + c + seq!['#'] + comment) == l
            &&& line_text(a + l + c) == l
            &&& step_of(l) == Ok::<StepView, ErrorView>(
                StepView { frame: n as int, action: lower_form(t) },
            )
        }),
{
    let l = dec(n) + seq![':'] + (b + t);
    let s = a + l + c;
    lemma_dec_is_trimmed(n);
    law_decimal_reads_back(n, 0, usize::MAX as int);
    assert forall|k: int| 0 <= k < s.len() implies s[k] != '#' by {
        if k < a.len() {
            assert(s[k] == a[k]);
            assert(is_space(a[k]));
        } else if k < a.len() + dec(n).len() {
            assert(s[k] == dec(n)[k - a.len()]);
        } else if k == a.len() + dec(n).len() {
            assert(s[k] == ':');
        } else if k < a.len() + dec(n).len() + 1 + b.len() {
            assert(s[k] == b[k - a.len() - dec(n).len() - 1]);
            assert(is_space(b[k - a.len() - dec(n).len() - 1]));
        } else if k < a.len() + l.len() {
            let j = k - a.len() - dec(n).len() - 1 - b.len();
            assert(s[k] == t[j]);
            assert(t.contains(t[j]));
        } else {
            assert(s[k] == c[k - a.len() - l.len()]);
            assert(is_space(c[k - a.len() - l.len()]));
        }
    }
    assert(!s.contains('#'));
    law_a_text_is_cut_at_the_first(s, '#', comment);
    assert(l[0] == dec(n)[0]);
    assert(l.last() == t.last());
    law_trimming_takes_white_space_alone(a, l, c);
    law_a_text_is_cut_at_the_first(dec(n), ':', b + t);
    let none = Seq::<char>::empty();
    law_trimming_takes_white_space_alone(b, t, none);
    assert(b + t + none =~= b + t);
}

/// A line of white space, with or without a comment, says nothing.
pub proof fn law_a_comment_says_nothing(a: Seq<char>, comment: Seq<char>)
    requires
        forall|k: int| 0 <= k < a.len() ==> is_space(#[trigger] a[k]),
    ensures
        line_text(a).len() == 0,
        line_text(a + seq!['#'] + comment).len() == 0,
{
    assert forall|k: int| 0 <= k < a.len() implies a[k] != '#' by {
        assert(is_space(a[k]));
    }
    assert(!a.contains('#'));
    law_a_text_is_cut_at_the_first(a, '#', comment);
    let none = Seq::<char>::empty();
    law_trimming_takes_white_space_alone(a, none, none);
    assert(a + none + none =~= a);
}

/// A new step goes behind all steps that are due no later and before all that are due later; the
/// others keep their order.
#[verifier::rlimit(60)]
pub proof fn law_a_step_goes_behind_its_equals(v: Seq<StepView>, s: StepView) -> (p: int)
    requires
        in_frame_order(v),
    ensures
        0 <= p <= v.len(),
        with_step(v, s) == v.take(p).push(s) + v.skip(p),
        forall|k: int| 0 <= k < p ==> (#[trigger] v[k]).frame <= s.frame,
        forall|k: int| p <= k < v.len() ==> (#[trigger] v[k]).frame > s.frame,
    decreases v.len(),
{
    if v.len() == 0 {
        assert(seq![s] =~= v.take(0).push(s) + v.skip(0));
        0
    } else if s.frame < v.last().frame {
        let u = v.drop_last();
        assert(in_frame_order(u)) by {
            assert forall|i: int, j: int| 0 <= i < j < u.len() implies (#[trigger] u[i]).frame <= (
            #[trigger] u[j]).frame by {
                assert(u[i] == v[i] && u[j] == v[j]);
            }
        }
        let p = law_a_step_goes_behind_its_equals(u, s);
        assert(with_step(v, s) =~= v.take(p).push(s) + v.skip(p)) by {
            assert(u.take(p) =~= v.take(p));
            assert(u.skip(p).push(v.last()) =~= v.skip(p));
        }
        assert forall|k: int| 0 <= k < p implies (#[trigger] v[k]).frame <= s.frame by {
            assert(u[k] == v[k]);
        }
        assert forall|k: int| p <= k < v.len() implies (#[trigger] v[k]).frame > s.frame by {
            if k < u.len() {
                assert(u[k] == v[k]);
            }
        }
        p
    } else {
        let p = v.len() as int;
        assert(v.push(s) =~= v.take(p).push(s) + v.skip(p));
        assert forall|k: int| 0 <= k < p implies (#[trigger] v[k]).frame <= s.frame by {
            if k < p - 1 {
                assert(v[k].frame <= v[p - 1].frame);
            }
        }
        p
    }
}

/// The lines of steps, one for each.
pub open spec fn say(lines: Seq<Seq<char>>, v: Seq<StepView>) -> bool {
    lines.len() == v.len() && forall|k: int|
        0 <= k < lines.len() ==> {
            let l = line_text(#[trigger] lines[k]);
            l.len() > 0 && step_of(l) == Ok::<StepView, ErrorView>(v[k])
        }
}

#[verifier::rlimit(60)]
proof fn lemma_steps_in_order(lines: Seq<Seq<char>>, v: Seq<StepView>, n: int)
    requires
        say(lines, v),
        in_frame_order(v),
        0 <= n <= v.len(),
    ensures
        steps_of(lines, n) == Ok::<Seq<StepView>, ErrorView>(v.take(n)),
    decreases n,
{
    if n > 0 {
        lemma_steps_in_order(lines, v, n - 1);
        let u = v.take(n - 1);
        assert(line_text(lines[n - 1]).len() > 0);
        if n - 1 > 0 {
            assert(u.last() == v[n - 2]);
            assert(v[n - 2].frame <= v[n - 1].frame);
        }
        assert(with_step(u, v[n - 1]) =~= u.push(v[n - 1]));
        assert(v.take(n) =~= u.push(v[n - 1]));
    } else {
        assert(v.take(0) =~= Seq::empty());
    }
}

/// A script whose lines are in order is read back line by line.
pub proof fn law_a_script_is_read_back(lines: Seq<Seq<char>>, v: Seq<StepView>)
    requires
        lines.len() > 0,
        forall|k: int| 0 <= k < lines.len() ==> !(#[trigger] lines[k]).contains('\n'),
        say(lines, v),
        in_frame_order(v),
    ensures
        script_of(rejoined(lines, '\n')) == Ok::<Seq<StepView>, ErrorView>(v),
{
    law_joined_parts_come_apart(lines, '\n');
    lemma_steps_in_order(lines, v, v.len() as int);
    assert(v.take(v.len() as int) =~= v);
}

/// Every line counts once, in whatever order: a line with a step adds just that step, one that says
/// nothing adds none, and one that cannot be read makes its error the script's.
pub proof fn law_every_line_counts(lines: Seq<Seq<char>>, k: int, n: int)
    requires
        0 <= k < n <= lines.len(),
        steps_of(lines, k) is Ok,
    ensures
        ({
            let before = steps_of(lines, k)->Ok_0;
            let l = line_text(lines[k]);
            &&& l.len() == 0 ==> steps_of(lines, k + 1) == steps_of(lines, k)
            &&& l.len() > 0 && step_of(l) is Ok ==> steps_of(lines, k + 1) is Ok && (steps_of(
                lines,
                k + 1,
            )->Ok_0).to_multiset() == before.to_multiset().insert(step_of(l)->Ok_0)
            &&& l.len() > 0 && step_of(l) is Err ==> steps_of(lines, n)
                == Err::<Seq<StepView>, ErrorView>(step_of(l)->Err_0)
        }),
{
    let l = line_text(lines[k]);
    law_steps_come_in_order(lines, k);
    if l.len() > 0 && step_of(l) is Ok {
        law_no_step_is_lost(steps_of(lines, k)->Ok_0, step_of(l)->Ok_0);
    }
    if l.len() > 0 && step_of(l) is Err {
        lemma_error_stays(lines, k + 1, n);
    }
}

/// A line without a colon, and one with no number before it, cannot be read, and the error says
/// which it is and shows the text.
pub proof fn law_why_a_line_cannot_be_read(f: Seq<char>, a: Seq<char>, i: int)
    requires
        !f.contains(':'),
        trimmed(f).len() == 0 || (0 < i < trimmed(f).len() && !('0' <= trimmed(f)[i] <= '9')),
    ensures
        step_of(f) == Err::<StepView, ErrorView>(ErrorView::NoColon(f)),
        step_of(f + seq![':'] + a) == Err::<StepView, ErrorView>(ErrorView::BadFrame(f)),
{
    law_a_text_is_cut_at_the_first(f, ':', a);
    law_other_text_is_no_number(trimmed(f), false, usize::MAX as int, i);
}

// ---------------------------------------------------------------- what an action means

proof fn lemma_no_button(a: Seq<char>)
    requires
        a.len() > 0,
        a[0] != 's',
        a[0] != 'm',
        a[0] != 'p',
        a[0] != 'n',
    ensures
        a != "select"@,
        a != "menu"@,
        a != "play"@,
        a != "next"@,
        a != "prev"@,
{
    reveal_strlit("select");
    reveal_strlit("menu");
    reveal_strlit("play");
    reveal_strlit("next");
    reveal_strlit("prev");
}

/// A turn is read back, either way round and to its last detent.
#[verifier::rlimit(60)]
pub proof fn law_a_turn_is_read_back(n: i32)
    ensures
        n >= 0 ==> action_of("wheel "@ + dec(n as nat)) == (Action::Wheel { n }),
        n >= 0 ==> action_of("wheel +"@ + dec(n as nat)) == (Action::Wheel { n }),
        n < 0 ==> action_of("wheel -"@ + dec((-n) as nat)) == (Action::Wheel { n }),
{
    law_signed_reads_back(n);
    reveal_strlit("wheel");
    reveal_strlit("wheel ");
    reveal_strlit("wheel +");
    reveal_strlit("wheel -");
    if n >= 0 {
        lemma_wheel(seq![' '], dec(n as nat), "wheel "@ + dec(n as nat), n);
        lemma_dec_is_trimmed(n as nat);
        let t = seq!['+'] + dec(n as nat);
        assert(t.last() == dec(n as nat).last());
        lemma_wheel(seq![' '], t, "wheel +"@ + dec(n as nat), n);
    } else {
        lemma_dec_is_trimmed((-n) as nat);
        let t = seq!['-'] + dec((-n) as nat);
        assert(t.last() == dec((-n) as nat).last());
        lemma_wheel(seq![' '], t, "wheel -"@ + dec((-n) as nat), n);
    }
}

#[verifier::rlimit(60)]
proof fn lemma_wheel(b: Seq<char>, t: Seq<char>, a: Seq<char>, n: i32)
    requires
        b == seq![' '],
        t.len() > 0,
        signed32(t) == Some(n as int),
        a =~= "wheel"@ + b + t,
        "wheel"@ =~= seq!['w', 'h', 'e', 'e', 'l'],
    ensures
        action_of(a) == (Action::Wheel { n }),
{
    lemma_signed_is_trimmed(t, n);
    assert(a[0] == 'w');
    lemma_no_button(a);
    assert(a.take(5) =~= "wheel"@);
    assert(a.skip(5) =~= b + t);
    let none = Seq::<char>::empty();
    law_trimming_takes_white_space_alone(b, t, none);
    assert(b + t + none =~= b + t);
}

proof fn lemma_signed_is_trimmed(t: Seq<char>, n: i32)
    requires
        t.len() > 0,
        signed32(t) == Some(n as int),
    ensures
        !is_space(t[0]),
        !is_space(t.last()),
{
    if t[0] == '-' {
        let d = t.skip(1);
        assert(is_number(d, false));
        assert(d[d.len() - 1] == t.last());
    } else {
        let d = unsigned_part(t);
        assert(is_number(d, false));
        assert(d[d.len() - 1] == t.last());
        if t[0] != '+' {
            assert(d[0] == t[0]);
        }
    }
}

#[verifier::rlimit(60)]
proof fn lemma_two_words(w: Seq<char>, d: Seq<char>)
    requires
        w.len() > 0,
        forall|k: int| 0 <= k < w.len() ==> !is_space(#[trigger] w[k]),
        d.len() > 0,
        forall|k: int| 0 <= k < d.len() ==> !is_space(#[trigger] d[k]),
    ensures
        ({
            let r = w + seq![' '] + d;
            word_at(r, 0) == w && word_at(r, skip_word(r, skip_space(r, 0))) == d
        }),
        word_at(w, 0) == w,
        word_at(w, skip_word(w, skip_space(w, 0))).len() == 0,
{
    let r = w + seq![' '] + d;
    assert(r[0] == w[0]);
    assert(skip_space(r, 0) == 0);
    let n = w.len() as int;
    assert forall|k: int| 0 <= k < n implies !is_space(#[trigger] r[k]) by {
        assert(r[k] == w[k]);
    }
    lemma_skip_word_is(r, 0, n);
    assert(r.subrange(0, n) =~= w);
    assert(r[n] == ' ');
    assert(r[n + 1] == d[0]);
    assert(skip_space(r, n) == n + 1) by {
        reveal_with_fuel(skip_space, 3);
    }
    assert forall|k: int| n + 1 <= k < r.len() implies !is_space(#[trigger] r[k]) by {
        assert(r[k] == d[k - n - 1]);
    }
    lemma_skip_word_is(r, n + 1, r.len() as int);
    assert(r.subrange(n + 1, r.len() as int) =~= d);
    assert(skip_space(w, 0) == 0);
    lemma_skip_word_is(w, 0, n);
    assert(w.subrange(0, n) =~= w);
    assert(skip_space(w, n) == n);
    assert(skip_word(w, n) == n);
}

proof fn lemma_skip_word_is(s: Seq<char>, i: int, j: int)
    requires
        0 <= i <= j <= s.len(),
        forall|k: int| i <= k < j ==> !is_space(#[trigger] s[k]),
        j < s.len() ==> is_space(s[j]),
    ensures
        skip_word(s, i) == j,
    decreases j - i,
{
    if i < j {
        lemma_skip_word_is(s, i + 1, j);
    }
}

/// A finger that is held is read back: the side that is named and the frames to their last digit;
/// sixty where no number is given.
#[verifier::rlimit(60)]
pub proof fn law_a_hold_is_read_back(w: Seq<char>, n: u32)
    requires
        w.len() > 0,
        forall|k: int| 0 <= k < w.len() ==> !is_space(#[trigger] w[k]),
    ensures
        action_of("hold "@ + w + seq![' '] + dec(n as nat)) == (Action::Hold {
            quarter: hold_side(w),
            frames: n,
        }),
        action_of("hold "@ + w) == (Action::Hold { quarter: hold_side(w), frames: 60 }),
{
    reveal_strlit("hold ");
    reveal_strlit("wheel");
    law_decimal_reads_back(n as nat, 0, 0xffff_ffff);
    let d = dec(n as nat);
    lemma_two_words(w, d);
    let r = w + seq![' '] + d;
    let a = "hold "@ + w + seq![' '] + d;
    assert(a[0] == 'h');
    lemma_no_button(a);
    assert(a.take(5) =~= "hold "@);
    assert(a.skip(5) =~= r);
    if begins(a, "wheel"@) {
        assert(a.take(5)[0] == a[0]);
    }
    let b = "hold "@ + w;
    assert(b[0] == 'h');
    lemma_no_button(b);
    assert(b.take(5) =~= "hold "@);
    assert(b.skip(5) =~= w);
    if begins(b, "wheel"@) {
        assert(b.take(5)[0] == b[0]);
    }
    law_other_text_is_no_number(word_at(w, skip_word(w, skip_space(w, 0))), false, 0xffff_ffff, 0);
}

/// The sides of the wheel by their names: the four of a hold lie a quarter of a turn apart, the way
/// the position byte runs from the right; those of a tap the way the clock runs from the top.
pub proof fn law_sides_by_name(w: Seq<char>)
    ensures
        hold_side("right"@) == 0,
        hold_side("top"@) == 1,
        hold_side("left"@) == 2,
        hold_side("bottom"@) == 3,
        tap_side("top"@) == 0,
        tap_side("right"@) == 1,
        tap_side("bottom"@) == 2,
        tap_side("left"@) == 3,
        w != "right"@ && w != "bottom"@ && w != "left"@ ==> hold_side(w) == 1,
        w != "top"@ && w != "right"@ && w != "bottom"@ ==> tap_side(w) == 3,
{
    reveal_strlit("right");
    reveal_strlit("top");
    reveal_strlit("left");
    reveal_strlit("bottom");
    assert("right"@[0] == 'r' && "top"@[0] == 't' && "left"@[0] == 'l' && "bottom"@[0] == 'b');
}

/// A turn moves the wheel by its detents and nothing else of the hands, and queues a sample for each
/// of them.
pub proof fn law_a_scripted_turn_moves_the_wheel(p: Pad, h: Hands, n: i32, k: int)
    requires
        hands_ok(h),
        0 <= k < (if n < 0 {
            -n
        } else {
            n as int
        }),
    ensures
        ({
            let (after, e) = acted(p, h, Action::Wheel { n });
            &&& after == (Hands { raw: ((h.raw + n) % 120) as i32, ..h })
            &&& e.len() == (if n < 0 {
                -n
            } else {
                n as int
            })
            &&& e[k] == (Effect::Queue {
                byte: position_byte(
                    (h.raw + (if n < 0 {
                        -(k + 1)
                    } else {
                        k + 1
                    })) % 120,
                ),
            })
        }),
{
    let sign: int = if n < 0 {
        -1
    } else {
        1
    };
    law_a_turn_reports_every_detent(h.raw as int, magnitude(n), sign, k);
    assert(sign * (k + 1) == (if n < 0 {
        -(k + 1)
    } else {
        k + 1
    })) by (nonlinear_arith)
        requires
            sign == 1 || sign == -1,
            sign == 1 <==> n >= 0,
    ;
}

/// A tap puts the wheel on its side, reports that position twice and nothing for four frames.
pub proof fn law_a_scripted_tap_lands_on_its_side(p: Pad, h: Hands, quarter: i32, q: Seq<u8>)
    requires
        0 <= quarter <= 3,
    ensures
        ({
            let (after, e) = acted(p, h, Action::Tap { quarter });
            let b = position_byte(30 * quarter);
            &&& after == (Hands { raw: (30 * quarter) as i32, tap_release: 4, ..h })
            &&& samples_in_the_end(q, e) == q.push(b).push(b)
        }),
{
    let (after, e) = acted(p, h, Action::Tap { quarter });
    let b = position_byte(30 * quarter);
    assert(e.drop_last() =~= seq![Effect::Queue { byte: b }]);
    assert(e.drop_last().drop_last() =~= Seq::empty());
    reveal_with_fuel(samples_in_the_end, 3);
}

/// A hold lays a finger on its side for its frames, and does nothing yet.
pub proof fn law_a_scripted_hold_waits(p: Pad, h: Hands, quarter: i32, frames: u32)
    requires
        0 <= quarter <= 3,
    ensures
        acted(p, h, Action::Hold { quarter, frames }) == (
            Hands {
                scripted: Some((((p.top + 64 * quarter) % 256) as u8, frames)),
                ..h
            },
            Seq::<Effect>::empty(),
        ),
{
}

/// A button of a script goes down as one of the hand does; what a script asks of the run, and what
/// is not understood, leaves the hands as they are.
pub proof fn law_the_hands_do_the_rest(p: Pad, h: Hands, bit: u32)
    ensures
        acted(p, h, Action::Button { bit }) == pressed(p, h, bit),
        acted(p, h, Action::Shot) == (h, Seq::<Effect>::empty()),
        acted(p, h, Action::Terminate) == (h, Seq::<Effect>::empty()),
        acted(p, h, Action::Quit) == (h, Seq::<Effect>::empty()),
        acted(p, h, Action::Unknown) == (h, Seq::<Effect>::empty()),
{
}

/// What is told of an action begins with its frame, and shows the bit of a button, the turn and the
/// position of the wheel, or the side and the frames of a hold; a picture alone is not told.
#[verifier::rlimit(60)]
pub proof fn law_actions_are_told(frames: usize, text: Seq<char>, quoted: Seq<char>, raw: int)
    requires
        raw >= 0,
    ensures
        ({
            let s = action_text(frames, text, quoted, raw);
            let head = "script frame "@ + dec(frames as nat) + ": "@;
            &&& action_of(text) is Shot <==> s.len() == 0
            &&& s.len() > 0 ==> begins(s, head)
            &&& match action_of(text) {
                Action::Button { bit } => ends(
                    s,
                    " -> flags bit 0x"@ + hex_wide(bit as nat, 2) + "\n"@,
                ),
                Action::Wheel { n } => s == head + "wheel "@ + (if n < 0 {
                    seq!['-'] + dec((-n) as nat)
                } else {
                    seq!['+'] + dec(n as nat)
                }) + " -> raw "@ + dec(raw as nat) + "\n"@,
                Action::Hold { quarter, frames: n } => ends(s, " for "@ + dec(n as nat) + " frames\n"@),
                Action::Tap { .. } => ends(s, " -> raw "@ + dec(raw as nat) + "\n"@),
                Action::Unknown => contains(s, quoted),
                _ => true,
            }
        }),
{
    reveal_strlit("");
    reveal_strlit("script frame ");
    reveal_strlit("-");
    reveal_strlit("+");
    let s = action_text(frames, text, quoted, raw);
    let head = "script frame "@ + dec(frames as nat) + ": "@;
    let none = Seq::<char>::empty();
    assert(head.len() > 0);
    match action_of(text) {
        Action::Button { bit } => {
            let t = " -> flags bit 0x"@ + hex_wide(bit as nat, 2) + "\n"@;
            assert(s =~= head + (text + t));
            law_parts_are_found(none, head, text + t, s);
            assert(s =~= (head + text) + t);
            law_parts_are_found(head + text, t, none, s);
        },
        Action::Wheel { n } => {
            let rest = "wheel "@ + signed_text(n) + " -> raw "@ + dec(raw as nat) + "\n"@;
            assert("-"@ =~= seq!['-']);
            assert("+"@ =~= seq!['+']);
            assert(s =~= head + rest);
            law_parts_are_found(none, head, rest, s);
        },
        Action::Hold { quarter, frames: n } => {
            let a = "hold dir="@ + dec(quarter as nat);
            reveal_strlit(" frames\n");
            let t = " for "@ + dec(n as nat) + " frames\n"@;
            assert(s =~= head + (a + t));
            law_parts_are_found(none, head, a + t, s);
            assert(s =~= (head + a) + t);
            law_parts_are_found(head + a, t, none, s);
        },
        Action::Tap { .. } => {
            let a = "tap "@ + behind(text, "tap"@)->0;
            let t = " -> raw "@ + dec(raw as nat) + "\n"@;
            assert(s =~= head + (a + t));
            law_parts_are_found(none, head, a + t, s);
            assert(s =~= (head + a) + t);
            law_parts_are_found(head + a, t, none, s);
        },
        Action::Shot => {},
        Action::Terminate => {
            law_parts_are_found(none, head, "terminate\n"@, s);
        },
        Action::Quit => {
            law_parts_are_found(none, head, "quit\n"@, s);
        },
        Action::Unknown => {
            let rest = "unknown action "@ + quoted + ", ignored\n"@;
            assert(s =~= head + rest);
            law_parts_are_found(none, head, rest, s);
            assert(s =~= (head + "unknown action "@) + quoted + ", ignored\n"@);
            law_parts_are_found(head + "unknown action "@, quoted, ", ignored\n"@, s);
        },
    }
}

/// The buttons by the words of a script: each word has a bit of its own, Menu the highest.
pub proof fn law_buttons_by_word()
    ensures
        action_of("select"@) == (Action::Button { bit: 0x01 }),
        action_of("prev"@) == (Action::Button { bit: 0x02 }),
        action_of("play"@) == (Action::Button { bit: 0x04 }),
        action_of("next"@) == (Action::Button { bit: 0x08 }),
        action_of("menu"@) == (Action::Button { bit: 0x10 }),
{
    reveal_strlit("select");
    reveal_strlit("menu");
    reveal_strlit("play");
    reveal_strlit("next");
    reveal_strlit("prev");
    assert("select"@.len() == 6 && "menu"@.len() == 4 && "play"@.len() == 4 && "next"@.len() == 4
        && "prev"@.len() == 4);
    assert("menu"@[0] == 'm' && "play"@[1] == 'l' && "next"@[0] == 'n' && "prev"@[1] == 'r'
        && "play"@[0] == 'p' && "prev"@[0] == 'p');
}

/// A tap is read by the side behind it, whatever white space stands between.
pub proof fn law_a_tap_is_read_back(b: Seq<char>, w: Seq<char>, c: Seq<char>)
    requires
        forall|k: int| 0 <= k < b.len() ==> is_space(#[trigger] b[k]),
        forall|k: int| 0 <= k < c.len() ==> is_space(#[trigger] c[k]),
        w.len() > 0 ==> !is_space(w[0]) && !is_space(w.last()),
    ensures
        action_of("tap"@ + (b + w + c)) == (Action::Tap { quarter: tap_side(w) }),
{
    reveal_strlit("tap");
    reveal_strlit("wheel");
    reveal_strlit("hold ");
    let a = "tap"@ + (b + w + c);
    assert(a[0] == 't');
    lemma_no_button(a);
    if begins(a, "wheel"@) {
        assert(a.take(5)[0] == a[0]);
    }
    if begins(a, "hold "@) {
        assert(a.take(5)[0] == a[0]);
    }
    assert(a.take(3) =~= "tap"@);
    assert(a.skip(3) =~= b + w + c);
    law_trimming_takes_white_space_alone(b, w, c);
}

/// The three words of a script that are for the run itself.
pub proof fn law_words_for_the_run()
    ensures
        action_of("shot"@) == Action::Shot,
        action_of("terminate"@) == Action::Terminate,
        action_of("quit"@) == Action::Quit,
{
    reveal_strlit("select");
    reveal_strlit("menu");
    reveal_strlit("play");
    reveal_strlit("next");
    reveal_strlit("prev");
    reveal_strlit("wheel");
    reveal_strlit("hold ");
    reveal_strlit("tap");
    reveal_strlit("shot");
    reveal_strlit("terminate");
    reveal_strlit("quit");
    let s = "shot"@;
    let t = "terminate"@;
    let q = "quit"@;
    assert(s[0] == 's' && s.len() == 4 && t[0] == 't' && t[1] == 'e' && t.len() == 9 && q[0] == 'q'
        && q.len() == 4);
    assert("select"@.len() == 6);
    assert("menu"@[0] == 'm' && "play"@[0] == 'p' && "next"@[0] == 'n' && "prev"@[0] == 'p');
    lemma_not_begun(s, "wheel"@);
    lemma_not_begun(s, "hold "@);
    lemma_not_begun(s, "tap"@);
    lemma_not_begun(t, "wheel"@);
    lemma_not_begun(t, "hold "@);
    lemma_not_begun(t, "tap"@);
    lemma_not_begun(q, "wheel"@);
    lemma_not_begun(q, "hold "@);
    lemma_not_begun(q, "tap"@);
}

proof fn lemma_not_begun(s: Seq<char>, p: Seq<char>)
    ensures
        begins(s, p) && p.len() >= 2 ==> s.len() >= 2 && s[0] == p[0] && s[1] == p[1],
{
    if begins(s, p) && p.len() >= 2 {
        let t = s.take(p.len() as int);
        assert(t[0] == s[0] && t[1] == s[1]);
    }
}

/// What is none of the words, and begins neither as a turn nor as a hold nor as a tap, is not
/// understood.
pub proof fn law_other_words_are_not_understood(a: Seq<char>)
    requires
        a != "select"@,
        a != "menu"@,
        a != "play"@,
        a != "next"@,
        a != "prev"@,
        a != "shot"@,
        a != "terminate"@,
        a != "quit"@,
        !begins(a, "wheel"@),
        !begins(a, "hold "@),
        !begins(a, "tap"@),
    ensures
        action_of(a) == Action::Unknown,
{
}

} // verus!
