//! The click wheel and its five buttons, and what pressing them writes into the machine.
//!
//! What is to be done to the machine is a list of effects, in order. A press reaches a title in
//! one of two ways: as a bit of its flags word, or as a node on the list of events that the frame
//! pump publishes.

use vstd::prelude::*;

#[allow(unused_imports)]
use crate::arm::wrap;

verus! {

// ---------------------------------------------------------------- wheel

/// The positions of the wheel.
pub const WHEEL_DETENTS: i32 = 120;

/// The sides of the wheel in quarters of a turn. The position byte begins at three o'clock and
/// runs counter-clockwise.
pub const QUARTER_RIGHT: i32 = 0;

pub const QUARTER_TOP: i32 = 1;

pub const QUARTER_LEFT: i32 = 2;

pub const QUARTER_BOTTOM: i32 = 3;

/// The raw position is one of the wheel's.
pub open spec fn on_wheel(raw: int) -> bool {
    0 <= raw < 120
}

/// The byte that the hardware reports for a raw position: inverted and scaled by 8/3.
pub open spec fn position_byte(raw: int) -> u8 {
    ((119 - raw) * 8 / 3 % 256) as u8
}

/// The raw position after a turn by `n` detents.
pub open spec fn turned(raw: int, n: int) -> int {
    (raw + n) % 120
}

/// The byte of a finger on one side of the wheel: a quarter of a turn is 64.
pub open spec fn side_byte(top: i32, quarter: int) -> u8 {
    ((top + 64 * quarter) % 256) as u8
}

/// The byte that the hardware reports for a raw position.
pub fn wheel_byte(raw: i32) -> (b: u8)
    requires
        on_wheel(raw as int),
    ensures
        b == position_byte(raw as int),
{
    ((119 - raw) as u32 * 8 / 3 % 256) as u8
}

/// One detent onward or back.
pub fn step_wheel(raw: i32, back: bool) -> (r: i32)
    requires
        on_wheel(raw as int),
    ensures
        on_wheel(r as int),
        r == turned(raw as int, if back {
            -1
        } else {
            1
        }),
{
    if back {
        if raw == 0 {
            119
        } else {
            raw - 1
        }
    } else if raw == 119 {
        0
    } else {
        raw + 1
    }
}

/// The byte of a finger on one side of the wheel.
pub fn side(top: i32, quarter: i32) -> (b: u8)
    requires
        0 <= quarter <= 3,
    ensures
        b == side_byte(top, quarter as int),
{
    let n: i64 = top as i64 + 64 * (quarter as i64) + 0x1_0000_0000;
    (n % 256) as u8
}

/// The position byte repeats after 96 detents: that many of the 256 bytes ever occur.
pub proof fn law_position_repeats(raw: int)
    requires
        0 <= raw < 24,
    ensures
        position_byte(raw) == position_byte(raw + 96),
{
}

/// Within 96 detents no two positions share a byte.
pub proof fn law_positions_differ(a: int, b: int)
    requires
        on_wheel(a),
        on_wheel(b),
        0 < b - a < 96,
    ensures
        position_byte(a) != position_byte(b),
{
    let x = (119 - a) * 8 / 3;
    let y = (119 - b) * 8 / 3;
    assert(y < x < y + 256);
}

/// A turn and the same turn back leave the wheel where it was, and a whole turn too.
pub proof fn law_turn_is_undone(raw: int, n: int)
    requires
        on_wheel(raw),
    ensures
        turned(turned(raw, n), -n) == raw,
        turned(raw, 120) == raw,
{
    let t = (raw + n) % 120;
    assert((t - n) % 120 == raw) by {
        let q = (raw + n) / 120;
        assert(raw + n == 120 * q + t);
        assert(t - n == raw - 120 * q);
    }
}

/// A turn is the sum of its detents.
pub proof fn law_turns_add_up(raw: int, a: int, b: int)
    requires
        on_wheel(raw),
    ensures
        turned(turned(raw, a), b) == turned(raw, a + b),
{
    let t = (raw + a) % 120;
    let q = (raw + a) / 120;
    assert(raw + a == 120 * q + t);
    assert(t + b == raw + (a + b) - 120 * q);
}

/// The four sides lie a quarter of a turn apart, wherever the top was moved to.
pub proof fn law_sides_are_quarters(top: i32, q: int)
    requires
        0 <= q <= 3,
    ensures
        (side_byte(top, q) - top) % 256 == 64 * q,
{
}

// ---------------------------------------------------------------- buttons

/// The bits of the buttons in the flags word, under the names that were first guessed for them.
pub const BTN_SELECT: u32 = 0x01;

pub const BTN_MENU: u32 = 0x02;

pub const BTN_PLAY: u32 = 0x04;

pub const BTN_NEXT: u32 = 0x08;

/// Measured to be the one that opens the pause menu.
pub const BTN_PREV: u32 = 0x10;

/// The type of the event node that stands for a button bit.
pub open spec fn node_type(bit: u32) -> u8 {
    if bit == BTN_SELECT {
        2
    } else if bit == BTN_MENU {
        3
    } else if bit == BTN_PLAY {
        4
    } else if bit == BTN_NEXT {
        5
    } else {
        1
    }
}

/// The type of the event node that stands for a button bit.
pub fn event_type_for(bit: u32) -> (r: u8)
    ensures
        r == node_type(bit),
{
    if bit == BTN_SELECT {
        2
    } else if bit == BTN_MENU {
        3
    } else if bit == BTN_PLAY {
        4
    } else if bit == BTN_NEXT {
        5
    } else {
        1
    }
}

/// The five buttons have five different types.
pub proof fn law_buttons_have_types_of_their_own(a: u32, b: u32)
    requires
        a == BTN_SELECT || a == BTN_MENU || a == BTN_PLAY || a == BTN_NEXT || a == BTN_PREV,
        b == BTN_SELECT || b == BTN_MENU || b == BTN_PLAY || b == BTN_NEXT || b == BTN_PREV,
        a != b,
    ensures
        node_type(a) != node_type(b),
{
}

// ---------------------------------------------------------------- effects

/// One thing to be done to the machine.
#[derive(Clone, Copy)]
pub enum Effect {
    /// Set bits of a word.
    SetBits { addr: u32, bits: u32 },
    /// Clear bits of a word.
    ClearBits { addr: u32, bits: u32 },
    /// Copy a word.
    CopyWord { from: u32, to: u32 },
    Poke8 { addr: u32, byte: u8 },
    Poke32 { addr: u32, word: u32 },
    /// Queue a wheel sample.
    Queue { byte: u8 },
    /// Drop the wheel samples that are queued.
    ClearQueue,
}

/// A word of the machine after one effect; only words that are written as a whole are followed.
pub open spec fn word_after(e: Effect, addr: u32, w: u32) -> u32 {
    match e {
        Effect::SetBits { addr: a, bits } => if a == addr {
            w | bits
        } else {
            w
        },
        Effect::ClearBits { addr: a, bits } => if a == addr {
            w & !bits
        } else {
            w
        },
        Effect::Poke32 { addr: a, word } => if a == addr {
            word
        } else {
            w
        },
        _ => w,
    }
}

/// Where the press times are recorded and where the title's clock is read.
#[derive(Clone, Copy)]
pub struct HoldTimers {
    /// The press time of Menu; that of Next is the word behind it. Nothing for a title whose words
    /// are not known.
    pub at: Option<u32>,
    /// The word that holds the clock of the last frame.
    pub clock_at: u32,
}

/// A press of Menu or Next is recorded with the title's own clock, as an event would have left it;
/// no other button is.
pub open spec fn stamp_effects(t: HoldTimers, bit: u32) -> Seq<Effect> {
    match t.at {
        None => Seq::empty(),
        Some(at) => if bit == BTN_PREV {
            seq![Effect::CopyWord { from: t.clock_at, to: at }]
        } else if bit == BTN_NEXT {
            seq![Effect::CopyWord { from: t.clock_at, to: wrap(at + 4) }]
        } else {
            Seq::empty()
        },
    }
}

/// A press sets its bit, is recorded, and comes with a wheel sample so that the frame dispatches.
/// With no known flags word there is the wheel sample alone: nothing is written on a guess.
pub open spec fn press_effects(
    flags: Option<u32>,
    bit: u32,
    wheel: u8,
    t: HoldTimers,
) -> Seq<Effect> {
    (match flags {
        Some(addr) => seq![Effect::SetBits { addr, bits: bit }] + stamp_effects(t, bit),
        None => Seq::empty(),
    }) + seq![Effect::Queue { byte: wheel }]
}

/// An event is a node of twelve bytes (type, state, payload and no next), published as the head of
/// the list, and comes with a wheel sample so that the list is looked at.
pub open spec fn post_effects(
    ctx: u32,
    node: u32,
    ty: u8,
    state: u8,
    payload: u32,
    wheel: u8,
) -> Seq<Effect> {
    seq![
        Effect::Poke8 { addr: node, byte: ty },
        Effect::Poke8 { addr: wrap(node + 1), byte: state },
        Effect::Poke32 { addr: wrap(node + 4), word: payload },
        Effect::Poke32 { addr: wrap(node + 8), word: 0 },
        Effect::Poke32 { addr: wrap(ctx + 0x30), word: node },
        Effect::Queue { byte: wheel },
    ]
}

fn offset(a: u32, n: u32) -> (r: u32)
    ensures
        r == wrap(a + n),
{
    ((a as u64 + n as u64) % 0x1_0000_0000) as u32
}

impl HoldTimers {
    /// Records that the button goes down now.
    pub fn stamp(self, bit: u32, out: &mut Vec<Effect>)
        ensures
            final(out)@ == old(out)@ + stamp_effects(self, bit),
    {
        if let Some(at) = self.at {
            if bit == BTN_PREV {
                out.push(Effect::CopyWord { from: self.clock_at, to: at });
            } else if bit == BTN_NEXT {
                out.push(Effect::CopyWord { from: self.clock_at, to: offset(at, 4) });
            }
        }
        assert(out@ =~= old(out)@ + stamp_effects(self, bit));
    }
}

/// Presses a button through the flags word.
pub fn press_button(
    flags: Option<u32>,
    bit: u32,
    wheel: u8,
    hold: HoldTimers,
    out: &mut Vec<Effect>,
)
    ensures
        final(out)@ == old(out)@ + press_effects(flags, bit, wheel, hold),
{
    if let Some(addr) = flags {
        out.push(Effect::SetBits { addr, bits: bit });
        hold.stamp(bit, out);
    }
    out.push(Effect::Queue { byte: wheel });
    assert(out@ =~= old(out)@ + press_effects(flags, bit, wheel, hold));
}

/// Posts an event.
pub fn post_event(
    ctx: u32,
    node: u32,
    ty: u8,
    state: u8,
    payload: u32,
    wheel: u8,
    out: &mut Vec<Effect>,
)
    ensures
        final(out)@ == old(out)@ + post_effects(ctx, node, ty, state, payload, wheel),
{
    out.push(Effect::Poke8 { addr: node, byte: ty });
    out.push(Effect::Poke8 { addr: offset(node, 1), byte: state });
    out.push(Effect::Poke32 { addr: offset(node, 4), word: payload });
    out.push(Effect::Poke32 { addr: offset(node, 8), word: 0 });
    out.push(Effect::Poke32 { addr: offset(ctx, 0x30), word: node });
    out.push(Effect::Queue { byte: wheel });
    assert(out@ =~= old(out)@ + post_effects(ctx, node, ty, state, payload, wheel));
}

// ---------------------------------------------------------------- the hands on the device

/// What does not change during a run: how buttons reach the title, and how the wheel is read.
#[derive(Clone, Copy)]
pub struct Pad {
    /// The word of the button bits, where it is known.
    pub flags: Option<u32>,
    /// Buttons are delivered as events.
    pub events: bool,
    /// The context of the frame pump.
    pub ctx: u32,
    /// Where event nodes are built.
    pub node: u32,
    pub timers: HoldTimers,
    /// The byte at which the ring of sides begins.
    pub top: i32,
    /// The arrow keys turn the wheel instead of touching a side of it.
    pub rotate: bool,
}

/// What the hands are doing.
#[derive(Clone, Copy)]
pub struct Hands {
    pub raw: i32,
    /// The bits of the buttons that went down in the last frame.
    pub held: u32,
    /// Frames until the published event is withdrawn.
    pub event_hold: u32,
    /// Frames for which no contact is reported, so that a tap ends.
    pub tap_release: u32,
    /// A finger rests on one side of the wheel.
    pub finger: bool,
    /// A scripted finger: its byte and the frames that are left.
    pub scripted: Option<(u8, u32)>,
}

/// The wheel stands at one of its positions.
pub open spec fn hands_ok(h: Hands) -> bool {
    on_wheel(h.raw as int)
}

/// Hands that touch nothing.
pub fn idle_hands() -> (h: Hands)
    ensures
        hands_ok(h),
        h == (Hands {
            raw: 0,
            held: 0,
            event_hold: 0,
            tap_release: 0,
            finger: false,
            scripted: None,
        }),
{
    Hands { raw: 0, held: 0, event_hold: 0, tap_release: 0, finger: false, scripted: None }
}

/// Whether a title's buttons go through events: on request, and always where no flags word is
/// known.
pub fn use_events(asked: bool, flags: Option<u32>) -> (r: bool)
    ensures
        r == (asked || flags is None),
{
    match flags {
        Some(_) => asked,
        None => true,
    }
}

/// The buttons of the last frame come up: their bits are cleared, the release is posted and is to
/// be withdrawn two frames on.
pub open spec fn retired(p: Pad, h: Hands) -> (Hands, Seq<Effect>) {
    if h.held == 0 {
        (h, Seq::empty())
    } else {
        (
            Hands {
                held: 0,
                event_hold: if p.events {
                    2
                } else {
                    h.event_hold
                },
                ..h
            },
            (match p.flags {
                Some(addr) => seq![Effect::ClearBits { addr, bits: h.held }],
                None => Seq::empty(),
            }) + (if p.events {
                post_effects(p.ctx, p.node, node_type(h.held), 2, 0, position_byte(h.raw as int))
            } else {
                Seq::empty()
            }),
        )
    }
}

/// A button goes down: as an event, and as a bit where the flags word is known or events are not
/// used. It is held until the next frame.
pub open spec fn pressed(p: Pad, h: Hands, bit: u32) -> (Hands, Seq<Effect>) {
    (
        Hands {
            held: h.held | bit,
            event_hold: if p.events {
                2
            } else {
                h.event_hold
            },
            ..h
        },
        (if p.events {
            post_effects(p.ctx, p.node, node_type(bit), 1, 0, position_byte(h.raw as int))
        } else {
            Seq::empty()
        }) + (if p.flags is Some || !p.events {
            press_effects(p.flags, bit, position_byte(h.raw as int), p.timers)
        } else {
            Seq::empty()
        }),
    )
}

/// A frame without Select: the published event ages, and its list is emptied when its time is up.
pub open spec fn aged(p: Pad, h: Hands) -> (Hands, Seq<Effect>) {
    if h.event_hold == 0 {
        (h, Seq::empty())
    } else {
        (
            Hands { event_hold: (h.event_hold - 1) as u32, ..h },
            if h.event_hold == 1 {
                seq![Effect::Poke32 { addr: wrap(p.ctx + 0x30), word: 0 }]
            } else {
                Seq::empty()
            },
        )
    }
}

/// The quit event is posted.
pub open spec fn quitting(p: Pad, h: Hands) -> (Hands, Seq<Effect>) {
    (
        Hands { event_hold: 2, ..h },
        post_effects(p.ctx, p.node, 1, 1, 0, position_byte(h.raw as int)),
    )
}

/// Lets the buttons of the last frame come up.
pub fn retire(p: &Pad, h: &mut Hands, out: &mut Vec<Effect>)
    requires
        hands_ok(*old(h)),
    ensures
        hands_ok(*final(h)),
        *final(h) == retired(*p, *old(h)).0,
        final(out)@ == old(out)@ + retired(*p, *old(h)).1,
{
    if h.held == 0 {
        assert(out@ =~= old(out)@ + Seq::<Effect>::empty());
        return;
    }
    if let Some(addr) = p.flags {
        out.push(Effect::ClearBits { addr, bits: h.held });
    }
    if p.events {
        post_event(p.ctx, p.node, event_type_for(h.held), 2, 0, wheel_byte(h.raw), out);
        h.event_hold = 2;
    }
    h.held = 0;
    assert(out@ =~= old(out)@ + retired(*p, *old(h)).1);
}

/// Presses a button.
pub fn press(p: &Pad, h: &mut Hands, bit: u32, out: &mut Vec<Effect>)
    requires
        hands_ok(*old(h)),
    ensures
        hands_ok(*final(h)),
        *final(h) == pressed(*p, *old(h), bit).0,
        final(out)@ == old(out)@ + pressed(*p, *old(h), bit).1,
{
    if p.events {
        post_event(p.ctx, p.node, event_type_for(bit), 1, 0, wheel_byte(h.raw), out);
        h.event_hold = 2;
    }
    let by_flags = match p.flags {
        Some(_) => true,
        None => !p.events,
    };
    if by_flags {
        press_button(p.flags, bit, wheel_byte(h.raw), p.timers, out);
    }
    h.held = h.held | bit;
    assert(out@ =~= old(out)@ + pressed(*p, *old(h), bit).1);
}

/// Select goes down, or the published event ages.
pub fn select_or_age(p: &Pad, h: &mut Hands, select: bool, out: &mut Vec<Effect>)
    requires
        hands_ok(*old(h)),
    ensures
        hands_ok(*final(h)),
        ({
            let r = if select {
                pressed(*p, *old(h), BTN_SELECT)
            } else {
                aged(*p, *old(h))
            };
            *final(h) == r.0 && final(out)@ == old(out)@ + r.1
        }),
{
    if select {
        press(p, h, BTN_SELECT, out);
        return;
    }
    if h.event_hold > 0 {
        h.event_hold = h.event_hold - 1;
        if h.event_hold == 0 {
            out.push(Effect::Poke32 { addr: offset(p.ctx, 0x30), word: 0 });
        }
    }
    assert(out@ =~= old(out)@ + aged(*p, *old(h)).1);
}

/// Posts the quit event.
pub fn post_quit(p: &Pad, h: &mut Hands, out: &mut Vec<Effect>)
    requires
        hands_ok(*old(h)),
    ensures
        hands_ok(*final(h)),
        *final(h) == quitting(*p, *old(h)).0,
        final(out)@ == old(out)@ + quitting(*p, *old(h)).1,
{
    post_event(p.ctx, p.node, 1, 1, 0, wheel_byte(h.raw), out);
    h.event_hold = 2;
}

// ---------------------------------------------------------------- contact

/// The wheel samples of a turn by `n` detents, one for each detent: a title reads a position and
/// needs to see it change.
pub open spec fn turn_effects(raw: int, n: int, sign: int) -> Seq<Effect>
    decreases n,
{
    if n <= 0 {
        Seq::empty()
    } else {
        turn_effects(raw, n - 1, sign).push(
            Effect::Queue { byte: position_byte(turned(raw, sign * n)) },
        )
    }
}

/// Turns the wheel by `n` detents and queues a sample for each.
pub fn turn(h: &mut Hands, n: u32, back: bool, out: &mut Vec<Effect>)
    requires
        hands_ok(*old(h)),
    ensures
        hands_ok(*final(h)),
        *final(h) == (Hands {
            raw: turned(old(h).raw as int, if back {
                -n
            } else {
                n as int
            }) as i32,
            ..*old(h)
        }),
        final(out)@ == old(out)@ + turn_effects(
            old(h).raw as int,
            n as int,
            if back {
                -1
            } else {
                1
            },
        ),
{
    let ghost start = h.raw as int;
    let ghost sign = if back {
        -1int
    } else {
        1
    };
    let mut i: u32 = 0;
    assert(out@ =~= old(out)@ + turn_effects(start, 0, sign));
    while i < n
        invariant
            i <= n,
            on_wheel(start),
            sign == (if back {
                -1int
            } else {
                1
            }),
            hands_ok(*h),
            *h == (Hands { raw: h.raw, ..*old(h) }),
            h.raw == turned(start, sign * i),
            out@ == old(out)@ + turn_effects(start, i as int, sign),
        decreases n - i,
    {
        proof {
            law_turns_add_up(start, sign * i, sign);
            assert(sign * i + sign == sign * (i + 1)) by (nonlinear_arith);
        }
        h.raw = step_wheel(h.raw, back);
        out.push(Effect::Queue { byte: wheel_byte(h.raw) });
        i += 1;
        assert(out@ =~= old(out)@ + turn_effects(start, i as int, sign));
    }
    proof {
        assert(sign * n == (if back {
            -n
        } else {
            n as int
        })) by (nonlinear_arith)
            requires
                sign == (if back {
                    -1int
                } else {
                    1
                }),
        ;
    }
}

/// The contact of one frame. A scripted finger goes before a held arrow key; either replaces what
/// is queued by one sample. When both are gone the finger comes off and the queue runs dry.
pub open spec fn contact(p: Pad, h: Hands, quarter: Option<i32>) -> (Hands, Seq<Effect>) {
    match h.scripted {
        Some((b, left)) => (
            Hands {
                finger: true,
                scripted: if left > 1 {
                    Some((b, (left - 1) as u32))
                } else {
                    None
                },
                ..h
            },
            seq![Effect::ClearQueue, Effect::Queue { byte: b }],
        ),
        None => match quarter {
            Some(q) => (
                Hands { finger: true, ..h },
                seq![Effect::ClearQueue, Effect::Queue { byte: side_byte(p.top, q as int) }],
            ),
            None => if h.finger {
                (Hands { finger: false, ..h }, seq![Effect::ClearQueue])
            } else {
                (h, Seq::empty())
            },
        },
    }
}

/// Reports the contact of one frame; `quarter` is the side of a held arrow key.
pub fn touch(p: &Pad, h: &mut Hands, quarter: Option<i32>, out: &mut Vec<Effect>)
    requires
        hands_ok(*old(h)),
        quarter is Some ==> 0 <= quarter->0 <= 3,
    ensures
        hands_ok(*final(h)),
        *final(h) == contact(*p, *old(h), quarter).0,
        final(out)@ == old(out)@ + contact(*p, *old(h), quarter).1,
{
    match h.scripted {
        Some((b, left)) => {
            out.push(Effect::ClearQueue);
            out.push(Effect::Queue { byte: b });
            h.finger = true;
            h.scripted = if left > 1 {
                Some((b, left - 1))
            } else {
                None
            };
        },
        None => match quarter {
            Some(q) => {
                out.push(Effect::ClearQueue);
                out.push(Effect::Queue { byte: side(p.top, q) });
                h.finger = true;
            },
            None => if h.finger {
                h.finger = false;
                out.push(Effect::ClearQueue);
            },
        },
    }
    assert(out@ =~= old(out)@ + contact(*p, *old(h), quarter).1);
}

/// The side that a held arrow key touches, of up, right, down and left in this order; none when
/// the arrows turn the wheel.
pub fn held_side(p: &Pad, up: bool, right: bool, down: bool, left: bool) -> (r: Option<i32>)
    ensures
        r == (if p.rotate {
            None
        } else if up {
            Some(QUARTER_TOP)
        } else if right {
            Some(QUARTER_RIGHT)
        } else if down {
            Some(QUARTER_BOTTOM)
        } else if left {
            Some(QUARTER_LEFT)
        } else {
            None
        }),
{
    if p.rotate {
        None
    } else if up {
        Some(QUARTER_TOP)
    } else if right {
        Some(QUARTER_RIGHT)
    } else if down {
        Some(QUARTER_BOTTOM)
    } else if left {
        Some(QUARTER_LEFT)
    } else {
        None
    }
}

/// The end of a frame's input. After a tap nothing is queued for a few frames, so that the finger
/// is seen to lift; a resting finger was queued already; otherwise a wheel that is turned keeps
/// one sample in flight.
pub open spec fn refilled(p: Pad, h: Hands, queue_empty: bool) -> (Hands, Seq<Effect>) {
    if h.tap_release > 0 {
        (Hands { tap_release: (h.tap_release - 1) as u32, ..h }, Seq::empty())
    } else if !h.finger && queue_empty && p.rotate {
        (h, seq![Effect::Queue { byte: position_byte(h.raw as int) }])
    } else {
        (h, Seq::empty())
    }
}

/// Ends a frame's input.
pub fn refill(p: &Pad, h: &mut Hands, queue_empty: bool, out: &mut Vec<Effect>)
    requires
        hands_ok(*old(h)),
    ensures
        hands_ok(*final(h)),
        *final(h) == refilled(*p, *old(h), queue_empty).0,
        final(out)@ == old(out)@ + refilled(*p, *old(h), queue_empty).1,
{
    if h.tap_release > 0 {
        h.tap_release = h.tap_release - 1;
    } else if !h.finger && queue_empty && p.rotate {
        out.push(Effect::Queue { byte: wheel_byte(h.raw) });
    }
    assert(out@ =~= old(out)@ + refilled(*p, *old(h), queue_empty).1);
}

// ---------------------------------------------------------------- laws

/// One frame with the bit set is one press: what comes up in the next frame is exactly what went
/// down, and afterwards nothing is held.
pub proof fn law_a_press_lasts_one_frame(p: Pad, h: Hands, bit: u32, w: u32)
    requires
        h.held == 0,
        bit != 0,
    ensures
        ({
            let down = pressed(p, h, bit).0;
            let up = retired(p, down);
            &&& down.held == bit
            &&& up.0.held == 0
            &&& p.flags is Some ==> up.1[0] == (Effect::ClearBits { addr: p.flags->0, bits: bit })
            &&& p.flags is Some ==> word_after(
                up.1[0],
                p.flags->0,
                word_after(Effect::SetBits { addr: p.flags->0, bits: bit }, p.flags->0, w),
            ) == w & !bit
        }),
{
    assert(0u32 | bit == bit) by (bit_vector);
    assert((w | bit) & !bit == w & !bit) by (bit_vector);
}

/// A posted event is withdrawn: after two frames without a press the list is emptied, exactly
/// once, and stays so.
pub proof fn law_an_event_is_withdrawn(p: Pad, h: Hands, bit: u32)
    requires
        p.events,
    ensures
        ({
            let one = aged(p, pressed(p, h, bit).0);
            let two = aged(p, one.0);
            let three = aged(p, two.0);
            &&& one.1.len() == 0
            &&& two.1 == seq![Effect::Poke32 { addr: wrap(p.ctx + 0x30), word: 0 }]
            &&& three == (two.0, Seq::<Effect>::empty())
        }),
{
}

/// The release that is posted for a single button names the button that was pressed.
pub proof fn law_release_matches_press(p: Pad, h: Hands, bit: u32)
    requires
        p.events,
        p.flags is None,
        h.held == 0,
        bit != 0,
    ensures
        pressed(p, h, bit).1 == post_effects(
            p.ctx,
            p.node,
            node_type(bit),
            1,
            0,
            position_byte(h.raw as int),
        ),
        retired(p, pressed(p, h, bit).0).1 == post_effects(
            p.ctx,
            p.node,
            node_type(bit),
            2,
            0,
            position_byte(h.raw as int),
        ),
{
    assert(0u32 | bit == bit) by (bit_vector);
    let e = post_effects(p.ctx, p.node, node_type(bit), 1, 0, position_byte(h.raw as int));
    assert(e + Seq::<Effect>::empty() =~= e);
    let r = post_effects(p.ctx, p.node, node_type(bit), 2, 0, position_byte(h.raw as int));
    assert(Seq::<Effect>::empty() + r =~= r);
}

/// A title whose flags word is not known gets nothing written but the event node and its list.
pub proof fn law_nothing_is_written_on_a_guess(p: Pad, h: Hands, bit: u32, k: int)
    requires
        p.flags is None,
        0 <= k < pressed(p, h, bit).1.len(),
    ensures
        match pressed(p, h, bit).1[k] {
            Effect::SetBits { .. } => false,
            Effect::ClearBits { .. } => false,
            Effect::CopyWord { .. } => false,
            Effect::Poke8 { addr, .. } => addr == p.node || addr == wrap(p.node + 1),
            Effect::Poke32 { addr, .. } => addr == wrap(p.node + 4) || addr == wrap(p.node + 8)
                || addr == wrap(p.ctx + 0x30),
            _ => true,
        },
{
    let e = post_effects(p.ctx, p.node, node_type(bit), 1, 0, position_byte(h.raw as int));
    if p.events {
        assert(pressed(p, h, bit).1 =~= e);
    } else {
        assert(pressed(p, h, bit).1 =~= seq![Effect::Queue { byte: position_byte(h.raw as int) }]);
    }
}

/// A finger that comes off leaves nothing queued, and a tap is not refilled until it has lifted.
pub proof fn law_a_finger_lifts(p: Pad, h: Hands, queue_empty: bool)
    ensures
        h.finger && h.scripted is None ==> !contact(p, h, None).0.finger && contact(p, h, None).1
            == seq![Effect::ClearQueue],
        h.tap_release > 0 ==> refilled(p, h, queue_empty).1.len() == 0,
{
}

// ---------------------------------------------------------------- what the machine sees

/// The words of the machine after one effect. Words that are copied are followed too; single bytes
/// are not words.
pub open spec fn words_after(m: spec_fn(u32) -> u32, e: Effect) -> spec_fn(u32) -> u32 {
    match e {
        Effect::SetBits { addr, bits } => |a: u32|
            if a == addr {
                m(a) | bits
            } else {
                m(a)
            },
        Effect::ClearBits { addr, bits } => |a: u32|
            if a == addr {
                m(a) & !bits
            } else {
                m(a)
            },
        Effect::CopyWord { from, to } => |a: u32|
            if a == to {
                m(from)
            } else {
                m(a)
            },
        Effect::Poke32 { addr, word } => |a: u32|
            if a == addr {
                word
            } else {
                m(a)
            },
        _ => m,
    }
}

/// The words of the machine after all effects, in order.
pub open spec fn words_in_the_end(m: spec_fn(u32) -> u32, e: Seq<Effect>) -> spec_fn(u32) -> u32
    decreases e.len(),
{
    if e.len() == 0 {
        m
    } else {
        words_after(words_in_the_end(m, e.drop_last()), e.last())
    }
}

/// The byte at an address after all effects, for an address where only bytes are written.
pub open spec fn byte_in_the_end(b: u8, addr: u32, e: Seq<Effect>) -> u8
    decreases e.len(),
{
    if e.len() == 0 {
        b
    } else {
        match e.last() {
            Effect::Poke8 { addr: a, byte } => if a == addr {
                byte
            } else {
                byte_in_the_end(b, addr, e.drop_last())
            },
            _ => byte_in_the_end(b, addr, e.drop_last()),
        }
    }
}

/// The wheel samples that wait after all effects.
pub open spec fn samples_in_the_end(q: Seq<u8>, e: Seq<Effect>) -> Seq<u8>
    decreases e.len(),
{
    if e.len() == 0 {
        q
    } else {
        match e.last() {
            Effect::Queue { byte } => samples_in_the_end(q, e.drop_last()).push(byte),
            Effect::ClearQueue => Seq::empty(),
            _ => samples_in_the_end(q, e.drop_last()),
        }
    }
}

/// One more effect comes after those before it.
proof fn lemma_one_more(m: spec_fn(u32) -> u32, q: Seq<u8>, e: Seq<Effect>, x: Effect)
    ensures
        words_in_the_end(m, e.push(x)) == words_after(words_in_the_end(m, e), x),
        samples_in_the_end(q, e.push(x)) == (match x {
            Effect::Queue { byte } => samples_in_the_end(q, e).push(byte),
            Effect::ClearQueue => Seq::empty(),
            _ => samples_in_the_end(q, e),
        }),
        forall|b: u8, a: u32|
            #![trigger byte_in_the_end(b, a, e.push(x))]
            byte_in_the_end(b, a, e.push(x)) == (match x {
                Effect::Poke8 { addr, byte } => if a == addr {
                    byte
                } else {
                    byte_in_the_end(b, a, e)
                },
                _ => byte_in_the_end(b, a, e),
            }),
{
    assert(e.push(x).drop_last() =~= e);
}

proof fn lemma_effects_in_turn(m: spec_fn(u32) -> u32, q: Seq<u8>, e: Seq<Effect>, f: Seq<Effect>)
    ensures
        words_in_the_end(m, e + f) == words_in_the_end(words_in_the_end(m, e), f),
        samples_in_the_end(q, e + f) == samples_in_the_end(samples_in_the_end(q, e), f),
    decreases f.len(),
{
    if f.len() == 0 {
        assert(e + f =~= e);
    } else {
        lemma_effects_in_turn(m, q, e, f.drop_last());
        assert((e + f).drop_last() =~= e + f.drop_last());
        assert((e + f).last() == f.last());
    }
}

/// Neither a word of the hold timers is the flags word.
pub open spec fn timers_apart(t: HoldTimers, flags: u32) -> bool {
    t.at is Some ==> t.at->0 != flags && wrap(t.at->0 + 4) != flags
}

/// With a known flags word a press of any button sets its bit there and leaves the other bits as
/// they were; a press of Menu leaves the clock in the first hold timer and one of Next in the
/// second; no other word changes; and one wheel sample is queued behind those that wait.
pub proof fn law_a_press_sets_its_bit(
    m: spec_fn(u32) -> u32,
    q: Seq<u8>,
    flags: u32,
    bit: u32,
    wheel: u8,
    t: HoldTimers,
)
    requires
        timers_apart(t, flags),
        t.clock_at != flags,
    ensures
        ({
            let e = press_effects(Some(flags), bit, wheel, t);
            let after = words_in_the_end(m, e);
            &&& after(flags) == m(flags) | bit
            &&& t.at is Some && bit == 0x10 ==> after(t.at->0) == m(t.clock_at)
            &&& t.at is Some && bit == 0x08 ==> after(wrap(t.at->0 + 4)) == m(t.clock_at)
            &&& forall|a: u32|
                a != flags && !(t.at == Some(a) && bit == 0x10) && !(t.at is Some && a == wrap(
                    t.at->0 + 4,
                ) && bit == 0x08) ==> #[trigger] after(a) == m(a)
            &&& samples_in_the_end(q, e) == q.push(wheel)
        }),
{
    let none = Seq::<Effect>::empty();
    let one = Effect::SetBits { addr: flags, bits: bit };
    let last = Effect::Queue { byte: wheel };
    lemma_one_more(m, q, none, one);
    let e = press_effects(Some(flags), bit, wheel, t);
    let s = stamp_effects(t, bit);
    if s.len() == 0 {
        assert(e =~= none.push(one).push(last));
        lemma_one_more(m, q, none.push(one), last);
    } else {
        assert(e =~= none.push(one).push(s[0]).push(last));
        lemma_one_more(m, q, none.push(one), s[0]);
        lemma_one_more(m, q, none.push(one).push(s[0]), last);
    }
    assert(words_in_the_end(m, none) == m);
    assert(samples_in_the_end(q, none) == q);
}

/// The flags word after a press, followed word by word through its effects, is what it was with
/// the button's bit set, for every button.
#[verifier::rlimit(60)]
pub proof fn law_a_press_is_in_the_flags_word(
    flags: u32,
    bit: u32,
    wheel: u8,
    t: HoldTimers,
    w: u32,
)
    ensures
        press_effects(Some(flags), bit, wheel, t).fold_left(
            w,
            |v: u32, e: Effect| word_after(e, flags, v),
        ) == w | bit,
{
    let f = |v: u32, e: Effect| word_after(e, flags, v);
    let e = press_effects(Some(flags), bit, wheel, t);
    reveal_with_fuel(Seq::fold_left, 4);
    let s = stamp_effects(t, bit);
    assert(e.drop_last() =~= seq![Effect::SetBits { addr: flags, bits: bit }] + s);
    if s.len() == 0 {
        assert(e.drop_last() =~= seq![Effect::SetBits { addr: flags, bits: bit }]);
        assert(e.drop_last().drop_last() =~= Seq::empty());
    } else {
        assert(e.drop_last().drop_last() =~= seq![Effect::SetBits { addr: flags, bits: bit }]);
        assert(e.drop_last().drop_last().drop_last() =~= Seq::empty());
    }
}

/// Without a known flags word a press changes no word at all; it only queues its sample.
pub proof fn law_a_press_without_flags_writes_nothing(
    m: spec_fn(u32) -> u32,
    q: Seq<u8>,
    bit: u32,
    wheel: u8,
    t: HoldTimers,
)
    ensures
        words_in_the_end(m, press_effects(None, bit, wheel, t)) == m,
        samples_in_the_end(q, press_effects(None, bit, wheel, t)) == q.push(wheel),
{
    let none = Seq::<Effect>::empty();
    lemma_one_more(m, q, none, Effect::Queue { byte: wheel });
    assert(press_effects(None, bit, wheel, t) =~= none.push(Effect::Queue { byte: wheel }));
}

/// None of the five places that an event writes is another's.
pub open spec fn event_places_apart(ctx: u32, node: u32) -> bool {
    wrap(node + 4) != wrap(ctx + 0x30) && wrap(node + 8) != wrap(ctx + 0x30)
}

/// A posted event can be read: the list begins with its node; the node holds its type, its state
/// and its payload, and no next node; no other word changes; and one wheel sample is queued.
#[verifier::rlimit(60)]
pub proof fn law_an_event_can_be_read(
    m: spec_fn(u32) -> u32,
    q: Seq<u8>,
    ctx: u32,
    node: u32,
    ty: u8,
    state: u8,
    payload: u32,
    wheel: u8,
    was: u8,
)
    requires
        event_places_apart(ctx, node),
    ensures
        ({
            let e = post_effects(ctx, node, ty, state, payload, wheel);
            let after = words_in_the_end(m, e);
            &&& after(wrap(ctx + 0x30)) == node
            &&& byte_in_the_end(was, node, e) == ty
            &&& byte_in_the_end(was, wrap(node + 1), e) == state
            &&& after(wrap(node + 4)) == payload
            &&& after(wrap(node + 8)) == 0
            &&& forall|a: u32|
                a != wrap(ctx + 0x30) && a != wrap(node + 4) && a != wrap(node + 8)
                    ==> #[trigger] after(a) == m(a)
            &&& samples_in_the_end(q, e) == q.push(wheel)
        }),
{
    let e = post_effects(ctx, node, ty, state, payload, wheel);
    let e0 = Seq::<Effect>::empty();
    let e1 = e0.push(e[0]);
    let e2 = e1.push(e[1]);
    let e3 = e2.push(e[2]);
    let e4 = e3.push(e[3]);
    let e5 = e4.push(e[4]);
    let e6 = e5.push(e[5]);
    assert(e6 =~= e);
    lemma_one_more(m, q, e0, e[0]);
    lemma_one_more(m, q, e1, e[1]);
    lemma_one_more(m, q, e2, e[2]);
    lemma_one_more(m, q, e3, e[3]);
    lemma_one_more(m, q, e4, e[4]);
    lemma_one_more(m, q, e5, e[5]);
    assert(wrap(node + 1) != node);
    assert(wrap(node + 4) != wrap(node + 8));
    assert(words_in_the_end(m, e0) == m);
    assert(samples_in_the_end(q, e0) == q);
    assert(byte_in_the_end(was, node, e1) == ty);
    assert(byte_in_the_end(was, node, e2) == ty);
    assert(byte_in_the_end(was, node, e3) == ty);
    assert(byte_in_the_end(was, node, e4) == ty);
    assert(byte_in_the_end(was, node, e5) == ty);
    assert(byte_in_the_end(was, wrap(node + 1), e2) == state);
    assert(byte_in_the_end(was, wrap(node + 1), e3) == state);
    assert(byte_in_the_end(was, wrap(node + 1), e4) == state);
    assert(byte_in_the_end(was, wrap(node + 1), e5) == state);
}

/// A button that goes down is held from then on, is in the flags word where there is one, and
/// moves neither the wheel nor the finger; where buttons are events, its event heads the list and
/// is to be withdrawn two frames on.
#[verifier::rlimit(60)]
pub proof fn law_a_button_goes_down(m: spec_fn(u32) -> u32, p: Pad, h: Hands, bit: u32)
    requires
        event_places_apart(p.ctx, p.node),
        p.flags is Some ==> timers_apart(p.timers, p.flags->0) && p.timers.clock_at != p.flags->0
            && p.flags->0 != wrap(p.ctx + 0x30) && p.flags->0 != wrap(p.node + 4) && p.flags->0
            != wrap(p.node + 8),
        p.timers.at is Some ==> p.timers.at->0 != wrap(p.ctx + 0x30) && wrap(p.timers.at->0 + 4)
            != wrap(p.ctx + 0x30),
    ensures
        ({
            let (after, e) = pressed(p, h, bit);
            let w = words_in_the_end(m, e);
            &&& after.held == h.held | bit
            &&& after.raw == h.raw && after.finger == h.finger && after.scripted == h.scripted
                && after.tap_release == h.tap_release
            &&& after.event_hold == (if p.events {
                2
            } else {
                h.event_hold
            })
            &&& p.flags is Some ==> w(p.flags->0) == m(p.flags->0) | bit
            &&& p.events ==> w(wrap(p.ctx + 0x30)) == p.node
            &&& !p.events && p.flags is None ==> w == m
            &&& samples_in_the_end(Seq::empty(), e).len() > 0
            &&& samples_in_the_end(Seq::empty(), e).last() == position_byte(h.raw as int)
        }),
{
    let wheel = position_byte(h.raw as int);
    let none = Seq::<Effect>::empty();
    let a = if p.events {
        post_effects(p.ctx, p.node, node_type(bit), 1, 0, wheel)
    } else {
        none
    };
    let b = if p.flags is Some || !p.events {
        press_effects(p.flags, bit, wheel, p.timers)
    } else {
        none
    };
    assert(pressed(p, h, bit).1 =~= a + b);
    let q = Seq::<u8>::empty();
    lemma_effects_in_turn(m, q, a, b);
    let mid = words_in_the_end(m, a);
    let q1 = samples_in_the_end(q, a);
    if p.events {
        law_an_event_can_be_read(m, q, p.ctx, p.node, node_type(bit), 1, 0, wheel, 0);
    } else {
        assert(words_in_the_end(m, none) == m);
        assert(samples_in_the_end(q, none) == q);
    }
    match p.flags {
        Some(f) => {
            law_a_press_sets_its_bit(mid, q1, f, bit, wheel, p.timers);
            assert(mid(f) == m(f));
            assert(words_in_the_end(mid, b)(wrap(p.ctx + 0x30)) == mid(wrap(p.ctx + 0x30)));
        },
        None => {
            law_a_press_without_flags_writes_nothing(mid, q1, bit, wheel, p.timers);
            if p.events {
                assert(words_in_the_end(mid, none) == mid);
                assert(samples_in_the_end(q1, none) == q1);
            }
        },
    }
}

/// The buttons that went down come up: none is held any more, their bits are gone from the flags
/// word and all other bits are as they were, and where no button was held nothing happens.
#[verifier::rlimit(60)]
pub proof fn law_held_buttons_come_up(m: spec_fn(u32) -> u32, p: Pad, h: Hands)
    requires
        event_places_apart(p.ctx, p.node),
        p.flags is Some ==> p.flags->0 != wrap(p.ctx + 0x30) && p.flags->0 != wrap(p.node + 4)
            && p.flags->0 != wrap(p.node + 8),
    ensures
        ({
            let (after, e) = retired(p, h);
            let w = words_in_the_end(m, e);
            &&& after.held == 0
            &&& after.raw == h.raw && after.finger == h.finger && after.scripted == h.scripted
                && after.tap_release == h.tap_release
            &&& h.held == 0 ==> e.len() == 0 && after == h
            &&& p.flags is Some ==> w(p.flags->0) == m(p.flags->0) & !h.held
            &&& p.events && h.held != 0 ==> w(wrap(p.ctx + 0x30)) == p.node && after.event_hold
                == 2
            &&& !p.events ==> after.event_hold == h.event_hold
            &&& !p.events ==> forall|a: u32| p.flags != Some(a) ==> #[trigger] w(a) == m(a)
        }),
{
    let none = Seq::<Effect>::empty();
    let q = Seq::<u8>::empty();
    assert(words_in_the_end(m, none) == m);
    if h.held == 0 {
        let w = m(p.flags->0);
        assert(w & !0u32 == w) by (bit_vector);
    } else {
        let a = match p.flags {
            Some(addr) => none.push(Effect::ClearBits { addr, bits: h.held }),
            None => none,
        };
        let wheel = position_byte(h.raw as int);
        let b = if p.events {
            post_effects(p.ctx, p.node, node_type(h.held), 2, 0, wheel)
        } else {
            none
        };
        assert(retired(p, h).1 =~= a + b);
        lemma_effects_in_turn(m, q, a, b);
        if p.flags is Some {
            lemma_one_more(m, q, none, Effect::ClearBits { addr: p.flags->0, bits: h.held });
        }
        let mid = words_in_the_end(m, a);
        if p.events {
            law_an_event_can_be_read(mid, q, p.ctx, p.node, node_type(h.held), 2, 0, wheel, 0);
            if p.flags is Some {
                assert(words_in_the_end(mid, b)(p.flags->0) == mid(p.flags->0));
            }
        } else {
            assert(words_in_the_end(mid, none) == mid);
        }
    }
}

/// One detent onward lowers the reported byte by two or three, three detents by eight, and the last
/// position reports nought.
#[verifier::rlimit(60)]
pub proof fn law_three_detents_are_eight(raw: int)
    requires
        on_wheel(raw),
    ensures
        position_byte(119) == 0,
        raw + 1 < 120 ==> ((position_byte(raw) - position_byte(raw + 1)) % 256 == 2 || (
        position_byte(raw) - position_byte(raw + 1)) % 256 == 3),
        raw + 3 < 120 ==> (position_byte(raw) - position_byte(raw + 3)) % 256 == 8,
{
    let x = (119 - raw) * 8 / 3;
    let y = (119 - (raw + 1)) * 8 / 3;
    let z = (119 - (raw + 3)) * 8 / 3;
    assert(x - y == 2 || x - y == 3);
    assert(x - z == 8);
    if raw + 1 < 120 {
        lemma_bytes_apart(x, y);
    }
    if raw + 3 < 120 {
        lemma_bytes_apart(x, z);
    }
}

proof fn lemma_bytes_apart(x: int, y: int)
    requires
        0 <= y <= x,
        x - y < 256,
    ensures
        ((x % 256) as u8 - (y % 256) as u8) % 256 == x - y,
{
    let a = x % 256;
    let b = y % 256;
    assert(a - b == x - y || a - b == x - y - 256);
}

/// A turn reports every detent: as many samples as detents, the k-th that of the position k
/// detents on, the last that of the position where the wheel comes to rest.
pub proof fn law_a_turn_reports_every_detent(raw: int, n: int, sign: int, k: int)
    requires
        n >= 0,
        0 <= k < n,
    ensures
        turn_effects(raw, n, sign).len() == n,
        turn_effects(raw, n, sign)[k] == (Effect::Queue {
            byte: position_byte((raw + sign * (k + 1)) % 120),
        }),
    decreases n,
{
    lemma_turn_len(raw, n - 1, sign);
    if k < n - 1 {
        law_a_turn_reports_every_detent(raw, n - 1, sign, k);
    }
}

proof fn lemma_turn_len(raw: int, n: int, sign: int)
    requires
        n >= 0,
    ensures
        turn_effects(raw, n, sign).len() == n,
    decreases n,
{
    if n > 0 {
        lemma_turn_len(raw, n - 1, sign);
    }
}

/// The hands after a number of frames in which no key is held.
pub open spec fn untouched(p: Pad, h: Hands, frames: nat) -> Hands
    decreases frames,
{
    if frames == 0 {
        h
    } else {
        contact(p, untouched(p, h, (frames - 1) as nat), None).0
    }
}

/// A scripted finger rests for as many frames as were asked for, reports its byte and no other in
/// each of them, and lifts in the frame after the last.
#[verifier::rlimit(60)]
pub proof fn law_a_scripted_finger_rests_its_time(p: Pad, h: Hands, b: u8, n: u32, k: nat, q: Seq<u8>)
    requires
        n >= 1,
        k < n,
        h.scripted == Some((b, n)),
    ensures
        ({
            let e = contact(p, untouched(p, h, k), None).1;
            samples_in_the_end(q, e) == seq![b]
        }),
        untouched(p, h, k + 1).finger,
        untouched(p, h, k + 1).scripted == (if k + 1 < n {
            Some((b, (n - k - 1) as u32))
        } else {
            None
        }),
        k + 1 == n ==> ({
            let (after, e) = contact(p, untouched(p, h, n as nat), None);
            !after.finger && samples_in_the_end(q, e) == Seq::<u8>::empty()
        }),
    decreases k,
{
    if k > 0 {
        law_a_scripted_finger_rests_its_time(p, h, b, n, (k - 1) as nat, q);
    }
    let now = untouched(p, h, k);
    assert(now.scripted == Some((b, (n - k) as u32)));
    assert(untouched(p, h, k + 1) == contact(p, now, None).0);
    let m = |a: u32| 0u32;
    let none = Seq::<Effect>::empty();
    lemma_one_more(m, q, none, Effect::ClearQueue);
    lemma_one_more(m, q, none.push(Effect::ClearQueue), Effect::Queue { byte: b });
    assert(contact(p, now, None).1 =~= none.push(Effect::ClearQueue).push(
        Effect::Queue { byte: b },
    ));
    assert(Seq::<u8>::empty().push(b) =~= seq![b]);
    if k + 1 == n {
        assert(contact(p, untouched(p, h, n as nat), None).1 =~= none.push(Effect::ClearQueue));
    }
}

/// A key that is held puts the finger on its side, and that side's byte is then the only sample.
pub proof fn law_a_held_key_is_the_only_sample(p: Pad, h: Hands, quarter: i32, q: Seq<u8>)
    requires
        h.scripted is None,
    ensures
        contact(p, h, Some(quarter)).0 == (Hands { finger: true, ..h }),
        samples_in_the_end(q, contact(p, h, Some(quarter)).1) == seq![
            ((p.top + 64 * quarter) % 256) as u8,
        ],
{
    let m = |a: u32| 0u32;
    let none = Seq::<Effect>::empty();
    let b = side_byte(p.top, quarter as int);
    lemma_one_more(m, q, none, Effect::ClearQueue);
    lemma_one_more(m, q, none.push(Effect::ClearQueue), Effect::Queue { byte: b });
    assert(contact(p, h, Some(quarter)).1 =~= none.push(Effect::ClearQueue).push(
        Effect::Queue { byte: b },
    ));
    assert(Seq::<u8>::empty().push(b) =~= seq![b]);
}

/// The hands after a number of frames' ends.
pub open spec fn ended(p: Pad, h: Hands, frames: nat) -> Hands
    decreases frames,
{
    if frames == 0 {
        h
    } else {
        refilled(p, ended(p, h, (frames - 1) as nat), true).0
    }
}

/// A tap is seen to lift: for as many frames as its release takes nothing is queued, and in the
/// first frame after them a wheel that is turned, with no finger on it, reports where it stands.
pub proof fn law_a_tap_lifts_for_its_time(p: Pad, h: Hands, k: nat)
    requires
        k <= h.tap_release,
    ensures
        ended(p, h, k) == (Hands { tap_release: (h.tap_release - k) as u32, ..h }),
        k < h.tap_release ==> refilled(p, ended(p, h, k), true).1.len() == 0,
        k == h.tap_release && p.rotate && !h.finger ==> refilled(p, ended(p, h, k), true).1 == seq![
            Effect::Queue { byte: position_byte(h.raw as int) },
        ],
    decreases k,
{
    if k > 0 {
        law_a_tap_lifts_for_its_time(p, h, (k - 1) as nat);
    }
}

/// The type of an event by the bit of its button; every bit that is no other button has the first.
pub proof fn law_types_by_button(bit: u32)
    ensures
        node_type(0x01) == 2,
        node_type(0x02) == 3,
        node_type(0x04) == 4,
        node_type(0x08) == 5,
        bit != 0x01 && bit != 0x02 && bit != 0x04 && bit != 0x08 ==> node_type(bit) == 1,
        1 <= node_type(bit) <= 5,
{
}

/// An event ages by a frame at a time, and the list is emptied just when its time is over; hands
/// that hold no event do nothing.
pub proof fn law_an_event_ages(m: spec_fn(u32) -> u32, p: Pad, h: Hands)
    ensures
        ({
            let (after, e) = aged(p, h);
            let w = words_in_the_end(m, e);
            &&& h.event_hold == 0 ==> after == h && w == m
            &&& h.event_hold > 0 ==> after == (Hands { event_hold: (h.event_hold - 1) as u32, ..h })
            &&& h.event_hold == 1 ==> w(wrap(p.ctx + 0x30)) == 0
            &&& h.event_hold != 1 ==> w == m
            &&& forall|a: u32| a != wrap(p.ctx + 0x30) ==> #[trigger] w(a) == m(a)
        }),
{
    let none = Seq::<Effect>::empty();
    assert(words_in_the_end(m, none) == m);
    if h.event_hold == 1 {
        let x = Effect::Poke32 { addr: wrap(p.ctx + 0x30), word: 0 };
        lemma_one_more(m, Seq::empty(), none, x);
        assert(aged(p, h).1 =~= none.push(x));
    }
}

/// A quit is an event like a press: it heads the list, with the first type and the state of a
/// press, and is to be withdrawn two frames on.
pub proof fn law_a_quit_is_an_event(m: spec_fn(u32) -> u32, p: Pad, h: Hands, was: u8)
    requires
        event_places_apart(p.ctx, p.node),
    ensures
        ({
            let (after, e) = quitting(p, h);
            let w = words_in_the_end(m, e);
            &&& after == (Hands { event_hold: 2, ..h })
            &&& w(wrap(p.ctx + 0x30)) == p.node
            &&& byte_in_the_end(was, p.node, e) == 1
            &&& byte_in_the_end(was, wrap(p.node + 1), e) == 1
            &&& w(wrap(p.node + 4)) == 0
            &&& w(wrap(p.node + 8)) == 0
        }),
{
    law_an_event_can_be_read(
        m,
        Seq::empty(),
        p.ctx,
        p.node,
        1,
        1,
        0,
        position_byte(h.raw as int),
        was,
    );
}

/// Where buttons are events, a press posts the type of its button in the state of a press, and the
/// release of a button that was held alone posts the same type in the state of a release.
#[verifier::rlimit(60)]
pub proof fn law_press_and_release_are_posted(p: Pad, h: Hands, bit: u32, was: u8)
    requires
        p.events,
        p.flags is None,
    ensures
        ({
            let e = pressed(p, h, bit).1;
            byte_in_the_end(was, p.node, e) == node_type(bit) && byte_in_the_end(
                was,
                wrap(p.node + 1),
                e,
            ) == 1
        }),
        h.held != 0 ==> ({
            let e = retired(p, h).1;
            byte_in_the_end(was, p.node, e) == node_type(h.held) && byte_in_the_end(
                was,
                wrap(p.node + 1),
                e,
            ) == 2
        }),
{
    let wheel = position_byte(h.raw as int);
    let none = Seq::<Effect>::empty();
    let a = post_effects(p.ctx, p.node, node_type(bit), 1, 0, wheel);
    assert(pressed(p, h, bit).1 =~= a + none);
    assert(a + none =~= a);
    lemma_posted(p.ctx, p.node, node_type(bit), 1, wheel, was);
    if h.held != 0 {
        let b = post_effects(p.ctx, p.node, node_type(h.held), 2, 0, wheel);
        assert(retired(p, h).1 =~= none + b);
        assert(none + b =~= b);
        lemma_posted(p.ctx, p.node, node_type(h.held), 2, wheel, was);
    }
}

#[verifier::rlimit(60)]
proof fn lemma_posted(ctx: u32, node: u32, ty: u8, state: u8, wheel: u8, was: u8)
    ensures
        ({
            let e = post_effects(ctx, node, ty, state, 0, wheel);
            byte_in_the_end(was, node, e) == ty && byte_in_the_end(was, wrap(node + 1), e) == state
        }),
{
    let e = post_effects(ctx, node, ty, state, 0, wheel);
    let e0 = Seq::<Effect>::empty();
    let e1 = e0.push(e[0]);
    let e2 = e1.push(e[1]);
    let e3 = e2.push(e[2]);
    let e4 = e3.push(e[3]);
    let e5 = e4.push(e[4]);
    let e6 = e5.push(e[5]);
    assert(e6 =~= e);
    let m = |a: u32| 0u32;
    let q = Seq::<u8>::empty();
    lemma_one_more(m, q, e0, e[0]);
    lemma_one_more(m, q, e1, e[1]);
    lemma_one_more(m, q, e2, e[2]);
    lemma_one_more(m, q, e3, e[3]);
    lemma_one_more(m, q, e4, e[4]);
    lemma_one_more(m, q, e5, e[5]);
    assert(wrap(node + 1) != node);
    assert(byte_in_the_end(was, node, e1) == ty);
    assert(byte_in_the_end(was, node, e2) == ty);
    assert(byte_in_the_end(was, node, e3) == ty);
    assert(byte_in_the_end(was, node, e4) == ty);
    assert(byte_in_the_end(was, node, e5) == ty);
    assert(byte_in_the_end(was, wrap(node + 1), e2) == state);
    assert(byte_in_the_end(was, wrap(node + 1), e3) == state);
    assert(byte_in_the_end(was, wrap(node + 1), e4) == state);
    assert(byte_in_the_end(was, wrap(node + 1), e5) == state);
}

/// At the end of a frame without a tap one sample is added just where the wheel is turned by the
/// keys, no finger rests on it and none waits; it is that of the position, and the hands stay as
/// they are.
pub proof fn law_one_sample_stays_in_flight(p: Pad, h: Hands, waiting: Seq<u8>)
    requires
        h.tap_release == 0,
    ensures
        ({
            let (after, e) = refilled(p, h, waiting.len() == 0);
            &&& after == h
            &&& samples_in_the_end(waiting, e) == (if p.rotate && !h.finger && waiting.len() == 0 {
                seq![position_byte(h.raw as int)]
            } else {
                waiting
            })
        }),
{
    let e = refilled(p, h, waiting.len() == 0).1;
    if p.rotate && !h.finger && waiting.len() == 0 {
        let none = Seq::<Effect>::empty();
        let x = Effect::Queue { byte: position_byte(h.raw as int) };
        lemma_one_more(|a: u32| 0u32, waiting, none, x);
        assert(e =~= none.push(x));
        assert(waiting.push(position_byte(h.raw as int)) =~= seq![position_byte(h.raw as int)]);
    }
}

} // verus!
