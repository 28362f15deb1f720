//! Whether a page is moving, and which picture of it is the newest.
//!
//! A moving page is cast as frames that are quick and not quite right. Once it
//! has stopped, and the person has, it gets one still that is exact. A still
//! makes the page paint once of itself, so one frame in its window is the still
//! photographing itself, and two are the page moving.
use vstd::prelude::*;

use crate::double::{lemma_two_to_grows, two_to, Double};

verus! {

/// How long a page has to be still before it gets its still, in nanoseconds.
pub const REST: u64 = 300_000_000;

/// How long the person has to have done nothing to it, in nanoseconds.
pub const INPUT_QUIET: u64 = 400_000_000;

/// How many frames a still makes of itself.
pub const SHUTTER_FRAMES: u32 = 1;

/// Whether the page in front is moving, and what its screen holds.
#[derive(Debug, Clone, Copy, PartialEq, Eq)]
pub struct Motion {
    /// When the page last moved.
    pub moved: u64,
    /// When the person last did something to it.
    pub touched: u64,
    /// When what is on the screen was painted, on the engine's clock.
    pub shown: Option<u64>,
    /// How many frames have come since a still was asked for, while one is out.
    pub window: Option<u32>,
    /// Whether the page has had its still, or cannot have one.
    pub rested: bool,
}

/// A time is at least so long ago.
pub open spec fn since(now: u64, then: u64, long: u64) -> bool {
    now >= then && now - then >= long
}

/// A time in seconds, on the engine's clock, in nanoseconds: what is finer is
/// cut off. A time before the clock began, or past the last there is, is none.
pub open spec fn stamp_of(seconds: Double) -> Option<u64> {
    let all = seconds.mantissa as nat * 1_000_000_000;
    let whole = if seconds.exponent >= 0 {
        all * two_to(seconds.exponent as nat)
    } else {
        all / two_to((-seconds.exponent) as nat)
    };
    if (seconds.negative && seconds.mantissa > 0) || whole > u64::MAX {
        None
    } else {
        Some(whole as u64)
    }
}

/// A time in seconds, on the engine's clock, in nanoseconds.
pub fn stamp(seconds: Double) -> (r: Option<u64>)
    ensures
        r == stamp_of(seconds),
{
    if seconds.negative && seconds.mantissa > 0 {
        return None;
    }
    let all: u128 = seconds.mantissa as u128 * 1_000_000_000;
    let mut n: u128 = all;
    let mut i: i32 = 0;
    proof {
        assert(two_to(0) == 1);
        assert(all * 1 == all) by (nonlinear_arith);
        vstd::arithmetic::div_mod::lemma_div_basics(all as int);
    }
    while i < seconds.exponent as i32
        invariant
            0 <= i,
            i <= seconds.exponent || i == 0,
            all == seconds.mantissa * 1_000_000_000,
            !(seconds.negative && seconds.mantissa > 0),
            i > 0 ==> seconds.exponent >= 0,
            n == all * two_to(i as nat),
            n as int == all as int / 1 || i > 0,
        decreases seconds.exponent - i,
    {
        if n > u64::MAX as u128 {
            proof {
                lemma_two_to_grows(i as nat, seconds.exponent as nat);
                assert(all * two_to(i as nat) <= all * two_to(seconds.exponent as nat)) by (
                    nonlinear_arith)
                    requires
                        two_to(i as nat) <= two_to(seconds.exponent as nat),
                ;
            }
            return None;
        }
        proof {
            assert(all * (2 * two_to(i as nat)) == 2 * (all * two_to(i as nat))) by (
                nonlinear_arith);
            assert(two_to((i + 1) as nat) == 2 * two_to(i as nat));
        }
        n = n * 2;
        i += 1;
    }
    let mut k: i32 = 0;
    let ghost full = n;
    proof {
        if seconds.exponent < 0 {
            assert(full == all);
        }
        assert(two_to(0) == 1);
        vstd::arithmetic::div_mod::lemma_div_basics(full as int);
    }
    while k < -(seconds.exponent as i32)
        invariant
            0 <= k,
            k <= -(seconds.exponent as int) || k == 0,
            n as int == full as int / (two_to(k as nat) as int),
            two_to(k as nat) > 0,
        decreases -(seconds.exponent as int) - k,
    {
        proof {
            vstd::arithmetic::div_mod::lemma_div_denominator(
                full as int,
                two_to(k as nat) as int,
                2,
            );
            assert(two_to((k + 1) as nat) == two_to(k as nat) * 2);
        }
        n = n / 2;
        k += 1;
    }
    if n > u64::MAX as u128 {
        None
    } else {
        Some(n as u64)
    }
}

impl Motion {
    /// A page that has just come to the front.
    pub open spec fn fresh(now: u64, touched: u64) -> Motion {
        Motion { moved: now, touched, shown: None, window: None, rested: false }
    }

    /// A frame that was painted at `stamp`: what there is after it. In a still's
    /// window the first frame is the still's own.
    pub open spec fn framed(self, stamp: Option<u64>, now: u64) -> Motion {
        let count = match self.window {
            Some(n) => if n < u32::MAX {
                Some((n + 1) as u32)
            } else {
                Some(n)
            },
            None => None,
        };
        let moves = match count {
            Some(n) => n > SHUTTER_FRAMES,
            None => true,
        };
        Motion {
            window: count,
            shown: if self.loses(stamp) {
                self.shown
            } else {
                stamp
            },
            moved: if moves {
                now
            } else {
                self.moved
            },
            rested: self.rested && !moves,
            ..self
        }
    }

    /// A frame painted at `stamp` is older than what is on the screen.
    pub open spec fn loses(self, stamp: Option<u64>) -> bool {
        match (stamp, self.shown) {
            (Some(stamp), Some(shown)) => stamp < shown,
            _ => false,
        }
    }

    /// Whether a still that comes now is still of the page: one was asked for,
    /// and no frame but the engine's own has come since.
    pub open spec fn holds(self) -> bool {
        match self.window {
            Some(n) => n <= SHUTTER_FRAMES,
            None => false,
        }
    }

    /// The page has earned a still.
    pub open spec fn earned(self, now: u64) -> bool {
        &&& !self.rested
        &&& self.window is None
        &&& since(now, self.moved, REST)
        &&& since(now, self.touched, INPUT_QUIET)
    }

    /// Nothing is known of the page.
    pub fn new(now: u64) -> (r: Motion)
        ensures
            r == Motion::fresh(now, now),
    {
        Motion { moved: now, touched: now, shown: None, window: None, rested: false }
    }

    /// Another page is in front, or the page is another size.
    pub fn reset(&mut self, now: u64)
        ensures
            *final(self) == Motion::fresh(now, old(self).touched),
    {
        self.moved = now;
        self.shown = None;
        self.window = None;
        self.rested = false;
    }

    /// The person did something to the page.
    pub fn input(&mut self, now: u64)
        ensures
            *final(self) == (Motion { touched: now, ..*old(self) }),
    {
        self.touched = now;
    }

    /// A frame has come: whether it is worth painting.
    pub fn motion_frame(&mut self, stamp: Option<u64>, now: u64) -> (r: bool)
        ensures
            *final(self) == old(self).framed(stamp, now),
            r == !old(self).loses(stamp),
    {
        let loses = match (stamp, self.shown) {
            (Some(stamp), Some(shown)) => stamp < shown,
            _ => false,
        };
        let moves = match self.window {
            Some(n) => {
                let count: u32 = if n < u32::MAX {
                    n + 1
                } else {
                    n
                };
                self.window = Some(count);
                count > SHUTTER_FRAMES
            },
            None => true,
        };
        if !loses {
            self.shown = stamp;
        }
        if moves {
            self.moved = now;
            self.rested = false;
        }
        !loses
    }

    /// Whether the page has earned a still.
    pub fn wants_still(&self, now: u64) -> (r: bool)
        ensures
            r == self.earned(now),
    {
        !self.rested && self.window.is_none() && now >= self.moved && now - self.moved >= REST
            && now >= self.touched && now - self.touched >= INPUT_QUIET
    }

    /// A still has been asked for.
    pub fn still_requested(&mut self)
        ensures
            *final(self) == (Motion { window: Some(0), ..*old(self) }),
    {
        self.window = Some(0);
    }

    /// The still has come: whether the page held still for it.
    pub fn still_arrived(&mut self, stamp: u64) -> (r: bool)
        ensures
            r == old(self).holds(),
            r == (old(self).window matches Some(n) && n <= SHUTTER_FRAMES),
            *final(self) == (if r {
                Motion { window: None, shown: Some(stamp), rested: true, ..*old(self) }
            } else {
                Motion { window: None, ..*old(self) }
            }),
    {
        let held = match self.window {
            Some(n) => n <= SHUTTER_FRAMES,
            None => false,
        };
        self.window = None;
        if held {
            self.shown = Some(stamp);
            self.rested = true;
        }
        held
    }

    /// The still is not coming, or is no picture: the page is not asked again
    /// until it moves.
    pub fn still_failed(&mut self)
        ensures
            *final(self) == (Motion { window: None, rested: true, ..*old(self) }),
    {
        self.window = None;
        self.rested = true;
    }
}

// ---- laws ----

/// A page that stays still is photographed once.
pub proof fn law_a_still_page_is_photographed_once(m: Motion, later: u64)
    requires
        m.rested,
    ensures
        !m.earned(later),
{
}

/// The frame a still makes of itself does not make the page one that moves.
pub proof fn law_a_still_does_not_disturb_itself(m: Motion, stamp: Option<u64>, now: u64)
    requires
        m.window == Some(0u32),
    ensures
        m.framed(stamp, now).moved == m.moved,
        m.framed(stamp, now).window == Some(1u32),
{
}

/// What is on the screen never goes back in time.
pub proof fn law_an_older_frame_is_not_painted(m: Motion, shown: u64, stamp: u64, now: u64)
    requires
        m.shown == Some(shown),
        stamp < shown,
    ensures
        m.loses(Some(stamp)),
        m.framed(Some(stamp), now).shown == m.shown,
{
}

/// A still is earned by a page that has been quiet for three tenths of a second
/// under hands that have been quiet for four, once, and not while one is coming.
pub proof fn law_a_still_is_earned_by_quiet(m: Motion, now: u64)
    ensures
        m.earned(now) <==> !m.rested && m.window is None && now - m.moved >= 300_000_000 && now
            - m.touched >= 400_000_000,
{
}

/// A frame is motion, which puts the still off, unless it is the one that the
/// still itself brings about; a still that two frames overtook is of another
/// moment.
pub proof fn law_the_second_frame_spoils_the_still(m: Motion, stamp: Option<u64>, now: u64)
    ensures
        m.window is None ==> {
            &&& m.framed(stamp, now).moved == now
            &&& !m.framed(stamp, now).rested
            &&& m.framed(stamp, now).window is None
            &&& now < u64::MAX - 300_000_000 ==> !m.framed(stamp, now).earned(
                (now + 299_999_999) as u64,
            )
        },
        m.window == Some(0u32) ==> {
            &&& m.holds()
            &&& m.framed(stamp, now).holds()
            &&& m.framed(stamp, now).rested == m.rested
            &&& forall|later: u64, after: Option<u64>|
                !(#[trigger] m.framed(stamp, now).framed(after, later)).holds() && m.framed(
                    stamp,
                    now,
                ).framed(after, later).moved == later
        },
        m.framed(stamp, now).touched == m.touched,
        (m.shown is None || stamp is None || m.shown->0 <= stamp->0) ==> m.framed(stamp, now).shown
            == stamp,
        !m.holds() <== m.window is None,
{
}

/// A stamp in seconds is a whole number of nanoseconds, the last one not after
/// it, and there is none before the clock's start or past its end.
pub proof fn law_a_stamp_is_in_nanoseconds(seconds: Double)
    ensures
        ({
            let all = seconds.mantissa as nat * 1_000_000_000;
            match stamp_of(seconds) {
                Some(n) => if seconds.exponent >= 0 {
                    n == all * two_to(seconds.exponent as nat)
                } else {
                    let unit = two_to((-seconds.exponent) as nat);
                    n * unit <= all < (n + 1) * unit
                },
                None => (seconds.negative && seconds.mantissa > 0) || (if seconds.exponent >= 0 {
                    all * two_to(seconds.exponent as nat) > u64::MAX
                } else {
                    all >= (u64::MAX + 1) * two_to((-seconds.exponent) as nat)
                }),
            }
        }),
        seconds.negative && seconds.mantissa > 0 ==> stamp_of(seconds) is None,
{
    let all = seconds.mantissa as nat * 1_000_000_000;
    if seconds.exponent < 0 {
        let k = (-seconds.exponent) as nat;
        let unit = two_to(k);
        lemma_two_to_is_positive(k);
        let q = all / unit;
        assert(q * unit <= all < (q + 1) * unit) by (nonlinear_arith)
            requires
                q == all / unit,
                unit > 0,
        ;
        if q > u64::MAX {
            assert(all >= (u64::MAX + 1) * unit) by (nonlinear_arith)
                requires
                    q * unit <= all,
                    q >= u64::MAX + 1,
                    unit > 0,
            ;
        }
    }
}

proof fn lemma_two_to_is_positive(n: nat)
    ensures
        two_to(n) > 0,
    decreases n,
{
    if n > 0 {
        lemma_two_to_is_positive((n - 1) as nat);
    }
}

}
